//! The breadth-first walk of a page's module graph that finds the modules
//! to fetch ahead of time: each layer is read from the sources already in
//! the script cache.
use vstd::prelude::*;
use crate::cache::ScriptCache;
use crate::esm::{from_specs, import_specs, scan_import_specifiers};
use crate::policy::{should_skip_script, skipped_url};
use crate::text::{chars_of, eq_slices, strings_view};
use crate::urls::{module_url, opt_view, resolve_module_specifier};

verus! {

/// The most modules the walk marks as seen.
pub const MAX_MODULES: usize = 256;

/// The most layers the walk reads.
pub const MAX_DEPTH: u64 = 6;

/// The walk between two layers: the modules seen so far (each once), the
/// modules of the last layer, and the number of layers read.
pub struct ModuleGraph {
    pub seen: Vec<String>,
    pub frontier: Vec<String>,
    pub depth: u64,
}

/// `s` with later repeats of an element left out.
pub open spec fn dedup(s: Seq<Seq<char>>) -> Seq<Seq<char>>
    decreases s.len(),
{
    if s.len() == 0 {
        seq![]
    } else {
        let d = dedup(s.drop_last());
        if d.contains(s.last()) {
            d
        } else {
            d.push(s.last())
        }
    }
}

/// The elements of `s` that the cache holds, in order.
pub open spec fn cached(s: Seq<Seq<char>>, cache: Map<Seq<char>, Seq<char>>) -> Seq<Seq<char>>
    decreases s.len(),
{
    if s.len() == 0 {
        seq![]
    } else if cache.contains_key(s.last()) {
        cached(s.drop_last(), cache).push(s.last())
    } else {
        cached(s.drop_last(), cache)
    }
}

/// The specifiers that a module source names, as `scan_import_specifiers`
/// gives them.
pub open spec fn specifiers(code: Seq<char>) -> Seq<Seq<char>> {
    from_specs(code, 0) + import_specs(code, 0)
}

/// Reading the specifiers `specs` of the module at `base` from index `i`:
/// each resolved module that is not skipped and not seen yet is marked seen,
/// and queued while no more than `MAX_MODULES` are seen. Gives the seen list
/// and the queue.
pub open spec fn add_specs(
    base: Seq<char>,
    specs: Seq<Seq<char>>,
    i: int,
    seen: Seq<Seq<char>>,
    next: Seq<Seq<char>>,
) -> (Seq<Seq<char>>, Seq<Seq<char>>)
    decreases specs.len() - i,
{
    if i < 0 || i >= specs.len() {
        (seen, next)
    } else {
        match module_url(base, specs[i]) {
            Some(a) => if !skipped_url(a) && !seen.contains(a) {
                let s2 = seen.push(a);
                add_specs(
                    base,
                    specs,
                    i + 1,
                    s2,
                    if s2.len() <= MAX_MODULES {
                        next.push(a)
                    } else {
                        next
                    },
                )
            } else {
                add_specs(base, specs, i + 1, seen, next)
            },
            None => add_specs(base, specs, i + 1, seen, next),
        }
    }
}

/// Reading a layer from index `j` of the frontier: the specifiers of each
/// frontier module whose source is cached, in order.
pub open spec fn layer(
    frontier: Seq<Seq<char>>,
    cache: Map<Seq<char>, Seq<char>>,
    j: int,
    seen: Seq<Seq<char>>,
    next: Seq<Seq<char>>,
) -> (Seq<Seq<char>>, Seq<Seq<char>>)
    decreases frontier.len() - j,
{
    if j < 0 || j >= frontier.len() {
        (seen, next)
    } else if cache.contains_key(frontier[j]) {
        let r = add_specs(frontier[j], specifiers(cache[frontier[j]]), 0, seen, next);
        layer(frontier, cache, j + 1, r.0, r.1)
    } else {
        layer(frontier, cache, j + 1, seen, next)
    }
}

fn contains_string(v: &Vec<String>, s: &[char]) -> (r: bool)
    ensures
        r == strings_view(v@).contains(s@),
{
    let mut i: usize = 0;
    while i < v.len()
        invariant
            i <= v@.len(),
            forall|k: int| 0 <= k < i ==> v@[k]@ != s@,
        decreases v@.len() - i,
    {
        let c = chars_of(v[i].as_str());
        if eq_slices(c.as_slice(), s) {
            assert(strings_view(v@)[i as int] == s@);
            return true;
        }
        i = i + 1;
    }
    proof {
        if strings_view(v@).contains(s@) {
            let k = choose|k: int| 0 <= k < strings_view(v@).len() && strings_view(v@)[k] == s@;
            assert(v@[k]@ == s@);
        }
    }
    false
}

/// The walk before its first layer: the entry modules seen, and those of
/// them whose source is cached as the first frontier.
pub fn module_graph_start(entry_urls: &[String], cache: &ScriptCache) -> (r: ModuleGraph)
    requires
        cache.wf(),
    ensures
        strings_view(r.seen@) == dedup(strings_view(entry_urls@)),
        strings_view(r.frontier@) == cached(strings_view(entry_urls@), cache.view()),
        r.depth == 0,
{
    let ghost ev = strings_view(entry_urls@);
    let mut seen: Vec<String> = Vec::new();
    let mut frontier: Vec<String> = Vec::new();
    let mut i: usize = 0;
    while i < entry_urls.len()
        invariant
            i <= entry_urls@.len(),
            ev == strings_view(entry_urls@),
            cache.wf(),
            strings_view(seen@) == dedup(ev.take(i as int)),
            strings_view(frontier@) == cached(ev.take(i as int), cache.view()),
        decreases entry_urls@.len() - i,
    {
        assert(ev.take(i + 1).drop_last() =~= ev.take(i as int));
        let u = &entry_urls[i];
        let uc = chars_of(u.as_str());
        let ghost s0 = strings_view(seen@);
        let ghost f0 = strings_view(frontier@);
        if !contains_string(&seen, uc.as_slice()) {
            seen.push(u.clone());
            assert(strings_view(seen@) =~= s0.push(u@));
        }
        if cache.get(u.as_str()).is_some() {
            frontier.push(u.clone());
            assert(strings_view(frontier@) =~= f0.push(u@));
        }
        i = i + 1;
    }
    assert(ev.take(entry_urls@.len() as int) =~= ev);
    ModuleGraph { seen, frontier, depth: 0 }
}

fn add_specs_exec(base: &str, specs: &Vec<String>, seen: &mut Vec<String>, next: &mut Vec<String>)
    ensures
        (strings_view(final(seen)@), strings_view(final(next)@)) == add_specs(
            base@,
            strings_view(specs@),
            0,
            strings_view(old(seen)@),
            strings_view(old(next)@),
        ),
{
    let ghost sv = strings_view(specs@);
    let ghost target = add_specs(base@, sv, 0, strings_view(seen@), strings_view(next@));
    let mut i: usize = 0;
    while i < specs.len()
        invariant
            i <= specs@.len(),
            sv == strings_view(specs@),
            add_specs(base@, sv, i as int, strings_view(seen@), strings_view(next@)) == target,
        decreases specs@.len() - i,
    {
        let ghost s0 = strings_view(seen@);
        let ghost n0 = strings_view(next@);
        match resolve_module_specifier(base, specs[i].as_str()) {
            Some(a) => {
                let ac = chars_of(a.as_str());
                if !should_skip_script(a.as_str()) && !contains_string(seen, ac.as_slice()) {
                    seen.push(a.clone());
                    assert(strings_view(seen@) =~= s0.push(a@));
                    if seen.len() <= MAX_MODULES {
                        next.push(a);
                        assert(strings_view(next@) =~= n0.push(ac@));
                    }
                }
            },
            None => {},
        }
        i = i + 1;
    }
}

/// One layer of the walk. It ends (`None`, the walk unchanged) after
/// `MAX_DEPTH` layers, with an empty frontier, or once `MAX_MODULES` are
/// seen. Otherwise the layer is read from the cached sources of the
/// frontier; the new modules become the frontier and are returned for
/// fetching, or `None` when there are none.
pub fn module_graph_step(st: &mut ModuleGraph, cache: &ScriptCache) -> (r: Option<Vec<String>>)
    requires
        cache.wf(),
    ensures
        (old(st).depth >= MAX_DEPTH || old(st).frontier@.len() == 0 || old(st).seen@.len()
            >= MAX_MODULES) ==> r is None && strings_view(final(st).seen@) == strings_view(
            old(st).seen@,
        ) && strings_view(final(st).frontier@) == strings_view(old(st).frontier@)
            && final(st).depth == old(st).depth,
        !(old(st).depth >= MAX_DEPTH || old(st).frontier@.len() == 0 || old(st).seen@.len()
            >= MAX_MODULES) ==> {
            let l = layer(
                strings_view(old(st).frontier@),
                cache.view(),
                0,
                strings_view(old(st).seen@),
                seq![],
            );
            &&& strings_view(final(st).seen@) == l.0
            &&& strings_view(final(st).frontier@) == l.1
            &&& final(st).depth == old(st).depth + 1
            &&& (l.1.len() == 0 ==> r is None)
            &&& (l.1.len() > 0 ==> (r matches Some(v) && strings_view(v@) == l.1))
        },
{
    if st.depth >= MAX_DEPTH || st.frontier.len() == 0 || st.seen.len() >= MAX_MODULES {
        return None;
    }
    let ghost fv = strings_view(st.frontier@);
    let ghost target = layer(fv, cache.view(), 0, strings_view(st.seen@), seq![]);
    let mut next: Vec<String> = Vec::new();
    let mut j: usize = 0;
    assert(strings_view(next@) =~= Seq::<Seq<char>>::empty());
    while j < st.frontier.len()
        invariant
            j <= st.frontier@.len(),
            fv == strings_view(st.frontier@),
            cache.wf(),
            st.depth < MAX_DEPTH,
            st.depth == old(st).depth,
            layer(fv, cache.view(), j as int, strings_view(st.seen@), strings_view(next@))
                == target,
        decreases st.frontier@.len() - j,
    {
        let url = st.frontier[j].clone();
        match cache.get(url.as_str()) {
            Some(code) => {
                let specs = scan_import_specifiers(code.as_str());
                add_specs_exec(url.as_str(), &specs, &mut st.seen, &mut next);
            },
            None => {},
        }
        j = j + 1;
    }
    assert(target == (strings_view(st.seen@), strings_view(next@)));
    st.depth = st.depth + 1;
    let out = copy_strings(&next);
    assert(strings_view(out@).len() == out@.len());
    st.frontier = next;
    if out.len() == 0 {
        None
    } else {
        Some(out)
    }
}

fn copy_strings(v: &Vec<String>) -> (r: Vec<String>)
    ensures
        strings_view(r@) == strings_view(v@),
{
    let mut out: Vec<String> = Vec::new();
    let mut i: usize = 0;
    while i < v.len()
        invariant
            i <= v@.len(),
            strings_view(out@) == strings_view(v@).take(i as int),
        decreases v@.len() - i,
    {
        let ghost o0 = strings_view(out@);
        out.push(v[i].clone());
        assert(strings_view(out@) =~= o0.push(v@[i as int]@));
        i = i + 1;
        assert(strings_view(v@).take(i as int) =~= strings_view(v@).take(i - 1).push(v@[i - 1]@));
    }
    assert(strings_view(v@).take(v@.len() as int) =~= strings_view(v@));
    out
}


/// What one reading step keeps, with `seen0` the seen list before the layer:
/// `seen` extends `seen0` with no repeats, and the queue holds, with no
/// repeats, only modules seen now, not seen before, and not skipped.
pub open spec fn fresh_queue(seen0: Seq<Seq<char>>, seen: Seq<Seq<char>>, next: Seq<Seq<char>>) -> bool {
    &&& seen0.len() <= seen.len()
    &&& seen.take(seen0.len() as int) == seen0
    &&& seen.no_duplicates()
    &&& next.no_duplicates()
    &&& forall|k: int|
        0 <= k < next.len() ==> seen.contains(#[trigger] next[k]) && !seen0.contains(next[k])
            && !skipped_url(next[k])
}

proof fn lemma_add_specs_fresh(
    base: Seq<char>,
    specs: Seq<Seq<char>>,
    i: int,
    seen0: Seq<Seq<char>>,
    seen: Seq<Seq<char>>,
    next: Seq<Seq<char>>,
)
    requires
        fresh_queue(seen0, seen, next),
    ensures
        fresh_queue(seen0, add_specs(base, specs, i, seen, next).0, add_specs(base, specs, i, seen, next).1),
    decreases specs.len() - i,
{
    if i < 0 || i >= specs.len() {
    } else {
        match module_url(base, specs[i]) {
            Some(a) => if !skipped_url(a) && !seen.contains(a) {
                let s2 = seen.push(a);
                let n2 = if s2.len() <= MAX_MODULES { next.push(a) } else { next };
                assert(s2.take(seen0.len() as int) =~= seen.take(seen0.len() as int));
                assert(!seen0.contains(a)) by {
                    if seen0.contains(a) {
                        let k = choose|k: int| 0 <= k < seen0.len() && seen0[k] == a;
                        assert(seen[k] == a);
                    }
                }
                assert forall|k: int| 0 <= k < n2.len() implies s2.contains(#[trigger] n2[k])
                    && !seen0.contains(n2[k]) && !skipped_url(n2[k]) by {
                    if k < next.len() {
                        assert(n2[k] == next[k]);
                        assert(seen.contains(next[k]));
                        let m = choose|m: int| 0 <= m < seen.len() && seen[m] == next[k];
                        assert(s2[m] == next[k]);
                    } else {
                        assert(s2[seen.len() as int] == a);
                    }
                }
                assert(n2.no_duplicates()) by {
                    assert forall|x: int, y: int| 0 <= x < y < n2.len() implies n2[x] != n2[y] by {
                        if y == next.len() {
                            assert(seen.contains(next[x]));
                        }
                    }
                }
                lemma_add_specs_fresh(base, specs, i + 1, seen0, s2, n2);
            } else {
                lemma_add_specs_fresh(base, specs, i + 1, seen0, seen, next);
            },
            None => lemma_add_specs_fresh(base, specs, i + 1, seen0, seen, next),
        }
    }
}

proof fn lemma_layer_fresh(
    frontier: Seq<Seq<char>>,
    cache: Map<Seq<char>, Seq<char>>,
    j: int,
    seen0: Seq<Seq<char>>,
    seen: Seq<Seq<char>>,
    next: Seq<Seq<char>>,
)
    requires
        fresh_queue(seen0, seen, next),
    ensures
        fresh_queue(seen0, layer(frontier, cache, j, seen, next).0, layer(frontier, cache, j, seen, next).1),
    decreases frontier.len() - j,
{
    if j < 0 || j >= frontier.len() {
    } else if cache.contains_key(frontier[j]) {
        let r = add_specs(frontier[j], specifiers(cache[frontier[j]]), 0, seen, next);
        lemma_add_specs_fresh(frontier[j], specifiers(cache[frontier[j]]), 0, seen0, seen, next);
        lemma_layer_fresh(frontier, cache, j + 1, seen0, r.0, r.1);
    } else {
        lemma_layer_fresh(frontier, cache, j + 1, seen0, seen, next);
    }
}

/// A layer of the walk never marks a module seen twice and queues only
/// modules it has just marked: each queued module is new to the walk, not
/// skipped, and queued once, so no module is fetched twice; the modules
/// seen before stay first in the seen list.
pub proof fn lemma_layer_queues_fresh_modules(
    frontier: Seq<Seq<char>>,
    cache: Map<Seq<char>, Seq<char>>,
    seen: Seq<Seq<char>>,
)
    requires
        seen.no_duplicates(),
    ensures
        fresh_queue(seen, layer(frontier, cache, 0, seen, seq![]).0, layer(frontier, cache, 0, seen, seq![]).1),
{
    assert(seen.take(seen.len() as int) =~= seen);
    lemma_layer_fresh(frontier, cache, 0, seen, seen, seq![]);
}

proof fn lemma_dedup_no_dup(s: Seq<Seq<char>>)
    ensures
        dedup(s).no_duplicates(),
        forall|x: Seq<char>| dedup(s).contains(x) <==> s.contains(x),
    decreases s.len(),
{
    if s.len() > 0 {
        lemma_dedup_no_dup(s.drop_last());
        let d = dedup(s.drop_last());
        assert forall|x: Seq<char>| s.contains(x) <==> s.drop_last().contains(x) || x == s.last() by {
            if s.contains(x) {
                let k = choose|k: int| 0 <= k < s.len() && s[k] == x;
                if k < s.len() - 1 {
                    assert(s.drop_last()[k] == x);
                }
            }
            if s.drop_last().contains(x) {
                let k = choose|k: int| 0 <= k < s.len() - 1 && s.drop_last()[k] == x;
                assert(s[k] == x);
            }
            if x == s.last() {
                assert(s[s.len() - 1] == x);
            }
        }
        if !d.contains(s.last()) {
            let d2 = d.push(s.last());
            assert forall|x: Seq<char>| d2.contains(x) <==> d.contains(x) || x == s.last() by {
                if d2.contains(x) {
                    let k = choose|k: int| 0 <= k < d2.len() && d2[k] == x;
                    if k < d.len() {
                        assert(d[k] == x);
                    }
                }
                if d.contains(x) {
                    let k = choose|k: int| 0 <= k < d.len() && d[k] == x;
                    assert(d2[k] == x);
                }
                if x == s.last() {
                    assert(d2[d.len() as int] == x);
                }
            }
        }
    }
}

/// The walk starts with each entry module seen exactly once, so the first
/// layer may rely on a seen list without repeats.
pub proof fn lemma_start_seen_unique(entries: Seq<Seq<char>>)
    ensures
        dedup(entries).no_duplicates(),
        forall|x: Seq<char>| #[trigger] dedup(entries).contains(x) <==> entries.contains(x),
{
    lemma_dedup_no_dup(entries);
}

} // verus!
