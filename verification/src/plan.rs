//! The decisions of a page run that do not need the engine: which module
//! source is evaluated how, the inline-module rewrites, and the markers of
//! dynamically added scripts.
use vstd::prelude::*;
use crate::dom::{ScriptEntry, entry_view};
use crate::esm::VITE_ENV_DEFAULT_JS;
use crate::text::{chars_of, contains, contains_str, copy_range, push_all, push_dec, push_str, dec, pad0, replace_all, replace_str, string_from_chars, occurs_at_exec, trim_start};
use crate::urls::{resolve_script_url, script_url, starts_with};
use crate::policy::{should_skip_script, skipped_url};
use crate::text::{sort_dedup, strictly_sorted, strings_view};

verus! {

/// True when some script of the page is a module; the engine then gets a
/// module loader.
pub fn has_module_script(entries: &[ScriptEntry]) -> (r: bool)
    ensures
        r == exists|i: int|
            0 <= i < entries@.len() && (entry_view(entries@[i]).0 is ExternalModule
                || entry_view(entries@[i]).0 is InlineModule),
{
    let mut i: usize = 0;
    while i < entries.len()
        invariant
            i <= entries@.len(),
            forall|k: int|
                0 <= k < i ==> !(entry_view(entries@[k]).0 is ExternalModule || entry_view(
                    entries@[k],
                ).0 is InlineModule),
        decreases entries@.len() - i,
    {
        match &entries[i] {
            ScriptEntry::ExternalModule(_) | ScriptEntry::InlineModule(_) => {
                return true;
            },
            _ => {},
        }
        i = i + 1;
    }
    false
}

pub open spec fn is_module_entry(e: ScriptEntry) -> bool {
    entry_view(e).0 is ExternalModule || entry_view(e).0 is InlineModule
}

/// The indices below `k` of the entries that are modules (`module`) or
/// classic scripts (`!module`), in document order.
pub open spec fn indices_where(entries: Seq<ScriptEntry>, k: int, module: bool) -> Seq<int>
    decreases k,
{
    if k <= 0 {
        seq![]
    } else {
        let rest = indices_where(entries, k - 1, module);
        if is_module_entry(entries[k - 1]) == module {
            rest.push(k - 1)
        } else {
            rest
        }
    }
}

/// The order in which a page's scripts run: the module scripts first, so
/// that the registries they set up are ready, then the classic scripts,
/// each group in document order.
pub open spec fn run_order_of(entries: Seq<ScriptEntry>) -> Seq<int> {
    indices_where(entries, entries.len() as int, true) + indices_where(
        entries,
        entries.len() as int,
        false,
    )
}

/// The indices of the page's scripts in the order they run.
pub fn run_order(entries: &[ScriptEntry]) -> (r: Vec<usize>)
    ensures
        r@.map_values(|i: usize| i as int) == run_order_of(entries@),
{
    let mut modules: Vec<usize> = Vec::new();
    let mut classic: Vec<usize> = Vec::new();
    let mut k: usize = 0;
    while k < entries.len()
        invariant
            k <= entries@.len(),
            modules@.map_values(|i: usize| i as int) == indices_where(entries@, k as int, true),
            classic@.map_values(|i: usize| i as int) == indices_where(entries@, k as int, false),
        decreases entries@.len() - k,
    {
        let ghost m0 = modules@.map_values(|i: usize| i as int);
        let ghost c0 = classic@.map_values(|i: usize| i as int);
        let module = match &entries[k] {
            ScriptEntry::ExternalModule(_) | ScriptEntry::InlineModule(_) => true,
            _ => false,
        };
        assert(module == is_module_entry(entries@[k as int]));
        if module {
            modules.push(k);
            assert(modules@.map_values(|i: usize| i as int) =~= m0.push(k as int));
        } else {
            classic.push(k);
            assert(classic@.map_values(|i: usize| i as int) =~= c0.push(k as int));
        }
        k = k + 1;
    }
    let ghost m1 = modules@.map_values(|i: usize| i as int);
    let ghost c1 = classic@.map_values(|i: usize| i as int);
    let mut i: usize = 0;
    while i < classic.len()
        invariant
            i <= classic@.len(),
            c1 == classic@.map_values(|x: usize| x as int),
            modules@.map_values(|x: usize| x as int) == m1 + c1.take(i as int),
        decreases classic@.len() - i,
    {
        let ghost before = modules@.map_values(|x: usize| x as int);
        modules.push(classic[i]);
        assert(modules@.map_values(|x: usize| x as int) =~= before.push(c1[i as int]));
        assert(c1.take(i + 1) =~= c1.take(i as int).push(c1[i as int]));
        i = i + 1;
    }
    assert(c1.take(classic@.len() as int) =~= c1);
    modules
}

proof fn lemma_indices_where(entries: Seq<ScriptEntry>, k: int, module: bool)
    requires
        0 <= k <= entries.len(),
    ensures
        indices_where(entries, k, module).no_duplicates(),
        forall|x: int|
            indices_where(entries, k, module).contains(x) <==> (0 <= x < k && is_module_entry(
                entries[x],
            ) == module),
        forall|j: int|
            0 <= j < indices_where(entries, k, module).len() ==> 0 <= #[trigger] indices_where(
                entries,
                k,
                module,
            )[j] < k,
    decreases k,
{
    if k > 0 {
        lemma_indices_where(entries, k - 1, module);
        let rest = indices_where(entries, k - 1, module);
        if is_module_entry(entries[k - 1]) == module {
            let r = rest.push(k - 1);
            assert forall|x: int| r.contains(x) <==> (0 <= x < k && is_module_entry(entries[x]) == module) by {
                if r.contains(x) {
                    let j = choose|j: int| 0 <= j < r.len() && r[j] == x;
                    if j < rest.len() {
                        assert(rest.contains(x));
                    }
                }
                if 0 <= x < k && is_module_entry(entries[x]) == module {
                    if x < k - 1 {
                        assert(rest.contains(x));
                        let j = choose|j: int| 0 <= j < rest.len() && rest[j] == x;
                        assert(r[j] == x);
                    } else {
                        assert(r[rest.len() as int] == x);
                    }
                }
            }
            assert forall|a: int, b: int| 0 <= a < b < r.len() implies r[a] != r[b] by {
                if b == rest.len() {
                    assert(0 <= rest[a] < k - 1);
                }
            }
        }
    }
}

/// Every script of the page runs exactly once: the run order lists each
/// index of the page's scripts once and nothing else.
pub proof fn lemma_run_order_runs_each_once(entries: Seq<ScriptEntry>)
    ensures
        run_order_of(entries).no_duplicates(),
        run_order_of(entries).len() == entries.len(),
        forall|x: int| #[trigger] run_order_of(entries).contains(x) <==> 0 <= x < entries.len(),
{
    let n = entries.len() as int;
    let m = indices_where(entries, n, true);
    let c = indices_where(entries, n, false);
    lemma_indices_where(entries, n, true);
    lemma_indices_where(entries, n, false);
    let r = m + c;
    assert forall|x: int| r.contains(x) <==> 0 <= x < n by {
        if r.contains(x) {
            let j = choose|j: int| 0 <= j < r.len() && r[j] == x;
            if j < m.len() {
                assert(m.contains(x));
            } else {
                assert(c[j - m.len()] == x);
                assert(c.contains(x));
            }
        }
        if 0 <= x < n {
            if is_module_entry(entries[x]) {
                assert(m.contains(x));
                let j = choose|j: int| 0 <= j < m.len() && m[j] == x;
                assert(r[j] == x);
            } else {
                assert(c.contains(x));
                let j = choose|j: int| 0 <= j < c.len() && c[j] == x;
                assert(r[m.len() + j] == x);
            }
        }
    }
    assert forall|a: int, b: int| 0 <= a < b < r.len() implies r[a] != r[b] by {
        if a < m.len() && b >= m.len() {
            assert(m.contains(r[a]));
            assert(c.contains(r[b]));
        } else if a >= m.len() {
            assert(r[a] == c[a - m.len()] && r[b] == c[b - m.len()]);
        }
    }
    r.unique_seq_to_set();
    assert(r.to_set() =~= Set::new(|x: int| 0 <= x < n));
    assert(Set::new(|x: int| 0 <= x < n) =~= vstd::set_lib::set_int_range(0, n));
    vstd::set_lib::lemma_int_range(0, n);
}

/// The definitions that a module evaluated with its imports needs before its
/// code: a stand-in for `import.meta.hot` and the Vite environment.
pub open spec fn vite_preamble() -> Seq<char> {
    "if(typeof __vite_hot_stub__==='undefined')var __vite_hot_stub__={accept:function(){},dispose:function(){},on:function(){},decline:function(){},invalidate:function(){},data:{}};\nif(typeof __vite_env__==='undefined')var __vite_env__="@
        + VITE_ENV_DEFAULT_JS@ + ";\n"@
}

/// A module source prepared for evaluation with its imports: the preamble,
/// then the source with `import.meta.env` and `import.meta.hot` replaced by
/// the preamble's variables.
pub open spec fn vite_module(raw: Seq<char>) -> Seq<char> {
    vite_preamble() + replace_all(
        replace_all(raw, "import.meta.env"@, "__vite_env__"@),
        "import.meta.hot"@,
        "__vite_hot_stub__"@,
    )
}

/// Prepares a module source for evaluation with its imports.
pub fn vite_module_source(raw: &str) -> (r: String)
    ensures
        r@ == vite_module(raw@),
{
    proof {
        reveal_strlit("import.meta.env");
        reveal_strlit("import.meta.hot");
    }
    let mut out: Vec<char> = Vec::new();
    push_str(
        &mut out,
        "if(typeof __vite_hot_stub__==='undefined')var __vite_hot_stub__={accept:function(){},dispose:function(){},on:function(){},decline:function(){},invalidate:function(){},data:{}};\nif(typeof __vite_env__==='undefined')var __vite_env__=",
    );
    push_str(&mut out, VITE_ENV_DEFAULT_JS);
    push_str(&mut out, ";\n");
    let c = chars_of(raw);
    let r1 = chars_of("__vite_env__");
    let a = replace_str(c.as_slice(), "import.meta.env", r1.as_slice());
    let r2 = chars_of("__vite_hot_stub__");
    let b = replace_str(a.as_slice(), "import.meta.hot", r2.as_slice());
    push_all(&mut out, b.as_slice());
    string_from_chars(out.as_slice())
}

/// An inline module is first tried as a module with imports when it
/// mentions `import ` or `import{`.
pub fn inline_module_imports(code: &str) -> (r: bool)
    ensures
        r == (contains(code@, "import "@) || contains(code@, "import{"@)),
{
    let c = chars_of(code);
    contains_str(c.as_slice(), "import ") || contains_str(c.as_slice(), "import{")
}

/// The URL under which an inline module is evaluated: the page URL (or
/// `about:blank`) with `?inline=` and the count of scripts run so far.
pub fn inline_module_url(base_url: Option<&str>, executed: u64) -> (r: String)
    ensures
        r@ == match base_url {
            Some(b) => b@,
            None => "about:blank"@,
        } + "?inline="@ + dec(executed as nat),
{
    let mut out: Vec<char> = Vec::new();
    match base_url {
        Some(b) => push_str(&mut out, b),
        None => push_str(&mut out, "about:blank"),
    }
    push_str(&mut out, "?inline=");
    push_dec(&mut out, executed, 0);
    assert(pad0(dec(executed as nat), 0) == dec(executed as nat));
    string_from_chars(out.as_slice())
}

/// An inline module with a static `import {`, `import *` or `import{`.
pub fn inline_module_has_static_import(code: &str) -> (r: bool)
    ensures
        r == (contains(code@, "import {"@) || contains(code@, "import *"@) || contains(
            code@,
            "import{"@,
        )),
{
    let c = chars_of(code);
    contains_str(c.as_slice(), "import {") || contains_str(c.as_slice(), "import *")
        || contains_str(c.as_slice(), "import{")
}

/// The lines of `s` from index `p` on, as `str::lines` splits them: at each
/// line feed, with one carriage return right before it dropped; the text
/// after the last line feed, if any, is the last line.
pub open spec fn lines_from(s: Seq<char>, p: int) -> Seq<Seq<char>>
    decreases s.len() - p,
{
    if p < 0 || p >= s.len() {
        seq![]
    } else {
        match crate::text::first_occ(s, seq!['\n'], p) {
            Some(i) => {
                proof {
                    crate::text::lemma_first_occ_bounds(s, seq!['\n'], p);
                }
                seq![drop_cr(s.subrange(p, i))] + lines_from(s, i + 1)
            },
            None => seq![s.skip(p)],
        }
    }
}

pub open spec fn lines(s: Seq<char>) -> Seq<Seq<char>> {
    lines_from(s, 0)
}

/// `s` without one final carriage return.
pub open spec fn drop_cr(s: Seq<char>) -> Seq<char> {
    if s.len() > 0 && s.last() == '\r' {
        s.drop_last()
    } else {
        s
    }
}

pub open spec fn vecs_view(v: Seq<Vec<char>>) -> Seq<Seq<char>> {
    v.map_values(|x: Vec<char>| x@)
}

/// Splits `s` into its lines.
pub fn split_lines(s: &[char]) -> (r: Vec<Vec<char>>)
    ensures
        vecs_view(r@) == lines(s@),
{
    let nl: [char; 1] = ['\n'];
    assert(nl@ =~= seq!['\n']);
    let mut out: Vec<Vec<char>> = Vec::new();
    let mut p: usize = 0;
    assert(vecs_view(out@) =~= Seq::<Seq<char>>::empty());
    while p < s.len()
        invariant
            p <= s@.len(),
            nl@ == seq!['\n'],
            vecs_view(out@) + lines_from(s@, p as int) == lines(s@),
        decreases s@.len() - p,
    {
        let ghost before = vecs_view(out@);
        match crate::text::find_first(s, nl.as_slice(), p) {
            Some(i) => {
                proof {
                    crate::text::lemma_first_occ_bounds(s@, seq!['\n'], p as int);
                }
                let mut e = i;
                if e > p && s[e - 1] == '\r' {
                    e = e - 1;
                }
                let line = copy_range(s, p, e);
                assert(line@ == drop_cr(s@.subrange(p as int, i as int)));
                out.push(line);
                assert(vecs_view(out@) =~= before.push(line@));
                p = i + 1;
            },
            None => {
                let line = copy_range(s, p, s.len());
                out.push(line);
                assert(vecs_view(out@) =~= before.push(line@));
                assert(lines_from(s@, p as int) == seq![s@.skip(p as int)]);
                assert(s@.skip(p as int) =~= line@);
                p = s.len();
                assert(vecs_view(out@) + lines_from(s@, p as int) =~= vecs_view(out@));
            },
        }
    }
    assert(vecs_view(out@) + lines_from(s@, p as int) =~= vecs_view(out@));
    out
}

/// Lines joined with line feeds between them.
pub open spec fn join_lines(ls: Seq<Seq<char>>) -> Seq<char>
    decreases ls.len(),
{
    if ls.len() == 0 {
        seq![]
    } else if ls.len() == 1 {
        ls[0]
    } else {
        join_lines(ls.drop_last()) + seq!['\n'] + ls.last()
    }
}

/// A line of an inline module that stays when its static imports are
/// removed: one that does not start (past whitespace) with `import {` or
/// `import{` and does not mention `injectIntoGlobalHook`.
pub open spec fn keeps_line(l: Seq<char>) -> bool {
    let t = trim_start(l);
    !starts_with(t, "import {"@) && !starts_with(t, "import{"@) && !contains(
        t,
        "injectIntoGlobalHook"@,
    )
}

/// The kept lines of `ls`, in order.
pub open spec fn kept_lines(ls: Seq<Seq<char>>) -> Seq<Seq<char>>
    decreases ls.len(),
{
    if ls.len() == 0 {
        seq![]
    } else if keeps_line(ls.last()) {
        kept_lines(ls.drop_last()).push(ls.last())
    } else {
        kept_lines(ls.drop_last())
    }
}

/// An inline module with static imports, run as a classic script: its lines
/// without the import lines and the refresh hook, or `None` when no line is
/// left.
pub fn clean_inline_module(code: &str) -> (r: Option<String>)
    ensures
        match r {
            Some(t) => kept_lines(lines(code@)).len() > 0 && t@ == join_lines(
                kept_lines(lines(code@)),
            ),
            None => kept_lines(lines(code@)).len() == 0,
        },
{
    let c = chars_of(code);
    let ls = split_lines(c.as_slice());
    let ghost lv = vecs_view(ls@);
    let mut out: Vec<char> = Vec::new();
    let mut count: usize = 0;
    let mut i: usize = 0;
    while i < ls.len()
        invariant
            i <= ls@.len(),
            lv == vecs_view(ls@),
            count == kept_lines(lv.take(i as int)).len(),
            count <= i,
            out@ == join_lines(kept_lines(lv.take(i as int))),
        decreases ls@.len() - i,
    {
        assert(lv.take(i + 1).drop_last() =~= lv.take(i as int));
        let l = &ls[i];
        let (a, _) = trim_bounds_start(l.as_slice());
        let t = copy_range(l.as_slice(), a, l.len());
        let keep = !starts_with_slice(t.as_slice(), "import {") && !starts_with_slice(
            t.as_slice(),
            "import{",
        ) && !contains_str(t.as_slice(), "injectIntoGlobalHook");
        assert(keep == keeps_line(lv[i as int]));
        let ghost k0 = kept_lines(lv.take(i as int));
        if keep {
            let ghost k1 = k0.push(lv[i as int]);
            assert(kept_lines(lv.take(i + 1)) == k1);
            assert(k1.drop_last() =~= k0);
            if count > 0 {
                out.push('\n');
            }
            push_all(&mut out, l.as_slice());
            count = count + 1;
            assert(out@ =~= join_lines(k1));
        }
        i = i + 1;
    }
    assert(lv.take(ls@.len() as int) =~= lv);
    if count == 0 {
        None
    } else {
        Some(string_from_chars(out.as_slice()))
    }
}

pub(crate) fn starts_with_slice(s: &[char], p: &str) -> (r: bool)
    ensures
        r == starts_with(s@, p@),
{
    let pc = chars_of(p);
    let r = occurs_at_exec(s, pc.as_slice(), 0);
    assert(r == starts_with(s@, p@)) by {
        if p@.len() <= s@.len() {
            assert(s@.subrange(0, p@.len() as int) =~= s@.take(p@.len() as int));
        }
    }
    r
}

/// The index of the first character of `s` that is not whitespace, with
/// `s[a..]` the `trim_start` of `s`.
pub(crate) fn trim_bounds_start(s: &[char]) -> (r: (usize, usize))
    ensures
        r.0 <= s@.len(),
        s@.skip(r.0 as int) == trim_start(s@),
{
    let mut a: usize = 0;
    while a < s.len() && crate::text::is_ws_char(s[a])
        invariant
            a <= s@.len(),
            forall|k: int| 0 <= k < a ==> crate::text::is_ws(#[trigger] s@[k]),
        decreases s@.len() - a,
    {
        a = a + 1;
    }
    proof {
        crate::text::lemma_trim_start_skip(s@, a as int);
        if a < s@.len() {
            assert(s@.skip(a as int)[0] == s@[a as int]);
        }
        assert(trim_start(s@.skip(a as int)) == s@.skip(a as int));
    }
    (a, s.len())
}

/// The prefix of `DYN_URL_PREFIX`: the queue entry of a dynamically added
/// script loaded from a URL is this marker followed by the raw `src`.
pub const DYN_URL_PREFIX: &'static str = "\u{1}DYNURL\u{1}";

/// The raw `src` of a queued dynamic script entry that marks a URL, or
/// `None` for an entry that holds code.
pub fn dyn_url_mark(code: &str) -> (r: Option<String>)
    ensures
        match r {
            Some(src) => starts_with(code@, DYN_URL_PREFIX@) && src@ == code@.skip(
                DYN_URL_PREFIX@.len() as int,
            ),
            None => !starts_with(code@, DYN_URL_PREFIX@),
        },
{
    let c = chars_of(code);
    let p = chars_of(DYN_URL_PREFIX);
    if occurs_at_exec(c.as_slice(), p.as_slice(), 0) {
        assert(c@.subrange(0, p@.len() as int) =~= c@.take(p@.len() as int));
        let rest = copy_range(c.as_slice(), p.len(), c.len());
        Some(string_from_chars(rest.as_slice()))
    } else {
        proof {
            if starts_with(code@, DYN_URL_PREFIX@) {
                assert(c@.subrange(0, p@.len() as int) =~= c@.take(p@.len() as int));
            }
        }
        None
    }
}

/// The URLs fetched ahead of the module pass: each module script's URL, and
/// each classic script's URL unless it is skipped, in page order.
pub open spec fn prefetch_candidates(es: Seq<ScriptEntry>, base: Option<Seq<char>>) -> Seq<Seq<char>>
    decreases es.len(),
{
    if es.len() == 0 {
        seq![]
    } else {
        let rest = prefetch_candidates(es.drop_last(), base);
        match es.last() {
            ScriptEntry::ExternalModule(src) => match script_url(src@, base) {
                Some(u) => rest.push(u),
                None => rest,
            },
            ScriptEntry::External(src) => match script_url(src@, base) {
                Some(u) => if skipped_url(u) {
                    rest
                } else {
                    rest.push(u)
                },
                None => rest,
            },
            _ => rest,
        }
    }
}

/// The URLs of the module scripts, in page order: the entries of the module
/// graph.
pub open spec fn module_entry_urls(es: Seq<ScriptEntry>, base: Option<Seq<char>>) -> Seq<Seq<char>>
    decreases es.len(),
{
    if es.len() == 0 {
        seq![]
    } else {
        let rest = module_entry_urls(es.drop_last(), base);
        match es.last() {
            ScriptEntry::ExternalModule(src) => match script_url(src@, base) {
                Some(u) => rest.push(u),
                None => rest,
            },
            _ => rest,
        }
    }
}

pub open spec fn opt_str(o: Option<&str>) -> Option<Seq<char>> {
    match o {
        Some(b) => Some(b@),
        None => None,
    }
}

/// What a page run fetches before it evaluates anything: the URLs to fetch,
/// sorted and each once, and the module entry URLs in page order.
pub fn prefetch_plan(scripts: &[ScriptEntry], base_url: Option<&str>) -> (r: (Vec<String>, Vec<String>))
    ensures
        strictly_sorted(strings_view(r.0@)),
        strings_view(r.0@).to_set() == prefetch_candidates(scripts@, opt_str(base_url)).to_set(),
        strings_view(r.1@) == module_entry_urls(scripts@, opt_str(base_url)),
{
    let ghost base = opt_str(base_url);
    let mut urls: Vec<String> = Vec::new();
    let mut modules: Vec<String> = Vec::new();
    let mut i: usize = 0;
    while i < scripts.len()
        invariant
            i <= scripts@.len(),
            base == opt_str(base_url),
            strings_view(urls@) == prefetch_candidates(scripts@.take(i as int), base),
            strings_view(modules@) == module_entry_urls(scripts@.take(i as int), base),
        decreases scripts@.len() - i,
    {
        assert(scripts@.take(i + 1).drop_last() =~= scripts@.take(i as int));
        let ghost u0 = strings_view(urls@);
        let ghost m0 = strings_view(modules@);
        match &scripts[i] {
            ScriptEntry::ExternalModule(src) => {
                match resolve_script_url(src.as_str(), base_url) {
                    Some(u) => {
                        urls.push(u.clone());
                        modules.push(u);
                        assert(strings_view(urls@) =~= u0.push(urls@.last()@));
                        assert(strings_view(modules@) =~= m0.push(modules@.last()@));
                    },
                    None => {},
                }
            },
            ScriptEntry::External(src) => {
                match resolve_script_url(src.as_str(), base_url) {
                    Some(u) => {
                        if !should_skip_script(u.as_str()) {
                            urls.push(u);
                            assert(strings_view(urls@) =~= u0.push(urls@.last()@));
                        }
                    },
                    None => {},
                }
            },
            _ => {},
        }
        i = i + 1;
    }
    assert(scripts@.take(scripts@.len() as int) =~= scripts@);
    (sort_dedup(urls), modules)
}

/// A list of URLs sorted and each once, as fetch batches take them.
pub fn unique_urls(urls: Vec<String>) -> (r: Vec<String>)
    ensures
        strictly_sorted(strings_view(r@)),
        strings_view(r@).to_set() == strings_view(urls@).to_set(),
{
    sort_dedup(urls)
}

} // verus!
