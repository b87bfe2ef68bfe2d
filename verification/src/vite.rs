//! The chunk list that a Vite bundle registers for its dynamic imports, read
//! from the source so that the chunks can be fetched ahead of time.
use vstd::prelude::*;
use crate::text::{strings_view, chars_of, copy_range, find_first, first_occ, lemma_first_occ_bounds, push_all, string_from_chars};
use crate::urls::starts_with;

verus! {

/// The index of the `]` that closes the bracket depth `d` open before `k`,
/// counting `[` and `]` only.
pub open spec fn bracket_close(s: Seq<char>, k: int, d: int) -> Option<int>
    decreases s.len() - k,
{
    if k < 0 || k >= s.len() {
        None
    } else if s[k] == '[' {
        bracket_close(s, k + 1, d + 1)
    } else if s[k] == ']' {
        if d - 1 == 0 {
            Some(k)
        } else {
            bracket_close(s, k + 1, d - 1)
        }
    } else {
        bracket_close(s, k + 1, d)
    }
}

proof fn lemma_bracket_close_bounds(s: Seq<char>, k: int, d: int)
    ensures
        bracket_close(s, k, d) matches Some(e) ==> k <= e < s.len(),
    decreases s.len() - k,
{
    if k < 0 || k >= s.len() {
    } else if s[k] == '[' {
        lemma_bracket_close_bounds(s, k + 1, d + 1);
    } else if s[k] == ']' {
        if d - 1 != 0 {
            lemma_bracket_close_bounds(s, k + 1, d - 1);
        }
    } else {
        lemma_bracket_close_bounds(s, k + 1, d);
    }
}

/// The non-empty double-quoted strings of `t` from `i` on, in order, with
/// `in_str` telling whether a string is open and `cur` holding its text so
/// far; `acc` is what was found before `i`.
pub open spec fn quoted_run(
    t: Seq<char>,
    i: int,
    in_str: bool,
    cur: Seq<char>,
    acc: Seq<Seq<char>>,
) -> Seq<Seq<char>>
    decreases t.len() - i,
{
    if i < 0 || i >= t.len() {
        acc
    } else if t[i] == '"' {
        if in_str && cur.len() > 0 {
            quoted_run(t, i + 1, !in_str, seq![], acc.push(cur))
        } else {
            quoted_run(t, i + 1, !in_str, cur, acc)
        }
    } else if in_str {
        quoted_run(t, i + 1, in_str, cur.push(t[i]), acc)
    } else {
        quoted_run(t, i + 1, in_str, cur, acc)
    }
}

/// The index of the last `/` in `s`, if any.
pub open spec fn last_slash(s: Seq<char>) -> Option<int>
    decreases s.len(),
{
    if s.len() == 0 {
        None
    } else if s.last() == '/' {
        Some(s.len() - 1)
    } else {
        last_slash(s.drop_last())
    }
}

/// The directory of the entry module: its URL up to the last `/`, or the
/// whole URL when it has none.
pub open spec fn base_dir(entry: Seq<char>) -> Seq<char> {
    match last_slash(entry) {
        Some(i) => entry.take(i),
        None => entry,
    }
}

/// The chunks written `./name` resolved against `dir` as `dir/name`; others
/// are left out.
pub open spec fn rel_urls(chunks: Seq<Seq<char>>, dir: Seq<char>) -> Seq<Seq<char>>
    decreases chunks.len(),
{
    if chunks.len() == 0 {
        seq![]
    } else {
        let rest = rel_urls(chunks.drop_last(), dir);
        let c = chunks.last();
        if starts_with(c, seq!['.', '/']) {
            rest.push(dir + seq!['/'] + c.skip(2))
        } else {
            rest
        }
    }
}

pub open spec fn deps_marker() -> Seq<char> {
    seq!['.', 'f', '=', '[']
}

/// The URLs of the chunks that the bundle lists in its `__vite__mapDeps`
/// table (`m.f=["./a.js", ...]`): the first `.f=[` array, its bracket
/// matched by depth, its double-quoted strings, those starting with `./`
/// resolved against the entry module's directory.
pub open spec fn vite_chunk_urls(code: Seq<char>, entry: Seq<char>) -> Seq<Seq<char>> {
    match first_occ(code, deps_marker(), 0) {
        None => seq![],
        Some(p) => match bracket_close(code, p + 3, 0) {
            None => seq![],
            Some(e) => rel_urls(
                quoted_run(code.subrange(p + 4, e), 0, false, seq![], seq![]),
                base_dir(entry),
            ),
        },
    }
}

fn quoted_strings(t: &[char]) -> (r: Vec<Vec<char>>)
    ensures
        r@.map_values(|x: Vec<char>| x@) == quoted_run(t@, 0, false, seq![], seq![]),
{
    let mut chunks: Vec<Vec<char>> = Vec::new();
    let mut cur: Vec<char> = Vec::new();
    let mut in_str = false;
    let mut i: usize = 0;
    assert(chunks@.map_values(|x: Vec<char>| x@) =~= Seq::<Seq<char>>::empty());
    assert(cur@ =~= Seq::<char>::empty());
    while i < t.len()
        invariant
            i <= t@.len(),
            quoted_run(t@, i as int, in_str, cur@, chunks@.map_values(|x: Vec<char>| x@))
                == quoted_run(t@, 0, false, seq![], seq![]),
        decreases t@.len() - i,
    {
        let ch = t[i];
        if ch == '"' {
            if in_str && cur.len() > 0 {
                let ghost before = chunks@.map_values(|x: Vec<char>| x@);
                chunks.push(cur);
                cur = Vec::new();
                assert(chunks@.map_values(|x: Vec<char>| x@) =~= before.push(
                    chunks@.last()@,
                ));
            }
            in_str = !in_str;
        } else if in_str {
            cur.push(ch);
        }
        i = i + 1;
    }
    assert(chunks@.map_values(|x: Vec<char>| x@) == quoted_run(t@, i as int, in_str, cur@, chunks@.map_values(|x: Vec<char>| x@)));
    chunks
}

/// The URLs of the chunks that a Vite bundle registers for its dynamic
/// imports, resolved against the entry module's URL; the caller fetches
/// them ahead of time. Empty when the bundle has no such table.
pub fn prefetch_vite_chunks(code: &str, entry_url: &str) -> (r: Vec<String>)
    ensures
        strings_view(r@) == vite_chunk_urls(code@, entry_url@),
{
    let c = chars_of(code);
    let s = c.as_slice();
    let marker: [char; 4] = ['.', 'f', '=', '['];
    assert(marker@ =~= deps_marker());
    let p = match find_first(s, marker.as_slice(), 0) {
        Some(p) => p,
        None => {
            return Vec::new();
        },
    };
    proof {
        lemma_first_occ_bounds(s@, deps_marker(), 0);
        assert(s@[p + 3] == s@.subrange(p as int, p + 4)[3]);
    }
    assert(p + 4 <= s.len());
    let arr_start = p + 3;
    let mut depth: usize = 0;
    let mut end: Option<usize> = None;
    let mut i = arr_start;
    while i < s.len()
        invariant_except_break
            end is None,
            bracket_close(s@, i as int, depth as int) == bracket_close(s@, arr_start as int, 0),
            i > arr_start ==> depth >= 1,
        invariant
            arr_start <= i <= s@.len(),
            arr_start < s@.len(),
            s@[arr_start as int] == '[',
            i == arr_start ==> depth == 0,
            depth <= i - arr_start,
        ensures
            match end {
                Some(e) => bracket_close(s@, arr_start as int, 0) == Some(e as int),
                None => bracket_close(s@, arr_start as int, 0) is None,
            },
        decreases s@.len() - i,
    {
        let b = s[i];
        if b == '[' {
            depth = depth + 1;
        } else if b == ']' {
            depth = depth - 1;
            if depth == 0 {
                end = Some(i);
                break;
            }
        }
        i = i + 1;
    }
    let e = match end {
        Some(e) => e,
        None => {
            return Vec::new();
        },
    };
    proof {
        assert(bracket_close(s@, arr_start as int, 0) == bracket_close(s@, arr_start + 1, 1));
        lemma_bracket_close_bounds(s@, arr_start + 1, 1);
    }
    let arr = copy_range(s, arr_start + 1, e);
    let chunks = quoted_strings(arr.as_slice());
    let ent = chars_of(entry_url);
    let mut k = ent.len();
    assert(ent@.take(k as int) =~= ent@);
    while k > 0 && ent[k - 1] != '/'
        invariant
            k <= ent@.len(),
            last_slash(ent@.take(k as int)) == last_slash(ent@),
        decreases k,
    {
        assert(ent@.take(k - 1) =~= ent@.take(k as int).drop_last());
        k = k - 1;
    }
    let dir: Vec<char> = if k > 0 {
        assert(ent@.take(k as int).last() == '/');
        copy_range(ent.as_slice(), 0, k - 1)
    } else {
        assert(ent@.take(0) =~= Seq::<char>::empty());
        ent.clone()
    };
    assert(dir@ == base_dir(entry_url@));
    let mut urls: Vec<String> = Vec::new();
    let mut j: usize = 0;
    let ghost cv = chunks@.map_values(|x: Vec<char>| x@);
    while j < chunks.len()
        invariant
            j <= chunks@.len(),
            cv == chunks@.map_values(|x: Vec<char>| x@),
            strings_view(urls@) == rel_urls(cv.take(j as int), dir@),
        decreases chunks@.len() - j,
    {
        assert(cv.take(j + 1).drop_last() =~= cv.take(j as int));
        let ch = &chunks[j];
        if ch.len() >= 2 && ch[0] == '.' && ch[1] == '/' {
            let mut u: Vec<char> = dir.clone();
            u.push('/');
            let rest = copy_range(ch.as_slice(), 2, ch.len());
            push_all(&mut u, rest.as_slice());
            assert(ch@.take(2) =~= seq!['.', '/']);
            let ghost before = strings_view(urls@);
            urls.push(string_from_chars(u.as_slice()));
            assert(strings_view(urls@) =~= before.push(u@));
            assert(u@ =~= dir@ + seq!['/'] + cv[j as int].skip(2));
        } else {
            assert(!starts_with(cv[j as int], seq!['.', '/']));
        }
        j = j + 1;
    }
    assert(cv.take(chunks@.len() as int) =~= cv);
    urls
}

proof fn lemma_rel_urls_in_dir(chunks: Seq<Seq<char>>, dir: Seq<char>)
    ensures
        forall|i: int|
            0 <= i < rel_urls(chunks, dir).len() ==> #[trigger] starts_with(
                rel_urls(chunks, dir)[i],
                dir + seq!['/'],
            ),
    decreases chunks.len(),
{
    if chunks.len() > 0 {
        lemma_rel_urls_in_dir(chunks.drop_last(), dir);
        let rest = rel_urls(chunks.drop_last(), dir);
        let c = chunks.last();
        if starts_with(c, seq!['.', '/']) {
            let u = dir + seq!['/'] + c.skip(2);
            assert(u.take((dir + seq!['/']).len() as int) =~= dir + seq!['/']);
            assert forall|i: int| 0 <= i < rest.push(u).len() implies #[trigger] starts_with(
                rest.push(u)[i],
                dir + seq!['/'],
            ) by {
                if i < rest.len() {
                    assert(rest.push(u)[i] == rest[i]);
                }
            }
        }
    }
}

/// Every chunk URL lies in the entry module's directory: it starts with
/// that directory and a `/`.
pub proof fn lemma_chunks_in_entry_dir(code: Seq<char>, entry: Seq<char>)
    ensures
        forall|i: int|
            0 <= i < vite_chunk_urls(code, entry).len() ==> #[trigger] starts_with(
                vite_chunk_urls(code, entry)[i],
                base_dir(entry) + seq!['/'],
            ),
{
    match first_occ(code, deps_marker(), 0) {
        None => {},
        Some(p) => match bracket_close(code, p + 3, 0) {
            None => {},
            Some(e) => {
                lemma_rel_urls_in_dir(
                    quoted_run(code.subrange(p + 4, e), 0, false, seq![], seq![]),
                    base_dir(entry),
                );
            },
        },
    }
}

} // verus!
