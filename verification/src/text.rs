//! Text over `Seq<char>`: whitespace trimming, ASCII case folding, search,
//! replacement and decimal rendering, with executable forms over slices.
use vstd::prelude::*;

verus! {

/// The `White_Space` property that `char::is_whitespace` follows.
pub open spec fn is_ws(c: char) -> bool {
    let u = c as u32;
    (9 <= u && u <= 13) || u == 32 || u == 0x85 || u == 0xa0 || u == 0x1680 || (0x2000 <= u
        && u <= 0x200a) || u == 0x2028 || u == 0x2029 || u == 0x202f || u == 0x205f || u
        == 0x3000
}

/// Whether `c` is whitespace.
pub fn is_ws_char(c: char) -> (r: bool)
    ensures
        r == is_ws(c),
{
    let u = c as u32;
    (9 <= u && u <= 13) || u == 32 || u == 0x85 || u == 0xa0 || u == 0x1680 || (0x2000 <= u
        && u <= 0x200a) || u == 0x2028 || u == 0x2029 || u == 0x202f || u == 0x205f || u
        == 0x3000
}

/// `s` without its leading whitespace.
pub open spec fn trim_start(s: Seq<char>) -> Seq<char>
    decreases s.len(),
{
    if s.len() > 0 && is_ws(s[0]) {
        trim_start(s.drop_first())
    } else {
        s
    }
}

/// `s` without its trailing whitespace.
pub open spec fn trim_end(s: Seq<char>) -> Seq<char>
    decreases s.len(),
{
    if s.len() > 0 && is_ws(s.last()) {
        trim_end(s.drop_last())
    } else {
        s
    }
}

/// `s` without leading and trailing whitespace, as `str::trim` gives it.
pub open spec fn trim(s: Seq<char>) -> Seq<char> {
    trim_end(trim_start(s))
}

pub proof fn lemma_trim_start_skip(s: Seq<char>, i: int)
    requires
        0 <= i <= s.len(),
        forall|k: int| 0 <= k < i ==> is_ws(#[trigger] s[k]),
    ensures
        trim_start(s) == trim_start(s.skip(i)),
    decreases i,
{
    if i > 0 {
        lemma_trim_start_skip(s, i - 1);
        assert(s.skip(i - 1).drop_first() =~= s.skip(i));
    } else {
        assert(s.skip(0) =~= s);
    }
}

pub proof fn lemma_trim_end_take(s: Seq<char>, j: int)
    requires
        0 <= j <= s.len(),
        forall|k: int| j <= k < s.len() ==> is_ws(#[trigger] s[k]),
    ensures
        trim_end(s) == trim_end(s.take(j)),
    decreases s.len() - j,
{
    if j < s.len() {
        lemma_trim_end_take(s, j + 1);
        assert(s.take(j + 1).drop_last() =~= s.take(j));
    } else {
        assert(s.take(j) =~= s);
    }
}

pub proof fn lemma_trim_is_subrange(s: Seq<char>, a: int, b: int)
    requires
        0 <= a <= b <= s.len(),
        forall|k: int| 0 <= k < a ==> is_ws(#[trigger] s[k]),
        a < s.len() ==> !is_ws(s[a]),
        forall|k: int| b <= k < s.len() ==> is_ws(#[trigger] s[k]),
        a < b ==> !is_ws(s[b - 1]),
        a == b ==> b == s.len(),
    ensures
        trim(s) == s.subrange(a, b),
{
    lemma_trim_start_skip(s, a);
    let t = s.skip(a);
    assert(trim_start(t) == t);
    assert forall|k: int| b - a <= k < t.len() implies is_ws(#[trigger] t[k]) by {
        assert(t[k] == s[k + a]);
    }
    lemma_trim_end_take(t, b - a);
    assert(t.take(b - a) =~= s.subrange(a, b));
}

/// Bounds `(a, b)` with `s[a..b]` the trimmed text of `s`.
pub fn trim_bounds(s: &[char]) -> (r: (usize, usize))
    ensures
        r.0 <= r.1 <= s@.len(),
        s@.subrange(r.0 as int, r.1 as int) == trim(s@),
{
    let n = s.len();
    let mut a: usize = 0;
    while a < n && is_ws_char(s[a])
        invariant
            a <= n == s@.len(),
            forall|k: int| 0 <= k < a ==> is_ws(#[trigger] s@[k]),
        decreases n - a,
    {
        a = a + 1;
    }
    let mut b: usize = n;
    while b > a && is_ws_char(s[b - 1])
        invariant
            a <= b <= n == s@.len(),
            forall|k: int| b <= k < n ==> is_ws(#[trigger] s@[k]),
        decreases b,
    {
        b = b - 1;
    }
    proof {
        lemma_trim_is_subrange(s@, a as int, b as int);
    }
    (a, b)
}

/// The characters of a string slice, in order.
pub fn chars_of(s: &str) -> (r: Vec<char>)
    ensures
        r@ == s@,
{
    let mut out: Vec<char> = Vec::new();
    for c in it: s.chars()
        invariant
            out@ == it.seq().take(it.index() as int),
            it.seq() == s@,
    {
        out.push(c);
    }
    out
}

/// Copies `s[a..b]` into a new vector.
pub fn copy_range(s: &[char], a: usize, b: usize) -> (r: Vec<char>)
    requires
        a <= b <= s@.len(),
    ensures
        r@ == s@.subrange(a as int, b as int),
{
    let mut out: Vec<char> = Vec::new();
    let mut i = a;
    while i < b
        invariant
            a <= i <= b <= s@.len(),
            out@ == s@.subrange(a as int, i as int),
        decreases b - i,
    {
        out.push(s[i]);
        i = i + 1;
    }
    out
}

/// Appends all of `s` to `out`.
pub fn push_all(out: &mut Vec<char>, s: &[char])
    ensures
        final(out)@ == old(out)@ + s@,
{
    let mut i: usize = 0;
    while i < s.len()
        invariant
            i <= s@.len(),
            out@ == old(out)@ + s@.take(i as int),
        decreases s@.len() - i,
    {
        out.push(s[i]);
        i = i + 1;
        assert(s@.take(i as int) =~= s@.take(i - 1).push(s@[i - 1]));
    }
    assert(s@.take(s@.len() as int) =~= s@);
}

/// Appends the characters of a string slice to `out`.
pub fn push_str(out: &mut Vec<char>, s: &str)
    ensures
        final(out)@ == old(out)@ + s@,
{
    let cs = chars_of(s);
    push_all(out, cs.as_slice());
}

/// The ASCII lower-case form of `c`; other characters are kept.
pub open spec fn lower(c: char) -> char {
    if 'A' <= c && c <= 'Z' {
        ((c as u8) + 32) as char
    } else {
        c
    }
}

/// The ASCII lower case of `c`.
pub fn lower_char(c: char) -> (r: char)
    ensures
        r == lower(c),
{
    if 'A' <= c && c <= 'Z' {
        (((c as u8) + 32) as u8) as char
    } else {
        c
    }
}

/// `s` with ASCII letters made lower case, as `str::to_ascii_lowercase` gives it.
pub open spec fn lower_seq(s: Seq<char>) -> Seq<char> {
    s.map_values(|c: char| lower(c))
}

/// Equality up to ASCII case, as `str::eq_ignore_ascii_case` decides it.
pub open spec fn eq_ic(a: Seq<char>, b: Seq<char>) -> bool {
    lower_seq(a) == lower_seq(b)
}

/// The ASCII lower case of each character.
pub fn lower_all(s: &[char]) -> (r: Vec<char>)
    ensures
        r@ == lower_seq(s@),
{
    let mut out: Vec<char> = Vec::new();
    let mut i: usize = 0;
    while i < s.len()
        invariant
            i <= s@.len(),
            out@ =~= lower_seq(s@.take(i as int)),
        decreases s@.len() - i,
    {
        out.push(lower_char(s[i]));
        i = i + 1;
    }
    assert(s@.take(s@.len() as int) =~= s@);
    out
}

/// Equality up to ASCII case.
pub fn eq_ic_slices(a: &[char], b: &[char]) -> (r: bool)
    ensures
        r == eq_ic(a@, b@),
{
    if a.len() != b.len() {
        proof {
            assert(lower_seq(a@).len() != lower_seq(b@).len());
        }
        return false;
    }
    let mut i: usize = 0;
    while i < a.len()
        invariant
            i <= a@.len() == b@.len(),
            forall|k: int| 0 <= k < i ==> lower(a@[k]) == lower(b@[k]),
        decreases a@.len() - i,
    {
        if lower_char(a[i]) != lower_char(b[i]) {
            proof {
                assert(lower_seq(a@)[i as int] != lower_seq(b@)[i as int]);
            }
            return false;
        }
        i = i + 1;
    }
    assert(lower_seq(a@) =~= lower_seq(b@));
    true
}

/// Equality of `s` with a string slice up to ASCII case.
pub fn eq_ic_str(s: &[char], lit: &str) -> (r: bool)
    ensures
        r == eq_ic(s@, lit@),
{
    let l = chars_of(lit);
    eq_ic_slices(s, l.as_slice())
}

/// True when `needle` occurs in `hay` starting at `i`.
pub open spec fn occurs_at(hay: Seq<char>, needle: Seq<char>, i: int) -> bool {
    0 <= i && i + needle.len() <= hay.len() && hay.subrange(i, i + needle.len()) == needle
}

/// True when `needle` occurs somewhere in `hay`.
pub open spec fn contains(hay: Seq<char>, needle: Seq<char>) -> bool {
    exists|i: int| occurs_at(hay, needle, i)
}

/// Whether `needle` occurs in `hay` at `i`.
pub fn occurs_at_exec(hay: &[char], needle: &[char], i: usize) -> (r: bool)
    ensures
        r == occurs_at(hay@, needle@, i as int),
{
    if i > hay.len() || needle.len() > hay.len() - i {
        return false;
    }
    let hl = hay.len();
    let mut k: usize = 0;
    while k < needle.len()
        invariant
            hl == hay@.len(),
            i + needle@.len() <= hay@.len(),
            k <= needle@.len(),
            forall|t: int| 0 <= t < k ==> hay@[i + t] == needle@[t],
        decreases needle@.len() - k,
    {
        if hay[i + k] != needle[k] {
            proof {
                assert(hay@.subrange(i as int, i + needle@.len())[k as int] != needle@[k as int]);
            }
            return false;
        }
        k = k + 1;
    }
    assert(hay@.subrange(i as int, i + needle@.len()) =~= needle@);
    true
}

/// Index of the first occurrence of `needle` in `hay` at or after `from`.
pub fn find_from(hay: &[char], needle: &[char], from: usize) -> (r: Option<usize>)
    ensures
        match r {
            Some(i) => from <= i && occurs_at(hay@, needle@, i as int) && forall|k: int|
                from <= k < i ==> !occurs_at(hay@, needle@, k),
            None => forall|k: int| from <= k ==> !occurs_at(hay@, needle@, k),
        },
{
    let hl = hay.len();
    let mut i = from;
    while i < hl
        invariant
            hl == hay@.len(),
            from <= i,
            forall|k: int| from <= k < i ==> !occurs_at(hay@, needle@, k),
        decreases hl - i,
    {
        if occurs_at_exec(hay, needle, i) {
            return Some(i);
        }
        i = i + 1;
    }
    if from <= hl && occurs_at_exec(hay, needle, hl) {
        return Some(hl);
    }
    None
}

/// The first position at or after `from` where `needle` occurs in `hay`.
pub open spec fn first_occ(hay: Seq<char>, needle: Seq<char>, from: int) -> Option<int>
    decreases hay.len() + 1 - from,
{
    if from < 0 || from > hay.len() {
        None
    } else if occurs_at(hay, needle, from) {
        Some(from)
    } else {
        first_occ(hay, needle, from + 1)
    }
}

pub proof fn lemma_first_occ(hay: Seq<char>, needle: Seq<char>, from: int, r: Option<int>)
    requires
        0 <= from,
        match r {
            Some(i) => from <= i && occurs_at(hay, needle, i) && forall|k: int|
                from <= k < i ==> !occurs_at(hay, needle, k),
            None => forall|k: int| from <= k ==> !occurs_at(hay, needle, k),
        },
    ensures
        first_occ(hay, needle, from) == r,
    decreases hay.len() + 1 - from,
{
    if from > hay.len() {
        if let Some(i) = r {
            assert(false);
        }
    } else if occurs_at(hay, needle, from) {
    } else {
        lemma_first_occ(hay, needle, from + 1, r);
    }
}

pub proof fn lemma_first_occ_bounds(hay: Seq<char>, needle: Seq<char>, from: int)
    ensures
        first_occ(hay, needle, from) matches Some(i) ==> from <= i && occurs_at(hay, needle, i),
    decreases hay.len() + 1 - from,
{
    if from < 0 || from > hay.len() {
    } else if occurs_at(hay, needle, from) {
    } else {
        lemma_first_occ_bounds(hay, needle, from + 1);
    }
}

/// `find_from` with its result given as `first_occ`.
pub fn find_first(hay: &[char], needle: &[char], from: usize) -> (r: Option<usize>)
    ensures
        match r {
            Some(i) => first_occ(hay@, needle@, from as int) == Some(i as int),
            None => first_occ(hay@, needle@, from as int) is None,
        },
{
    let r = find_from(hay, needle, from);
    proof {
        let g: Option<int> = match r {
            Some(i) => Some(i as int),
            None => None,
        };
        lemma_first_occ(hay@, needle@, from as int, g);
    }
    r
}

/// Whether a string slice occurs in `hay`.
pub fn contains_str(hay: &[char], lit: &str) -> (r: bool)
    ensures
        r == contains(hay@, lit@),
{
    let l = chars_of(lit);
    match find_from(hay, l.as_slice(), 0) {
        Some(_) => true,
        None => false,
    }
}

/// `s` with every non-overlapping occurrence of `pat`, taken from the left,
/// replaced by `rep`, as `str::replace` gives it.
pub open spec fn replace_all(s: Seq<char>, pat: Seq<char>, rep: Seq<char>) -> Seq<char>
    recommends
        pat.len() > 0,
    decreases s.len(),
    when pat.len() > 0
{
    if s.len() == 0 {
        s
    } else if s.len() >= pat.len() && s.take(pat.len() as int) == pat {
        rep + replace_all(s.skip(pat.len() as int), pat, rep)
    } else {
        seq![s[0]] + replace_all(s.drop_first(), pat, rep)
    }
}

/// `replace_all` over slices.
pub fn replace_all_exec(s: &[char], pat: &[char], rep: &[char]) -> (r: Vec<char>)
    requires
        pat@.len() > 0,
    ensures
        r@ == replace_all(s@, pat@, rep@),
{
    let mut out: Vec<char> = Vec::new();
    let mut i: usize = 0;
    assert(s@.skip(0) =~= s@);
    while i < s.len()
        invariant
            pat@.len() > 0,
            i <= s@.len(),
            out@ + replace_all(s@.skip(i as int), pat@, rep@) == replace_all(s@, pat@, rep@),
        decreases s@.len() - i,
    {
        let ghost t = s@.skip(i as int);
        if occurs_at_exec(s, pat, i) {
            assert(t.take(pat@.len() as int) =~= s@.subrange(i as int, i + pat@.len()));
            assert(t.skip(pat@.len() as int) =~= s@.skip(i + pat@.len()));
            push_all(&mut out, rep);
            i = i + pat.len();
            assert(out@ + replace_all(s@.skip(i as int), pat@, rep@) =~= old_out_plus(
                out@,
                rep@,
                replace_all(s@.skip(i as int), pat@, rep@),
            ));
        } else {
            proof {
                if t.len() >= pat@.len() {
                    assert(t.take(pat@.len() as int) =~= s@.subrange(i as int, i + pat@.len()));
                }
                assert(t.drop_first() =~= s@.skip(i + 1));
            }
            out.push(s[i]);
            i = i + 1;
            assert(out@ + replace_all(s@.skip(i as int), pat@, rep@) =~= out@.drop_last() + (seq![
                s@[i - 1],
            ] + replace_all(s@.skip(i as int), pat@, rep@)));
        }
    }
    assert(s@.skip(s@.len() as int) =~= Seq::<char>::empty());
    assert(out@ + Seq::<char>::empty() =~= out@);
    out
}

/// Replacing a pattern that does not occur changes nothing.
pub proof fn lemma_replace_absent(s: Seq<char>, pat: Seq<char>, rep: Seq<char>)
    requires
        pat.len() > 0,
        !contains(s, pat),
    ensures
        replace_all(s, pat, rep) == s,
    decreases s.len(),
{
    if s.len() > 0 {
        if s.len() >= pat.len() && s.take(pat.len() as int) == pat {
            assert(occurs_at(s, pat, 0));
        } else {
            let t = s.drop_first();
            assert forall|k: int| !occurs_at(t, pat, k) by {
                if occurs_at(t, pat, k) {
                    assert(s.subrange(k + 1, k + 1 + pat.len()) =~= t.subrange(k, k + pat.len()));
                    assert(occurs_at(s, pat, k + 1));
                }
            }
            lemma_replace_absent(t, pat, rep);
            assert(seq![s[0]] + t =~= s);
        }
    }
}

proof fn lemma_occurs_shift(s: Seq<char>, pat: Seq<char>, k: int)
    requires
        s.len() > 0,
        k >= 0,
    ensures
        occurs_at(s.drop_first(), pat, k) == occurs_at(s, pat, k + 1),
{
    if k + pat.len() <= s.drop_first().len() {
        assert(s.drop_first().subrange(k, k + pat.len()) =~= s.subrange(k + 1, k + 1 + pat.len()));
    }
}

/// Before the first occurrence of `pat`, replacing copies the text.
proof fn lemma_replace_prefix(s: Seq<char>, pat: Seq<char>, rep: Seq<char>, m: int)
    requires
        pat.len() > 0,
        0 <= m <= s.len(),
        forall|k: int| 0 <= k < m ==> !occurs_at(s, pat, k),
    ensures
        replace_all(s, pat, rep).len() >= m,
        replace_all(s, pat, rep).take(m) == s.take(m),
    decreases s.len(),
{
    if m > 0 {
        assert(!occurs_at(s, pat, 0));
        if s.len() >= pat.len() && s.take(pat.len() as int) == pat {
            assert(s.subrange(0, pat.len() as int) =~= s.take(pat.len() as int));
        }
        let t = s.drop_first();
        assert forall|k: int| 0 <= k < m - 1 implies !occurs_at(t, pat, k) by {
            lemma_occurs_shift(s, pat, k);
        }
        lemma_replace_prefix(t, pat, rep, m - 1);
        assert(replace_all(s, pat, rep) == seq![s[0]] + replace_all(t, pat, rep));
        assert((seq![s[0]] + replace_all(t, pat, rep)).take(m) =~= seq![s[0]] + replace_all(
            t,
            pat,
            rep,
        ).take(m - 1));
        assert(seq![s[0]] + t.take(m - 1) =~= s.take(m));
    } else {
        assert(replace_all(s, pat, rep).take(0) =~= s.take(0));
    }
}

/// At the first occurrence of `pat`, the replaced text starts with the
/// first character of `rep`.
proof fn lemma_replace_first_match(s: Seq<char>, pat: Seq<char>, rep: Seq<char>, k: int)
    requires
        pat.len() > 0,
        rep.len() > 0,
        0 <= k,
        occurs_at(s, pat, k),
        forall|j: int| 0 <= j < k ==> !occurs_at(s, pat, j),
    ensures
        replace_all(s, pat, rep).len() > k,
        replace_all(s, pat, rep)[k] == rep[0],
    decreases s.len(),
{
    if k == 0 {
        assert(s.take(pat.len() as int) =~= s.subrange(0, pat.len() as int));
    } else {
        assert(!occurs_at(s, pat, 0));
        if s.len() >= pat.len() && s.take(pat.len() as int) == pat {
            assert(s.subrange(0, pat.len() as int) =~= s.take(pat.len() as int));
        }
        let t = s.drop_first();
        lemma_occurs_shift(s, pat, k - 1);
        assert forall|j: int| 0 <= j < k - 1 implies !occurs_at(t, pat, j) by {
            lemma_occurs_shift(s, pat, j);
        }
        lemma_replace_first_match(t, pat, rep, k - 1);
    }
}

/// When `rep` does not hold `pat` and neither its first nor its last
/// character occurs in `pat`, replacing every `pat` by `rep` leaves no
/// `pat` in the text.
pub proof fn lemma_replace_removes(s: Seq<char>, pat: Seq<char>, rep: Seq<char>)
    requires
        pat.len() > 0,
        rep.len() > 0,
        !contains(rep, pat),
        !pat.contains(rep[0]),
        !pat.contains(rep.last()),
    ensures
        !contains(replace_all(s, pat, rep), pat),
    decreases s.len(),
{
    let r = replace_all(s, pat, rep);
    if s.len() == 0 {
        if contains(r, pat) {
            let x = choose|x: int| occurs_at(r, pat, x);
        }
    } else if s.len() >= pat.len() && s.take(pat.len() as int) == pat {
        let t = replace_all(s.skip(pat.len() as int), pat, rep);
        lemma_replace_removes(s.skip(pat.len() as int), pat, rep);
        assert(r == rep + t);
        assert forall|x: int| !occurs_at(r, pat, x) by {
            if occurs_at(r, pat, x) {
                if x + pat.len() <= rep.len() {
                    assert(r.subrange(x, x + pat.len()) =~= rep.subrange(x, x + pat.len()));
                    assert(occurs_at(rep, pat, x));
                } else if x >= rep.len() {
                    assert(r.subrange(x, x + pat.len()) =~= t.subrange(
                        x - rep.len(),
                        x - rep.len() + pat.len(),
                    ));
                    assert(occurs_at(t, pat, x - rep.len()));
                } else {
                    let j = rep.len() - 1 - x;
                    assert(r.subrange(x, x + pat.len())[j] == r[rep.len() - 1]);
                    assert(pat[j] == rep.last());
                }
            }
        }
    } else {
        let s1 = s.drop_first();
        let t = replace_all(s1, pat, rep);
        lemma_replace_removes(s1, pat, rep);
        assert(r == seq![s[0]] + t);
        assert forall|x: int| !occurs_at(r, pat, x) by {
            if occurs_at(r, pat, x) {
                if x >= 1 {
                    assert(r.subrange(x, x + pat.len()) =~= t.subrange(x - 1, x - 1 + pat.len()));
                    assert(occurs_at(t, pat, x - 1));
                } else {
                    let m = pat.len() - 1;
                    match first_occ(s1, pat, 0) {
                        Some(k) => {
                            lemma_first_occ_bounds(s1, pat, 0);
                            lemma_first_occ_min(s1, pat, 0);
                            if k < m {
                                lemma_replace_first_match(s1, pat, rep, k);
                                assert(r[k + 1] == rep[0]);
                                assert(r.subrange(0, pat.len() as int)[k + 1] == pat[k + 1]);
                            } else {
                                lemma_replace_prefix(s1, pat, rep, m);
                                assert(r.subrange(0, pat.len() as int) =~= seq![s[0]] + t.take(m));
                                assert(seq![s[0]] + s1.take(m) =~= s.take(pat.len() as int));
                            }
                        },
                        None => {
                            lemma_first_occ_none(s1, pat, 0);
                            lemma_replace_absent(s1, pat, rep);
                            assert(r =~= s);
                            assert(s.subrange(0, pat.len() as int) =~= s.take(pat.len() as int));
                        },
                    }
                }
            }
        }
    }
}

/// The first occurrence at or after `from` is the first one.
proof fn lemma_first_occ_min(hay: Seq<char>, needle: Seq<char>, from: int)
    ensures
        first_occ(hay, needle, from) matches Some(i) ==> forall|k: int|
            from <= k < i ==> !occurs_at(hay, needle, k),
    decreases hay.len() + 1 - from,
{
    if from < 0 || from > hay.len() {
    } else if occurs_at(hay, needle, from) {
    } else {
        lemma_first_occ_min(hay, needle, from + 1);
    }
}

/// Without a first occurrence at or after `from`, there is none.
proof fn lemma_first_occ_none(hay: Seq<char>, needle: Seq<char>, from: int)
    requires
        0 <= from,
        first_occ(hay, needle, from) is None,
    ensures
        forall|k: int| from <= k ==> !occurs_at(hay, needle, k),
    decreases hay.len() + 1 - from,
{
    if from > hay.len() {
    } else if occurs_at(hay, needle, from) {
    } else {
        lemma_first_occ_none(hay, needle, from + 1);
    }
}

/// Joining two texts without `pat` makes no `pat` when the first ends, or
/// the second starts, with a character that is not in `pat`.
pub proof fn lemma_concat_no_occ(a: Seq<char>, b: Seq<char>, pat: Seq<char>)
    requires
        pat.len() > 0,
        !contains(a, pat),
        !contains(b, pat),
        (a.len() > 0 && !pat.contains(a.last())) || (b.len() > 0 && !pat.contains(b[0])),
    ensures
        !contains(a + b, pat),
{
    let c = a + b;
    assert forall|x: int| !occurs_at(c, pat, x) by {
        if occurs_at(c, pat, x) {
            if x + pat.len() <= a.len() {
                assert(c.subrange(x, x + pat.len()) =~= a.subrange(x, x + pat.len()));
                assert(occurs_at(a, pat, x));
            } else if x >= a.len() {
                assert(c.subrange(x, x + pat.len()) =~= b.subrange(
                    x - a.len(),
                    x - a.len() + pat.len(),
                ));
                assert(occurs_at(b, pat, x - a.len()));
            } else {
                if a.len() > 0 && !pat.contains(a.last()) {
                    let j = a.len() - 1 - x;
                    assert(c.subrange(x, x + pat.len())[j] == a.last());
                } else {
                    let j = a.len() - x;
                    assert(c.subrange(x, x + pat.len())[j] == b[0]);
                }
            }
        }
    }
}

/// True when `needle` occurs in `hay`.
pub fn contains_slice(hay: &[char], needle: &[char]) -> (r: bool)
    ensures
        r == contains(hay@, needle@),
{
    match find_from(hay, needle, 0) {
        Some(_) => true,
        None => false,
    }
}

spec fn old_out_plus(o: Seq<char>, a: Seq<char>, b: Seq<char>) -> Seq<char> {
    o + b
}

/// Replaces every occurrence of the string slice `pat` in `s` by `rep`.
pub fn replace_str(s: &[char], pat: &str, rep: &[char]) -> (r: Vec<char>)
    requires
        pat@.len() > 0,
    ensures
        r@ == replace_all(s@, pat@, rep@),
{
    let p = chars_of(pat);
    replace_all_exec(s, p.as_slice(), rep)
}

/// The decimal digit for `d < 10`.
pub open spec fn digit(d: nat) -> char {
    ((48 + d) as u8) as char
}

/// The decimal numeral of `n`, without leading zeros.
pub open spec fn dec(n: nat) -> Seq<char>
    decreases n,
{
    if n < 10 {
        seq![digit(n)]
    } else {
        dec(n / 10).push(digit(n % 10))
    }
}

/// `s` left-padded with `'0'` to at least `w` characters, as `{:0w}` pads.
pub open spec fn pad0(s: Seq<char>, w: nat) -> Seq<char> {
    if s.len() >= w {
        s
    } else {
        Seq::new((w - s.len()) as nat, |i: int| '0') + s
    }
}

fn push_dec_digits(out: &mut Vec<char>, n: u64)
    ensures
        final(out)@ == old(out)@ + dec(n as nat),
    decreases n,
{
    if n >= 10 {
        push_dec_digits(out, n / 10);
    }
    let d = n % 10;
    let c = ((48 + d) as u8) as char;
    assert(c == digit(d as nat));
    out.push(c);
}

/// Appends the numeral of `n`, zero-padded to `w` characters.
pub fn push_dec(out: &mut Vec<char>, n: u64, w: usize)
    ensures
        final(out)@ == old(out)@ + pad0(dec(n as nat), w as nat),
{
    let mut digits: Vec<char> = Vec::new();
    push_dec_digits(&mut digits, n);
    assert(digits@ =~= dec(n as nat));
    let mut k = digits.len();
    let ghost start = out@;
    while k < w
        invariant
            digits@.len() <= k <= w || (k == digits@.len() && k >= w),
            out@ == start + Seq::new((k - digits@.len()) as nat, |i: int| '0'),
        decreases w - k,
    {
        out.push('0');
        k = k + 1;
        assert(out@ =~= start + Seq::new((k - digits@.len()) as nat, |i: int| '0'));
    }
    push_all(out, digits.as_slice());
    proof {
        if digits@.len() >= w {
            assert(out@ =~= start + dec(n as nat));
        } else {
            assert(out@ =~= start + pad0(dec(n as nat), w as nat));
        }
    }
}

/// Equality of two character slices.
pub fn eq_slices(a: &[char], b: &[char]) -> (r: bool)
    ensures
        r == (a@ == b@),
{
    if a.len() != b.len() {
        return false;
    }
    let mut i: usize = 0;
    while i < a.len()
        invariant
            i <= a@.len() == b@.len(),
            forall|k: int| 0 <= k < i ==> a@[k] == b@[k],
        decreases a@.len() - i,
    {
        if a[i] != b[i] {
            return false;
        }
        i = i + 1;
    }
    assert(a@ =~= b@);
    true
}

/// Equality of `s` with a string slice.
pub fn eq_str(s: &[char], lit: &str) -> (r: bool)
    ensures
        r == (s@ == lit@),
{
    let l = chars_of(lit);
    eq_slices(s, l.as_slice())
}

/// A `String` holding the characters of a string slice.
pub fn string_of(s: &str) -> (r: String)
    ensures
        r@ == s@,
{
    let cs = chars_of(s);
    string_from_chars(cs.as_slice())
}

/// The contents of a string literal closed by `q`: each character is either
/// a backslash together with the character it escapes, or a character other
/// than `q` and the backslash.
pub open spec fn string_body(b: Seq<char>, q: char) -> bool
    decreases b.len(),
{
    if b.len() == 0 {
        true
    } else if b[0] == '\\' {
        b.len() >= 2 && string_body(b.skip(2), q)
    } else {
        b[0] != q && string_body(b.skip(1), q)
    }
}

/// A `String` holding exactly the given characters.
#[verifier::external_body]
pub(crate) fn string_from_chars(cs: &[char]) -> (r: String)
    ensures
        r@ == cs@,
{
    cs.iter().collect()
}

/// The order of `str` (`Ord`): lexicographic by character. UTF-8 keeps the
/// order of code points, so this is also the order of the bytes.
pub open spec fn seq_lt(a: Seq<char>, b: Seq<char>) -> bool
    decreases a.len(),
{
    if a.len() == 0 {
        b.len() > 0
    } else if b.len() == 0 {
        false
    } else if a[0] != b[0] {
        (a[0] as u32) < (b[0] as u32)
    } else {
        seq_lt(a.drop_first(), b.drop_first())
    }
}

/// `seq_lt` is a strict total order.
pub proof fn lemma_seq_lt_order(a: Seq<char>, b: Seq<char>, c: Seq<char>)
    ensures
        !seq_lt(a, a),
        seq_lt(a, b) ==> !seq_lt(b, a),
        a != b ==> seq_lt(a, b) || seq_lt(b, a),
        seq_lt(a, b) && seq_lt(b, c) ==> seq_lt(a, c),
    decreases a.len(),
{
    if a.len() > 0 {
        lemma_seq_lt_order(a.drop_first(), a.drop_first(), a.drop_first());
        if b.len() > 0 {
            lemma_seq_lt_order(a.drop_first(), b.drop_first(), b.drop_first());
            if c.len() > 0 {
                lemma_seq_lt_order(a.drop_first(), b.drop_first(), c.drop_first());
            }
            if a[0] != b[0] {
                vstd::utf8::char_u32_cast(a[0], a[0] as u32);
                vstd::utf8::char_u32_cast(b[0], b[0] as u32);
                assert((a[0] as u32) != (b[0] as u32));
            }
            if a != b && a[0] == b[0] {
                assert(a.drop_first() != b.drop_first()) by {
                    if a.drop_first() == b.drop_first() {
                        assert(a =~= seq![a[0]] + a.drop_first());
                        assert(b =~= seq![b[0]] + b.drop_first());
                    }
                }
            }
        }
    } else {
        if b.len() == 0 {
            assert(a =~= b);
        }
    }
}

/// Compares two character slices in `seq_lt` order.
pub fn str_lt(a: &[char], b: &[char]) -> (r: bool)
    ensures
        r == seq_lt(a@, b@),
{
    let mut i: usize = 0;
    assert(a@.skip(0) =~= a@);
    assert(b@.skip(0) =~= b@);
    while i < a.len() && i < b.len()
        invariant
            i <= a@.len(),
            i <= b@.len(),
            seq_lt(a@.skip(i as int), b@.skip(i as int)) == seq_lt(a@, b@),
        decreases a@.len() - i,
    {
        let x = a[i];
        let y = b[i];
        assert(a@.skip(i as int)[0] == x && b@.skip(i as int)[0] == y);
        if x != y {
            return (x as u32) < (y as u32);
        }
        assert(a@.skip(i as int).drop_first() =~= a@.skip(i + 1));
        assert(b@.skip(i as int).drop_first() =~= b@.skip(i + 1));
        i = i + 1;
    }
    a.len() - i < b.len() - i
}

pub open spec fn strings_view(v: Seq<String>) -> Seq<Seq<char>> {
    v.map_values(|x: String| x@)
}

/// Strictly increasing in `seq_lt` order: sorted, and nothing twice.
pub open spec fn strictly_sorted(v: Seq<Seq<char>>) -> bool {
    forall|i: int, j: int| 0 <= i < j < v.len() ==> seq_lt(#[trigger] v[i], #[trigger] v[j])
}

/// Adds `s` to a strictly sorted list of strings, keeping it strictly
/// sorted; nothing changes when `s` is there already.
pub fn insert_sorted(v: &mut Vec<String>, s: String)
    requires
        strictly_sorted(strings_view(old(v)@)),
    ensures
        strictly_sorted(strings_view(final(v)@)),
        strings_view(final(v)@).to_set() == strings_view(old(v)@).to_set().insert(s@),
{
    let ghost w = strings_view(v@);
    let sc = chars_of(s.as_str());
    let mut p: usize = 0;
    while p < v.len() && str_lt(chars_of(v[p].as_str()).as_slice(), sc.as_slice())
        invariant
            p <= v@.len(),
            w == strings_view(v@),
            sc@ == s@,
            strictly_sorted(w),
            forall|t: int| 0 <= t < p ==> seq_lt(#[trigger] w[t], s@),
        decreases v@.len() - p,
    {
        p = p + 1;
    }
    if p < v.len() && v[p] == s {
        assert(strings_view(v@).to_set() =~= w.to_set().insert(s@)) by {
            assert(w[p as int] == s@);
        }
        return;
    }
    proof {
        if p < w.len() {
            lemma_seq_lt_order(w[p as int], s@, s@);
            assert(w[p as int] != s@);
            assert(seq_lt(s@, w[p as int]));
        }
    }
    v.insert(p, s);
    let ghost w2 = strings_view(v@);
    assert(w2 =~= w.insert(p as int, sc@));
    assert forall|i: int, j: int| 0 <= i < j < w2.len() implies seq_lt(#[trigger] w2[i], #[trigger] w2[j]) by {
        if j < p {
            assert(w2[i] == w[i] && w2[j] == w[j]);
        } else if j == p {
            assert(w2[i] == w[i]);
        } else if i == p {
            assert(w2[j] == w[j - 1]);
            if j - 1 > p {
                lemma_seq_lt_order(sc@, w[p as int], w[j - 1]);
            }
        } else if i < p {
            assert(w2[i] == w[i] && w2[j] == w[j - 1]);
        } else {
            assert(w2[i] == w[i - 1] && w2[j] == w[j - 1]);
        }
    }
    assert(w2.to_set() =~= w.to_set().insert(s@)) by {
        assert forall|x: Seq<char>| w2.to_set().contains(x) <==> w.to_set().insert(s@).contains(x) by {
            if w2.to_set().contains(x) {
                let k = choose|k: int| 0 <= k < w2.len() && #[trigger] w2[k] == x;
                if k < p {
                    assert(w[k] == x);
                } else if k > p {
                    assert(w[k - 1] == x);
                }
            }
            if w.to_set().contains(x) {
                let k = choose|k: int| 0 <= k < w.len() && #[trigger] w[k] == x;
                if k < p {
                    assert(w2[k] == x);
                } else {
                    assert(w2[k + 1] == x);
                }
            }
            if x == s@ {
                assert(w2[p as int] == x);
            }
        }
    }
}

/// The strings of `v` in `seq_lt` order, each once: what sorting and then
/// removing adjacent duplicates gives.
pub fn sort_dedup(v: Vec<String>) -> (r: Vec<String>)
    ensures
        strictly_sorted(strings_view(r@)),
        strings_view(r@).to_set() == strings_view(v@).to_set(),
{
    let mut out: Vec<String> = Vec::new();
    let mut i: usize = 0;
    let ghost wv = strings_view(v@);
    assert(strings_view(out@).to_set() =~= wv.take(0).to_set());
    while i < v.len()
        invariant
            i <= v@.len(),
            wv == strings_view(v@),
            strictly_sorted(strings_view(out@)),
            strings_view(out@).to_set() == wv.take(i as int).to_set(),
        decreases v@.len() - i,
    {
        insert_sorted(&mut out, v[i].clone());
        proof {
            let a = wv.take(i + 1);
            let b = wv.take(i as int);
            assert(a =~= b.push(wv[i as int]));
            assert(a.to_set() =~= b.to_set().insert(wv[i as int])) by {
                assert forall|x: Seq<char>| a.to_set().contains(x) <==> b.to_set().insert(wv[i as int]).contains(x) by {
                    if a.to_set().contains(x) {
                        let k = choose|k: int| 0 <= k < a.len() && #[trigger] a[k] == x;
                        if k < i {
                            assert(b[k] == x);
                        }
                    }
                    if b.to_set().contains(x) {
                        let k = choose|k: int| 0 <= k < b.len() && #[trigger] b[k] == x;
                        assert(a[k] == x);
                    }
                    if x == wv[i as int] {
                        assert(a[i as int] == x);
                    }
                }
            }
        }
        i = i + 1;
    }
    assert(wv.take(v@.len() as int) =~= wv);
    out
}

} // verus!
