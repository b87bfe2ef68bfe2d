//! Static ES module syntax in a script source, and the rewrite that lets a
//! module without imports or exports run as a classic script.
use vstd::prelude::*;
use crate::text::{strings_view, chars_of, contains, copy_range, find_first, first_occ, is_ws, is_ws_char,
    lemma_concat_no_occ, lemma_first_occ_bounds, lemma_replace_absent, lemma_replace_removes,
    occurs_at, occurs_at_exec, push_all, replace_all, replace_str, string_from_chars, trim,
    trim_bounds};

verus! {

/// ASCII letters and digits, `_` and `$`: the characters that continue an
/// identifier before a keyword.
pub open spec fn is_word(c: char) -> bool {
    ('a' <= c && c <= 'z') || ('A' <= c && c <= 'Z') || ('0' <= c && c <= '9') || c == '_'
        || c == '$'
}

/// Whether `c` continues an identifier.
pub fn is_word_char(c: char) -> (r: bool)
    ensures
        r == is_word(c),
{
    ('a' <= c && c <= 'z') || ('A' <= c && c <= 'Z') || ('0' <= c && c <= '9') || c == '_'
        || c == '$'
}

/// Space, tab or line feed.
pub open spec fn is_blank(c: char) -> bool {
    c == ' ' || c == '\t' || c == '\n'
}

/// The first index at or after `j` that does not hold a blank.
pub open spec fn skip_blank(s: Seq<char>, j: int) -> int
    decreases s.len() - j,
{
    if 0 <= j < s.len() && is_blank(s[j]) {
        skip_blank(s, j + 1)
    } else {
        j
    }
}

fn skip_blank_exec(s: &[char], j: usize) -> (r: usize)
    requires
        j <= s@.len(),
    ensures
        r == skip_blank(s@, j as int),
        j <= r <= s@.len(),
{
    let mut k = j;
    while k < s.len() && is_blank_char(s[k])
        invariant
            j <= k <= s@.len(),
            skip_blank(s@, k as int) == skip_blank(s@, j as int),
        decreases s@.len() - k,
    {
        k = k + 1;
    }
    k
}

fn is_blank_char(c: char) -> (r: bool)
    ensures
        r == is_blank(c),
{
    c == ' ' || c == '\t' || c == '\n'
}

pub open spec fn import_kw() -> Seq<char> {
    seq!['i', 'm', 'p', 'o', 'r', 't']
}

pub open spec fn export_kw() -> Seq<char> {
    seq!['e', 'x', 'p', 'o', 'r', 't']
}

/// `w` occurs at `i` and does not continue an identifier.
pub open spec fn keyword_at(s: Seq<char>, w: Seq<char>, i: int) -> bool {
    occurs_at(s, w, i) && (i == 0 || !is_word(s[i - 1]))
}

/// A static `import` at `i`: the keyword followed either by blanks and then
/// any character but `(` (`import x from ...`, `import {...}`), or directly
/// by `{`, a quote or `*`. A dynamic `import(`, `import.meta` and words such
/// as `imported` are not.
pub open spec fn static_import_at(s: Seq<char>, i: int) -> bool {
    i + 6 < s.len() && keyword_at(s, import_kw(), i) && {
        let j = skip_blank(s, i + 6);
        j < s.len() && if is_blank(s[i + 6]) {
            s[j] != '('
        } else {
            s[j] == '{' || s[j] == '"' || s[j] == '\'' || s[j] == '*'
        }
    }
}

/// A static `export` at `i`: the keyword followed (past blanks) by `{` or `*`.
pub open spec fn static_export_at(s: Seq<char>, i: int) -> bool {
    i + 6 < s.len() && keyword_at(s, export_kw(), i) && {
        let j = skip_blank(s, i + 6);
        j < s.len() && (s[j] == '{' || s[j] == '*')
    }
}

pub open spec fn has_static_import(s: Seq<char>) -> bool {
    exists|i: int| static_import_at(s, i)
}

pub open spec fn has_static_export(s: Seq<char>) -> bool {
    exists|i: int| static_export_at(s, i)
}

/// A keyword whose first letter occurs nowhere else in it cannot occur again
/// at the next positions inside itself.
proof fn lemma_no_self_overlap(s: Seq<char>, w: Seq<char>, i: int)
    requires
        occurs_at(s, w, i),
        w.len() > 0,
        forall|t: int| 1 <= t < w.len() ==> #[trigger] w[t] != w[0],
    ensures
        forall|k: int| i < k < i + w.len() ==> !occurs_at(s, w, k),
{
    assert forall|k: int| i < k < i + w.len() implies !occurs_at(s, w, k) by {
        assert(s[k] == s.subrange(i, i + w.len())[k - i]);
        if occurs_at(s, w, k) {
            assert(s[k] == s.subrange(k, k + w.len())[0]);
        }
    }
}

/// Scans for `kw` as a keyword followed by one of the characters that
/// `follow` accepts; the shared loop of the two detectors below.
fn scan_keyword(s: &[char], kw: &[char], braces_only: bool) -> (r: bool)
    requires
        kw@ == import_kw() || kw@ == export_kw(),
        braces_only <==> kw@ == export_kw(),
    ensures
        braces_only ==> (r == has_static_export(s@)),
        !braces_only ==> (r == has_static_import(s@)),
{
    let n = s.len();
    let mut i: usize = 0;
    while i < n && n - i > 6
        invariant
            n == s@.len(),
            i <= n,
            kw@ == import_kw() || kw@ == export_kw(),
            braces_only <==> kw@ == export_kw(),
            forall|k: int|
                0 <= k < i ==> !(if braces_only {
                    static_export_at(s@, k)
                } else {
                    static_import_at(s@, k)
                }),
        decreases n - i,
    {
        if occurs_at_exec(s, kw, i) {
            proof {
                lemma_no_self_overlap(s@, kw@, i as int);
            }
            let prev_word = i > 0 && is_word_char(s[i - 1]);
            if prev_word {
                i = i + 6;
                continue;
            }
            let j = skip_blank_exec(s, i + 6);
            if j >= n {
                i = i + 6;
                continue;
            }
            let c = s[j];
            let accepted = if braces_only {
                c == '{' || c == '*'
            } else if is_blank_char(s[i + 6]) {
                c != '('
            } else {
                c == '{' || c == '*' || c == '"' || c == '\''
            };
            if accepted {
                assert(if braces_only {
                    static_export_at(s@, i as int)
                } else {
                    static_import_at(s@, i as int)
                });
                return true;
            }
        }
        i = i + 1;
    }
    false
}

/// A static `import` statement: `import` and blanks not followed by `(`, or
/// `import{`, `import"`, `import'`, `import*` (not a dynamic `import(...)`,
/// not `import.meta`).
pub fn regex_static_import(code: &str) -> (r: bool)
    ensures
        r == has_static_import(code@),
{
    let cs = chars_of(code);
    let kw: [char; 6] = ['i', 'm', 'p', 'o', 'r', 't'];
    assert(kw@ =~= import_kw());
    scan_keyword(cs.as_slice(), kw.as_slice(), false)
}

/// A static `export {` or `export *` statement.
pub fn regex_static_export(code: &str) -> (r: bool)
    ensures
        r == has_static_export(code@),
{
    let cs = chars_of(code);
    let kw: [char; 6] = ['e', 'x', 'p', 'o', 'r', 't'];
    assert(kw@ =~= export_kw());
    scan_keyword(cs.as_slice(), kw.as_slice(), true)
}

/// True when the source has static import or export syntax, so that it can
/// only run as a module.
pub fn has_static_esm_syntax(code: &str) -> (r: bool)
    ensures
        r == (has_static_import(code@) || has_static_export(code@)),
{
    regex_static_import(code) || regex_static_export(code)
}

/// The value that `import.meta.env` reads in a production Vite build.
pub const VITE_ENV_DEFAULT_JS: &'static str = "{MODE:'production',DEV:false,PROD:true,BASE_URL:'/',SSR:false}";

/// The page URL a rewritten module sees: `about:blank` when there is none.
pub open spec fn page_url(base_url: Seq<char>) -> Seq<char> {
    if base_url.len() == 0 {
        "about:blank"@
    } else {
        base_url
    }
}

/// `s` in double quotes.
pub open spec fn quoted(s: Seq<char>) -> Seq<char> {
    seq!['"'] + s + seq!['"']
}

/// `s` in round brackets.
pub open spec fn parenthesized(s: Seq<char>) -> Seq<char> {
    seq!['('] + s + seq![')']
}

/// The object that stands for a bare `import.meta`.
pub open spec fn meta_object(url: Seq<char>) -> Seq<char> {
    "({url:\""@ + url + "\",env:"@ + VITE_ENV_DEFAULT_JS@ + "})"@
}

/// The module source with `import.meta.url`, then `import.meta.env`, then
/// any other `import.meta` replaced by plain values.
pub open spec fn strip_esm(code: Seq<char>, base_url: Seq<char>) -> Seq<char> {
    let url = page_url(base_url);
    let a = replace_all(code, "import.meta.url"@, quoted(url));
    let b = replace_all(a, "import.meta.env"@, parenthesized(VITE_ENV_DEFAULT_JS@));
    replace_all(b, "import.meta"@, meta_object(url))
}

/// A module source rewritten to run as a classic script, or `None` when it
/// has static import or export syntax and must run as a module.
pub fn try_strip_esm_for_eval(code: &str, base_url: &str) -> (r: Option<String>)
    ensures
        r matches Some(p) ==> p@ == strip_esm(code@, base_url@),
        r is None <==> (has_static_import(code@) || has_static_export(code@)),
{
    if has_static_esm_syntax(code) {
        return None;
    }
    proof {
        reveal_strlit("import.meta.url");
        reveal_strlit("import.meta.env");
        reveal_strlit("import.meta");
    }
    let url: Vec<char> = if base_url.is_empty() {
        chars_of("about:blank")
    } else {
        chars_of(base_url)
    };
    let mut patched = chars_of(code);
    let url_pat = chars_of("import.meta.url");
    if crate::text::contains_slice(patched.as_slice(), url_pat.as_slice()) {
        let mut rep: Vec<char> = Vec::new();
        rep.push('"');
        push_all(&mut rep, url.as_slice());
        rep.push('"');
        assert(rep@ =~= quoted(page_url(base_url@)));
        patched = replace_str(patched.as_slice(), "import.meta.url", rep.as_slice());
    } else {
        proof {
            lemma_replace_absent(patched@, "import.meta.url"@, quoted(page_url(base_url@)));
        }
    }
    let ghost a = patched@;
    let env_pat = chars_of("import.meta.env");
    let mut env_rep: Vec<char> = Vec::new();
    env_rep.push('(');
    push_all(&mut env_rep, chars_of(VITE_ENV_DEFAULT_JS).as_slice());
    env_rep.push(')');
    assert(env_rep@ =~= parenthesized(VITE_ENV_DEFAULT_JS@));
    if crate::text::contains_slice(patched.as_slice(), env_pat.as_slice()) {
        patched = replace_str(patched.as_slice(), "import.meta.env", env_rep.as_slice());
    } else {
        proof {
            lemma_replace_absent(a, "import.meta.env"@, parenthesized(VITE_ENV_DEFAULT_JS@));
        }
    }
    let ghost b = patched@;
    let meta_pat = chars_of("import.meta");
    let mut obj: Vec<char> = chars_of("({url:\"");
    push_all(&mut obj, url.as_slice());
    push_all(&mut obj, chars_of("\",env:").as_slice());
    push_all(&mut obj, chars_of(VITE_ENV_DEFAULT_JS).as_slice());
    push_all(&mut obj, chars_of("})").as_slice());
    assert(obj@ =~= meta_object(page_url(base_url@)));
    if crate::text::contains_slice(patched.as_slice(), meta_pat.as_slice()) {
        patched = replace_str(patched.as_slice(), "import.meta", obj.as_slice());
    } else {
        proof {
            lemma_replace_absent(b, "import.meta"@, meta_object(page_url(base_url@)));
        }
    }
    Some(string_from_chars(patched.as_slice()))
}

pub open spec fn meta_kw() -> Seq<char> {
    seq!['i', 'm', 'p', 'o', 'r', 't', '.', 'm', 'e', 't', 'a']
}

proof fn lemma_short_no_occ(t: Seq<char>, pat: Seq<char>)
    requires
        t.len() < pat.len(),
    ensures
        !contains(t, pat),
{
    assert forall|x: int| !occurs_at(t, pat, x) by {}
}

/// The object that replaces a bare `import.meta` does not hold
/// `import.meta` when the URL in it does not.
proof fn lemma_meta_object_clean(url: Seq<char>)
    requires
        !contains(url, meta_kw()),
    ensures
        !contains(meta_object(url), meta_kw()),
        meta_object(url).len() > 0,
        meta_object(url)[0] == '(',
        meta_object(url).last() == ')',
{
    reveal_strlit("({url:\"");
    reveal_strlit("\",env:");
    reveal_strlit("{MODE:'production',DEV:false,PROD:true,BASE_URL:'/',SSR:false}");
    reveal_strlit("})");
    let p = meta_kw();
    let l1 = "({url:\""@;
    let l2 = "\",env:"@;
    let v = VITE_ENV_DEFAULT_JS@;
    let l3 = "})"@;
    lemma_short_no_occ(l1, p);
    lemma_short_no_occ(l2, p);
    lemma_short_no_occ(l3, p);
    assert(!p.contains('"'));
    assert(!p.contains(':'));
    assert(!p.contains('}'));
    assert(!contains(v, p)) by {
        assert forall|x: int| !occurs_at(v, p, x) by {
            if occurs_at(v, p, x) {
                assert(v.subrange(x, x + 11)[6] == '.');
                assert(v[x + 6] == '.');
            }
        }
    }
    lemma_concat_no_occ(l1, url, p);
    let x1 = l1 + url;
    lemma_concat_no_occ(x1, l2, p);
    let x2 = x1 + l2;
    assert(x2.last() == ':');
    lemma_concat_no_occ(x2, v, p);
    let x3 = x2 + v;
    lemma_concat_no_occ(x3, l3, p);
    assert(meta_object(url) =~= x3 + l3);
}

/// Unless the page URL itself holds `import.meta`, the rewritten source
/// holds no `import.meta`: every form of it was replaced.
pub proof fn lemma_strip_esm_removes_meta(code: Seq<char>, base_url: Seq<char>)
    requires
        !contains(base_url, "import.meta"@),
    ensures
        !contains(strip_esm(code, base_url), "import.meta"@),
{
    reveal_strlit("import.meta");
    reveal_strlit("about:blank");
    assert("import.meta"@ =~= meta_kw());
    let url = page_url(base_url);
    if base_url.len() == 0 {
        assert forall|x: int| !occurs_at("about:blank"@, meta_kw(), x) by {
            if occurs_at("about:blank"@, meta_kw(), x) {
                assert("about:blank"@.subrange(x, x + 11)[0] == 'i');
            }
        }
    }
    lemma_meta_object_clean(url);
    let a = replace_all(code, "import.meta.url"@, quoted(url));
    let b = replace_all(a, "import.meta.env"@, parenthesized(VITE_ENV_DEFAULT_JS@));
    assert(!meta_kw().contains('('));
    assert(!meta_kw().contains(')'));
    lemma_replace_removes(b, meta_kw(), meta_object(url));
}

/// What `char::is_whitespace` says of the characters that can stand right
/// after a keyword in the source: ASCII tab, line feed, vertical tab, form
/// feed, carriage return and space.
pub open spec fn is_ascii_ws(c: char) -> bool {
    c == ' ' || c == '\t' || c == '\n' || c == '\x0B' || c == '\x0C' || c == '\r'
}

fn is_ascii_ws_char(c: char) -> (r: bool)
    ensures
        r == is_ascii_ws(c),
{
    c == ' ' || c == '\t' || c == '\n' || c == '\x0B' || c == '\x0C' || c == '\r'
}

/// The first index at or after `j` that does not hold ASCII whitespace.
pub open spec fn skip_ws(s: Seq<char>, j: int) -> int
    decreases s.len() - j,
{
    if 0 <= j < s.len() && is_ascii_ws(s[j]) {
        skip_ws(s, j + 1)
    } else {
        j
    }
}

pub proof fn lemma_skip_ws_ge(s: Seq<char>, j: int)
    ensures
        skip_ws(s, j) >= j,
    decreases s.len() - j,
{
    if 0 <= j < s.len() && is_ascii_ws(s[j]) {
        lemma_skip_ws_ge(s, j + 1);
    }
}

fn skip_ws_exec(s: &[char], j: usize) -> (r: usize)
    requires
        j <= s@.len(),
    ensures
        r == skip_ws(s@, j as int),
        j <= r <= s@.len(),
{
    let mut k = j;
    while k < s.len() && is_ascii_ws_char(s[k])
        invariant
            j <= k <= s@.len(),
            skip_ws(s@, k as int) == skip_ws(s@, j as int),
        decreases s@.len() - k,
    {
        k = k + 1;
    }
    k
}

/// The first index after `q` that holds the quote character standing at `q`,
/// when `q` holds a single or double quote.
pub open spec fn closing_quote(s: Seq<char>, q: int) -> Option<int> {
    if 0 <= q < s.len() && (s[q] == '"' || s[q] == '\'') {
        first_occ(s, seq![s[q]], q + 1)
    } else {
        None
    }
}

pub proof fn lemma_closing_quote(s: Seq<char>, q: int)
    ensures
        closing_quote(s, q) matches Some(e) ==> q < e < s.len() && s[e] == s[q],
{
    if 0 <= q < s.len() && (s[q] == '"' || s[q] == '\'') {
        lemma_first_occ_bounds(s, seq![s[q]], q + 1);
        if let Some(e) = first_occ(s, seq![s[q]], q + 1) {
            assert(s.subrange(e, e + 1)[0] == s[e]);
        }
    }
}

fn closing_quote_exec(s: &[char], q: usize) -> (r: Option<usize>)
    requires
        q <= s@.len(),
    ensures
        match r {
            Some(e) => closing_quote(s@, q as int) == Some(e as int),
            None => closing_quote(s@, q as int) is None,
        },
{
    if q < s.len() && (s[q] == '"' || s[q] == '\'') {
        let qs: [char; 1] = [s[q]];
        assert(qs@ =~= seq![s@[q as int]]);
        find_first(s, qs.as_slice(), q + 1)
    } else {
        None
    }
}

pub open spec fn from_kw() -> Seq<char> {
    seq!['f', 'r', 'o', 'm']
}

/// A specifier is kept trimmed, and only when it is not empty and holds no
/// whitespace and no `<`.
pub open spec fn kept(t: Seq<char>) -> Seq<Seq<char>> {
    let u = trim(t);
    if u.len() > 0 && (forall|k: int| 0 <= k < u.len() ==> !is_ws(#[trigger] u[k]) && u[k] != '<') {
        seq![u]
    } else {
        seq![]
    }
}

/// The specifiers of `from"..."` forms at or after `i`.
pub open spec fn from_specs(s: Seq<char>, i: int) -> Seq<Seq<char>>
    decreases s.len() - i,
{
    if i < 0 || i + 4 > s.len() {
        seq![]
    } else {
        let j = skip_ws(s, i + 4);
        if keyword_at(s, from_kw(), i) && closing_quote(s, j) is Some {
            let e = closing_quote(s, j)->0;
            proof {
                lemma_skip_ws_ge(s, i + 4);
                lemma_closing_quote(s, j);
            }
            kept(s.subrange(j + 1, e)) + from_specs(s, e)
        } else {
            from_specs(s, i + 1)
        }
    }
}

/// The specifiers of `import"..."` and `import("...")` forms at or after `i`.
pub open spec fn import_specs(s: Seq<char>, i: int) -> Seq<Seq<char>>
    decreases s.len() - i,
{
    if i < 0 || i + 6 > s.len() {
        seq![]
    } else if keyword_at(s, import_kw(), i) {
        let j = skip_ws(s, i + 6);
        let k = skip_ws(s, j + 1);
        proof {
            lemma_skip_ws_ge(s, i + 6);
            lemma_skip_ws_ge(s, j + 1);
            lemma_closing_quote(s, j);
            lemma_closing_quote(s, k);
        }
        if closing_quote(s, j) is Some {
            let e = closing_quote(s, j)->0;
            kept(s.subrange(j + 1, e)) + import_specs(s, e)
        } else if j < s.len() && s[j] == '(' && closing_quote(s, k) is Some {
            let e = closing_quote(s, k)->0;
            kept(s.subrange(k + 1, e)) + import_specs(s, e)
        } else {
            import_specs(s, i + 1)
        }
    } else {
        import_specs(s, i + 1)
    }
}

/// Appends `trim(s[a..b])` to `out` when it is a plausible specifier.
fn push_kept(out: &mut Vec<String>, s: &[char], a: usize, b: usize)
    requires
        a <= b <= s@.len(),
    ensures
        strings_view(final(out)@) == strings_view(old(out)@) + kept(s@.subrange(a as int, b as int)),
{
    let t = copy_range(s, a, b);
    let (lo, hi) = trim_bounds(t.as_slice());
    let ghost u = trim(t@);
    let mut k = lo;
    while k < hi
        invariant
            a <= b <= s@.len(),
            t@ == s@.subrange(a as int, b as int),
            u == trim(t@),
            lo <= k <= hi <= t@.len(),
            t@.subrange(lo as int, hi as int) == u,
            forall|m: int| 0 <= m < k - lo ==> !is_ws(#[trigger] u[m]) && u[m] != '<',
        decreases hi - k,
    {
        let c = t[k];
        assert(u[k - lo] == c);
        if is_ws_char(c) || c == '<' {
            assert(kept(t@) =~= seq![]);
            assert(strings_view(out@) =~= strings_view(out@) + kept(s@.subrange(a as int, b as int)));
            return;
        }
        k = k + 1;
    }
    if lo < hi {
        let piece = copy_range(t.as_slice(), lo, hi);
        out.push(string_from_chars(piece.as_slice()));
        assert(kept(t@) =~= seq![u]);
        assert(strings_view(out@) =~= strings_view(old(out)@) + kept(s@.subrange(a as int, b as int)));
    } else {
        assert(strings_view(out@) =~= strings_view(out@) + kept(s@.subrange(a as int, b as int)));
    }
}

/// A plausible module specifier: not empty, no whitespace, no `<`.
pub open spec fn clean_spec(t: Seq<char>) -> bool {
    t.len() > 0 && forall|k: int| 0 <= k < t.len() ==> !is_ws(#[trigger] t[k]) && t[k] != '<'
}

pub open spec fn all_clean(v: Seq<Seq<char>>) -> bool {
    forall|i: int| 0 <= i < v.len() ==> #[trigger] clean_spec(v[i])
}

proof fn lemma_kept_clean(t: Seq<char>, rest: Seq<Seq<char>>)
    requires
        all_clean(rest),
    ensures
        all_clean(kept(t) + rest),
{
    let k = kept(t);
    assert forall|i: int| 0 <= i < (k + rest).len() implies #[trigger] clean_spec((k + rest)[i]) by {
        if i < k.len() {
            assert(k[i] == trim(t));
        } else {
            assert((k + rest)[i] == rest[i - k.len()]);
        }
    }
}

proof fn lemma_from_specs_clean(s: Seq<char>, i: int)
    ensures
        all_clean(from_specs(s, i)),
    decreases s.len() - i,
{
    if i < 0 || i + 4 > s.len() {
    } else {
        let j = skip_ws(s, i + 4);
        if keyword_at(s, from_kw(), i) && closing_quote(s, j) is Some {
            let e = closing_quote(s, j)->0;
            lemma_skip_ws_ge(s, i + 4);
            lemma_closing_quote(s, j);
            lemma_from_specs_clean(s, e);
            lemma_kept_clean(s.subrange(j + 1, e), from_specs(s, e));
        } else {
            lemma_from_specs_clean(s, i + 1);
        }
    }
}

proof fn lemma_import_specs_clean(s: Seq<char>, i: int)
    ensures
        all_clean(import_specs(s, i)),
    decreases s.len() - i,
{
    if i < 0 || i + 6 > s.len() {
    } else if keyword_at(s, import_kw(), i) {
        let j = skip_ws(s, i + 6);
        let k = skip_ws(s, j + 1);
        lemma_skip_ws_ge(s, i + 6);
        lemma_skip_ws_ge(s, j + 1);
        lemma_closing_quote(s, j);
        lemma_closing_quote(s, k);
        if closing_quote(s, j) is Some {
            let e = closing_quote(s, j)->0;
            lemma_import_specs_clean(s, e);
            lemma_kept_clean(s.subrange(j + 1, e), import_specs(s, e));
        } else if j < s.len() && s[j] == '(' && closing_quote(s, k) is Some {
            let e = closing_quote(s, k)->0;
            lemma_import_specs_clean(s, e);
            lemma_kept_clean(s.subrange(k + 1, e), import_specs(s, e));
        } else {
            lemma_import_specs_clean(s, i + 1);
        }
    } else {
        lemma_import_specs_clean(s, i + 1);
    }
}

/// Every specifier that the scan gives is plausible: not empty, without
/// whitespace and without `<`.
pub proof fn lemma_specifiers_clean(code: Seq<char>)
    ensures
        all_clean(from_specs(code, 0) + import_specs(code, 0)),
{
    lemma_from_specs_clean(code, 0);
    lemma_import_specs_clean(code, 0);
    let a = from_specs(code, 0);
    let b = import_specs(code, 0);
    assert forall|i: int| 0 <= i < (a + b).len() implies #[trigger] clean_spec((a + b)[i]) by {
        if i < a.len() {
            assert((a + b)[i] == a[i]);
        } else {
            assert((a + b)[i] == b[i - a.len()]);
        }
    }
}

/// The module specifiers that a module source names in `from"x"`,
/// `import"x"` and `import("x")` forms (quotes single or double, ASCII
/// whitespace allowed before the quote): first all of the `from` forms, then
/// all of the `import` forms, each in source order.
pub fn scan_import_specifiers(code: &str) -> (r: Vec<String>)
    ensures
        strings_view(r@) == from_specs(code@, 0) + import_specs(code@, 0),
{
    let cs = chars_of(code);
    let s = cs.as_slice();
    let n = s.len();
    let mut specs: Vec<String> = Vec::new();
    let fkw: [char; 4] = ['f', 'r', 'o', 'm'];
    assert(fkw@ =~= from_kw());
    let mut i: usize = 0;
    while i < n && n - i >= 4
        invariant
            n == s@.len(),
            fkw@ == from_kw(),
            i <= n,
            strings_view(specs@) + from_specs(s@, i as int) == from_specs(s@, 0),
        decreases n - i,
    {
        if occurs_at_exec(s, fkw.as_slice(), i) && (i == 0 || !is_word_char(s[i - 1])) {
            let j = skip_ws_exec(s, i + 4);
            match closing_quote_exec(s, j) {
                Some(e) => {
                    proof {
                        lemma_closing_quote(s@, j as int);
                    }
                    let ghost before = strings_view(specs@);
                    push_kept(&mut specs, s, j + 1, e);
                    assert(strings_view(specs@) + from_specs(s@, e as int) =~= before + from_specs(
                        s@,
                        i as int,
                    ));
                    i = e;
                    continue;
                },
                None => {},
            }
        }
        i = i + 1;
    }
    assert(from_specs(s@, i as int) =~= seq![]);
    let ghost firsts = strings_view(specs@);
    assert(firsts =~= from_specs(s@, 0));
    let ikw: [char; 6] = ['i', 'm', 'p', 'o', 'r', 't'];
    assert(ikw@ =~= import_kw());
    let mut i: usize = 0;
    while i < n && n - i >= 6
        invariant
            n == s@.len(),
            ikw@ == import_kw(),
            i <= n,
            strings_view(specs@) + import_specs(s@, i as int) == firsts + import_specs(s@, 0),
        decreases n - i,
    {
        if occurs_at_exec(s, ikw.as_slice(), i) && (i == 0 || !is_word_char(s[i - 1])) {
            let j = skip_ws_exec(s, i + 6);
            proof {
                lemma_closing_quote(s@, j as int);
            }
            let ghost before = strings_view(specs@);
            match closing_quote_exec(s, j) {
                Some(e) => {
                    push_kept(&mut specs, s, j + 1, e);
                    assert(strings_view(specs@) + import_specs(s@, e as int) =~= before
                        + import_specs(s@, i as int));
                    i = e;
                    continue;
                },
                None => {},
            }
            if j < n && s[j] == '(' {
                let k = skip_ws_exec(s, j + 1);
                proof {
                    lemma_closing_quote(s@, k as int);
                }
                match closing_quote_exec(s, k) {
                    Some(e) => {
                        push_kept(&mut specs, s, k + 1, e);
                        assert(strings_view(specs@) + import_specs(s@, e as int) =~= before
                            + import_specs(s@, i as int));
                        i = e;
                        continue;
                    },
                    None => {},
                }
            }
        }
        i = i + 1;
    }
    assert(import_specs(s@, i as int) =~= seq![]);
    assert(strings_view(specs@) =~= from_specs(code@, 0) + import_specs(code@, 0));
    specs
}

} // verus!
