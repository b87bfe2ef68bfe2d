//! The last resort for a module whose evaluation with imports failed: its
//! import and export statements are removed line by line, CommonJS interop
//! imports become lookups in the module registry, and the rest runs as a
//! classic script after a set of React stand-ins.
use vstd::prelude::*;
use vstd::string::StringSliceAdditionalSpecFns;
use vstd::utf8::encode_utf8;
use crate::plan::{lines, split_lines, starts_with_slice, trim_bounds_start, vecs_view};
use crate::text::{occurs_at, chars_of, contains, contains_str, copy_range, find_first, first_occ, is_ws, is_ws_char, lemma_first_occ_bounds, push_all, push_str, replace_all, replace_str, string_from_chars, trim_start};
use crate::urls::starts_with;

verus! {

/// `char::is_alphanumeric`: the Unicode `Alphabetic` or `Numeric` property.
pub uninterp spec fn unicode_alnum(c: char) -> bool;

/// Whether `c` is alphanumeric, by `char::is_alphanumeric`. Stated: on
/// ASCII it means the letters and digits; beyond ASCII the result is named
/// by `unicode_alnum`, not described.
#[verifier::external_body]
fn is_alphanumeric(c: char) -> (r: bool)
    ensures
        r == unicode_alnum(c),
        (c as u32) < 128 ==> (r <==> (('a' <= c && c <= 'z') || ('A' <= c && c <= 'Z') || ('0'
            <= c && c <= '9'))),
{
    c.is_alphanumeric()
}

/// The stand-ins defined before a stripped module runs: a React stub, the
/// preamble flag of the React plugin, and empty Vite objects.
pub const MODULE_STUB_PRELUDE: &'static str = "if(typeof __react_stub==='undefined')function __react_stub(){var r={};['jsxDEV','jsxs','Fragment','StrictMode','createElement','createRoot','useState','useEffect','useRef','useMemo','useCallback','useContext','useReducer','forwardRef','lazy','memo','createRef','hydrateRoot','render','createPortal','unmountComponentAtNode'].forEach(function(k){r[k]=function(){return null}});r['createRoot']=function(root){return{render:function(e){}}};return r;}\n                                         window.__vite_plugin_react_preamble_installed__=true;\nif(typeof __vite_env__==='undefined')var __vite_env__={};\nif(typeof __vite_hot_stub__==='undefined')var __vite_hot_stub__={};\nif(typeof createRoot==='undefined')var createRoot=function(r){return{render:function(e){r.textContent='[React stub]'}}};\n";

/// A statement that only a module may hold: a line that starts (past
/// whitespace) with `import ` , `import{`, `import*`, `export `, `export{` or
/// `export*`.
pub open spec fn module_statement(t: Seq<char>) -> bool {
    starts_with(t, "import "@) || starts_with(t, "import{"@) || starts_with(t, "import*"@)
        || starts_with(t, "export "@) || starts_with(t, "export{"@) || starts_with(t, "export*"@)
}

/// The first index at or after `i` that holds no whitespace.
pub open spec fn skip_ws_from(s: Seq<char>, i: int) -> int
    decreases s.len() - i,
{
    if 0 <= i < s.len() && is_ws(s[i]) {
        skip_ws_from(s, i + 1)
    } else {
        i
    }
}

/// The first index at or after `i` that holds whitespace, or the end.
pub open spec fn skip_word_from(s: Seq<char>, i: int) -> int
    decreases s.len() - i,
{
    if 0 <= i < s.len() && !is_ws(s[i]) {
        skip_word_from(s, i + 1)
    } else {
        i
    }
}

/// The second whitespace-separated word of `s`, as
/// `split_whitespace().nth(1)` gives it.
pub open spec fn second_word(s: Seq<char>) -> Option<Seq<char>> {
    let a = skip_ws_from(s, 0);
    let b = skip_word_from(s, a);
    let c = skip_ws_from(s, b);
    let d = skip_word_from(s, c);
    if c < s.len() {
        Some(s.subrange(c, d))
    } else {
        None
    }
}

/// What a CommonJS interop import of `t` is replaced by: a lookup of the
/// module that `from "..."` names in the development server's registry, or
/// the React stub.
pub open spec fn registry_value(t: Seq<char>) -> Seq<char> {
    match first_occ(t, "from \""@, 0) {
        Some(q) => {
            let u = t.skip(q + 6);
            let e = match first_occ(u, seq!['"'], 0) {
                Some(e) => e,
                None => 0,
            };
            "window.__vite_ns_registry__?.[\"http://localhost:5173"@ + u.take(e)
                + "\"]||__react_stub()"@
        },
        None => "__react_stub()"@,
    }
}

/// `s` without the trailing characters that are neither alphanumeric nor
/// `_`.
pub open spec fn trim_var_end(s: Seq<char>) -> Seq<char>
    decreases s.len(),
{
    if s.len() > 0 && !(unicode_alnum(s.last()) || s.last() == '_') {
        trim_var_end(s.drop_last())
    } else {
        s
    }
}

/// A line after its `import.meta` forms are replaced: only the first kind
/// that the line mentions, in the order `url`, `env`, `hot`.
pub open spec fn meta_replaced(line: Seq<char>, t: Seq<char>) -> Seq<char> {
    if contains(t, "import.meta.url"@) {
        replace_all(line, "import.meta.url"@, "\"http://localhost:5173/\""@)
    } else if contains(t, "import.meta.env"@) {
        replace_all(line, "import.meta.env"@, "__vite_env__"@)
    } else if contains(t, "import.meta.hot"@) {
        replace_all(line, "import.meta.hot"@, "__vite_hot_stub__"@)
    } else {
        line
    }
}

/// A line whose inline interop import becomes a variable.
pub open spec fn interop_replaced(l: Seq<char>) -> Seq<char> {
    match first_occ(l, "import __vite__cjsImport"@, 0) {
        Some(idx) => {
            let rest = l.skip(idx);
            match second_word(rest) {
                Some(v) => l.take(idx) + "var "@ + trim_var_end(v) + "="@ + registry_value(rest)
                    + ";"@,
                None => l,
            }
        },
        None => l,
    }
}

/// The text that a line of the module contributes. A module statement
/// leaves nothing, except that an interop import leaves `var name=lookup;`
/// on a line of its own; any other line stays, with its `import.meta` forms
/// and inline interop import replaced, and a line feed.
pub open spec fn stripped_line(line: Seq<char>) -> Seq<char> {
    let t = trim_start(line);
    if module_statement(t) {
        if contains(t, "__vite__cjsImport"@) {
            match second_word(t) {
                Some(v) => "var "@ + v + "="@ + registry_value(t) + ";\n"@,
                None => seq![],
            }
        } else {
            seq![]
        }
    } else {
        interop_replaced(meta_replaced(line, t)) + seq!['\n']
    }
}

pub open spec fn stripped_lines(ls: Seq<Seq<char>>) -> Seq<char>
    decreases ls.len(),
{
    if ls.len() == 0 {
        seq![]
    } else {
        stripped_lines(ls.drop_last()) + stripped_line(ls.last())
    }
}

/// The index after the `}` that closes the braces open at `j`, or the end.
pub open spec fn brace_end(b: Seq<u8>, j: int, depth: int) -> int
    decreases b.len() - j,
{
    if j < 0 || j >= b.len() || depth <= 0 {
        j
    } else {
        let d = if b[j] == 0x7Bu8 {
            depth + 1
        } else if b[j] == 0x7Du8 {
            depth - 1
        } else {
            depth
        };
        brace_end(b, j + 1, d)
    }
}

/// The index after the semicolons at `j`.
pub open spec fn skip_semis(b: Seq<u8>, j: int) -> int
    decreases b.len() - j,
{
    if 0 <= j < b.len() && b[j] == 0x3Bu8 {
        skip_semis(b, j + 1)
    } else {
        j
    }
}

pub proof fn lemma_brace_skip(b: Seq<u8>, j: int, depth: int)
    requires
        0 <= j <= b.len(),
    ensures
        j <= brace_end(b, j, depth) <= b.len(),
        j <= skip_semis(b, j) <= b.len(),
    decreases b.len() - j,
{
    if j < b.len() {
        let d = if b[j] == 0x7Bu8 {
            depth + 1
        } else if b[j] == 0x7Du8 {
            depth - 1
        } else {
            depth
        };
        lemma_brace_skip(b, j + 1, d);
    }
}

pub open spec fn export_brace() -> Seq<u8> {
    seq![0x65u8, 0x78u8, 0x70u8, 0x6Fu8, 0x72u8, 0x74u8, 0x7Bu8]
}

/// The bytes from `i` on with each `export{...}` group, and the semicolons
/// after it, removed; every other byte is taken as the character of the
/// same number.
pub open spec fn drop_exports(b: Seq<u8>, i: int, acc: Seq<char>) -> Seq<char>
    decreases b.len() - i,
{
    if i < 0 || i >= b.len() {
        acc
    } else if i + 7 <= b.len() && b.subrange(i, i + 7) == export_brace() {
        let j = brace_end(b, i + 7, 1);
        proof {
            lemma_brace_skip(b, i + 7, 1);
            lemma_brace_skip(b, j, 1);
        }
        drop_exports(b, skip_semis(b, j), acc)
    } else {
        drop_exports(b, i + 1, acc.push(b[i] as char))
    }
}

/// The classic script made of a module whose evaluation failed.
pub open spec fn module_eval_fallback(raw: Seq<char>) -> Seq<char> {
    MODULE_STUB_PRELUDE@ + drop_exports(encode_utf8(stripped_lines(lines(raw))), 0, seq![])
}

fn skip_ws_exec(s: &[char], i: usize) -> (r: usize)
    requires
        i <= s@.len(),
    ensures
        r == skip_ws_from(s@, i as int),
        i <= r <= s@.len(),
{
    let mut k = i;
    while k < s.len() && is_ws_char(s[k])
        invariant
            i <= k <= s@.len(),
            skip_ws_from(s@, k as int) == skip_ws_from(s@, i as int),
        decreases s@.len() - k,
    {
        k = k + 1;
    }
    k
}

fn skip_word_exec(s: &[char], i: usize) -> (r: usize)
    requires
        i <= s@.len(),
    ensures
        r == skip_word_from(s@, i as int),
        i <= r <= s@.len(),
{
    let mut k = i;
    while k < s.len() && !is_ws_char(s[k])
        invariant
            i <= k <= s@.len(),
            skip_word_from(s@, k as int) == skip_word_from(s@, i as int),
        decreases s@.len() - k,
    {
        k = k + 1;
    }
    k
}

fn second_word_exec(s: &[char]) -> (r: Option<Vec<char>>)
    ensures
        match r {
            Some(v) => second_word(s@) == Some(v@),
            None => second_word(s@) is None,
        },
{
    let a = skip_ws_exec(s, 0);
    let b = skip_word_exec(s, a);
    let c = skip_ws_exec(s, b);
    let d = skip_word_exec(s, c);
    if c < s.len() {
        Some(copy_range(s, c, d))
    } else {
        None
    }
}

fn registry_value_exec(t: &[char]) -> (r: Vec<char>)
    ensures
        r@ == registry_value(t@),
{
    proof {
        reveal_strlit("from \"");
    }
    let pat = chars_of("from \"");
    match find_first(t, pat.as_slice(), 0) {
        Some(q) => {
            proof {
                lemma_first_occ_bounds(t@, pat@, 0);
            }
            let tn = t.len();
            assert(pat@.len() == 6);
            assert(q + 6 <= tn);
            let u = copy_range(t, q + 6, tn);
            let quote: [char; 1] = ['"'];
            assert(quote@ =~= seq!['"']);
            let e = match find_first(u.as_slice(), quote.as_slice(), 0) {
                Some(e) => {
                    proof {
                        lemma_first_occ_bounds(u@, seq!['"'], 0);
                    }
                    e
                },
                None => 0,
            };
            let mut out: Vec<char> = chars_of("window.__vite_ns_registry__?.[\"http://localhost:5173");
            let url = copy_range(u.as_slice(), 0, e);
            push_all(&mut out, url.as_slice());
            push_str(&mut out, "\"]||__react_stub()");
            assert(u@ =~= t@.skip(q + 6));
            assert(out@ =~= registry_value(t@));
            out
        },
        None => chars_of("__react_stub()"),
    }
}

fn trim_var_end_exec(s: &[char]) -> (r: Vec<char>)
    ensures
        r@ == trim_var_end(s@),
{
    let mut k = s.len();
    assert(s@.take(k as int) =~= s@);
    while k > 0 && !(is_alphanumeric(s[k - 1]) || s[k - 1] == '_')
        invariant
            k <= s@.len(),
            trim_var_end(s@.take(k as int)) == trim_var_end(s@),
        decreases k,
    {
        assert(s@.take(k - 1) =~= s@.take(k as int).drop_last());
        k = k - 1;
    }
    copy_range(s, 0, k)
}

fn replace_lit(s: &[char], pat: &str, rep: &str) -> (r: Vec<char>)
    requires
        pat@.len() > 0,
    ensures
        r@ == replace_all(s@, pat@, rep@),
{
    let rc = chars_of(rep);
    replace_str(s, pat, rc.as_slice())
}

fn stripped_line_exec(line: &[char], out: &mut Vec<char>)
    ensures
        final(out)@ == old(out)@ + stripped_line(line@),
{
    proof {
        reveal_strlit("import.meta.url");
        reveal_strlit("import.meta.env");
        reveal_strlit("import.meta.hot");
    }
    let (a, _) = trim_bounds_start(line);
    let tv = copy_range(line, a, line.len());
    let t = tv.as_slice();
    assert(t@ == trim_start(line@));
    if starts_with_slice(t, "import ") || starts_with_slice(t, "import{") || starts_with_slice(
        t,
        "import*",
    ) || starts_with_slice(t, "export ") || starts_with_slice(t, "export{") || starts_with_slice(
        t,
        "export*",
    ) {
        if contains_str(t, "__vite__cjsImport") {
            match second_word_exec(t) {
                Some(v) => {
                    push_str(out, "var ");
                    push_all(out, v.as_slice());
                    push_str(out, "=");
                    let val = registry_value_exec(t);
                    push_all(out, val.as_slice());
                    push_str(out, ";\n");
                    assert(out@ =~= old(out)@ + stripped_line(line@));
                },
                None => {
                    assert(out@ =~= old(out)@ + stripped_line(line@));
                },
            }
        } else {
            assert(out@ =~= old(out)@ + stripped_line(line@));
        }
        return;
    }
    let l: Vec<char> = if contains_str(t, "import.meta.url") {
        replace_lit(line, "import.meta.url", "\"http://localhost:5173/\"")
    } else if contains_str(t, "import.meta.env") {
        replace_lit(line, "import.meta.env", "__vite_env__")
    } else if contains_str(t, "import.meta.hot") {
        replace_lit(line, "import.meta.hot", "__vite_hot_stub__")
    } else {
        copy_range(line, 0, line.len())
    };
    assert(line@.subrange(0, line@.len() as int) =~= line@);
    assert(l@ == meta_replaced(line@, t@));
    let key = chars_of("import __vite__cjsImport");
    let mut done = false;
    match find_first(l.as_slice(), key.as_slice(), 0) {
        Some(idx) => {
            proof {
                lemma_first_occ_bounds(l@, key@, 0);
            }
            let rest = copy_range(l.as_slice(), idx, l.len());
            assert(rest@ =~= l@.skip(idx as int));
            match second_word_exec(rest.as_slice()) {
                Some(vs) => {
                    let before = copy_range(l.as_slice(), 0, idx);
                    push_all(out, before.as_slice());
                    push_str(out, "var ");
                    let name = trim_var_end_exec(vs.as_slice());
                    push_all(out, name.as_slice());
                    push_str(out, "=");
                    let val = registry_value_exec(rest.as_slice());
                    push_all(out, val.as_slice());
                    push_str(out, ";");
                    assert(l@.subrange(0, idx as int) =~= l@.take(idx as int));
                    done = true;
                },
                None => {},
            }
        },
        None => {},
    }
    if !done {
        push_all(out, l.as_slice());
    }
    out.push('\n');
    assert(out@ =~= old(out)@ + stripped_line(line@));
}

/// Rewrites a module whose evaluation with imports failed into a classic
/// script: the stand-in prelude, then the module's lines without import and
/// export statements, interop imports turned into registry lookups, and
/// `export{...}` groups removed.
pub fn module_eval_fallback_source(raw: &str) -> (r: String)
    ensures
        r@ == module_eval_fallback(raw@),
{
    let cs = chars_of(raw);
    let ls = split_lines(cs.as_slice());
    let ghost lv = vecs_view(ls@);
    let mut text: Vec<char> = Vec::new();
    let mut i: usize = 0;
    while i < ls.len()
        invariant
            i <= ls@.len(),
            lv == vecs_view(ls@),
            lv == lines(raw@),
            text@ == stripped_lines(lv.take(i as int)),
        decreases ls@.len() - i,
    {
        assert(lv.take(i + 1).drop_last() =~= lv.take(i as int));
        stripped_line_exec(ls[i].as_slice(), &mut text);
        i = i + 1;
    }
    assert(lv.take(ls@.len() as int) =~= lv);
    let joined = string_from_chars(text.as_slice());
    let b = joined.as_str().as_bytes();
    assert(b@ == encode_utf8(stripped_lines(lines(raw@))));
    let mut out: Vec<char> = chars_of(MODULE_STUB_PRELUDE);
    let ghost pre = out@;
    let n = b.len();
    let mut k: usize = 0;
    assert(out@.skip(pre.len() as int) =~= Seq::<char>::empty());
    assert(out@.take(pre.len() as int) =~= pre);
    while k < n
        invariant
            n == b@.len(),
            k <= n,
            pre == MODULE_STUB_PRELUDE@,
            pre + drop_exports(b@, k as int, out@.skip(pre.len() as int)) == pre + drop_exports(
                b@,
                0,
                seq![],
            ),
            out@.len() >= pre.len(),
            out@.take(pre.len() as int) == pre,
        decreases n - k,
    {
        let ghost acc = out@.skip(pre.len() as int);
        if n - k >= 7 && b[k] == 0x65u8 && b[k + 1] == 0x78u8 && b[k + 2] == 0x70u8 && b[k + 3]
            == 0x6Fu8 && b[k + 4] == 0x72u8 && b[k + 5] == 0x74u8 && b[k + 6] == 0x7Bu8 {
            assert(b@.subrange(k as int, k + 7) =~= export_brace());
            let mut depth: usize = 1;
            let mut j = k + 7;
            while j < n && depth > 0
                invariant
                    n == b@.len(),
                    k + 7 <= j <= n,
                    depth <= j - k,
                    brace_end(b@, j as int, depth as int) == brace_end(b@, k + 7, 1),
                decreases n - j,
            {
                if b[j] == 0x7Bu8 {
                    depth = depth + 1;
                } else if b[j] == 0x7Du8 {
                    depth = depth - 1;
                }
                j = j + 1;
            }
            let ghost je = j;
            while j < n && b[j] == 0x3Bu8
                invariant
                    n == b@.len(),
                    je <= j <= n,
                    skip_semis(b@, j as int) == skip_semis(b@, je as int),
                decreases n - j,
            {
                j = j + 1;
            }
            k = j;
        } else {
            proof {
                if k + 7 <= n {
                    assert(b@.subrange(k as int, k + 7) != export_brace()) by {
                        if b@.subrange(k as int, k + 7) == export_brace() {
                            assert(b@.subrange(k as int, k + 7)[0] == b@[k as int]);
                            assert(b@.subrange(k as int, k + 7)[1] == b@[k + 1]);
                            assert(b@.subrange(k as int, k + 7)[2] == b@[k + 2]);
                            assert(b@.subrange(k as int, k + 7)[3] == b@[k + 3]);
                            assert(b@.subrange(k as int, k + 7)[4] == b@[k + 4]);
                            assert(b@.subrange(k as int, k + 7)[5] == b@[k + 5]);
                            assert(b@.subrange(k as int, k + 7)[6] == b@[k + 6]);
                        }
                    }
                }
            }
            let c = b[k] as char;
            out.push(c);
            assert(out@.skip(pre.len() as int) =~= acc.push(c));
            assert(out@.take(pre.len() as int) =~= pre);
            k = k + 1;
        }
    }
    assert(out@ =~= pre + out@.skip(pre.len() as int));
    string_from_chars(out.as_slice())
}


pub open spec fn env_form() -> Seq<char> {
    seq!['i', 'm', 'p', 'o', 'r', 't', '.', 'm', 'e', 't', 'a', '.', 'e', 'n', 'v']
}

pub open spec fn env_var() -> Seq<char> {
    seq!['_', '_', 'v', 'i', 't', 'e', '_', 'e', 'n', 'v', '_', '_']
}

/// The start of an inline interop import.
pub open spec fn interop_marker() -> Seq<char> {
    seq![
        'i', 'm', 'p', 'o', 'r', 't', ' ', '_', '_', 'v', 'i', 't', 'e', '_', '_', 'c', 'j', 's',
        'I', 'm', 'p', 'o', 'r', 't',
    ]
}

/// A prefix of the interop marker (past its first character) that the
/// rewritten text starts with was already at the start of the text: the
/// replacement `__vite_env__` cannot supply one.
proof fn lemma_env_keeps_marker_tail(t: Seq<char>, k: int)
    requires
        1 <= k < 24,
        starts_with(replace_all(t, env_form(), env_var()), interop_marker().skip(k)),
    ensures
        starts_with(t, interop_marker().skip(k)),
    decreases t.len(),
{
    let q = interop_marker();
    let w = q.skip(k);
    let r = replace_all(t, env_form(), env_var());
    assert(w.len() == 24 - k);
    if t.len() == 0 {
    } else if t.len() >= 15 && t.take(15) == env_form() {
        let v = env_var();
        assert(r == v + replace_all(t.skip(15), env_form(), env_var()));
        let j: int = if k == 7 {
            7
        } else if k == 8 {
            1
        } else if k == 13 {
            2
        } else if k == 14 {
            1
        } else {
            0
        };
        assert(j < w.len());
        assert(r[j] == v[j]);
        assert(r.take(w.len() as int)[j] == w[j]);
        assert(w[j] == q[k + j]);
        assert(q[k + j] != v[j]);
    } else {
        let t2 = t.drop_first();
        let r2 = replace_all(t2, env_form(), env_var());
        assert(r == seq![t[0]] + r2);
        assert(r.take(w.len() as int)[0] == w[0]);
        if k + 1 < 24 {
            assert(r2.take(w.len() - 1) =~= r.take(w.len() as int).drop_first());
            assert(q.skip(k + 1) =~= w.drop_first());
            lemma_env_keeps_marker_tail(t2, k + 1);
            assert(t.take(w.len() as int) =~= seq![t[0]] + t2.take(w.len() - 1));
        } else {
            assert(t.take(1) =~= seq![t[0]]);
        }
        assert(t.take(w.len() as int) =~= w);
    }
}

/// Replacing `import.meta.env` by `__vite_env__` makes no interop marker
/// where the text had none.
proof fn lemma_env_no_marker(s: Seq<char>)
    requires
        !contains(s, interop_marker()),
    ensures
        !contains(replace_all(s, env_form(), env_var()), interop_marker()),
    decreases s.len(),
{
    let q = interop_marker();
    let r = replace_all(s, env_form(), env_var());
    if s.len() == 0 {
        if contains(r, q) {
            let x = choose|x: int| occurs_at(r, q, x);
        }
    } else if s.len() >= 15 && s.take(15) == env_form() {
        let s2 = s.skip(15);
        let r2 = replace_all(s2, env_form(), env_var());
        assert(!contains(s2, q)) by {
            if contains(s2, q) {
                let x = choose|x: int| occurs_at(s2, q, x);
                assert(s.subrange(x + 15, x + 15 + 24) =~= s2.subrange(x, x + 24));
                assert(occurs_at(s, q, x + 15));
            }
        }
        lemma_env_no_marker(s2);
        assert(r == env_var() + r2);
        if contains(r, q) {
            let x = choose|x: int| occurs_at(r, q, x);
            if x >= 12 {
                assert(r2.subrange(x - 12, x - 12 + 24) =~= r.subrange(x, x + 24));
                assert(occurs_at(r2, q, x - 12));
            } else {
                assert(r.subrange(x, x + 24)[0] == r[x]);
                assert(r.subrange(x, x + 24)[1] == r[x + 1]);
                assert(r[x] == env_var()[x]);
                if x + 1 < 12 {
                    assert(r[x + 1] == env_var()[x + 1]);
                } else {
                    assert(r[x + 1] == r2[0]);
                }
            }
        }
    } else {
        let s2 = s.drop_first();
        let r2 = replace_all(s2, env_form(), env_var());
        assert(!contains(s2, q)) by {
            if contains(s2, q) {
                let x = choose|x: int| occurs_at(s2, q, x);
                assert(s.subrange(x + 1, x + 1 + 24) =~= s2.subrange(x, x + 24));
                assert(occurs_at(s, q, x + 1));
            }
        }
        lemma_env_no_marker(s2);
        assert(r == seq![s[0]] + r2);
        if contains(r, q) {
            let x = choose|x: int| occurs_at(r, q, x);
            if x >= 1 {
                assert(r2.subrange(x - 1, x - 1 + 24) =~= r.subrange(x, x + 24));
                assert(occurs_at(r2, q, x - 1));
            } else {
                assert(r.subrange(0, 24) == q);
                assert(s[0] == q[0]);
                assert(r2.take(23) =~= r.subrange(0, 24).drop_first());
                assert(q.skip(1) =~= r.subrange(0, 24).drop_first());
                lemma_env_keeps_marker_tail(s2, 1);
                assert(s2.take(23) == q.skip(1));
                assert(s2.len() >= 23);
                assert(s.subrange(0, 24) =~= seq![s[0]] + s2.take(23));
                assert(seq![q[0]] + q.skip(1) =~= q);
                assert(s.subrange(0, 24) == q);
                assert(occurs_at(s, q, 0));
            }
        }
    }
}

/// How many leading whitespace characters `trim_start` drops.
proof fn lemma_trim_start_drop(s: Seq<char>) -> (i: int)
    ensures
        0 <= i <= s.len(),
        trim_start(s) == s.skip(i),
        forall|k: int| 0 <= k < i ==> is_ws(#[trigger] s[k]),
    decreases s.len(),
{
    if s.len() > 0 && is_ws(s[0]) {
        let j = lemma_trim_start_drop(s.drop_first());
        assert(s.drop_first().skip(j) =~= s.skip(j + 1));
        assert forall|k: int| 0 <= k < j + 1 implies is_ws(#[trigger] s[k]) by {
            if k > 0 {
                assert(s[k] == s.drop_first()[k - 1]);
            }
        }
        j + 1
    } else {
        assert(s.skip(0) =~= s);
        0
    }
}

/// A line that mentions `import.meta.env` (and not `import.meta.url`), that
/// is not an import or export statement and holds no interop import, comes
/// out with every `import.meta.env` replaced by `__vite_env__`, then a line
/// feed; the result holds no `import.meta.env`.
pub proof fn lemma_env_line_rewritten(line: Seq<char>)
    requires
        !module_statement(trim_start(line)),
        contains(line, "import.meta.env"@),
        !contains(line, "import.meta.url"@),
        !contains(line, "import __vite__cjsImport"@),
    ensures
        stripped_line(line) == replace_all(line, "import.meta.env"@, "__vite_env__"@) + seq!['\n'],
        !contains(stripped_line(line), "import.meta.env"@),
{
    reveal_strlit("import.meta.env");
    reveal_strlit("import.meta.url");
    reveal_strlit("__vite_env__");
    reveal_strlit("import __vite__cjsImport");
    assert("import.meta.env"@ =~= env_form());
    assert("__vite_env__"@ =~= env_var());
    assert("import __vite__cjsImport"@ =~= interop_marker());
    let t = trim_start(line);
    let i = lemma_trim_start_drop(line);
    assert(contains(t, env_form())) by {
        let x = choose|x: int| occurs_at(line, env_form(), x);
        assert(line.subrange(x, x + 15)[0] == 'i');
        assert(line[x] == 'i');
        if x < i {
            assert(is_ws(line[x]));
        }
        assert(t.subrange(x - i, x - i + 15) =~= line.subrange(x, x + 15));
        assert(occurs_at(t, env_form(), x - i));
    }
    assert(!contains(t, "import.meta.url"@)) by {
        if contains(t, "import.meta.url"@) {
            let x = choose|x: int| occurs_at(t, "import.meta.url"@, x);
            assert(line.subrange(x + i, x + i + 15) =~= t.subrange(x, x + 15));
            assert(occurs_at(line, "import.meta.url"@, x + i));
        }
    }
    let x = replace_all(line, env_form(), env_var());
    assert(meta_replaced(line, t) == x);
    lemma_env_no_marker(line);
    crate::text::lemma_first_occ(x, interop_marker(), 0, None);
    assert(interop_replaced(x) == x);
    crate::text::lemma_replace_removes(line, env_form(), env_var());
    assert(!contains(seq!['\n'], env_form())) by {
        if contains(seq!['\n'], env_form()) {
            let y = choose|y: int| occurs_at(seq!['\n'], env_form(), y);
        }
    }
    assert(!env_form().contains('\n')) by {
        if env_form().contains('\n') {
            let y = choose|y: int| 0 <= y < env_form().len() && env_form()[y] == '\n';
        }
    }
    crate::text::lemma_concat_no_occ(x, seq!['\n'], env_form());
}

} // verus!
