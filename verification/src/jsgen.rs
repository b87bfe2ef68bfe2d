//! JavaScript text that the runtime hands to the engine: script wrappers,
//! escaped string literal bodies and the small dispatch snippets.
use vstd::prelude::*;
use crate::text::{chars_of, dec, pad0, push_dec, push_str, string_from_chars};

verus! {

/// How a wrapped script starts: an immediately called function whose body
/// is guarded by `try`.
pub const WRAP_HEAD: &'static str = "(function(){\ntry{\n";

/// The `catch` of a wrapped module script, up to the label.
pub const MODULE_CATCH: &'static str = "\n}catch(__err){\nif(typeof __log === 'function'){\nvar __parts = [];\nvar __errObj = (__err !== null && __err !== undefined) ? __err : {};\nif (typeof __errObj.message === 'string') {\n    __parts.push('message=' + __errObj.message);\n} else if (typeof __errObj.toString === 'function') {\n    __parts.push('message=' + String(__errObj.toString()));\n} else {\n    __parts.push('message=' + String(__errObj));\n}\nif (typeof __errObj.stack !== 'undefined') __parts.push('stack=' + String(__errObj.stack));\n__log('[";

/// The `catch` of a wrapped classic script, up to the label; it logs more
/// of the error than the module form.
pub const CLASSIC_CATCH: &'static str = "\n}catch(__err){\nif(typeof __log === 'function'){\nvar __parts = [];\nvar __errObj = (__err !== null && __err !== undefined) ? __err : {};\nif (typeof __errObj.message === 'string') {\n    __parts.push('message=' + __errObj.message);\n} else if (typeof __errObj.toString === 'function') {\n    __parts.push('message=' + String(__errObj.toString()));\n} else {\n    __parts.push('message=' + String(__errObj));\n}\nif (typeof __errObj.name !== 'undefined') __parts.push('name=' + String(__errObj.name));\nif (typeof __errObj.fileName !== 'undefined') __parts.push('fileName=' + String(__errObj.fileName));\nif (typeof __errObj.lineNumber !== 'undefined') __parts.push('lineNumber=' + String(__errObj.lineNumber));\nif (typeof __errObj.columnNumber !== 'undefined') __parts.push('columnNumber=' + String(__errObj.columnNumber));\nif (typeof __errObj.stack !== 'undefined') __parts.push('stack=' + String(__errObj.stack));\nif (typeof __errObj.constructor === 'function' && __errObj.constructor.name) __parts.push('constructor=' + String(__errObj.constructor.name));\ntry { __parts.push('type=' + (typeof __errObj)); } catch(e) {}\ntry { if (typeof __errObj === 'object' && __errObj !== null) { __parts.push('errKeys=' + String(Object.keys(__errObj))); __parts.push('errToJSON=' + String(JSON.stringify(__errObj))); } } catch(e) {}\ntry { if (typeof __errObj.toString === 'function') __parts.push('errToString=' + String(__errObj.toString())); } catch(e) {}\n__log('[";

/// What follows the label: the end of the log call, the function and its
/// call.
pub const WRAP_TAIL: &'static str = "] ' + __parts.join(' | '));\n}\n}\n})();\n";

/// The comment that names a classic script's source, before its label.
pub const SOURCE_URL_MARK: &'static str = "//# sourceURL=";

/// A module script wrapped so that an exception is logged under `label`
/// instead of escaping.
pub open spec fn wrapped_module(code: Seq<char>, label: Seq<char>) -> Seq<char> {
    WRAP_HEAD@ + code + MODULE_CATCH@ + label + WRAP_TAIL@
}

/// A classic script wrapped like a module script, with a fuller log, and
/// named by `label` in a `sourceURL` comment.
pub open spec fn wrapped_classic(code: Seq<char>, label: Seq<char>) -> Seq<char> {
    WRAP_HEAD@ + code + CLASSIC_CATCH@ + label + WRAP_TAIL@ + SOURCE_URL_MARK@ + label + seq![
        '\n',
    ]
}

/// Wraps a module source that runs as a classic script in a function with
/// `try`/`catch` that logs the error under `label`.
pub fn wrap_script(code: &str, label: &str) -> (r: String)
    ensures
        r@ == wrapped_module(code@, label@),
{
    let mut out: Vec<char> = Vec::new();
    push_str(&mut out, WRAP_HEAD);
    push_str(&mut out, code);
    push_str(&mut out, MODULE_CATCH);
    push_str(&mut out, label);
    push_str(&mut out, WRAP_TAIL);
    string_from_chars(out.as_slice())
}

/// Wraps a classic script for evaluation: errors are logged under `label`,
/// and the source is named by `label`.
pub fn wrap_classic_script(code: &str, label: &str) -> (r: String)
    ensures
        r@ == wrapped_classic(code@, label@),
{
    let mut out: Vec<char> = Vec::new();
    push_str(&mut out, WRAP_HEAD);
    push_str(&mut out, code);
    push_str(&mut out, CLASSIC_CATCH);
    push_str(&mut out, label);
    push_str(&mut out, WRAP_TAIL);
    push_str(&mut out, SOURCE_URL_MARK);
    push_str(&mut out, label);
    out.push('\n');
    assert(out@ =~= wrapped_classic(code@, label@));
    string_from_chars(out.as_slice())
}

/// `name[idx]`, the label of the script at position `idx`.
pub open spec fn indexed(name: Seq<char>, idx: nat) -> Seq<char> {
    name + seq!['['] + dec(idx) + seq![']']
}

/// The label of the script at `idx`: `kind[idx]`, followed by a space and
/// the URL when there is one (`inline[0]`, `external[3] https://a/b.js`).
pub fn script_label(kind: &str, idx: u64, url: Option<&str>) -> (r: String)
    ensures
        r@ == match url {
            Some(u) => indexed(kind@, idx as nat) + seq![' '] + u@,
            None => indexed(kind@, idx as nat),
        },
{
    let mut out: Vec<char> = Vec::new();
    push_str(&mut out, kind);
    out.push('[');
    push_dec(&mut out, idx, 0);
    out.push(']');
    assert(pad0(dec(idx as nat), 0) == dec(idx as nat));
    match url {
        Some(u) => {
            out.push(' ');
            push_str(&mut out, u);
        },
        None => {},
    }
    string_from_chars(out.as_slice())
}

/// The escape of one character inside a single-quoted JavaScript string:
/// backslash, quote, line feed, carriage return and tab are escaped.
pub open spec fn esc(c: char) -> Seq<char> {
    if c == '\\' {
        seq!['\\', '\\']
    } else if c == '\'' {
        seq!['\\', '\'']
    } else if c == '\n' {
        seq!['\\', 'n']
    } else if c == '\r' {
        seq!['\\', 'r']
    } else if c == '\t' {
        seq!['\\', 't']
    } else {
        seq![c]
    }
}

/// `s` with each character escaped by `esc`.
pub open spec fn escape_ws(s: Seq<char>) -> Seq<char>
    decreases s.len(),
{
    if s.len() == 0 {
        seq![]
    } else {
        esc(s[0]) + escape_ws(s.drop_first())
    }
}

/// The escape of one character where only backslash and quote are escaped.
pub open spec fn esc_quote(c: char) -> Seq<char> {
    if c == '\\' {
        seq!['\\', '\\']
    } else if c == '\'' {
        seq!['\\', '\'']
    } else {
        seq![c]
    }
}

/// `s` with backslashes and single quotes escaped.
pub open spec fn escape_quotes(s: Seq<char>) -> Seq<char>
    decreases s.len(),
{
    if s.len() == 0 {
        seq![]
    } else {
        esc_quote(s[0]) + escape_quotes(s.drop_first())
    }
}

/// What an escape sequence `\x` stands for in a JavaScript string.
pub open spec fn unescaped(x: char) -> char {
    if x == 'n' {
        '\n'
    } else if x == 'r' {
        '\r'
    } else if x == 't' {
        '\t'
    } else {
        x
    }
}

/// How JavaScript reads `t` as the body of a single-quoted string literal:
/// the characters it stands for, or `None` when an unescaped quote or line
/// break would end the literal early, or a lone backslash ends it.
pub open spec fn js_read(t: Seq<char>) -> Option<Seq<char>>
    decreases t.len(),
{
    if t.len() == 0 {
        Some(seq![])
    } else if t[0] == '\\' {
        if t.len() < 2 {
            None
        } else {
            match js_read(t.skip(2)) {
                Some(r) => Some(seq![unescaped(t[1])] + r),
                None => None,
            }
        }
    } else if t[0] == '\'' || t[0] == '\n' || t[0] == '\r' {
        None
    } else {
        match js_read(t.skip(1)) {
            Some(r) => Some(seq![t[0]] + r),
            None => None,
        }
    }
}

/// Escaped text read back as a single-quoted literal gives back the
/// escaped string: the escape is safe to place between single quotes in code.
pub proof fn lemma_escape_roundtrip(s: Seq<char>)
    ensures
        js_read(escape_ws(s)) == Some(s),
    decreases s.len(),
{
    if s.len() > 0 {
        let rest = escape_ws(s.drop_first());
        lemma_escape_roundtrip(s.drop_first());
        let e = esc(s[0]);
        let t = e + rest;
        if e.len() == 2 {
            assert(t.skip(2) =~= rest);
        } else {
            assert(t.skip(1) =~= rest);
        }
        assert(seq![s[0]] + s.drop_first() =~= s);
    }
}

/// With backslashes and quotes escaped, a string without line breaks reads
/// back as itself between single quotes.
pub proof fn lemma_escape_quotes_roundtrip(s: Seq<char>)
    requires
        forall|i: int| 0 <= i < s.len() ==> #[trigger] s[i] != '\n' && s[i] != '\r',
    ensures
        js_read(escape_quotes(s)) == Some(s),
    decreases s.len(),
{
    if s.len() > 0 {
        let t0 = s.drop_first();
        assert forall|i: int| 0 <= i < t0.len() implies #[trigger] t0[i] != '\n' && t0[i] != '\r' by {
            assert(t0[i] == s[i + 1]);
        }
        lemma_escape_quotes_roundtrip(t0);
        let rest = escape_quotes(t0);
        let e = esc_quote(s[0]);
        let t = e + rest;
        if e.len() == 2 {
            assert(t.skip(2) =~= rest);
        } else {
            assert(t.skip(1) =~= rest);
        }
        assert(seq![s[0]] + t0 =~= s);
    }
}

fn push_escaped(out: &mut Vec<char>, s: &[char], quotes_only: bool)
    ensures
        final(out)@ == old(out)@ + (if quotes_only {
            escape_quotes(s@)
        } else {
            escape_ws(s@)
        }),
{
    let ghost start = out@;
    let mut i: usize = s.len();
    let mut tail: Vec<char> = Vec::new();
    while i > 0
        invariant
            i <= s@.len(),
            tail@ == (if quotes_only {
                escape_quotes(s@.skip(i as int))
            } else {
                escape_ws(s@.skip(i as int))
            }).reverse(),
        decreases i,
    {
        i = i - 1;
        let c = s[i];
        assert(s@.skip(i as int).drop_first() =~= s@.skip(i + 1));
        assert(s@.skip(i as int)[0] == c);
        let ghost before = tail@;
        if c == '\\' {
            tail.push('\\');
            tail.push('\\');
        } else if c == '\'' {
            tail.push('\'');
            tail.push('\\');
        } else if !quotes_only && c == '\n' {
            tail.push('n');
            tail.push('\\');
        } else if !quotes_only && c == '\r' {
            tail.push('r');
            tail.push('\\');
        } else if !quotes_only && c == '\t' {
            tail.push('t');
            tail.push('\\');
        } else {
            tail.push(c);
        }
        assert(tail@ =~= (if quotes_only {
            escape_quotes(s@.skip(i as int))
        } else {
            escape_ws(s@.skip(i as int))
        }).reverse());
    }
    assert(s@.skip(0) =~= s@);
    let mut k = tail.len();
    let ghost full = tail@.reverse();
    while k > 0
        invariant
            k <= tail@.len(),
            full == tail@.reverse(),
            out@ == start + full.take(tail@.len() - k),
        decreases k,
    {
        k = k - 1;
        out.push(tail[k]);
        assert(full.take(tail@.len() - k) =~= full.take(tail@.len() - k - 1).push(tail@[k as int]));
    }
    assert(full.take(tail@.len() as int) =~= full);
}

/// Escapes a WebSocket payload for use between single quotes in code:
/// backslash, quote, line feed, carriage return and tab.
pub fn escape_js_ws_data(s: &str) -> (r: String)
    ensures
        r@ == escape_ws(s@),
{
    let cs = chars_of(s);
    let mut out: Vec<char> = Vec::new();
    push_escaped(&mut out, cs.as_slice(), false);
    string_from_chars(out.as_slice())
}

/// Escapes backslashes and single quotes only.
pub fn escape_js_quotes(s: &str) -> (r: String)
    ensures
        r@ == escape_quotes(s@),
{
    let cs = chars_of(s);
    let mut out: Vec<char> = Vec::new();
    push_escaped(&mut out, cs.as_slice(), true);
    string_from_chars(out.as_slice())
}

/// The call that delivers a WebSocket event to the page:
/// `__wsDispatchEvent(id, 'type', 'data')`.
pub open spec fn ws_dispatch(id: nat, etype: Seq<char>, data: Seq<char>) -> Seq<char> {
    "__wsDispatchEvent("@ + dec(id) + ", '"@ + etype + "', '"@ + data + "')"@
}

/// The dispatch call for an event, with the payload fully escaped.
pub fn ws_dispatch_js(id: u64, etype: &str, data: &str) -> (r: String)
    ensures
        r@ == ws_dispatch(id as nat, etype@, escape_ws(data@)),
{
    let esc_data = escape_js_ws_data(data);
    let mut out: Vec<char> = Vec::new();
    push_str(&mut out, "__wsDispatchEvent(");
    push_dec(&mut out, id, 0);
    assert(pad0(dec(id as nat), 0) == dec(id as nat));
    push_str(&mut out, ", '");
    push_str(&mut out, etype);
    push_str(&mut out, "', '");
    push_str(&mut out, esc_data.as_str());
    push_str(&mut out, "')");
    string_from_chars(out.as_slice())
}

/// The dispatch call for an event, with backslashes and quotes of the
/// payload escaped.
pub fn ws_dispatch_js_quoted(id: u64, etype: &str, data: &str) -> (r: String)
    ensures
        r@ == ws_dispatch(id as nat, etype@, escape_quotes(data@)),
{
    let esc_data = escape_js_quotes(data);
    let mut out: Vec<char> = Vec::new();
    push_str(&mut out, "__wsDispatchEvent(");
    push_dec(&mut out, id, 0);
    assert(pad0(dec(id as nat), 0) == dec(id as nat));
    push_str(&mut out, ", '");
    push_str(&mut out, etype);
    push_str(&mut out, "', '");
    push_str(&mut out, esc_data.as_str());
    push_str(&mut out, "')");
    string_from_chars(out.as_slice())
}

/// The code that records a dynamically loaded script's outcome under its
/// raw `src` (`loaded` or `failed`), calls the callback waiting on it, and
/// removes that callback.
pub open spec fn dyn_pending(esc_src: Seq<char>, ok: bool) -> Seq<char> {
    let status: Seq<char> = if ok {
        "loaded"@
    } else {
        "failed"@
    };
    "try{window.__dynStatus=window.__dynStatus||{};window.__dynStatus['"@ + esc_src + "']='"@
        + status + "';}catch(e){}try{var __f=(window.__dynPending||{})['"@ + esc_src
        + "'];if(typeof __f==='function'){try{__f()}catch(e2){}}}catch(e1){}try{delete window.__dynPending['"@
        + esc_src + "'];}catch(e3){}"@
}

/// The code run after a dynamically added script was fetched (and run, when
/// `ok`), which fires its `onload` or `onerror`.
pub fn dyn_pending_js(raw_src: &str, ok: bool) -> (r: String)
    ensures
        r@ == dyn_pending(escape_quotes(raw_src@), ok),
{
    let e = escape_js_quotes(raw_src);
    let es = e.as_str();
    let mut out: Vec<char> = Vec::new();
    push_str(&mut out, "try{window.__dynStatus=window.__dynStatus||{};window.__dynStatus['");
    push_str(&mut out, es);
    push_str(&mut out, "']='");
    if ok {
        push_str(&mut out, "loaded");
    } else {
        push_str(&mut out, "failed");
    }
    push_str(&mut out, "';}catch(e){}try{var __f=(window.__dynPending||{})['");
    push_str(&mut out, es);
    push_str(
        &mut out,
        "'];if(typeof __f==='function'){try{__f()}catch(e2){}}}catch(e1){}try{delete window.__dynPending['",
    );
    push_str(&mut out, es);
    push_str(&mut out, "'];}catch(e3){}");
    string_from_chars(out.as_slice())
}

/// What `format!("{:?}", s)` writes for a string slice: its `Debug` form,
/// in double quotes with escapes.
pub uninterp spec fn debug_quoted(s: Seq<char>) -> Seq<char>;

/// The `Debug` form of a string (`format!("{:?}", s)`), the quoted argument
/// of the storage calls. Its characters are named, not described.
#[verifier::external_body]
fn debug_str(s: &str) -> (r: String)
    ensures
        r@ == debug_quoted(s@),
{
    format!("{:?}", s)
}

/// The code that reads a storage key.
pub fn storage_get_js(key: &str) -> (r: String)
    ensures
        r@ == "__storageGet("@ + debug_quoted(key@) + ");"@,
{
    let q = debug_str(key);
    let mut out: Vec<char> = Vec::new();
    push_str(&mut out, "__storageGet(");
    push_str(&mut out, q.as_str());
    push_str(&mut out, ");");
    string_from_chars(out.as_slice())
}

/// The code that writes a storage key.
pub fn storage_set_js(key: &str, val: &str) -> (r: String)
    ensures
        r@ == "__storageSet("@ + debug_quoted(key@) + ", "@ + debug_quoted(val@)
            + "); undefined;"@,
{
    let k = debug_str(key);
    let v = debug_str(val);
    let mut out: Vec<char> = Vec::new();
    push_str(&mut out, "__storageSet(");
    push_str(&mut out, k.as_str());
    push_str(&mut out, ", ");
    push_str(&mut out, v.as_str());
    push_str(&mut out, "); undefined;");
    string_from_chars(out.as_slice())
}

/// The code that removes a storage key.
pub fn storage_remove_js(key: &str) -> (r: String)
    ensures
        r@ == "__storageRemove("@ + debug_quoted(key@) + "); undefined;"@,
{
    let k = debug_str(key);
    let mut out: Vec<char> = Vec::new();
    push_str(&mut out, "__storageRemove(");
    push_str(&mut out, k.as_str());
    push_str(&mut out, "); undefined;");
    string_from_chars(out.as_slice())
}

/// The decimal numeral of an integer, with `-` when negative.
pub open spec fn int_text(i: int) -> Seq<char> {
    if i < 0 {
        seq!['-'] + dec((-i) as nat)
    } else {
        dec(i as nat)
    }
}

/// The code that reads the key at position `idx` (`-1` when no index was
/// given).
pub fn storage_key_js(idx: i64) -> (r: String)
    ensures
        r@ == "__storageKey("@ + int_text(idx as int) + ");"@,
{
    let mut out: Vec<char> = Vec::new();
    push_str(&mut out, "__storageKey(");
    let ghost before = out@;
    if idx < 0 {
        out.push('-');
        let m: u64 = (-(idx + 1)) as u64 + 1;
        assert(m == -(idx as int));
        push_dec(&mut out, m, 0);
        assert(pad0(dec(m as nat), 0) == dec(m as nat));
        assert(out@ =~= before + int_text(idx as int));
    } else {
        push_dec(&mut out, idx as u64, 0);
        assert(pad0(dec(idx as nat), 0) == dec(idx as nat));
        assert(out@ =~= before + int_text(idx as int));
    }
    push_str(&mut out, ");");
    string_from_chars(out.as_slice())
}

/// The code that empties the storage.
pub const STORAGE_CLEAR_JS: &'static str = "__storageClear(); undefined;";

/// The code that reads the number of stored keys.
pub const STORAGE_LENGTH_JS: &'static str = "__storageLen();";

/// The separator between shim segments: a statement boundary on a line of
/// its own.
pub const SHIM_SEPARATOR: &'static str = "\n;\n";

/// `parts` joined with `sep` between them.
pub open spec fn joined(parts: Seq<Seq<char>>, sep: Seq<char>) -> Seq<char>
    decreases parts.len(),
{
    if parts.len() == 0 {
        seq![]
    } else if parts.len() == 1 {
        parts[0]
    } else {
        joined(parts.drop_last(), sep) + sep + parts.last()
    }
}

/// The shim segments as one script, so that the globals each segment
/// declares are visible to the next: one evaluation shares one scope.
pub fn join_shims(parts: &[String]) -> (r: String)
    ensures
        r@ == joined(parts@.map_values(|p: String| p@), SHIM_SEPARATOR@),
{
    let ghost pv = parts@.map_values(|p: String| p@);
    let mut out: Vec<char> = Vec::new();
    let mut i: usize = 0;
    while i < parts.len()
        invariant
            i <= parts@.len(),
            pv == parts@.map_values(|p: String| p@),
            out@ == joined(pv.take(i as int), SHIM_SEPARATOR@),
        decreases parts@.len() - i,
    {
        assert(pv.take(i + 1).drop_last() =~= pv.take(i as int));
        if i > 0 {
            push_str(&mut out, SHIM_SEPARATOR);
        }
        push_str(&mut out, parts[i].as_str());
        i = i + 1;
        assert(out@ =~= joined(pv.take(i as int), SHIM_SEPARATOR@));
    }
    assert(pv.take(parts@.len() as int) =~= pv);
    string_from_chars(out.as_slice())
}

} // verus!
