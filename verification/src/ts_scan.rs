//! Comment stripping and the TypeScript heuristic that decides whether a
//! script source can be run at all.
use vstd::prelude::*;
use crate::text::{string_body, chars_of, contains, contains_str, occurs_at, occurs_at_exec, string_from_chars};

verus! {

/// Space, tab, line feed or carriage return.
pub open spec fn is_space(c: char) -> bool {
    c == ' ' || c == '\t' || c == '\n' || c == '\r'
}

fn is_space_char(c: char) -> (r: bool)
    ensures
        r == is_space(c),
{
    c == ' ' || c == '\t' || c == '\n' || c == '\r'
}

/// The characters after which a `/` starts a regular expression literal.
pub open spec fn is_regex_lead(c: char) -> bool {
    c == '(' || c == ',' || c == '=' || c == ':' || c == '[' || c == '!' || c == '&' || c
        == '|' || c == '?' || c == '{' || c == '}' || c == ';' || c == '+' || c == '-' || c
        == '*' || c == '%' || c == '~' || c == '^' || c == '<' || c == '>'
}

/// True when the last character of `o` that is not a space is one after
/// which a `/` starts a regular expression, or when there is none.
pub open spec fn can_start_regex(o: Seq<char>) -> bool
    decreases o.len(),
{
    if o.len() == 0 {
        true
    } else if is_space(o.last()) {
        can_start_regex(o.drop_last())
    } else {
        is_regex_lead(o.last())
    }
}

/// Whether a `/` written after `out` may start a regular expression: it may
/// after an operator or an opening bracket, or at the start of the input.
pub fn regex_can_start(out: &[char]) -> (r: bool)
    ensures
        r == can_start_regex(out@),
{
    let mut j = out.len();
    assert(out@.take(out@.len() as int) =~= out@);
    while j > 0
        invariant
            j <= out@.len(),
            can_start_regex(out@.take(j as int)) == can_start_regex(out@),
        decreases j,
    {
        let c = out[j - 1];
        assert(out@.take(j - 1) =~= out@.take(j as int).drop_last());
        if is_space_char(c) {
            j = j - 1;
            continue;
        }
        return c == '(' || c == ',' || c == '=' || c == ':' || c == '[' || c == '!' || c == '&'
            || c == '|' || c == '?' || c == '{' || c == '}' || c == ';' || c == '+' || c == '-'
            || c == '*' || c == '%' || c == '~' || c == '^' || c == '<' || c == '>';
    }
    true
}

/// The index of the `]` that closes a character class whose contents start
/// at `k`, with `\` escaping the next character; the end of `s` when none.
pub open spec fn class_end(s: Seq<char>, k: int) -> int
    decreases s.len() - k,
{
    if k < 0 || k >= s.len() || s[k] == ']' {
        k
    } else if s[k] == '\\' && k + 1 < s.len() {
        class_end(s, k + 2)
    } else {
        class_end(s, k + 1)
    }
}

pub proof fn lemma_class_end_ge(s: Seq<char>, k: int)
    ensures
        class_end(s, k) >= k,
    decreases s.len() - k,
{
    if k < 0 || k >= s.len() || s[k] == ']' {
    } else if s[k] == '\\' && k + 1 < s.len() {
        lemma_class_end_ge(s, k + 2);
    } else {
        lemma_class_end_ge(s, k + 1);
    }
}

/// The quote that closes string state `st` (1 single, 2 double, 3 template).
pub open spec fn quote_of(st: u8) -> char {
    if st == 1 {
        '\''
    } else if st == 2 {
        '"'
    } else {
        '`'
    }
}

/// The stripping state machine run from index `i` in state `st` with `out`
/// written so far; it gives the whole output. States: 0 code, 1 to 3 inside
/// a single-quoted, double-quoted or template string, 4 line comment, 5 block
/// comment, 6 regular expression literal. Strings and regular expressions
/// leave one space where they close, a block comment leaves one space, a
/// line comment leaves its line feed; their contents are dropped.
pub open spec fn strip_run(s: Seq<char>, i: int, st: u8, out: Seq<char>) -> Seq<char>
    decreases s.len() - i,
{
    if i < 0 || i >= s.len() {
        out
    } else {
        let c = s[i];
        let more = i + 1 < s.len();
        if 1 <= st && st <= 3 {
            if c == '\\' && more {
                strip_run(s, i + 2, st, out)
            } else if c == quote_of(st) {
                strip_run(s, i + 1, 0, out.push(' '))
            } else {
                strip_run(s, i + 1, st, out)
            }
        } else if st == 4 {
            if c == '\n' {
                strip_run(s, i + 1, 0, out.push('\n'))
            } else {
                strip_run(s, i + 1, 4, out)
            }
        } else if st == 5 {
            if c == '*' && more && s[i + 1] == '/' {
                strip_run(s, i + 2, 0, out.push(' '))
            } else {
                strip_run(s, i + 1, 5, out)
            }
        } else if st == 6 {
            if c == '\\' && more {
                strip_run(s, i + 2, 6, out)
            } else if c == '[' {
                let e = class_end(s, i + 1);
                proof {
                    lemma_class_end_ge(s, i + 1);
                }
                if e >= s.len() {
                    out
                } else {
                    strip_run(s, e + 1, 6, out)
                }
            } else if c == '/' {
                strip_run(s, i + 1, 0, out.push(' '))
            } else if c == '\n' {
                strip_run(s, i + 1, 0, out.push('\n'))
            } else {
                strip_run(s, i + 1, 6, out)
            }
        } else {
            if c == '\'' {
                strip_run(s, i + 1, 1, out.push(c))
            } else if c == '"' {
                strip_run(s, i + 1, 2, out.push(c))
            } else if c == '`' {
                strip_run(s, i + 1, 3, out.push(c))
            } else if c == '/' && more && s[i + 1] == '/' {
                strip_run(s, i + 2, 4, out)
            } else if c == '/' && more && s[i + 1] == '*' {
                strip_run(s, i + 2, 5, out)
            } else if c == '/' && can_start_regex(out) {
                strip_run(s, i + 1, 6, out)
            } else {
                strip_run(s, i + 1, 0, out.push(c))
            }
        }
    }
}

/// The source with comments, string contents and regular expression
/// contents removed.
pub open spec fn stripped(s: Seq<char>) -> Seq<char> {
    strip_run(s, 0, 0, seq![])
}

/// Removes line and block comments, and blanks the contents of strings and
/// regular expression literals, so that a heuristic sees only code.
pub fn strip_js_comments(code: &str) -> (r: String)
    ensures
        r@ == stripped(code@),
{
    let cs = chars_of(code);
    let b = cs.as_slice();
    let n = b.len();
    let mut out: Vec<char> = Vec::new();
    let mut i: usize = 0;
    let mut state: u8 = 0;
    while i < n
        invariant
            n == b@.len(),
            i <= n,
            state <= 6,
            strip_run(b@, i as int, state, out@) == stripped(b@),
        decreases n - i,
    {
        let c = b[i];
        if 1 <= state && state <= 3 {
            if c == '\\' && i + 1 < n {
                i = i + 2;
                continue;
            }
            let quote = if state == 1 {
                '\''
            } else if state == 2 {
                '"'
            } else {
                '`'
            };
            if c == quote {
                out.push(' ');
                state = 0;
            }
            i = i + 1;
        } else if state == 4 {
            if c == '\n' {
                out.push(c);
                state = 0;
            }
            i = i + 1;
        } else if state == 5 {
            if c == '*' && i + 1 < n && b[i + 1] == '/' {
                out.push(' ');
                i = i + 2;
                state = 0;
            } else {
                i = i + 1;
            }
        } else if state == 6 {
            if c == '\\' && i + 1 < n {
                i = i + 2;
                continue;
            }
            if c == '[' {
                let ghost start = i + 1;
                i = i + 1;
                while i < n && b[i] != ']'
                    invariant
                        n == b@.len(),
                        start <= i <= n,
                        class_end(b@, i as int) == class_end(b@, start),
                    decreases n - i,
                {
                    if b[i] == '\\' && i + 1 < n {
                        i = i + 1;
                    }
                    i = i + 1;
                }
                if i < n {
                    i = i + 1;
                }
                continue;
            }
            if c == '/' {
                out.push(' ');
                state = 0;
                i = i + 1;
                continue;
            }
            if c == '\n' {
                out.push(c);
                state = 0;
                i = i + 1;
                continue;
            }
            i = i + 1;
        } else {
            if c == '\'' || c == '"' || c == '`' {
                state = if c == '\'' {
                    1
                } else if c == '"' {
                    2
                } else {
                    3
                };
                out.push(c);
                i = i + 1;
            } else if c == '/' && i + 1 < n && b[i + 1] == '/' {
                state = 4;
                i = i + 2;
            } else if c == '/' && i + 1 < n && b[i + 1] == '*' {
                state = 5;
                i = i + 2;
            } else if c == '/' && regex_can_start(out.as_slice()) {
                state = 6;
                i = i + 1;
            } else {
                out.push(c);
                i = i + 1;
            }
        }
    }
    string_from_chars(out.as_slice())
}

pub open spec fn is_alnum(c: char) -> bool {
    ('a' <= c && c <= 'z') || ('A' <= c && c <= 'Z') || ('0' <= c && c <= '9')
}

/// The first index at or after `j` that does not hold a space.
pub open spec fn skip_space(s: Seq<char>, j: int) -> int
    decreases s.len() - j,
{
    if 0 <= j < s.len() && is_space(s[j]) {
        skip_space(s, j + 1)
    } else {
        j
    }
}

pub open spec fn void_word() -> Seq<char> {
    seq!['v', 'o', 'i', 'd']
}

/// A `)` at `i` followed, past spaces, by `:`, then, past spaces, by `void`
/// that does not continue into a longer word: a function's return type
/// annotation.
pub open spec fn void_return_at(s: Seq<char>, i: int) -> bool {
    0 <= i < s.len() && s[i] == ')' && {
        let j = skip_space(s, i + 1);
        j < s.len() && s[j] == ':' && {
            let k = skip_space(s, j + 1);
            occurs_at(s, void_word(), k) && (k + 4 >= s.len() || !(is_alnum(s[k + 4]) || s[k
                + 4] == '_'))
        }
    }
}

pub open spec fn has_void_return(s: Seq<char>) -> bool {
    exists|i: int| void_return_at(s, i)
}

fn skip_space_exec(b: &[char], j: usize) -> (r: usize)
    requires
        j <= b@.len(),
    ensures
        j <= r <= b@.len(),
        r == skip_space(b@, j as int),
{
    let mut k = j;
    while k < b.len() && is_space_char(b[k])
        invariant
            j <= k <= b@.len(),
            skip_space(b@, k as int) == skip_space(b@, j as int),
        decreases b@.len() - k,
    {
        k = k + 1;
    }
    k
}

/// Matches `\)\s*:\s*void\b`: `)`, spaces, `:`, spaces, then `void` at a
/// word end. Spaces are those of `is_space` and word characters ASCII letters,
/// digits and `_`. The pattern argument names what is matched and is not
/// interpreted.
pub fn regex_is_match(text: &str, _pattern: &str) -> (r: bool)
    ensures
        r == has_void_return(text@),
{
    let cs = chars_of(text);
    let b = cs.as_slice();
    let n = b.len();
    let kw: [char; 4] = ['v', 'o', 'i', 'd'];
    assert(kw@ =~= void_word());
    let mut i: usize = 0;
    while i < n
        invariant
            n == b@.len(),
            i <= n,
            kw@ == void_word(),
            b@ == text@,
            forall|k: int| 0 <= k < i ==> !void_return_at(b@, k),
        decreases n - i,
    {
        if b[i] == ')' {
            let j = skip_space_exec(b, i + 1);
            if j < n && b[j] == ':' {
                let k = skip_space_exec(b, j + 1);
                if occurs_at_exec(b, kw.as_slice(), k) {
                    let after = k + 4;
                    let next_ok = after >= n || !(is_alnum_char(b[after]) || b[after] == '_');
                    if next_ok {
                        assert(void_return_at(text@, i as int));
                        return true;
                    }
                }
            }
        }
        i = i + 1;
    }
    false
}

fn is_alnum_char(c: char) -> (r: bool)
    ensures
        r == is_alnum(c),
{
    ('a' <= c && c <= 'z') || ('A' <= c && c <= 'Z') || ('0' <= c && c <= '9')
}

/// The TypeScript markers looked for in stripped source.
pub open spec fn ts_like(t: Seq<char>) -> bool {
    has_void_return(t) || contains(t, ": string"@) || contains(t, ": number"@) || contains(
        t,
        ": boolean"@,
    ) || contains(t, ": any"@) || contains(t, " as const"@) || contains(t, ": ReturnType<"@) || (
    contains(t, ": \""@) && contains(t, " | "@)) || contains(t, "interface "@)
}

/// True when the source, with comments and string contents removed, shows
/// TypeScript syntax, which the engine cannot run.
pub fn has_ts_syntax(code: &str) -> (r: bool)
    ensures
        r == ts_like(stripped(code@)),
{
    let stripped_src = strip_js_comments(code);
    if regex_is_match(stripped_src.as_str(), "\\)\\s*:\\s*void\\b") {
        return true;
    }
    let t = chars_of(stripped_src.as_str());
    let s = t.as_slice();
    contains_str(s, ": string") || contains_str(s, ": number") || contains_str(s, ": boolean")
        || contains_str(s, ": any") || contains_str(s, " as const") || contains_str(
        s,
        ": ReturnType<",
    ) || (contains_str(s, ": \"") && contains_str(s, " | ")) || contains_str(s, "interface ")
}

proof fn lemma_strip_run_len(s: Seq<char>, i: int, st: u8, out: Seq<char>)
    requires
        0 <= i <= s.len(),
    ensures
        strip_run(s, i, st, out).len() <= out.len() + s.len() - i,
    decreases s.len() - i,
{
    if i < s.len() {
        let c = s[i];
        let more = i + 1 < s.len();
        if 1 <= st && st <= 3 {
            if c == '\\' && more {
                lemma_strip_run_len(s, i + 2, st, out);
            } else if c == quote_of(st) {
                lemma_strip_run_len(s, i + 1, 0, out.push(' '));
            } else {
                lemma_strip_run_len(s, i + 1, st, out);
            }
        } else if st == 4 {
            if c == '\n' {
                lemma_strip_run_len(s, i + 1, 0, out.push('\n'));
            } else {
                lemma_strip_run_len(s, i + 1, 4, out);
            }
        } else if st == 5 {
            if c == '*' && more && s[i + 1] == '/' {
                lemma_strip_run_len(s, i + 2, 0, out.push(' '));
            } else {
                lemma_strip_run_len(s, i + 1, 5, out);
            }
        } else if st == 6 {
            if c == '\\' && more {
                lemma_strip_run_len(s, i + 2, 6, out);
            } else if c == '[' {
                let e = class_end(s, i + 1);
                lemma_class_end_ge(s, i + 1);
                if e < s.len() {
                    lemma_strip_run_len(s, e + 1, 6, out);
                }
            } else if c == '/' {
                lemma_strip_run_len(s, i + 1, 0, out.push(' '));
            } else if c == '\n' {
                lemma_strip_run_len(s, i + 1, 0, out.push('\n'));
            } else {
                lemma_strip_run_len(s, i + 1, 6, out);
            }
        } else {
            if c == '\'' {
                lemma_strip_run_len(s, i + 1, 1, out.push(c));
            } else if c == '"' {
                lemma_strip_run_len(s, i + 1, 2, out.push(c));
            } else if c == '`' {
                lemma_strip_run_len(s, i + 1, 3, out.push(c));
            } else if c == '/' && more && s[i + 1] == '/' {
                lemma_strip_run_len(s, i + 2, 4, out);
            } else if c == '/' && more && s[i + 1] == '*' {
                lemma_strip_run_len(s, i + 2, 5, out);
            } else if c == '/' && can_start_regex(out) {
                lemma_strip_run_len(s, i + 1, 6, out);
            } else {
                lemma_strip_run_len(s, i + 1, 0, out.push(c));
            }
        }
    }
}

/// Stripping never lengthens a source: every character it writes stands
/// for at least one that it read.
pub proof fn lemma_strip_not_longer(s: Seq<char>)
    ensures
        stripped(s).len() <= s.len(),
{
    lemma_strip_run_len(s, 0, 0, seq![]);
}

/// Code without slashes, quotes and backticks holds no comment, string or
/// regular expression, and stripping leaves it as it is.
pub proof fn lemma_strip_plain(s: Seq<char>)
    requires
        forall|i: int|
            0 <= i < s.len() ==> #[trigger] s[i] != '/' && s[i] != '\'' && s[i] != '"' && s[i]
                != '`',
    ensures
        stripped(s) == s,
{
    lemma_strip_plain_from(s, 0, seq![]);
    assert(seq![] + s.skip(0) =~= s);
}

proof fn lemma_strip_plain_from(s: Seq<char>, i: int, out: Seq<char>)
    requires
        0 <= i <= s.len(),
        forall|k: int|
            0 <= k < s.len() ==> #[trigger] s[k] != '/' && s[k] != '\'' && s[k] != '"' && s[k]
                != '`',
    ensures
        strip_run(s, i, 0, out) == out + s.skip(i),
    decreases s.len() - i,
{
    if i < s.len() {
        lemma_strip_plain_from(s, i + 1, out.push(s[i]));
        assert(out.push(s[i]) + s.skip(i + 1) =~= out + s.skip(i));
    } else {
        assert(out + s.skip(i) =~= out);
    }
}

proof fn lemma_strip_plain_upto(s: Seq<char>, i: int, e: int, out: Seq<char>)
    requires
        0 <= i <= e <= s.len(),
        forall|k: int|
            i <= k < e ==> #[trigger] s[k] != '/' && s[k] != '\'' && s[k] != '"' && s[k]
                != '`',
    ensures
        strip_run(s, i, 0, out) == strip_run(s, e, 0, out + s.subrange(i, e)),
    decreases e - i,
{
    if i < e {
        lemma_strip_plain_upto(s, i + 1, e, out.push(s[i]));
        assert(out.push(s[i]) + s.subrange(i + 1, e) =~= out + s.subrange(i, e));
    } else {
        assert(out + s.subrange(i, e) =~= out);
    }
}

proof fn lemma_line_comment_run(s: Seq<char>, i: int, out: Seq<char>)
    requires
        0 <= i,
        forall|k: int| i <= k < s.len() ==> #[trigger] s[k] != '\n',
    ensures
        strip_run(s, i, 4, out) == out,
    decreases s.len() - i,
{
    if i < s.len() {
        lemma_line_comment_run(s, i + 1, out);
    }
}

/// A line comment at the end of plain code hides its text from the
/// heuristic: the stripped source is the code alone.
pub proof fn lemma_line_comment_hidden(code: Seq<char>, comment: Seq<char>)
    requires
        forall|i: int|
            0 <= i < code.len() ==> #[trigger] code[i] != '/' && code[i] != '\'' && code[i] != '"'
                && code[i] != '`',
        forall|i: int| 0 <= i < comment.len() ==> #[trigger] comment[i] != '\n',
    ensures
        stripped(code + seq!['/', '/'] + comment) == code,
{
    let s = code + seq!['/', '/'] + comment;
    let n = code.len() as int;
    assert forall|k: int| 0 <= k < n implies #[trigger] s[k] != '/' && s[k] != '\'' && s[k] != '"'
        && s[k] != '`' by {
        assert(s[k] == code[k]);
    }
    lemma_strip_plain_upto(s, 0, n, seq![]);
    assert(seq![] + s.subrange(0, n) =~= code);
    assert(s[n] == '/' && s[n + 1] == '/');
    assert forall|k: int| n + 2 <= k < s.len() implies #[trigger] s[k] != '\n' by {
        assert(s[k] == comment[k - n - 2]);
    }
    lemma_line_comment_run(s, n + 2, code);
}


/// Code with no slash, quote or backtick: no comment, string or regular
/// expression starts in it.
pub open spec fn plain_code(p: Seq<char>) -> bool {
    forall|k: int|
        0 <= k < p.len() ==> #[trigger] p[k] != '/' && p[k] != '\'' && p[k] != '"' && p[k] != '`'
}

proof fn lemma_string_run(s: Seq<char>, i: int, st: u8, out: Seq<char>, b: Seq<char>)
    requires
        1 <= st <= 3,
        0 <= i,
        i + b.len() < s.len(),
        s.subrange(i, i + b.len()) == b,
        string_body(b, quote_of(st)),
        s[i + b.len()] == quote_of(st),
    ensures
        strip_run(s, i, st, out) == strip_run(s, i + b.len() + 1, 0, out.push(' ')),
    decreases b.len(),
{
    if b.len() == 0 {
    } else if b[0] == '\\' {
        assert(s[i] == b[0]);
        assert(s.subrange(i + 2, i + 2 + b.skip(2).len()) =~= b.skip(2));
        lemma_string_run(s, i + 2, st, out, b.skip(2));
    } else {
        assert(s[i] == b[0]);
        assert(s.subrange(i + 1, i + 1 + b.skip(1).len()) =~= b.skip(1));
        lemma_string_run(s, i + 1, st, out, b.skip(1));
    }
}

/// A quoted string between plain code is stripped to its opening quote and
/// one space: a backslash escapes the character after it, so an escaped
/// quote neither ends the string nor lets its contents through.
pub proof fn lemma_strip_quoted_string(p: Seq<char>, q: char, body: Seq<char>, rest: Seq<char>)
    requires
        plain_code(p),
        plain_code(rest),
        q == '\'' || q == '"' || q == '`',
        string_body(body, q),
    ensures
        stripped(p + seq![q] + body + seq![q] + rest) == p + seq![q, ' '] + rest,
{
    let s = p + seq![q] + body + seq![q] + rest;
    let n = p.len() as int;
    let m = n + body.len() + 2;
    assert forall|k: int| 0 <= k < n implies #[trigger] s[k] != '/' && s[k] != '\'' && s[k]
        != '"' && s[k] != '`' by {
        assert(s[k] == p[k]);
    }
    lemma_strip_plain_upto(s, 0, n, seq![]);
    assert(seq![] + s.subrange(0, n) =~= p);
    assert(s[n] == q);
    let st: u8 = if q == '\'' {
        1
    } else if q == '"' {
        2
    } else {
        3
    };
    assert(quote_of(st) == q);
    assert(strip_run(s, n, 0, p) == strip_run(s, n + 1, st, p.push(q)));
    assert(s.subrange(n + 1, n + 1 + body.len()) =~= body);
    assert(s[n + 1 + body.len()] == q);
    lemma_string_run(s, n + 1, st, p.push(q), body);
    assert forall|k: int| m <= k < s.len() implies #[trigger] s[k] != '/' && s[k] != '\'' && s[k]
        != '"' && s[k] != '`' by {
        assert(s[k] == rest[k - m]);
    }
    lemma_strip_plain_upto(s, m, s.len() as int, p.push(q).push(' '));
    assert(s.subrange(m, s.len() as int) =~= rest);
    assert(p.push(q).push(' ') + rest =~= p + seq![q, ' '] + rest);
}


/// Each TypeScript marker, wherever it appears in the stripped source,
/// marks the source as TypeScript: a `): void` return annotation, the
/// annotations `: string`, `: number`, `: boolean`, `: any` and
/// `: ReturnType<`, `as const`, an `interface`, or a string literal type
/// beside a union bar.
pub proof fn lemma_ts_markers(t: Seq<char>)
    ensures
        has_void_return(t) ==> ts_like(t),
        contains(t, ": string"@) ==> ts_like(t),
        contains(t, ": number"@) ==> ts_like(t),
        contains(t, ": boolean"@) ==> ts_like(t),
        contains(t, ": any"@) ==> ts_like(t),
        contains(t, " as const"@) ==> ts_like(t),
        contains(t, ": ReturnType<"@) ==> ts_like(t),
        contains(t, "interface "@) ==> ts_like(t),
        contains(t, ": \""@) && contains(t, " | "@) ==> ts_like(t),
{
}

/// In plain code (no comment, string or regular expression) a marker such
/// as `: boolean` is seen as it is written: the source is TypeScript.
pub proof fn lemma_plain_annotation_is_ts(p: Seq<char>)
    requires
        plain_code(p),
        contains(p, ": boolean"@) || contains(p, ": string"@) || contains(p, ": number"@)
            || contains(p, ": any"@),
    ensures
        ts_like(stripped(p)),
{
    lemma_strip_plain(p);
}

} // verus!
