//! A small JSON reader for data that pages embed in their HTML: objects,
//! arrays, strings (with `\u` escapes and surrogate pairs), numbers, `true`,
//! `false` and `null`. Numbers keep the text they were written with.
use vstd::prelude::*;
use vstd::string::StringSliceAdditionalSpecFns;
use vstd::utf8::{decode_utf8, valid_utf8};
use crate::text::{chars_of, dec, lemma_seq_lt_order, push_all, push_dec, push_str, seq_lt, str_lt, string_from_chars, string_of};

verus! {

/// A JSON value. Object members are kept in key order (`str` order), each
/// key once, as a `BTreeMap` keeps them; a key written twice keeps the value
/// written last.
#[derive(Debug)]
pub enum Json {
    Null,
    Bool(bool),
    /// A number, as the text it was written with.
    Number(String),
    Str(String),
    Array(Vec<Json>),
    Object(Vec<(String, Json)>),
}

/// The mathematical form of a JSON value.
pub enum JsonV {
    Null,
    Bool(bool),
    Number(Seq<char>),
    Str(Seq<char>),
    Array(Seq<JsonV>),
    Object(Seq<(Seq<char>, JsonV)>),
}

/// The value that a `Json` denotes.
pub open spec fn jv(j: Json) -> JsonV
    decreases j,
{
    match j {
        Json::Null => JsonV::Null,
        Json::Bool(b) => JsonV::Bool(b),
        Json::Number(s) => JsonV::Number(s@),
        Json::Str(s) => JsonV::Str(s@),
        Json::Array(v) => JsonV::Array(
            Seq::new(
                v@.len(),
                |i: int|
                    {
                        if 0 <= i < v@.len() {
                            jv(v@[i])
                        } else {
                            JsonV::Null
                        }
                    },
            ),
        ),
        Json::Object(v) => JsonV::Object(
            Seq::new(
                v@.len(),
                |i: int|
                    {
                        if 0 <= i < v@.len() {
                            (v@[i].0@, jv(v@[i].1))
                        } else {
                            (Seq::<char>::empty(), JsonV::Null)
                        }
                    },
            ),
        ),
    }
}

/// The members of an object, as key and value.
pub open spec fn members_view(v: Seq<(String, Json)>) -> Seq<(Seq<char>, JsonV)> {
    Seq::new(v.len(), |i: int| (v[i].0@, jv(v[i].1)))
}

/// The elements of an array.
pub open spec fn elems_view(v: Seq<Json>) -> Seq<JsonV> {
    Seq::new(v.len(), |i: int| jv(v[i]))
}

pub proof fn lemma_jv_containers(j: Json)
    ensures
        j matches Json::Array(v) ==> jv(j) == JsonV::Array(elems_view(v@)),
        j matches Json::Object(v) ==> jv(j) == JsonV::Object(members_view(v@)),
{
    if let Json::Array(v) = j {
        assert(jv(j)->Array_0 =~= elems_view(v@));
    }
    if let Json::Object(v) = j {
        assert(jv(j)->Object_0 =~= members_view(v@));
    }
}

/// Why reading a JSON text failed.
pub enum JsonErr {
    UnexpectedEnd,
    UnexpectedByte(u8),
    ExpectedColon,
    UnterminatedObject,
    ExpectedCommaOrBrace,
    UnterminatedArray,
    ExpectedCommaOrBracket,
    ExpectedString,
    BadEscape,
    BadUnicode,
    BadUnicodeUtf8,
    BadUnicodeHex,
    BadUnicode2Utf8,
    BadUnicode2Hex,
    BadEscapeByte(u8),
    BadUtf8InString,
    UnterminatedString,
    BadBool,
    BadNull,
    BadNumber(Seq<char>),
}

/// The message reported for each failure.
pub open spec fn err_text(e: JsonErr) -> Seq<char> {
    match e {
        JsonErr::UnexpectedEnd => "unexpected end"@,
        JsonErr::UnexpectedByte(c) => "unexpected byte "@ + dec(c as nat),
        JsonErr::ExpectedColon => "expected ':' in object"@,
        JsonErr::UnterminatedObject => "unterminated object"@,
        JsonErr::ExpectedCommaOrBrace => "expected ',' or '}'"@,
        JsonErr::UnterminatedArray => "unterminated array"@,
        JsonErr::ExpectedCommaOrBracket => "expected ',' or ']'"@,
        JsonErr::ExpectedString => "expected string"@,
        JsonErr::BadEscape => "bad escape"@,
        JsonErr::BadUnicode => "bad \\u"@,
        JsonErr::BadUnicodeUtf8 => "bad \\u utf8"@,
        JsonErr::BadUnicodeHex => "bad \\u hex"@,
        JsonErr::BadUnicode2Utf8 => "bad \\u2 utf8"@,
        JsonErr::BadUnicode2Hex => "bad \\u2 hex"@,
        JsonErr::BadEscapeByte(c) => "bad escape \\"@ + dec(c as nat),
        JsonErr::BadUtf8InString => "bad utf8 in string"@,
        JsonErr::UnterminatedString => "unterminated string"@,
        JsonErr::BadBool => "bad bool"@,
        JsonErr::BadNull => "bad null"@,
        JsonErr::BadNumber(t) => "bad number "@ + t + ": invalid float literal"@,
    }
}

/// The bytes that `u8::is_ascii_whitespace` accepts.
pub open spec fn is_ascii_ws(c: u8) -> bool {
    c == 32 || c == 9 || c == 10 || c == 12 || c == 13
}

pub open spec fn is_digit(c: u8) -> bool {
    48 <= c <= 57
}

pub open spec fn is_hex(c: u8) -> bool {
    is_digit(c) || (97 <= c <= 102) || (65 <= c <= 70)
}

pub open spec fn hex_val(c: u8) -> u32 {
    if is_digit(c) {
        (c - 48) as u32
    } else if 97 <= c <= 102 {
        (c - 87) as u32
    } else {
        (c - 55) as u32
    }
}

/// The value of four bytes read as hexadecimal by `u32::from_str_radix`:
/// four hex digits, or `+` and three hex digits.
pub open spec fn hex4(h: Seq<u8>) -> Option<u32> {
    if h.len() != 4 {
        None
    } else if is_hex(h[0]) && is_hex(h[1]) && is_hex(h[2]) && is_hex(h[3]) {
        Some(
            (hex_val(h[0]) * 4096 + hex_val(h[1]) * 256 + hex_val(h[2]) * 16 + hex_val(
                h[3],
            )) as u32,
        )
    } else if h[0] == 43 && is_hex(h[1]) && is_hex(h[2]) && is_hex(h[3]) {
        Some((hex_val(h[1]) * 256 + hex_val(h[2]) * 16 + hex_val(h[3])) as u32)
    } else {
        None
    }
}

/// The values that are Unicode scalars (`char::from_u32` accepts them).
pub open spec fn scalar_value(v: u32) -> bool {
    v <= 0x10FFFF && !(0xD800 <= v && v <= 0xDFFF)
}

/// The first position at or after `i` that is not ASCII whitespace.
pub open spec fn skip_ws_pos(b: Seq<u8>, i: int) -> int
    decreases b.len() - i,
{
    if 0 <= i < b.len() && is_ascii_ws(b[i]) {
        skip_ws_pos(b, i + 1)
    } else {
        i
    }
}

pub proof fn lemma_skip_ws(b: Seq<u8>, i: int)
    ensures
        i <= skip_ws_pos(b, i),
        i <= b.len() ==> skip_ws_pos(b, i) <= b.len(),
        0 <= skip_ws_pos(b, i) < b.len() ==> !is_ascii_ws(b[skip_ws_pos(b, i)]),
        i >= 0 ==> skip_ws_pos(b, i) >= 0,
    decreases b.len() - i,
{
    if 0 <= i < b.len() && is_ascii_ws(b[i]) {
        lemma_skip_ws(b, i + 1);
    }
}

/// The end of a run of plain string bytes: the first position at or after
/// `i` holding `"` or `\`, or the end.
pub open spec fn seg_end(b: Seq<u8>, i: int) -> int
    decreases b.len() - i,
{
    if 0 <= i < b.len() && b[i] != 34 && b[i] != 92 {
        seg_end(b, i + 1)
    } else {
        i
    }
}

pub proof fn lemma_seg_end(b: Seq<u8>, i: int)
    requires
        0 <= i <= b.len(),
    ensures
        i <= seg_end(b, i) <= b.len(),
        forall|k: int| i <= k < seg_end(b, i) ==> b[k] != 34 && b[k] != 92,
        seg_end(b, i) < b.len() ==> (b[seg_end(b, i)] == 34 || b[seg_end(b, i)] == 92),
    decreases b.len() - i,
{
    if 0 <= i < b.len() && b[i] != 34 && b[i] != 92 {
        lemma_seg_end(b, i + 1);
    }
}

/// The character of a simple escape `\c`, if `c` is one.
pub open spec fn simple_escape(c: u8) -> Option<char> {
    if c == 34 {
        Some('"')
    } else if c == 92 {
        Some('\\')
    } else if c == 47 {
        Some('/')
    } else if c == 110 {
        Some('\n')
    } else if c == 116 {
        Some('\t')
    } else if c == 114 {
        Some('\r')
    } else if c == 98 {
        Some('\u{8}')
    } else if c == 102 {
        Some('\u{c}')
    } else {
        None
    }
}

/// Reading the rest of a string literal from `i`, having read `out` so far:
/// the text and the position after the closing quote.
pub open spec fn str_body(b: Seq<u8>, i: int, out: Seq<char>) -> Result<(Seq<char>, int), JsonErr>
    decreases b.len() - i,
{
    if i < 0 || i >= b.len() {
        Err(JsonErr::UnterminatedString)
    } else if b[i] == 34 {
        Ok((out, i + 1))
    } else if b[i] == 92 {
        let p = i + 1;
        if p >= b.len() {
            Err(JsonErr::BadEscape)
        } else if simple_escape(b[p]) is Some {
            str_body(b, p + 1, out.push(simple_escape(b[p])->0))
        } else if b[p] == 117 {
            if p + 5 > b.len() {
                Err(JsonErr::BadUnicode)
            } else if !valid_utf8(b.subrange(p + 1, p + 5)) {
                Err(JsonErr::BadUnicodeUtf8)
            } else {
                match hex4(b.subrange(p + 1, p + 5)) {
                    None => Err(JsonErr::BadUnicodeHex),
                    Some(cp) => {
                        let q = p + 4;
                        if 0xD800 <= cp && cp <= 0xDBFF {
                            if q + 7 <= b.len() && b[q + 1] == 92 && b[q + 2] == 117 {
                                if !valid_utf8(b.subrange(q + 3, q + 7)) {
                                    Err(JsonErr::BadUnicode2Utf8)
                                } else {
                                    match hex4(b.subrange(q + 3, q + 7)) {
                                        None => Err(JsonErr::BadUnicode2Hex),
                                        Some(lo) => if 0xDC00 <= lo && lo <= 0xDFFF {
                                            let v = (0x10000 + (cp - 0xD800) * 1024 + (lo
                                                - 0xDC00)) as u32;
                                            str_body(b, q + 7, out.push(v as char))
                                        } else {
                                            str_body(b, q + 1, out.push('\u{FFFD}'))
                                        },
                                    }
                                }
                            } else {
                                str_body(b, q + 1, out.push('\u{FFFD}'))
                            }
                        } else if scalar_value(cp) {
                            str_body(b, q + 1, out.push(cp as char))
                        } else {
                            str_body(b, q + 1, out)
                        }
                    },
                }
            }
        } else {
            Err(JsonErr::BadEscapeByte(b[p]))
        }
    } else {
        let e = seg_end(b, i);
        if !valid_utf8(b.subrange(i, e)) {
            Err(JsonErr::BadUtf8InString)
        } else {
            proof {
                lemma_seg_end(b, i);
            }
            str_body(b, e, out + decode_utf8(b.subrange(i, e)))
        }
    }
}

/// Reading a string literal at `i`.
pub open spec fn p_string(b: Seq<u8>, i: int) -> Result<(Seq<char>, int), JsonErr> {
    if i < 0 || i >= b.len() || b[i] != 34 {
        Err(JsonErr::ExpectedString)
    } else {
        str_body(b, i + 1, seq![])
    }
}

pub proof fn lemma_str_body_pos(b: Seq<u8>, i: int, out: Seq<char>)
    ensures
        str_body(b, i, out) matches Ok((s, k)) ==> i < k <= b.len(),
    decreases b.len() - i,
{
    if i < 0 || i >= b.len() {
    } else if b[i] == 34 {
    } else if b[i] == 92 {
        let p = i + 1;
        if p >= b.len() {
        } else if simple_escape(b[p]) is Some {
            lemma_str_body_pos(b, p + 1, out.push(simple_escape(b[p])->0));
        } else if b[p] == 117 {
            if p + 5 <= b.len() && valid_utf8(b.subrange(p + 1, p + 5)) {
                if let Some(cp) = hex4(b.subrange(p + 1, p + 5)) {
                    let q = p + 4;
                    if 0xD800 <= cp && cp <= 0xDBFF {
                        if q + 7 <= b.len() && b[q + 1] == 92 && b[q + 2] == 117 {
                            if valid_utf8(b.subrange(q + 3, q + 7)) {
                                if let Some(lo) = hex4(b.subrange(q + 3, q + 7)) {
                                    if 0xDC00 <= lo && lo <= 0xDFFF {
                                        let v = (0x10000 + (cp - 0xD800) * 1024 + (lo - 0xDC00)) as u32;
                                        lemma_str_body_pos(b, q + 7, out.push(v as char));
                                    } else {
                                        lemma_str_body_pos(b, q + 1, out.push('\u{FFFD}'));
                                    }
                                }
                            }
                        } else {
                            lemma_str_body_pos(b, q + 1, out.push('\u{FFFD}'));
                        }
                    } else if scalar_value(cp) {
                        lemma_str_body_pos(b, q + 1, out.push(cp as char));
                    } else {
                        lemma_str_body_pos(b, q + 1, out);
                    }
                }
            }
        }
    } else {
        let e = seg_end(b, i);
        lemma_seg_end(b, i);
        if valid_utf8(b.subrange(i, e)) {
            lemma_str_body_pos(b, e, out + decode_utf8(b.subrange(i, e)));
        }
    }
}

/// The end of the number text that starts at `i`: digits, `.`, `e`, `E`,
/// `+` and `-`.
pub open spec fn num_end(b: Seq<u8>, i: int) -> int
    decreases b.len() - i,
{
    if 0 <= i < b.len() && (is_digit(b[i]) || b[i] == 46 || b[i] == 101 || b[i] == 69 || b[i]
        == 43 || b[i] == 45) {
        num_end(b, i + 1)
    } else {
        i
    }
}

pub proof fn lemma_num_end(b: Seq<u8>, i: int)
    requires
        0 <= i <= b.len(),
    ensures
        i <= num_end(b, i) <= b.len(),
    decreases b.len() - i,
{
    if 0 <= i < b.len() && (is_digit(b[i]) || b[i] == 46 || b[i] == 101 || b[i] == 69 || b[i]
        == 43 || b[i] == 45) {
        lemma_num_end(b, i + 1);
    }
}

/// The first position at or after `i` that is not a decimal digit.
pub open spec fn digits_end(t: Seq<u8>, i: int) -> int
    decreases t.len() - i,
{
    if 0 <= i < t.len() && is_digit(t[i]) {
        digits_end(t, i + 1)
    } else {
        i
    }
}

/// The decimal literals that `f64::from_str` accepts: an optional sign, a
/// mantissa of digits with at most one `.` and at least one digit, and an
/// optional exponent `e`/`E`, optional sign, digits.
pub open spec fn float_syntax(t: Seq<u8>) -> bool {
    let i0: int = if t.len() > 0 && (t[0] == 43 || t[0] == 45) {
        1
    } else {
        0
    };
    let i1 = digits_end(t, i0);
    let has_dot = i1 < t.len() && t[i1] == 46;
    let i2 = if has_dot {
        digits_end(t, i1 + 1)
    } else {
        i1
    };
    let frac = if has_dot {
        i2 - (i1 + 1)
    } else {
        0
    };
    if i1 - i0 == 0 && frac == 0 {
        false
    } else if i2 == t.len() {
        true
    } else if t[i2] == 101 || t[i2] == 69 {
        let j = i2 + 1;
        let j2 = if j < t.len() && (t[j] == 43 || t[j] == 45) {
            j + 1
        } else {
            j
        };
        let j3 = digits_end(t, j2);
        j3 > j2 && j3 == t.len()
    } else {
        false
    }
}

/// ASCII bytes as characters.
pub open spec fn ascii_chars(t: Seq<u8>) -> Seq<char> {
    t.map_values(|c: u8| c as char)
}

/// The byte sequence of an ASCII word.
pub open spec fn word(s: Seq<char>) -> Seq<u8> {
    s.map_values(|c: char| c as u8)
}

/// True when the bytes at `i` start with `w`.
pub open spec fn starts_at(b: Seq<u8>, i: int, w: Seq<u8>) -> bool {
    0 <= i && i + w.len() <= b.len() && b.subrange(i, i + w.len()) == w
}

pub open spec fn true_word() -> Seq<u8> {
    seq![116u8, 114u8, 117u8, 101u8]
}

pub open spec fn false_word() -> Seq<u8> {
    seq![102u8, 97u8, 108u8, 115u8, 101u8]
}

pub open spec fn null_word() -> Seq<u8> {
    seq![110u8, 117u8, 108u8, 108u8]
}

/// Reading `true` or `false` at `i`.
pub open spec fn p_bool(b: Seq<u8>, i: int) -> Result<(JsonV, int), JsonErr> {
    if starts_at(b, i, true_word()) {
        Ok((JsonV::Bool(true), i + 4))
    } else if starts_at(b, i, false_word()) {
        Ok((JsonV::Bool(false), i + 5))
    } else {
        Err(JsonErr::BadBool)
    }
}

/// Reading `null` at `i`.
pub open spec fn p_null(b: Seq<u8>, i: int) -> Result<(JsonV, int), JsonErr> {
    if starts_at(b, i, null_word()) {
        Ok((JsonV::Null, i + 4))
    } else {
        Err(JsonErr::BadNull)
    }
}

/// Reading a number at `i` (where `b[i]` is `-` or a digit).
pub open spec fn p_number(b: Seq<u8>, i: int) -> Result<(JsonV, int), JsonErr> {
    let s = if 0 <= i < b.len() && b[i] == 45 {
        i + 1
    } else {
        i
    };
    let k = num_end(b, s);
    let t = b.subrange(i, k);
    if float_syntax(t) {
        Ok((JsonV::Number(ascii_chars(t)), k))
    } else {
        Err(JsonErr::BadNumber(ascii_chars(t)))
    }
}

/// The index of the member with key `k`, or -1.
pub open spec fn key_index(m: Seq<(Seq<char>, JsonV)>, k: Seq<char>) -> int
    decreases m.len(),
{
    if m.len() == 0 {
        -1
    } else if key_index(m.drop_last(), k) >= 0 {
        key_index(m.drop_last(), k)
    } else if m.last().0 == k {
        m.len() - 1
    } else {
        -1
    }
}

/// The members after writing `k: v`: the value of an existing key is
/// replaced in place, a new key is added at the end.
/// The index at which key `k` goes among the members `m`: after the members
/// whose keys come before it in `str` order.
pub open spec fn insert_pos(m: Seq<(Seq<char>, JsonV)>, k: Seq<char>) -> int
    decreases m.len(),
{
    if m.len() == 0 {
        0
    } else if seq_lt(m[0].0, k) {
        1 + insert_pos(m.drop_first(), k)
    } else {
        0
    }
}

/// The members after writing `k: v`, as a `BTreeMap` keeps them: in key
/// order, a key written again keeping its place with the new value.
pub open spec fn obj_insert(m: Seq<(Seq<char>, JsonV)>, k: Seq<char>, v: JsonV) -> Seq<
    (Seq<char>, JsonV),
> {
    let p = insert_pos(m, k);
    if p < m.len() && m[p].0 == k {
        m.update(p, (k, v))
    } else {
        m.insert(p, (k, v))
    }
}

/// Reading a value at `i`, after optional whitespace: the value and the
/// position after it.

pub open spec fn p_value(b: Seq<u8>, i: int) -> Result<(JsonV, int), JsonErr>
    decreases b.len() - i, 1int,
{
    let j = skip_ws_pos(b, i);
    proof {
        lemma_skip_ws(b, i);
    }
    if j < 0 || j >= b.len() {
        Err(JsonErr::UnexpectedEnd)
    } else {
        let c = b[j];
        if c == 123 {
            p_object(b, j)
        } else if c == 91 {
            p_array(b, j)
        } else if c == 34 {
            match p_string(b, j) {
                Ok((s, k)) => Ok((JsonV::Str(s), k)),
                Err(e) => Err(e),
            }
        } else if c == 116 || c == 102 {
            p_bool(b, j)
        } else if c == 110 {
            p_null(b, j)
        } else if c == 45 || is_digit(c) {
            p_number(b, j)
        } else {
            Err(JsonErr::UnexpectedByte(c))
        }
    }
}

/// Reading an object whose `{` is at `i`.

pub open spec fn p_object(b: Seq<u8>, i: int) -> Result<(JsonV, int), JsonErr>
    decreases b.len() - i, 0int,
{
    if i < 0 || i >= b.len() {
        Err(JsonErr::UnexpectedEnd)
    } else {
        let j = skip_ws_pos(b, i + 1);
        if j < b.len() && b[j] == 125 {
            Ok((JsonV::Object(seq![]), j + 1))
        } else {
            p_members(b, i + 1, seq![])
        }
    }
}

/// Reading the members of an object from `k`, having read `acc`.

pub open spec fn p_members(b: Seq<u8>, k: int, acc: Seq<(Seq<char>, JsonV)>) -> Result<
    (JsonV, int),
    JsonErr,
>
    decreases b.len() - k, 2int,
{
    if k < 0 || k > b.len() {
        Err(JsonErr::UnterminatedObject)
    } else {
        let k1 = skip_ws_pos(b, k);
        proof {
            lemma_skip_ws(b, k);
        }
        match p_string(b, k1) {
            Err(e) => Err(e),
            Ok((key, k2)) => {
                proof {
                    lemma_str_body_pos(b, k1 + 1, seq![]);
                    lemma_skip_ws(b, k2);
                }
                let k3 = skip_ws_pos(b, k2);
                if k3 >= b.len() || b[k3] != 58 {
                    Err(JsonErr::ExpectedColon)
                } else {
                    match p_value(b, k3 + 1) {
                        Err(e) => Err(e),
                        Ok((v, k4)) => {
                            let acc2 = obj_insert(acc, key, v);
                            let k5 = skip_ws_pos(b, k4);
                            if k5 < 0 || k5 >= b.len() {
                                Err(JsonErr::UnterminatedObject)
                            } else if b[k5] == 44 {
                                if k5 + 1 > k {
                                    p_members(b, k5 + 1, acc2)
                                } else {
                                    Err(JsonErr::UnterminatedObject)
                                }
                            } else if b[k5] == 125 {
                                Ok((JsonV::Object(acc2), k5 + 1))
                            } else {
                                Err(JsonErr::ExpectedCommaOrBrace)
                            }
                        },
                    }
                }
            },
        }
    }
}

/// Reading an array whose `[` is at `i`.

pub open spec fn p_array(b: Seq<u8>, i: int) -> Result<(JsonV, int), JsonErr>
    decreases b.len() - i, 0int,
{
    if i < 0 || i >= b.len() {
        Err(JsonErr::UnexpectedEnd)
    } else {
        let j = skip_ws_pos(b, i + 1);
        proof {
            lemma_skip_ws(b, i + 1);
        }
        if j < b.len() && b[j] == 93 {
            Ok((JsonV::Array(seq![]), j + 1))
        } else {
            p_elems(b, j, seq![])
        }
    }
}

/// Reading the elements of an array from `k`, having read `acc`.

pub open spec fn p_elems(b: Seq<u8>, k: int, acc: Seq<JsonV>) -> Result<(JsonV, int), JsonErr>
    decreases b.len() - k, 2int,
{
    if k < 0 || k > b.len() {
        Err(JsonErr::UnterminatedArray)
    } else {
        match p_value(b, k) {
            Err(e) => Err(e),
            Ok((v, k2)) => {
                let acc2 = acc.push(v);
                let k3 = skip_ws_pos(b, k2);
                if k3 < 0 || k3 >= b.len() {
                    Err(JsonErr::UnterminatedArray)
                } else if b[k3] == 44 {
                    if k3 + 1 > k {
                        p_elems(b, k3 + 1, acc2)
                    } else {
                        Err(JsonErr::UnterminatedArray)
                    }
                } else if b[k3] == 93 {
                    Ok((JsonV::Array(acc2), k3 + 1))
                } else {
                    Err(JsonErr::ExpectedCommaOrBracket)
                }
            },
        }
    }
}

/// The value of a JSON text (text after the value is not read).
pub open spec fn json_of(b: Seq<u8>) -> Result<JsonV, JsonErr> {
    match p_value(b, skip_ws_pos(b, 0)) {
        Ok((v, k)) => Ok(v),
        Err(e) => Err(e),
    }
}

pub proof fn lemma_skip_ws_idem(b: Seq<u8>, i: int)
    ensures
        skip_ws_pos(b, skip_ws_pos(b, i)) == skip_ws_pos(b, i),
    decreases b.len() - i,
{
    if 0 <= i < b.len() && is_ascii_ws(b[i]) {
        lemma_skip_ws_idem(b, i + 1);
    }
}

/// How an executable result matches a result of the reading functions.
pub open spec fn matches_value(s: Result<(JsonV, int), JsonErr>, r: Result<Json, String>, pos: int) -> bool {
    match s {
        Ok((v, k)) => r matches Ok(j) && jv(j) == v && pos == k,
        Err(e) => r matches Err(m) && m@ == err_text(e),
    }
}

pub open spec fn matches_text(s: Result<(Seq<char>, int), JsonErr>, r: Result<String, String>, pos: int) -> bool {
    match s {
        Ok((t, k)) => r matches Ok(x) && x@ == t && pos == k,
        Err(e) => r matches Err(m) && m@ == err_text(e),
    }
}

fn is_ascii_ws_byte(c: u8) -> (r: bool)
    ensures
        r == is_ascii_ws(c),
{
    c == 32 || c == 9 || c == 10 || c == 12 || c == 13
}

fn is_digit_byte(c: u8) -> (r: bool)
    ensures
        r == is_digit(c),
{
    48 <= c && c <= 57
}

fn is_hex_byte(c: u8) -> (r: bool)
    ensures
        r == is_hex(c),
{
    (48 <= c && c <= 57) || (97 <= c && c <= 102) || (65 <= c && c <= 70)
}

fn hex_val_byte(c: u8) -> (r: u32)
    requires
        is_hex(c),
    ensures
        r == hex_val(c),
        r < 16,
{
    if 48 <= c && c <= 57 {
        (c - 48) as u32
    } else if 97 <= c && c <= 102 {
        (c - 87) as u32
    } else {
        (c - 55) as u32
    }
}

fn hex4_exec(h: &[u8]) -> (r: Option<u32>)
    requires
        h@.len() == 4,
    ensures
        r == hex4(h@),
{
    if is_hex_byte(h[0]) && is_hex_byte(h[1]) && is_hex_byte(h[2]) && is_hex_byte(h[3]) {
        Some(
            hex_val_byte(h[0]) * 4096 + hex_val_byte(h[1]) * 256 + hex_val_byte(h[2]) * 16
                + hex_val_byte(h[3]),
        )
    } else if h[0] == 43 && is_hex_byte(h[1]) && is_hex_byte(h[2]) && is_hex_byte(h[3]) {
        Some(hex_val_byte(h[1]) * 256 + hex_val_byte(h[2]) * 16 + hex_val_byte(h[3]))
    } else {
        None
    }
}

fn simple_escape_exec(c: u8) -> (r: Option<char>)
    ensures
        r == simple_escape(c),
{
    if c == 34 {
        Some('"')
    } else if c == 92 {
        Some('\\')
    } else if c == 47 {
        Some('/')
    } else if c == 110 {
        Some('\n')
    } else if c == 116 {
        Some('\t')
    } else if c == 114 {
        Some('\r')
    } else if c == 98 {
        Some('\u{8}')
    } else if c == 102 {
        Some('\u{c}')
    } else {
        None
    }
}

/// `std::str::from_utf8`: the text of the bytes when they are valid UTF-8.
#[verifier::external_body]
fn utf8_text(b: &[u8]) -> (r: Option<String>)
    ensures
        r is Some <==> valid_utf8(b@),
        r matches Some(s) ==> s@ == decode_utf8(b@),
{
    std::str::from_utf8(b).ok().map(|s| s.to_string())
}

/// `char::from_u32`: the character with code `v` when `v` is a scalar value.
#[verifier::external_body]
fn char_of(v: u32) -> (r: Option<char>)
    ensures
        r is Some <==> scalar_value(v),
        r matches Some(c) ==> c == v as char,
{
    char::from_u32(v)
}

fn msg_byte(prefix: &str, c: u8) -> (r: String)
    ensures
        r@ == prefix@ + dec(c as nat),
{
    let mut out: Vec<char> = Vec::new();
    push_str(&mut out, prefix);
    push_dec(&mut out, c as u64, 0);
    string_from_chars(out.as_slice())
}

fn msg_number(t: &[char]) -> (r: String)
    ensures
        r@ == "bad number "@ + t@ + ": invalid float literal"@,
{
    let mut out: Vec<char> = Vec::new();
    push_str(&mut out, "bad number ");
    push_all(&mut out, t);
    push_str(&mut out, ": invalid float literal");
    string_from_chars(out.as_slice())
}

fn digits_end_exec(t: &[u8], i: usize) -> (r: usize)
    requires
        i <= t@.len(),
    ensures
        r == digits_end(t@, i as int),
        i <= r <= t@.len(),
{
    let mut k = i;
    while k < t.len() && is_digit_byte(t[k])
        invariant
            i <= k <= t@.len(),
            digits_end(t@, k as int) == digits_end(t@, i as int),
        decreases t@.len() - k,
    {
        k = k + 1;
    }
    k
}

/// Whether the text is a decimal literal that `f64::from_str` accepts.
fn float_syntax_exec(t: &[u8]) -> (r: bool)
    ensures
        r == float_syntax(t@),
{
    let n = t.len();
    let i0: usize = if n > 0 && (t[0] == 43 || t[0] == 45) {
        1
    } else {
        0
    };
    let i1 = digits_end_exec(t, i0);
    let has_dot = i1 < n && t[i1] == 46;
    let i2 = if has_dot {
        digits_end_exec(t, i1 + 1)
    } else {
        i1
    };
    let frac = if has_dot {
        i2 - (i1 + 1)
    } else {
        0
    };
    if i1 - i0 == 0 && frac == 0 {
        false
    } else if i2 == n {
        true
    } else if t[i2] == 101 || t[i2] == 69 {
        let j = i2 + 1;
        let j2 = if j < n && (t[j] == 43 || t[j] == 45) {
            j + 1
        } else {
            j
        };
        let j3 = digits_end_exec(t, j2);
        j3 > j2 && j3 == n
    } else {
        false
    }
}

pub proof fn lemma_key_index(m: Seq<(Seq<char>, JsonV)>, k: Seq<char>, i: int)
    requires
        -1 <= i < m.len(),
        forall|t: int| 0 <= t < m.len() && (i < 0 || t < i) ==> m[t].0 != k,
        i >= 0 ==> m[i].0 == k,
    ensures
        key_index(m, k) == i,
    decreases m.len(),
{
    if m.len() > 0 {
        if i == m.len() - 1 {
            lemma_key_index(m.drop_last(), k, -1);
        } else {
            lemma_key_index(m.drop_last(), k, i);
        }
    }
}

proof fn lemma_insert_pos(m: Seq<(Seq<char>, JsonV)>, k: Seq<char>, p: int)
    requires
        0 <= p <= m.len(),
        forall|t: int| 0 <= t < p ==> seq_lt(#[trigger] m[t].0, k),
        p < m.len() ==> !seq_lt(m[p].0, k),
    ensures
        insert_pos(m, k) == p,
    decreases p,
{
    if p > 0 {
        assert forall|t: int| 0 <= t < p - 1 implies seq_lt(#[trigger] m.drop_first()[t].0, k) by {
            assert(m.drop_first()[t] == m[t + 1]);
        }
        lemma_insert_pos(m.drop_first(), k, p - 1);
    }
}

/// Members in strictly increasing key order: each key once.
pub open spec fn keys_sorted(m: Seq<(Seq<char>, JsonV)>) -> bool {
    forall|i: int, j: int| 0 <= i < j < m.len() ==> seq_lt(#[trigger] m[i].0, #[trigger] m[j].0)
}

proof fn lemma_insert_pos_bounds(m: Seq<(Seq<char>, JsonV)>, k: Seq<char>)
    ensures
        0 <= insert_pos(m, k) <= m.len(),
        forall|t: int| 0 <= t < insert_pos(m, k) ==> seq_lt(#[trigger] m[t].0, k),
        insert_pos(m, k) < m.len() ==> !seq_lt(m[insert_pos(m, k)].0, k),
    decreases m.len(),
{
    if m.len() > 0 && seq_lt(m[0].0, k) {
        lemma_insert_pos_bounds(m.drop_first(), k);
        assert forall|t: int| 0 <= t < insert_pos(m, k) implies seq_lt(#[trigger] m[t].0, k) by {
            if t > 0 {
                assert(m[t] == m.drop_first()[t - 1]);
            }
        }
    }
}

/// Writing a member keeps the members in key order, each key once, and the
/// written key then reads as the written value.
pub proof fn lemma_obj_insert_sorted(m: Seq<(Seq<char>, JsonV)>, k: Seq<char>, v: JsonV)
    requires
        keys_sorted(m),
    ensures
        keys_sorted(obj_insert(m, k, v)),
        key_index(obj_insert(m, k, v), k) >= 0,
        obj_insert(m, k, v)[key_index(obj_insert(m, k, v), k)].1 == v,
{
    lemma_insert_pos_bounds(m, k);
    let p = insert_pos(m, k);
    let r = obj_insert(m, k, v);
    if p < m.len() && m[p].0 == k {
        assert forall|i: int, j: int| 0 <= i < j < r.len() implies seq_lt(#[trigger] r[i].0, #[trigger] r[j].0) by {
            assert(r[i].0 == m[i].0 && r[j].0 == m[j].0);
        }
        assert forall|t: int| 0 <= t < p implies r[t].0 != k by {
            lemma_seq_lt_order(r[t].0, k, k);
        }
        lemma_key_index(r, k, p);
    } else {
        if p < m.len() {
            lemma_seq_lt_order(m[p].0, k, k);
        }
        assert forall|i: int, j: int| 0 <= i < j < r.len() implies seq_lt(#[trigger] r[i].0, #[trigger] r[j].0) by {
            if j < p {
            } else if j == p {
            } else if i == p {
                assert(r[j] == m[j - 1]);
                if j - 1 > p {
                    lemma_seq_lt_order(k, m[p].0, m[j - 1].0);
                }
            } else if i < p {
                assert(r[j] == m[j - 1]);
            } else {
                assert(r[i] == m[i - 1] && r[j] == m[j - 1]);
            }
        }
        assert forall|t: int| 0 <= t < p implies r[t].0 != k by {
            lemma_seq_lt_order(r[t].0, k, k);
        }
        lemma_key_index(r, k, p);
    }
}

/// Every object in `v`, at any depth, has its members in strictly
/// increasing key order.
pub open spec fn deep_sorted(v: JsonV) -> bool
    decreases v,
{
    match v {
        JsonV::Object(m) => keys_sorted(m) && members_deep(m),
        JsonV::Array(a) => elems_deep(a),
        _ => true,
    }
}

/// `deep_sorted` holds of every member value.
pub open spec fn members_deep(m: Seq<(Seq<char>, JsonV)>) -> bool
    decreases m,
{
    if m.len() == 0 {
        true
    } else {
        members_deep(m.drop_last()) && deep_sorted(m[m.len() - 1].1)
    }
}

/// `deep_sorted` holds of every element.
pub open spec fn elems_deep(a: Seq<JsonV>) -> bool
    decreases a,
{
    if a.len() == 0 {
        true
    } else {
        elems_deep(a.drop_last()) && deep_sorted(a[a.len() - 1])
    }
}

pub open spec fn deep_sorted_at(m: Seq<(Seq<char>, JsonV)>, i: int) -> bool {
    deep_sorted(m[i].1)
}

pub open spec fn deep_sorted_elem(a: Seq<JsonV>, i: int) -> bool {
    deep_sorted(a[i])
}

proof fn lemma_members_deep(m: Seq<(Seq<char>, JsonV)>)
    ensures
        members_deep(m) <==> forall|i: int| 0 <= i < m.len() ==> #[trigger] deep_sorted_at(m, i),
    decreases m.len(),
{
    if m.len() > 0 {
        let d = m.drop_last();
        lemma_members_deep(d);
        if members_deep(m) {
            assert forall|i: int| 0 <= i < m.len() implies #[trigger] deep_sorted_at(m, i) by {
                if i < m.len() - 1 {
                    assert(deep_sorted_at(d, i));
                }
            }
        }
        if forall|i: int| 0 <= i < m.len() ==> #[trigger] deep_sorted_at(m, i) {
            assert forall|i: int| 0 <= i < d.len() implies #[trigger] deep_sorted_at(d, i) by {
                assert(deep_sorted_at(m, i));
            }
            assert(deep_sorted_at(m, m.len() - 1));
        }
    }
}

proof fn lemma_elems_deep(a: Seq<JsonV>)
    ensures
        elems_deep(a) <==> forall|i: int| 0 <= i < a.len() ==> #[trigger] deep_sorted_elem(a, i),
    decreases a.len(),
{
    if a.len() > 0 {
        let d = a.drop_last();
        lemma_elems_deep(d);
        if elems_deep(a) {
            assert forall|i: int| 0 <= i < a.len() implies #[trigger] deep_sorted_elem(a, i) by {
                if i < a.len() - 1 {
                    assert(deep_sorted_elem(d, i));
                }
            }
        }
        if forall|i: int| 0 <= i < a.len() ==> #[trigger] deep_sorted_elem(a, i) {
            assert forall|i: int| 0 <= i < d.len() implies #[trigger] deep_sorted_elem(d, i) by {
                assert(deep_sorted_elem(a, i));
            }
            assert(deep_sorted_elem(a, a.len() - 1));
        }
    }
}

proof fn lemma_obj_insert_values(m: Seq<(Seq<char>, JsonV)>, k: Seq<char>, v: JsonV)
    requires
        forall|i: int| 0 <= i < m.len() ==> #[trigger] deep_sorted_at(m, i),
        deep_sorted(v),
    ensures
        forall|i: int|
            0 <= i < obj_insert(m, k, v).len() ==> #[trigger] deep_sorted_at(obj_insert(m, k, v), i),
{
    lemma_insert_pos_bounds(m, k);
    let p = insert_pos(m, k);
    let r = obj_insert(m, k, v);
    assert forall|i: int| 0 <= i < r.len() implies #[trigger] deep_sorted_at(r, i) by {
        if p < m.len() && m[p].0 == k {
            if i != p {
                assert(deep_sorted_at(m, i));
            }
        } else {
            if i < p {
                assert(deep_sorted_at(m, i));
            } else if i > p {
                assert(deep_sorted_at(m, i - 1));
                assert(r[i] == m[i - 1]);
            }
        }
    }
}

proof fn lemma_value_sorted(b: Seq<u8>, i: int)
    ensures
        p_value(b, i) matches Ok((v, _)) ==> deep_sorted(v),
    decreases b.len() - i, 1int,
{
    let j = skip_ws_pos(b, i);
    lemma_skip_ws(b, i);
    if 0 <= j < b.len() {
        if b[j] == 123 {
            lemma_object_sorted(b, j);
        } else if b[j] == 91 {
            lemma_array_sorted(b, j);
        }
    }
}

proof fn lemma_object_sorted(b: Seq<u8>, i: int)
    ensures
        p_object(b, i) matches Ok((v, _)) ==> deep_sorted(v),
    decreases b.len() - i, 0int,
{
    if 0 <= i < b.len() {
        let j = skip_ws_pos(b, i + 1);
        if j < b.len() && b[j] == 125 {
        } else {
            lemma_members_sorted(b, i + 1, seq![]);
        }
    }
}

#[verifier::rlimit(60)]
proof fn lemma_members_sorted(b: Seq<u8>, k: int, acc: Seq<(Seq<char>, JsonV)>)
    requires
        keys_sorted(acc),
        forall|i: int| 0 <= i < acc.len() ==> #[trigger] deep_sorted_at(acc, i),
    ensures
        p_members(b, k, acc) matches Ok((v, _)) ==> deep_sorted(v),
    decreases b.len() - k, 2int,
{
    if 0 <= k <= b.len() {
        let k1 = skip_ws_pos(b, k);
        lemma_skip_ws(b, k);
        if let Ok((key, k2)) = p_string(b, k1) {
            lemma_str_body_pos(b, k1 + 1, seq![]);
            lemma_skip_ws(b, k2);
            let k3 = skip_ws_pos(b, k2);
            if k3 < b.len() && b[k3] == 58 {
                lemma_value_sorted(b, k3 + 1);
                if let Ok((v, k4)) = p_value(b, k3 + 1) {
                    let acc2 = obj_insert(acc, key, v);
                    lemma_obj_insert_sorted(acc, key, v);
                    lemma_obj_insert_values(acc, key, v);
                    let k5 = skip_ws_pos(b, k4);
                    if 0 <= k5 < b.len() && b[k5] == 44 && k5 + 1 > k {
                        lemma_members_sorted(b, k5 + 1, acc2);
                    } else if 0 <= k5 < b.len() && b[k5] == 125 {
                        lemma_members_deep(acc2);
                        assert(deep_sorted(JsonV::Object(acc2)));
                    }
                }
            }
        }
    }
}

proof fn lemma_array_sorted(b: Seq<u8>, i: int)
    ensures
        p_array(b, i) matches Ok((v, _)) ==> deep_sorted(v),
    decreases b.len() - i, 0int,
{
    if 0 <= i < b.len() {
        let j = skip_ws_pos(b, i + 1);
        lemma_skip_ws(b, i + 1);
        if j < b.len() && b[j] == 93 {
        } else {
            lemma_elems_sorted(b, j, seq![]);
        }
    }
}

proof fn lemma_elems_sorted(b: Seq<u8>, k: int, acc: Seq<JsonV>)
    requires
        forall|i: int| 0 <= i < acc.len() ==> #[trigger] deep_sorted_elem(acc, i),
    ensures
        p_elems(b, k, acc) matches Ok((v, _)) ==> deep_sorted(v),
    decreases b.len() - k, 2int,
{
    if 0 <= k <= b.len() {
        lemma_value_sorted(b, k);
        if let Ok((v, k2)) = p_value(b, k) {
            let acc2 = acc.push(v);
            assert forall|i: int| 0 <= i < acc2.len() implies #[trigger] deep_sorted_elem(acc2, i) by {
                if i < acc.len() {
                    assert(deep_sorted_elem(acc, i));
                }
            }
            let k3 = skip_ws_pos(b, k2);
            if 0 <= k3 < b.len() && b[k3] == 44 && k3 + 1 > k {
                lemma_elems_sorted(b, k3 + 1, acc2);
            } else if 0 <= k3 < b.len() && b[k3] == 93 {
                lemma_elems_deep(acc2);
                assert(deep_sorted(JsonV::Array(acc2)));
            }
        }
    }
}

/// Every object that the reader gives, at any depth, has its members in
/// strictly increasing key order: each key once, as a `BTreeMap` holds
/// them.
pub proof fn lemma_json_objects_sorted(b: Seq<u8>)
    ensures
        json_of(b) matches Ok(v) ==> deep_sorted(v),
{
    lemma_value_sorted(b, skip_ws_pos(b, 0));
}

fn insert_member(members: &mut Vec<(String, Json)>, key: String, val: Json)
    ensures
        members_view(final(members)@) == obj_insert(members_view(old(members)@), key@, jv(val)),
{
    let ghost m = members_view(members@);
    let kc = chars_of(key.as_str());
    let mut p: usize = 0;
    while p < members.len() && str_lt(chars_of(members[p].0.as_str()).as_slice(), kc.as_slice())
        invariant
            p <= members@.len(),
            members@ == old(members)@,
            m == members_view(members@),
            kc@ == key@,
            forall|t: int| 0 <= t < p ==> seq_lt(#[trigger] m[t].0, key@),
        decreases members@.len() - p,
    {
        p = p + 1;
    }
    proof {
        lemma_insert_pos(m, key@, p as int);
    }
    if p < members.len() && members[p].0 == key {
        members.set(p, (key, val));
        assert(members_view(members@) =~= m.update(p as int, (key@, jv(val))));
        return;
    }
    let ghost e = (key@, jv(val));
    members.insert(p, (key, val));
    assert(members_view(members@) =~= m.insert(p as int, e));
}

/// One step of reading a value: the dispatch on its first byte.
proof fn lemma_value_step(b: Seq<u8>, i: int)
    ensures
        p_value(b, i) == ({
            let j = skip_ws_pos(b, i);
            if j < 0 || j >= b.len() {
                Err(JsonErr::UnexpectedEnd)
            } else {
                let c = b[j];
                if c == 123 {
                    p_object(b, j)
                } else if c == 91 {
                    p_array(b, j)
                } else if c == 34 {
                    match p_string(b, j) {
                        Ok((s, k)) => Ok((JsonV::Str(s), k)),
                        Err(e) => Err(e),
                    }
                } else if c == 116 || c == 102 {
                    p_bool(b, j)
                } else if c == 110 {
                    p_null(b, j)
                } else if c == 45 || is_digit(c) {
                    p_number(b, j)
                } else {
                    Err(JsonErr::UnexpectedByte(c))
                }
            }
        }),
{

    let j = skip_ws_pos(b, i);
    if j < 0 || j >= b.len() {
        assert(p_value(b, i) == Err::<(JsonV, int), JsonErr>(JsonErr::UnexpectedEnd));
    }
}

/// One step of reading an object: the empty object, or its members.
proof fn lemma_object_step(b: Seq<u8>, i: int)
    requires
        0 <= i < b.len(),
    ensures
        p_object(b, i) == ({
            let j = skip_ws_pos(b, i + 1);
            if j < b.len() && b[j] == 125 {
                Ok((JsonV::Object(seq![]), j + 1))
            } else {
                p_members(b, i + 1, seq![])
            }
        }),
{

}

/// One step of reading the members of an object.
proof fn lemma_members_step(b: Seq<u8>, k: int, acc: Seq<(Seq<char>, JsonV)>)
    requires
        0 <= k <= b.len(),
    ensures
        p_members(b, k, acc) == ({
            let k1 = skip_ws_pos(b, k);
            match p_string(b, k1) {
                Err(e) => Err(e),
                Ok((key, k2)) => {
                    let k3 = skip_ws_pos(b, k2);
                    if k3 >= b.len() || b[k3] != 58 {
                        Err(JsonErr::ExpectedColon)
                    } else {
                        match p_value(b, k3 + 1) {
                            Err(e) => Err(e),
                            Ok((v, k4)) => {
                                let acc2 = obj_insert(acc, key, v);
                                let k5 = skip_ws_pos(b, k4);
                                if k5 < 0 || k5 >= b.len() {
                                    Err(JsonErr::UnterminatedObject)
                                } else if b[k5] == 44 {
                                    if k5 + 1 > k {
                                        p_members(b, k5 + 1, acc2)
                                    } else {
                                        Err(JsonErr::UnterminatedObject)
                                    }
                                } else if b[k5] == 125 {
                                    Ok((JsonV::Object(acc2), k5 + 1))
                                } else {
                                    Err(JsonErr::ExpectedCommaOrBrace)
                                }
                            },
                        }
                    }
                },
            }
        }),
{

}

/// One step of reading an array: the empty array, or its elements.
proof fn lemma_array_step(b: Seq<u8>, i: int)
    requires
        0 <= i < b.len(),
    ensures
        p_array(b, i) == ({
            let j = skip_ws_pos(b, i + 1);
            if j < b.len() && b[j] == 93 {
                Ok((JsonV::Array(seq![]), j + 1))
            } else {
                p_elems(b, j, seq![])
            }
        }),
{

}

/// One step of reading the elements of an array.
proof fn lemma_elems_step(b: Seq<u8>, k: int, acc: Seq<JsonV>)
    requires
        0 <= k <= b.len(),
    ensures
        p_elems(b, k, acc) == ({
            match p_value(b, k) {
                Err(e) => Err(e),
                Ok((v, k2)) => {
                    let acc2 = acc.push(v);
                    let k3 = skip_ws_pos(b, k2);
                    if k3 < 0 || k3 >= b.len() {
                        Err(JsonErr::UnterminatedArray)
                    } else if b[k3] == 44 {
                        if k3 + 1 > k {
                            p_elems(b, k3 + 1, acc2)
                        } else {
                            Err(JsonErr::UnterminatedArray)
                        }
                    } else if b[k3] == 93 {
                        Ok((JsonV::Array(acc2), k3 + 1))
                    } else {
                        Err(JsonErr::ExpectedCommaOrBracket)
                    }
                },
            }
        }),
{

}

/// A reading position in the bytes of a JSON text.
pub struct Parser<'a> {
    b: &'a [u8],
    i: usize,
}

impl<'a> Parser<'a> {
    /// Moves past ASCII whitespace.
    fn skip_ws(&mut self)
        requires
            old(self).i <= old(self).b@.len(),
        ensures
            final(self).b == old(self).b,
            final(self).i == skip_ws_pos(old(self).b@, old(self).i as int),
            final(self).i <= final(self).b@.len(),
    {
        let n = self.b.len();
        while self.i < n && is_ascii_ws_byte(self.b[self.i])
            invariant
                n == self.b@.len(),
                self.b == old(self).b,
                self.i <= n,
                skip_ws_pos(self.b@, self.i as int) == skip_ws_pos(old(self).b@, old(self).i as int),
            decreases n - self.i,
        {
            self.i = self.i + 1;
        }
    }

    /// Reads a string literal; the position is on its opening quote.
    fn parse_string(&mut self) -> (r: Result<String, String>)
        requires
            old(self).i <= old(self).b@.len(),
        ensures
            final(self).b == old(self).b,
            final(self).i <= final(self).b@.len(),
            matches_text(p_string(old(self).b@, old(self).i as int), r, final(self).i as int),
            r is Ok ==> final(self).i > old(self).i,
    {
        let b = self.b;
        let n = b.len();
        if self.i >= n || b[self.i] != 34 {
            return Err(string_of("expected string"));
        }
        let ghost i0 = self.i as int;
        let mut i = self.i + 1;
        let mut out: Vec<char> = Vec::new();
        proof {
            lemma_str_body_pos(b@, i0 + 1, seq![]);
        }
        while i < n
            invariant
                n == b@.len(),
                b == self.b,
                self.b == old(self).b,
                self.i == i0,
                i0 == old(self).i,
                i0 < i <= n,
                str_body(b@, i as int, out@) == p_string(b@, i0),
            decreases n - i,
        {
            let c = b[i];
            if c == 34 {
                self.i = i + 1;
                return Ok(string_from_chars(out.as_slice()));
            } else if c == 92 {
                let p = i + 1;
                if p >= n {
                    return Err(string_of("bad escape"));
                }
                let d = b[p];
                match simple_escape_exec(d) {
                    Some(ch) => {
                        out.push(ch);
                        i = p + 1;
                    },
                    None => {
                        if d != 117 {
                            return Err(msg_byte("bad escape \\", d));
                        }
                        if n - p < 5 {
                            return Err(string_of("bad \\u"));
                        }
                        let h = &b[p + 1..p + 5];
                        assert(h@ =~= b@.subrange(p + 1, p + 5));
                        if utf8_text(h).is_none() {
                            return Err(string_of("bad \\u utf8"));
                        }
                        match hex4_exec(h) {
                            None => {
                                return Err(string_of("bad \\u hex"));
                            },
                            Some(cp) => {
                                let q = p + 4;
                                if 0xD800 <= cp && cp <= 0xDBFF {
                                    if n - q >= 7 && b[q + 1] == 92 && b[q + 2] == 117 {
                                        let h2 = &b[q + 3..q + 7];
                                        assert(h2@ =~= b@.subrange(q + 3, q + 7));
                                        if utf8_text(h2).is_none() {
                                            return Err(string_of("bad \\u2 utf8"));
                                        }
                                        match hex4_exec(h2) {
                                            None => {
                                                return Err(string_of("bad \\u2 hex"));
                                            },
                                            Some(lo) => {
                                                if 0xDC00 <= lo && lo <= 0xDFFF {
                                                    let v = 0x10000 + (cp - 0xD800) * 1024 + (lo
                                                        - 0xDC00);
                                                    match char_of(v) {
                                                        Some(ch) => out.push(ch),
                                                        None => {},
                                                    }
                                                    i = q + 7;
                                                } else {
                                                    out.push('\u{FFFD}');
                                                    i = q + 1;
                                                }
                                            },
                                        }
                                    } else {
                                        out.push('\u{FFFD}');
                                        i = q + 1;
                                    }
                                } else {
                                    match char_of(cp) {
                                        Some(ch) => out.push(ch),
                                        None => {},
                                    }
                                    i = q + 1;
                                }
                            },
                        }
                    },
                }
            } else {
                let start = i;
                while i < n && b[i] != 34 && b[i] != 92
                    invariant
                        n == b@.len(),
                        start <= i <= n,
                        seg_end(b@, i as int) == seg_end(b@, start as int),
                    decreases n - i,
                {
                    i = i + 1;
                }
                let seg = &b[start..i];
                assert(seg@ =~= b@.subrange(start as int, i as int));
                match utf8_text(seg) {
                    None => {
                        return Err(string_of("bad utf8 in string"));
                    },
                    Some(t) => {
                        let cs = chars_of(t.as_str());
                        push_all(&mut out, cs.as_slice());
                    },
                }
            }
        }
        Err(string_of("unterminated string"))
    }

    /// Reads `true` or `false`.
    fn parse_bool(&mut self) -> (r: Result<Json, String>)
        requires
            old(self).i < old(self).b@.len(),
        ensures
            final(self).b == old(self).b,
            final(self).i <= final(self).b@.len(),
            matches_value(p_bool(old(self).b@, old(self).i as int), r, final(self).i as int),
            r is Ok ==> final(self).i > old(self).i,
    {
        let b = self.b;
        let i = self.i;
        if b.len() - i >= 4 && b[i] == 116 && b[i + 1] == 114 && b[i + 2] == 117 && b[i + 3] == 101 {
            assert(b@.subrange(i as int, i + 4) =~= true_word());
            self.i = i + 4;
            return Ok(Json::Bool(true));
        }
        assert(!starts_at(b@, i as int, true_word())) by {
            if starts_at(b@, i as int, true_word()) {
                assert(b@.subrange(i as int, i + 4)[0] == b@[i as int]);
                assert(b@.subrange(i as int, i + 4)[1] == b@[i + 1]);
                assert(b@.subrange(i as int, i + 4)[2] == b@[i + 2]);
                assert(b@.subrange(i as int, i + 4)[3] == b@[i + 3]);
            }
        }
        if b.len() - i >= 5 && b[i] == 102 && b[i + 1] == 97 && b[i + 2] == 108 && b[i + 3] == 115
            && b[i + 4] == 101 {
            assert(b@.subrange(i as int, i + 5) =~= false_word());
            self.i = i + 5;
            return Ok(Json::Bool(false));
        }
        assert(!starts_at(b@, i as int, false_word())) by {
            if starts_at(b@, i as int, false_word()) {
                assert(b@.subrange(i as int, i + 5)[0] == b@[i as int]);
                assert(b@.subrange(i as int, i + 5)[1] == b@[i + 1]);
                assert(b@.subrange(i as int, i + 5)[2] == b@[i + 2]);
                assert(b@.subrange(i as int, i + 5)[3] == b@[i + 3]);
                assert(b@.subrange(i as int, i + 5)[4] == b@[i + 4]);
            }
        }
        Err(string_of("bad bool"))
    }

    /// Reads `null`.
    fn parse_null(&mut self) -> (r: Result<Json, String>)
        requires
            old(self).i < old(self).b@.len(),
        ensures
            final(self).b == old(self).b,
            final(self).i <= final(self).b@.len(),
            matches_value(p_null(old(self).b@, old(self).i as int), r, final(self).i as int),
            r is Ok ==> final(self).i > old(self).i,
    {
        let b = self.b;
        let i = self.i;
        if b.len() - i >= 4 && b[i] == 110 && b[i + 1] == 117 && b[i + 2] == 108 && b[i + 3] == 108 {
            assert(b@.subrange(i as int, i + 4) =~= null_word());
            self.i = i + 4;
            return Ok(Json::Null);
        }
        assert(!starts_at(b@, i as int, null_word())) by {
            if starts_at(b@, i as int, null_word()) {
                assert(b@.subrange(i as int, i + 4)[0] == b@[i as int]);
                assert(b@.subrange(i as int, i + 4)[1] == b@[i + 1]);
                assert(b@.subrange(i as int, i + 4)[2] == b@[i + 2]);
                assert(b@.subrange(i as int, i + 4)[3] == b@[i + 3]);
            }
        }
        Err(string_of("bad null"))
    }

    /// Reads a number; the position is on its `-` or first digit.
    fn parse_number(&mut self) -> (r: Result<Json, String>)
        requires
            old(self).i < old(self).b@.len(),
            old(self).b@[old(self).i as int] == 45 || is_digit(old(self).b@[old(self).i as int]),
        ensures
            final(self).b == old(self).b,
            final(self).i <= final(self).b@.len(),
            matches_value(p_number(old(self).b@, old(self).i as int), r, final(self).i as int),
            r is Ok ==> final(self).i > old(self).i,
    {
        let b = self.b;
        let n = b.len();
        let start = self.i;
        let mut i = start;
        if b[i] == 45 {
            i = i + 1;
        }
        let ghost s0 = i as int;
        while i < n && (is_digit_byte(b[i]) || b[i] == 46 || b[i] == 101 || b[i] == 69 || b[i] == 43
            || b[i] == 45)
            invariant
                n == b@.len(),
                start <= s0 <= i <= n,
                num_end(b@, i as int) == num_end(b@, s0),
            decreases n - i,
        {
            i = i + 1;
        }
        let t = &b[start..i];
        assert(t@ =~= b@.subrange(start as int, i as int));
        let mut text: Vec<char> = Vec::new();
        let mut k: usize = 0;
        while k < t.len()
            invariant
                k <= t@.len(),
                text@ =~= ascii_chars(t@.take(k as int)),
            decreases t@.len() - k,
        {
            text.push(t[k] as char);
            k = k + 1;
        }
        assert(t@.take(t@.len() as int) =~= t@);
        if float_syntax_exec(t) {
            self.i = i;
            if i == start {
                assert(b@[start as int] == 45 || is_digit(b@[start as int]));
                assert(false);
            }
            Ok(Json::Number(string_from_chars(text.as_slice())))
        } else {
            Err(msg_number(text.as_slice()))
        }
    }

    /// Reads a value after optional whitespace.
    fn parse_value(&mut self) -> (r: Result<Json, String>)
        requires
            old(self).i <= old(self).b@.len(),
        ensures
            final(self).b == old(self).b,
            final(self).i <= final(self).b@.len(),
            matches_value(p_value(old(self).b@, old(self).i as int), r, final(self).i as int),
            r is Ok ==> final(self).i > old(self).i,
        decreases old(self).b@.len() - old(self).i, 1int,
    {
        self.skip_ws();
        proof {
            lemma_skip_ws(self.b@, old(self).i as int);
            lemma_value_step(self.b@, old(self).i as int);
        }
        if self.i >= self.b.len() {
            return Err(string_of("unexpected end"));
        }
        let c = self.b[self.i];
        if c == 123 {
            self.parse_object()
        } else if c == 91 {
            self.parse_array()
        } else if c == 34 {
            match self.parse_string() {
                Ok(s) => Ok(Json::Str(s)),
                Err(e) => Err(e),
            }
        } else if c == 116 || c == 102 {
            self.parse_bool()
        } else if c == 110 {
            self.parse_null()
        } else if c == 45 || is_digit_byte(c) {
            self.parse_number()
        } else {
            Err(msg_byte("unexpected byte ", c))
        }
    }

    /// Reads an object; the position is on its `{`.
    #[verifier::rlimit(50)]
    fn parse_object(&mut self) -> (r: Result<Json, String>)
        requires
            old(self).i < old(self).b@.len(),
        ensures
            final(self).b == old(self).b,
            final(self).i <= final(self).b@.len(),
            matches_value(p_object(old(self).b@, old(self).i as int), r, final(self).i as int),
            r is Ok ==> final(self).i > old(self).i,
        decreases old(self).b@.len() - old(self).i, 0int,
    {
        let ghost b = self.b@;
        let ghost i0 = self.i as int;
        let n = self.b.len();
        proof {
            lemma_object_step(b, i0);
            lemma_skip_ws(b, i0 + 1);
        }
        self.i = self.i + 1;
        self.skip_ws();
        if self.i < n && self.b[self.i] == 125 {
            self.i = self.i + 1;
            let res = Json::Object(Vec::new());
            proof {
                lemma_jv_containers(res);
                assert(jv(res)->Object_0 =~= seq![]);
            }
            return Ok(res);
        }
        let mut members: Vec<(String, Json)> = Vec::new();
        let ghost mut k: int = i0 + 1;
        proof {
            lemma_skip_ws_idem(b, i0 + 1);
            assert(members_view(members@) =~= seq![]);
        }
        loop
            invariant
                n == b.len(),
                self.b@ == b,
                self.b == old(self).b,
                i0 == old(self).i,
                i0 < k <= n,
                self.i <= n,
                self.i == k || self.i == skip_ws_pos(b, k),
                p_members(b, k, members_view(members@)) == p_object(b, i0),
            decreases n - k,
        {
            let ghost k_now = k;
            self.skip_ws();
            proof {
                lemma_skip_ws_idem(b, k);
                lemma_skip_ws(b, k);
                lemma_members_step(b, k, members_view(members@));
            }
            let key = match self.parse_string() {
                Ok(key) => key,
                Err(e) => {
                    return Err(e);
                },
            };
            let ghost k2 = self.i as int;
            self.skip_ws();
            proof {
                lemma_skip_ws(b, k2);
            }
            if self.i >= n || self.b[self.i] != 58 {
                return Err(string_of("expected ':' in object"));
            }
            self.i = self.i + 1;
            let val = match self.parse_value() {
                Ok(v) => v,
                Err(e) => {
                    return Err(e);
                },
            };
            let ghost vv = jv(val);
            let ghost k4 = self.i as int;
            insert_member(&mut members, key, val);
            self.skip_ws();
            proof {
                lemma_skip_ws(b, k4);
            }
            if self.i >= n {
                return Err(string_of("unterminated object"));
            }
            let c = self.b[self.i];
            if c == 44 {
                self.i = self.i + 1;
                proof {
                    k = self.i as int;
                }
            } else if c == 125 {
                self.i = self.i + 1;
                let res = Json::Object(members);
                proof {
                    lemma_jv_containers(res);
                }
                return Ok(res);
            } else {
                return Err(string_of("expected ',' or '}'"));
            }
        }
    }

    /// Reads an array; the position is on its `[`.
    fn parse_array(&mut self) -> (r: Result<Json, String>)
        requires
            old(self).i < old(self).b@.len(),
        ensures
            final(self).b == old(self).b,
            final(self).i <= final(self).b@.len(),
            matches_value(p_array(old(self).b@, old(self).i as int), r, final(self).i as int),
            r is Ok ==> final(self).i > old(self).i,
        decreases old(self).b@.len() - old(self).i, 0int,
    {
        let ghost b = self.b@;
        let ghost i0 = self.i as int;
        let n = self.b.len();
        self.i = self.i + 1;
        self.skip_ws();
        proof {
            lemma_skip_ws(b, i0 + 1);
            lemma_array_step(b, i0);
        }
        if self.i < n && self.b[self.i] == 93 {
            self.i = self.i + 1;
            let res = Json::Array(Vec::new());
            proof {
                lemma_jv_containers(res);
                assert(jv(res)->Array_0 =~= seq![]);
            }
            return Ok(res);
        }
        let mut items: Vec<Json> = Vec::new();
        proof {
            assert(elems_view(items@) =~= seq![]);
        }
        loop
            invariant
                n == b.len(),
                self.b@ == b,
                self.b == old(self).b,
                i0 == old(self).i,
                i0 < self.i <= n,
                p_elems(b, self.i as int, elems_view(items@)) == p_array(b, i0),
            decreases n - self.i,
        {
            let ghost k = self.i as int;
            let ghost acc = elems_view(items@);
            proof {
                lemma_elems_step(b, k, acc);
            }
            let val = match self.parse_value() {
                Ok(v) => v,
                Err(e) => {
                    return Err(e);
                },
            };
            let ghost k2 = self.i as int;
            let ghost vv = jv(val);
            items.push(val);
            assert(elems_view(items@) =~= acc.push(vv));
            self.skip_ws();
            proof {
                lemma_skip_ws(b, k2);
            }
            if self.i >= n {
                return Err(string_of("unterminated array"));
            }
            let c = self.b[self.i];
            if c == 44 {
                self.i = self.i + 1;
            } else if c == 93 {
                self.i = self.i + 1;
                let res = Json::Array(items);
                proof {
                    lemma_jv_containers(res);
                }
                return Ok(res);
            } else {
                return Err(string_of("expected ',' or ']'"));
            }
        }
    }
}

/// Reads the JSON value at the start of `input` (after optional whitespace);
/// text after the value is not read.
pub fn parse_json(input: &str) -> (r: Result<Json, String>)
    ensures
        match json_of(input.spec_bytes()) {
            Ok(v) => r matches Ok(j) && jv(j) == v,
            Err(e) => r matches Err(m) && m@ == err_text(e),
        },
{
    let mut p = Parser { b: input.as_bytes(), i: 0 };
    p.skip_ws();
    proof {
        lemma_skip_ws(p.b@, 0);
    }
    let v = p.parse_value();
    proof {
        lemma_skip_ws_idem(p.b@, 0);
        reveal(p_value);
    }
    v
}

/// The text of a string member `key` of an object, if it has one.
pub open spec fn str_member(m: Seq<(Seq<char>, JsonV)>, key: Seq<char>) -> Option<Seq<char>> {
    let i = key_index(m, key);
    if i >= 0 {
        match m[i].1 {
            JsonV::Str(s) => Some(s),
            _ => None,
        }
    } else {
        None
    }
}

/// The text of a number member `key` of an object, if it has one.
pub open spec fn num_member(m: Seq<(Seq<char>, JsonV)>, key: Seq<char>) -> Option<Seq<char>> {
    let i = key_index(m, key);
    if i >= 0 {
        match m[i].1 {
            JsonV::Number(s) => Some(s),
            _ => None,
        }
    } else {
        None
    }
}

impl Json {
    /// The text of a string value.
    pub fn as_str(&self) -> (r: Option<&str>)
        ensures
            match jv(*self) {
                JsonV::Str(s) => r matches Some(t) && t@ == s,
                _ => r is None,
            },
    {
        match self {
            Json::Str(s) => Some(s.as_str()),
            _ => None,
        }
    }

    /// The text of a number value, as it was written.
    pub fn as_number_text(&self) -> (r: Option<&str>)
        ensures
            match jv(*self) {
                JsonV::Number(s) => r matches Some(t) && t@ == s,
                _ => r is None,
            },
    {
        match self {
            Json::Number(s) => Some(s.as_str()),
            _ => None,
        }
    }

    /// The value of member `key` of an object.
    pub fn get(&self, key: &str) -> (r: Option<&Json>)
        ensures
            match jv(*self) {
                JsonV::Object(m) => if key_index(m, key@) >= 0 {
                    r matches Some(v) && jv(*v) == m[key_index(m, key@)].1
                } else {
                    r is None
                },
                _ => r is None,
            },
    {
        match self {
            Json::Object(members) => {
                proof {
                    lemma_jv_containers(*self);
                    assert(jv(*self) == JsonV::Object(members_view(members@)));
                }
                let ghost m = members_view(members@);
                let k = string_of(key);
                let mut idx: usize = 0;
                while idx < members.len()
                    invariant
                        k@ == key@,
                        jv(*self) == JsonV::Object(m),
                        idx <= members@.len(),
                        m == members_view(members@),
                        forall|t: int| 0 <= t < idx ==> m[t].0 != key@,
                    decreases members@.len() - idx,
                {
                    if members[idx].0 == k {
                        proof {
                            lemma_key_index(m, key@, idx as int);
                            assert(m[idx as int].1 == jv(members@[idx as int].1));
                        }
                        return Some(&members[idx].1);
                    }
                    idx = idx + 1;
                }
                proof {
                    lemma_key_index(m, key@, -1);
                }
                None
            },
            _ => None,
        }
    }
}

} // verus!
