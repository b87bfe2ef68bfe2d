//! Reading `<script>` attributes: whether a script runs, whether it is a
//! module, and where it comes from; which fetched scripts may run.
use vstd::prelude::*;
use crate::text::{
    chars_of, contains, contains_str, copy_range, eq_ic, eq_ic_str, lower_all, lower_seq,
    string_from_chars, trim, trim_bounds,
};

verus! {

/// Attributes as `(name, value)` texts.
pub open spec fn attrs_view(a: Seq<(String, String)>) -> Seq<(Seq<char>, Seq<char>)> {
    Seq::new(a.len(), |i: int| (a[i].0@, a[i].1@))
}

/// The value of the first attribute whose name is `name` up to ASCII case.
pub open spec fn first_attr(a: Seq<(Seq<char>, Seq<char>)>, name: Seq<char>) -> Option<Seq<char>>
    decreases a.len(),
{
    if a.len() == 0 {
        None
    } else if eq_ic(a[0].0, name) {
        Some(a[0].1)
    } else {
        first_attr(a.drop_first(), name)
    }
}

/// The value of the last attribute whose name is `name` up to ASCII case.
pub open spec fn last_attr(a: Seq<(Seq<char>, Seq<char>)>, name: Seq<char>) -> Option<Seq<char>>
    decreases a.len(),
{
    if a.len() == 0 {
        None
    } else if eq_ic(a.last().0, name) {
        Some(a.last().1)
    } else {
        last_attr(a.drop_last(), name)
    }
}

/// True when some attribute is named `name` up to ASCII case.
pub open spec fn has_attr(a: Seq<(Seq<char>, Seq<char>)>, name: Seq<char>) -> bool {
    exists|i: int| 0 <= i < a.len() && eq_ic(a[i].0, name)
}

/// The text before the first `;`, or all of it.
pub open spec fn before_semicolon(s: Seq<char>) -> Seq<char> {
    if exists|i: int| 0 <= i < s.len() && s[i] == ';' {
        s.take(choose|i: int| 0 <= i < s.len() && s[i] == ';' && forall|k: int| 0 <= k < i ==> s[k] != ';')
    } else {
        s
    }
}

/// Whether a `<script type>` marks an ES module.
pub open spec fn is_module_type(v: Seq<char>) -> bool {
    eq_ic(trim(before_semicolon(trim(v))), "module"@)
}

/// Whether the attributes mark an ES module: the first `type` attribute is
/// `module` (parameters after `;` and surrounding whitespace aside).
pub open spec fn is_module_script(a: Seq<(Seq<char>, Seq<char>)>) -> bool {
    match first_attr(a, "type"@) {
        Some(v) => is_module_type(v),
        None => false,
    }
}

/// Whether a `type` or `language` value names JavaScript: empty, `module`,
/// one of the JavaScript MIME types, or any value that mentions
/// `javascript` or `ecmascript` in any case.
pub open spec fn is_js_type(raw: Seq<char>) -> bool {
    let t0 = trim(raw);
    if t0.len() == 0 {
        true
    } else {
        let t = trim(before_semicolon(t0));
        eq_ic(t, "module"@) || eq_ic(t, "text/javascript"@) || eq_ic(t, "application/javascript"@)
            || eq_ic(t, "text/ecmascript"@) || eq_ic(t, "application/ecmascript"@) || eq_ic(
            t,
            "application/x-javascript"@,
        ) || eq_ic(t, "text/jscript"@) || contains(lower_seq(t), "javascript"@) || contains(
            lower_seq(t),
            "ecmascript"@,
        )
    }
}

/// Whether a `<script>` with these attributes runs: not when it has
/// `nomodule`; else by its last `type`, else by its first `language`, else yes.
pub open spec fn is_executable_script(a: Seq<(Seq<char>, Seq<char>)>) -> bool {
    if has_attr(a, "nomodule"@) {
        false
    } else {
        match last_attr(a, "type"@) {
            Some(t) => is_js_type(t),
            None => match first_attr(a, "language"@) {
                Some(l) => is_js_type(l),
                None => true,
            },
        }
    }
}

/// The source URL of a `<script>`: the first `src` attribute, trimmed,
/// when not empty.
pub open spec fn script_src_of(a: Seq<(Seq<char>, Seq<char>)>) -> Option<Seq<char>> {
    match first_attr(a, "src"@) {
        Some(v) => if trim(v).len() > 0 {
            Some(trim(v))
        } else {
            None
        },
        None => None,
    }
}

proof fn lemma_first_attr_index(a: Seq<(Seq<char>, Seq<char>)>, name: Seq<char>, i: int)
    requires
        0 <= i <= a.len(),
        forall|k: int| 0 <= k < i ==> !eq_ic(#[trigger] a[k].0, name),
    ensures
        first_attr(a, name) == first_attr(a.skip(i), name),
    decreases i,
{
    if i > 0 {
        lemma_first_attr_index(a, name, i - 1);
        assert(a.skip(i - 1).drop_first() =~= a.skip(i));
    } else {
        assert(a.skip(0) =~= a);
    }
}

/// Index of the first attribute named `name` up to ASCII case.
fn find_attr(attrs: &[(String, String)], name: &str) -> (r: Option<usize>)
    ensures
        match r {
            Some(i) => i < attrs@.len() && first_attr(attrs_view(attrs@), name@) == Some(
                attrs_view(attrs@)[i as int].1,
            ),
            None => first_attr(attrs_view(attrs@), name@) is None,
        },
{
    let ghost a = attrs_view(attrs@);
    let mut i: usize = 0;
    while i < attrs.len()
        invariant
            i <= attrs@.len(),
            a == attrs_view(attrs@),
            forall|k: int| 0 <= k < i ==> !eq_ic(#[trigger] a[k].0, name@),
        decreases attrs@.len() - i,
    {
        let n = chars_of(attrs[i].0.as_str());
        if eq_ic_str(n.as_slice(), name) {
            proof {
                lemma_first_attr_index(a, name@, i as int);
            }
            return Some(i);
        }
        i = i + 1;
    }
    proof {
        lemma_first_attr_index(a, name@, i as int);
    }
    None
}

proof fn lemma_last_attr_index(a: Seq<(Seq<char>, Seq<char>)>, name: Seq<char>, j: int)
    requires
        0 <= j <= a.len(),
        forall|k: int| j <= k < a.len() ==> !eq_ic(#[trigger] a[k].0, name),
    ensures
        last_attr(a, name) == last_attr(a.take(j), name),
    decreases a.len() - j,
{
    if j < a.len() {
        lemma_last_attr_index(a, name, j + 1);
        assert(a.take(j + 1).drop_last() =~= a.take(j));
    } else {
        assert(a.take(j) =~= a);
    }
}

/// Index of the last attribute named `name` up to ASCII case.
fn find_last_attr(attrs: &[(String, String)], name: &str) -> (r: Option<usize>)
    ensures
        match r {
            Some(i) => i < attrs@.len() && last_attr(attrs_view(attrs@), name@) == Some(
                attrs_view(attrs@)[i as int].1,
            ),
            None => last_attr(attrs_view(attrs@), name@) is None,
        },
{
    let ghost a = attrs_view(attrs@);
    let mut j: usize = attrs.len();
    while j > 0
        invariant
            j <= attrs@.len(),
            a == attrs_view(attrs@),
            forall|k: int| j <= k < a.len() ==> !eq_ic(#[trigger] a[k].0, name@),
        decreases j,
    {
        let n = chars_of(attrs[j - 1].0.as_str());
        if eq_ic_str(n.as_slice(), name) {
            proof {
                lemma_last_attr_index(a, name@, j as int);
                assert(a.take(j as int).last() == a[j - 1]);
            }
            return Some(j - 1);
        }
        j = j - 1;
    }
    proof {
        lemma_last_attr_index(a, name@, 0);
    }
    None
}

/// Bounds of the text before the first `;` in `s`.
pub(crate) fn semicolon_prefix(s: &[char]) -> (r: usize)
    ensures
        r <= s@.len(),
        s@.take(r as int) == before_semicolon(s@),
{
    let mut i: usize = 0;
    while i < s.len()
        invariant
            i <= s@.len(),
            forall|k: int| 0 <= k < i ==> s@[k] != ';',
        decreases s@.len() - i,
    {
        if s[i] == ';' {
            proof {
                let w = choose|w: int|
                    0 <= w < s@.len() && s@[w] == ';' && forall|k: int| 0 <= k < w ==> s@[k] != ';';
                assert(w == i as int) by {
                    if w < i {
                    } else if w > i {
                    }
                }
            }
            return i;
        }
        i = i + 1;
    }
    assert(s@.take(s@.len() as int) =~= s@);
    s.len()
}

/// The value trimmed, cut at `;`, and trimmed again.
fn media_token(v: &str) -> (r: Vec<char>)
    ensures
        r@ == trim(before_semicolon(trim(v@))),
{
    let cs = chars_of(v);
    let (a, b) = trim_bounds(cs.as_slice());
    let t = copy_range(cs.as_slice(), a, b);
    let p = semicolon_prefix(t.as_slice());
    let h = copy_range(t.as_slice(), 0, p);
    assert(h@ =~= t@.take(p as int));
    let (a2, b2) = trim_bounds(h.as_slice());
    copy_range(h.as_slice(), a2, b2)
}

/// Whether the attributes mark an ES module (`<script type="module">`).
pub fn script_is_module(attrs: &[(String, String)]) -> (r: bool)
    ensures
        r == is_module_script(attrs_view(attrs@)),
{
    match find_attr(attrs, "type") {
        Some(i) => {
            let t = media_token(attrs[i].1.as_str());
            eq_ic_str(t.as_slice(), "module")
        },
        None => false,
    }
}

/// Whether a `type` or `language` value names JavaScript.
pub fn is_js_script_type(raw: &str) -> (r: bool)
    ensures
        r == is_js_type(raw@),
{
    let cs = chars_of(raw);
    let (a, b) = trim_bounds(cs.as_slice());
    if a == b {
        return true;
    }
    let t0 = copy_range(cs.as_slice(), a, b);
    let p = semicolon_prefix(t0.as_slice());
    let h = copy_range(t0.as_slice(), 0, p);
    assert(h@ =~= t0@.take(p as int));
    let (a2, b2) = trim_bounds(h.as_slice());
    let t = copy_range(h.as_slice(), a2, b2);
    let ts = t.as_slice();
    if eq_ic_str(ts, "module") {
        return true;
    }
    if eq_ic_str(ts, "text/javascript") || eq_ic_str(ts, "application/javascript") || eq_ic_str(
        ts,
        "text/ecmascript",
    ) || eq_ic_str(ts, "application/ecmascript") || eq_ic_str(ts, "application/x-javascript")
        || eq_ic_str(ts, "text/jscript") {
        return true;
    }
    let low = lower_all(ts);
    contains_str(low.as_slice(), "javascript") || contains_str(low.as_slice(), "ecmascript")
}

/// Whether a `<script>` with these attributes runs.
pub fn script_tag_has_executable_type(attrs: &[(String, String)]) -> (r: bool)
    ensures
        r == is_executable_script(attrs_view(attrs@)),
{
    match find_attr(attrs, "nomodule") {
        Some(i) => {
            proof {
                let a = attrs_view(attrs@);
                assert(first_attr(a, "nomodule"@) is Some);
                lemma_first_attr_has(a, "nomodule"@);
            }
            return false;
        },
        None => {
            proof {
                lemma_first_attr_has(attrs_view(attrs@), "nomodule"@);
            }
        },
    }
    match find_last_attr(attrs, "type") {
        Some(i) => is_js_script_type(attrs[i].1.as_str()),
        None => match find_attr(attrs, "language") {
            Some(i) => is_js_script_type(attrs[i].1.as_str()),
            None => true,
        },
    }
}

proof fn lemma_first_attr_has(a: Seq<(Seq<char>, Seq<char>)>, name: Seq<char>)
    ensures
        (first_attr(a, name) is Some) == has_attr(a, name),
    decreases a.len(),
{
    if a.len() > 0 {
        lemma_first_attr_has(a.drop_first(), name);
        if has_attr(a.drop_first(), name) {
            let i = choose|i: int| 0 <= i < a.drop_first().len() && eq_ic(a.drop_first()[i].0, name);
            assert(eq_ic(a[i + 1].0, name));
        }
        if has_attr(a, name) && !eq_ic(a[0].0, name) {
            let i = choose|i: int| 0 <= i < a.len() && eq_ic(a[i].0, name);
            assert(eq_ic(a.drop_first()[i - 1].0, name));
        }
    }
}

/// The source URL of a `<script>`, when it has a non-empty `src`.
pub fn script_src(attrs: &[(String, String)]) -> (r: Option<String>)
    ensures
        match r {
            Some(s) => script_src_of(attrs_view(attrs@)) == Some(s@),
            None => script_src_of(attrs_view(attrs@)) is None,
        },
{
    match find_attr(attrs, "src") {
        Some(i) => {
            let cs = chars_of(attrs[i].1.as_str());
            let (a, b) = trim_bounds(cs.as_slice());
            if a == b {
                None
            } else {
                let t = copy_range(cs.as_slice(), a, b);
                Some(string_from_chars(t.as_slice()))
            }
        },
        None => None,
    }
}

} // verus!
