//! The document tree that scripts are read from, and the discovery of the
//! page's scripts in document order.
use vstd::prelude::*;
use crate::script_tag::{
    attrs_view, is_executable_script, is_module_script, script_is_module, script_src,
    script_src_of, script_tag_has_executable_type,
};
use crate::text::{chars_of, eq_ic, eq_ic_str, push_all, string_from_chars, trim, trim_bounds};

verus! {

/// What a node of the document is.
pub enum NodeKind {
    /// An element with its tag name and attributes.
    Element { tag: String, attrs: Vec<(String, String)> },
    /// A text node.
    Text(String),
    /// Any other node (document, comment, doctype).
    Other,
}

/// A node of the document with its children in document order.
pub struct DomNode {
    pub data: NodeKind,
    pub children: Vec<DomNode>,
}

/// A script of the page.
#[derive(Debug, Clone, PartialEq)]
pub enum ScriptEntry {
    /// A classic script written in the page.
    Inline(String),
    /// A classic script loaded from a URL.
    External(String),
    /// A module script loaded from a URL.
    ExternalModule(String),
    /// A module script written in the page.
    InlineModule(String),
}

/// The kind of a script, apart from its text.
pub enum EntryKind {
    Inline,
    External,
    ExternalModule,
    InlineModule,
}

/// A script as kind and text (source or URL).
pub open spec fn entry_view(e: ScriptEntry) -> (EntryKind, Seq<char>) {
    match e {
        ScriptEntry::Inline(s) => (EntryKind::Inline, s@),
        ScriptEntry::External(s) => (EntryKind::External, s@),
        ScriptEntry::ExternalModule(s) => (EntryKind::ExternalModule, s@),
        ScriptEntry::InlineModule(s) => (EntryKind::InlineModule, s@),
    }
}

pub open spec fn entries_view(v: Seq<ScriptEntry>) -> Seq<(EntryKind, Seq<char>)> {
    Seq::new(v.len(), |i: int| entry_view(v[i]))
}

/// The text of the text nodes among `ns`, concatenated.
pub open spec fn text_of(ns: Seq<DomNode>) -> Seq<char>
    decreases ns.len(),
{
    if ns.len() == 0 {
        seq![]
    } else {
        text_of(ns.drop_last()) + match ns.last().data {
            NodeKind::Text(s) => s@,
            _ => seq![],
        }
    }
}

/// The script that a `<script>` element gives, if any: none when its type
/// does not run; its URL when it has a `src`; else its text when not blank.
pub open spec fn script_of(attrs: Seq<(Seq<char>, Seq<char>)>, children: Seq<DomNode>) -> Seq<
    (EntryKind, Seq<char>),
> {
    if !is_executable_script(attrs) {
        seq![]
    } else {
        let module = is_module_script(attrs);
        match script_src_of(attrs) {
            Some(src) => seq![
                (if module {
                    EntryKind::ExternalModule
                } else {
                    EntryKind::External
                }, src),
            ],
            None => {
                let t = text_of(children);
                if trim(t).len() > 0 {
                    seq![
                        (if module {
                            EntryKind::InlineModule
                        } else {
                            EntryKind::Inline
                        }, t),
                    ]
                } else {
                    seq![]
                }
            },
        }
    }
}

/// The scripts under a node in document order; a `<script>` element is not
/// searched inside.
pub open spec fn node_scripts(n: DomNode) -> Seq<(EntryKind, Seq<char>)>
    decreases n,
{
    match n.data {
        NodeKind::Element { tag, attrs } => if eq_ic(tag@, "script"@) {
            script_of(attrs_view(attrs@), n.children@)
        } else {
            forest_scripts(n.children@)
        },
        _ => forest_scripts(n.children@),
    }
}

/// The scripts under a sequence of sibling nodes, in order.
pub open spec fn forest_scripts(ns: Seq<DomNode>) -> Seq<(EntryKind, Seq<char>)>
    decreases ns,
{
    if ns.len() == 0 {
        seq![]
    } else {
        forest_scripts(ns.drop_last()) + node_scripts(ns.last())
    }
}

/// The concatenated text of the text children.
fn text_of_children(ns: &Vec<DomNode>) -> (r: String)
    ensures
        r@ == text_of(ns@),
{
    let mut out: Vec<char> = Vec::new();
    let mut i: usize = 0;
    while i < ns.len()
        invariant
            i <= ns@.len(),
            out@ == text_of(ns@.take(i as int)),
        decreases ns@.len() - i,
    {
        assert(ns@.take(i + 1).drop_last() =~= ns@.take(i as int));
        match &ns[i].data {
            NodeKind::Text(s) => {
                let cs = chars_of(s.as_str());
                push_all(&mut out, cs.as_slice());
            },
            _ => {},
        }
        i = i + 1;
    }
    assert(ns@.take(ns@.len() as int) =~= ns@);
    string_from_chars(out.as_slice())
}

/// Appends the scripts under `n` to `out`, in document order.
fn collect_scripts(n: &DomNode, out: &mut Vec<ScriptEntry>)
    ensures
        entries_view(final(out)@) == entries_view(old(out)@) + node_scripts(*n),
    decreases *n,
{
    let ghost start = out@;
    match &n.data {
        NodeKind::Element { tag, attrs } => {
            let tc = chars_of(tag.as_str());
            if eq_ic_str(tc.as_slice(), "script") {
                if !script_tag_has_executable_type(attrs.as_slice()) {
                    assert(entries_view(out@) =~= entries_view(start) + node_scripts(*n));
                    return;
                }
                let is_module = script_is_module(attrs.as_slice());
                match script_src(attrs.as_slice()) {
                    Some(src) => {
                        let e = if is_module {
                            ScriptEntry::ExternalModule(src)
                        } else {
                            ScriptEntry::External(src)
                        };
                        out.push(e);
                        assert(entries_view(out@) =~= entries_view(start) + node_scripts(*n));
                        return;
                    },
                    None => {},
                }
                let text = text_of_children(&n.children);
                let cs = chars_of(text.as_str());
                let (lo, hi) = trim_bounds(cs.as_slice());
                if lo < hi {
                    let e = if is_module {
                        ScriptEntry::InlineModule(text)
                    } else {
                        ScriptEntry::Inline(text)
                    };
                    out.push(e);
                }
                assert(entries_view(out@) =~= entries_view(start) + node_scripts(*n));
                return;
            }
        },
        _ => {},
    }
    assert(node_scripts(*n) == forest_scripts(n.children@));
    let mut i: usize = 0;
    while i < n.children.len()
        invariant
            i <= n.children@.len(),
            entries_view(out@) == entries_view(start) + forest_scripts(n.children@.take(i as int)),
        decreases n.children@.len() - i,
    {
        assert(n.children@.take(i + 1).drop_last() =~= n.children@.take(i as int));
        proof {
            assert(decreases_to!(*n => n.children));
            assert(decreases_to!(n.children => n.children@));
            assert(decreases_to!(n.children@ => n.children@[i as int]));
        }
        collect_scripts(&n.children[i], out);
        assert(entries_view(out@) =~= entries_view(start) + forest_scripts(n.children@.take(i + 1)));
        i = i + 1;
    }
    assert(n.children@.take(n.children@.len() as int) =~= n.children@);
}

/// All scripts of a document in document order: classic and module
/// scripts, written in the page or loaded from a URL.
pub fn extract_script_entries(root: &DomNode) -> (r: Vec<ScriptEntry>)
    ensures
        entries_view(r@) == node_scripts(*root),
{
    let mut scripts: Vec<ScriptEntry> = Vec::new();
    collect_scripts(root, &mut scripts);
    assert(entries_view(scripts@) =~= node_scripts(*root));
    scripts
}

/// The texts of the scripts written in the page, classic or module, in order.
pub open spec fn inline_sources(es: Seq<(EntryKind, Seq<char>)>) -> Seq<Seq<char>>
    decreases es.len(),
{
    if es.len() == 0 {
        seq![]
    } else {
        let rest = inline_sources(es.drop_last());
        match es.last().0 {
            EntryKind::Inline | EntryKind::InlineModule => rest.push(es.last().1),
            _ => rest,
        }
    }
}

/// The text of every script written in the page, in document order; blank
/// scripts and scripts loaded from a URL are left out.
pub fn extract_scripts(root: &DomNode) -> (r: Vec<String>)
    ensures
        r@.map_values(|s: String| s@) == inline_sources(node_scripts(*root)),
{
    let entries = extract_script_entries(root);
    let mut out: Vec<String> = Vec::new();
    let mut i: usize = 0;
    while i < entries.len()
        invariant
            i <= entries@.len(),
            out@.map_values(|s: String| s@) == inline_sources(entries_view(entries@).take(i as int)),
        decreases entries@.len() - i,
    {
        assert(entries_view(entries@).take(i + 1).drop_last() =~= entries_view(entries@).take(
            i as int,
        ));
        match &entries[i] {
            ScriptEntry::Inline(t) | ScriptEntry::InlineModule(t) => {
                out.push(t.clone());
            },
            _ => {},
        }
        assert(out@.map_values(|s: String| s@) =~= inline_sources(
            entries_view(entries@).take(i + 1),
        ));
        i = i + 1;
    }
    assert(entries_view(entries@).take(entries@.len() as int) =~= entries_view(entries@));
    out
}

} // verus!
