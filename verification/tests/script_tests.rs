use js_runtime::dom::{extract_script_entries, extract_scripts, DomNode, NodeKind, ScriptEntry};
use js_runtime::script_tag::{is_js_script_type, script_is_module, script_src, script_tag_has_executable_type};

fn el(tag: &str, attrs: &[(&str, &str)], children: Vec<DomNode>) -> DomNode {
    DomNode {
        data: NodeKind::Element {
            tag: tag.to_string(),
            attrs: attrs.iter().map(|(k, v)| (k.to_string(), v.to_string())).collect(),
        },
        children,
    }
}

fn txt(s: &str) -> DomNode {
    DomNode { data: NodeKind::Text(s.to_string()), children: Vec::new() }
}

fn doc(body: Vec<DomNode>) -> DomNode {
    DomNode {
        data: NodeKind::Other,
        children: vec![el("html", &[], vec![el("body", &[], body)])],
    }
}

fn script(attrs: &[(&str, &str)], code: &str) -> DomNode {
    if code.is_empty() {
        el("script", attrs, Vec::new())
    } else {
        el("script", attrs, vec![txt(code)])
    }
}

#[test]
fn extract_no_scripts() {
    let tree = doc(vec![el("p", &[], vec![txt("hi")])]);
    assert!(extract_scripts(&tree).is_empty());
}

#[test]
fn extract_one_inline_script() {
    let tree = doc(vec![script(&[], "__setBody('x')")]);
    let scripts = extract_scripts(&tree);
    assert_eq!(scripts.len(), 1);
    assert_eq!(scripts[0], "__setBody('x')");
}

#[test]
fn extract_multiple_scripts_in_order() {
    let tree = doc(vec![script(&[], "a()"), script(&[], "b()"), script(&[], "c()")]);
    let scripts = extract_scripts(&tree);
    assert_eq!(scripts.len(), 3);
    assert!(scripts[0].contains("a()"));
    assert!(scripts[1].contains("b()"));
    assert!(scripts[2].contains("c()"));
}

#[test]
fn extract_skips_json_and_template_scripts() {
    let tree = doc(vec![
        script(&[("type", "application/json")], "{\"x\":1}"),
        script(&[("type", "text/template")], "{{name}}"),
        script(&[], "__setBody('ok')"),
    ]);
    let scripts = extract_scripts(&tree);
    assert_eq!(scripts.len(), 1);
    assert!(scripts[0].contains("__setBody('ok')"));
}

#[test]
fn extract_accepts_js_and_module_scripts() {
    let tree = doc(vec![
        script(&[("type", "text/javascript")], "__setBody('js')"),
        script(&[("type", "module")], "__appendBody('module')"),
    ]);
    let scripts = extract_scripts(&tree);
    assert_eq!(scripts.len(), 2);
    assert!(scripts[0].contains("__setBody('js')"));
    assert!(scripts[1].contains("__appendBody('module')"));
}

#[test]
fn extract_skips_empty_scripts() {
    let tree = doc(vec![script(&[], "  "), script(&[], "real()"), script(&[], "")]);
    let scripts = extract_scripts(&tree);
    assert_eq!(scripts.len(), 1);
    assert!(scripts[0].contains("real"));
}

#[test]
fn extract_entries_kinds_and_order() {
    let tree = doc(vec![
        el("div", &[], vec![script(&[("src", " /a.js ")], "ignored()")]),
        script(&[("type", "module"), ("src", "/m.js")], ""),
        script(&[("type", "module")], "import x from './x.js';"),
        script(&[("nomodule", "")], "legacy()"),
        script(&[("language", "JavaScript")], "lang()"),
        script(&[("src", "  ")], "fallback()"),
    ]);
    let e = extract_script_entries(&tree);
    assert_eq!(
        e,
        vec![
            ScriptEntry::External("/a.js".to_string()),
            ScriptEntry::ExternalModule("/m.js".to_string()),
            ScriptEntry::InlineModule("import x from './x.js';".to_string()),
            ScriptEntry::Inline("lang()".to_string()),
            ScriptEntry::Inline("fallback()".to_string()),
        ]
    );
}

#[test]
fn extract_concatenates_text_children_and_does_not_descend() {
    let inner = el("script", &[], vec![txt("a"), el("b", &[], vec![txt("zz")]), txt("c")]);
    let tree = doc(vec![el("SCRIPT", &[], vec![txt("x"), inner, txt("y")])]);
    assert_eq!(extract_scripts(&tree), vec!["xy".to_string()]);
}

#[test]
fn script_type_rules() {
    assert!(is_js_script_type(""));
    assert!(is_js_script_type(" Module "));
    assert!(is_js_script_type("text/javascript; charset=utf-8"));
    assert!(is_js_script_type("application/x-ecmascript-foo"));
    assert!(!is_js_script_type("text/template"));
    assert!(!is_js_script_type("application/json"));
    let a = |v: &[(&str, &str)]| v.iter().map(|(k, x)| (k.to_string(), x.to_string())).collect::<Vec<_>>();
    assert!(script_is_module(&a(&[("TYPE", "module ; x")])));
    assert!(!script_is_module(&a(&[("type", "text/javascript"), ("type", "module")])));
    assert!(!script_tag_has_executable_type(&a(&[("NoModule", "")])));
    assert!(script_tag_has_executable_type(&a(&[])));
    assert!(!script_tag_has_executable_type(&a(&[("type", "x"), ("type", "text/html")])));
    assert!(script_tag_has_executable_type(&a(&[("type", "text/html"), ("type", "module")])));
    assert_eq!(script_src(&a(&[("src", " a.js ")])), Some("a.js".to_string()));
    assert_eq!(script_src(&a(&[("src", ""), ("src", "b.js")])), None);
}
