use js_runtime::esm::{
    has_static_esm_syntax, regex_static_export, regex_static_import, scan_import_specifiers,
    try_strip_esm_for_eval, VITE_ENV_DEFAULT_JS,
};
use js_runtime::ts_scan::{has_ts_syntax, regex_can_start, regex_is_match, strip_js_comments};
use js_runtime::vite::prefetch_vite_chunks;

#[test]
fn static_import_forms() {
    assert!(regex_static_import("import{a}from'./a.js';"));
    assert!(regex_static_import("x;import \"./side.js\";"));
    assert!(regex_static_import("import * as m from 'm';"));
    assert!(regex_static_import("import\n\t{ b } from 'b'"));
    assert!(!regex_static_import("import('./lazy.js')"));
    assert!(!regex_static_import("const u = import.meta.url;"));
    assert!(!regex_static_import("reimport{a}"));
    assert!(!regex_static_import("a = importX{"));
    assert!(regex_static_import("import x from './x.js'"));
    assert!(regex_static_import("import x from \"./a.js\";"));
    assert!(!regex_static_import("await import ('./lazy.js')"));
    assert!(!regex_static_import("let imported = 1; importedCount++"));
    assert!(!regex_static_import("import"));
    assert!(!regex_static_import("import   "));
}

#[test]
fn static_export_forms() {
    assert!(regex_static_export("export{a as b};"));
    assert!(regex_static_export("export * from './m.js'"));
    assert!(!regex_static_export("export default 1;"));
    assert!(!regex_static_export("module.exports={}"));
    assert!(!regex_static_export("$export{"));
    assert!(has_static_esm_syntax("let a=1;export{a}"));
    assert!(!has_static_esm_syntax("console.log(import.meta.env)"));
}

#[test]
fn strip_esm_rewrites_import_meta() {
    assert_eq!(try_strip_esm_for_eval("import{a}from'a'", "https://x/"), None);
    let p = try_strip_esm_for_eval("f(import.meta.url, import.meta.env.MODE, import.meta)", "https://x/p").unwrap();
    let want = format!(
        "f(\"https://x/p\", ({VITE_ENV_DEFAULT_JS}).MODE, ({{url:\"https://x/p\",env:{VITE_ENV_DEFAULT_JS}}}))"
    );
    assert_eq!(p, want);
    let q = try_strip_esm_for_eval("u=import.meta.url", "").unwrap();
    assert_eq!(q, "u=\"about:blank\"");
    assert_eq!(try_strip_esm_for_eval("plain()", "").unwrap(), "plain()");
}

#[test]
fn import_specifiers_scanned_in_two_passes() {
    let code = "import a from\"./a.js\";import'./side.js';const m=import( \"./lazy.js\");export{x}from './x.js';removeFrom\"no\";from\" \";from'<p>'";
    let specs = scan_import_specifiers(code);
    assert_eq!(specs, vec!["./a.js", "./x.js", "./side.js", "./lazy.js"]);
}

#[test]
fn import_specifiers_trim_and_reject_whitespace() {
    assert_eq!(scan_import_specifiers("from ' ./t.js '"), vec!["./t.js"]);
    assert!(scan_import_specifiers("from 'a b'").is_empty());
    assert!(scan_import_specifiers("from 'unterminated").is_empty());
    assert!(scan_import_specifiers("").is_empty());
}

#[test]
fn comments_and_strings_are_blanked() {
    assert_eq!(strip_js_comments("a // note\nb"), "a \nb");
    assert_eq!(strip_js_comments("a /* x */ b"), "a   b");
    assert_eq!(strip_js_comments("s = 'a:b' + \"c\""), "s = '  + \" ");
    assert_eq!(strip_js_comments("r = /a\\/\\/b/g; c"), "r =  g; c");
    assert_eq!(strip_js_comments("x = a / b // c"), "x = a / b ");
    assert_eq!(strip_js_comments("t = `x ${y}` z"), "t = `  z");
    assert_eq!(strip_js_comments("q = /[/]x/.test(s)"), "q =  .test(s)");
}

#[test]
fn regex_start_heuristic() {
    assert!(regex_can_start(&[]));
    assert!(regex_can_start(&['(', ' ', '\n']));
    assert!(regex_can_start(&['=']));
    assert!(!regex_can_start(&['a', ' ']));
    assert!(!regex_can_start(&[')']));
}

#[test]
fn void_return_annotation() {
    assert!(regex_is_match("function f(): void {}", ""));
    assert!(regex_is_match("f() \n : void", ""));
    assert!(!regex_is_match("x = { toString: void 0 }", ""));
    assert!(!regex_is_match("f(): voidish", ""));
    assert!(regex_is_match("f():void", ""));
    assert!(regex_is_match("function f():void{}", r"\)\s*:\s*void\b"));
    assert!(regex_is_match("f() : void", r"\)\s*:\s*void\b"));
    assert!(regex_is_match("f()\t:\n void;", ""));
    assert!(!regex_is_match("f(): voidx", r"\)\s*:\s*void\b"));
    assert!(!regex_is_match("f() void", ""));
}

#[test]
fn typescript_heuristic() {
    assert!(has_ts_syntax("let n: number = 1;"));
    assert!(has_ts_syntax("interface A { x: string }"));
    assert!(has_ts_syntax("const t = [1] as const;"));
    assert!(has_ts_syntax("function f(a): void {}"));
    assert!(has_ts_syntax("function f():void{}"));
    assert!(!has_ts_syntax("// interface TestEnvironment\nvar x = 1;"));
    assert!(!has_ts_syntax("var s = 'Event interface object: string';"));
    assert!(!has_ts_syntax("var o = { toString: void 0 };"));
}

#[test]
fn vite_chunks_from_map_deps() {
    let code = "const __vite__mapDeps=(i,m=__vite__mapDeps,d=(m.f||(m.f=[\"./a.js\",\"./b.css\",\"assets/c.js\",\"\"])))=>i.map(i=>d[i]);";
    let urls = prefetch_vite_chunks(code, "https://site.dev/assets/index.js");
    assert_eq!(urls, vec!["https://site.dev/assets/a.js", "https://site.dev/assets/b.css"]);
    assert!(prefetch_vite_chunks("no table here", "https://x/y.js").is_empty());
    assert!(prefetch_vite_chunks("m.f=[\"./a.js\"", "https://x/y.js").is_empty());
    assert_eq!(prefetch_vite_chunks("m.f=[[\"./n.js\"]]", "entry"), vec!["entry/n.js"]);
}

#[test]
fn strip_esm_leaves_no_import_meta() {
    let p = try_strip_esm_for_eval("a(import.meta.foo);b(import.meta['url']);c(import.meta.env.X)", "https://x/y").unwrap();
    assert!(!p.contains("import.meta"), "got {p}");
    let q = try_strip_esm_for_eval("u(import.meta)", "").unwrap();
    assert!(!q.contains("import.meta"), "got {q}");
}

#[test]
fn comments_hide_typescript_words() {
    assert!(!has_ts_syntax("var x = 1; // x: string"));
    assert!(has_ts_syntax("var x: string = 1;"));
    assert_eq!(strip_js_comments("plain code // interface A"), "plain code ");
}

#[test]
fn stripping_never_lengthens() {
    for code in ["a/*x*/b", "s='abc'+\"de\"", "x = /re[/]g/.test(y) // c\nz", "`t${a}`", "a / b / c", "'unterminated"] {
        assert!(strip_js_comments(code).chars().count() <= code.chars().count(), "{code}");
    }
    assert_eq!(strip_js_comments("a/*x*/b"), "a b");
}
