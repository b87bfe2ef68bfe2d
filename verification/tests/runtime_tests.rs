use js_runtime::cache::{script_cache_public, script_fetch_finish, script_fetch_start, ScriptCache, ScriptFetchStart, DEADLINE_SKIP_MSG};
use js_runtime::jsgen::{
    dyn_pending_js, escape_js_quotes, escape_js_ws_data, script_label, wrap_classic_script,
    wrap_script, ws_dispatch_js, ws_dispatch_js_quoted, WRAP_HEAD,
};
use js_runtime::plan::{
    clean_inline_module, dyn_url_mark, has_module_script, inline_module_has_static_import,
    inline_module_imports, inline_module_url, split_lines, vite_module_source, DYN_URL_PREFIX,
};
use js_runtime::policy::{
    dyn_script_runnable, log_dyn_error, log_module_error, patch_fetched_script,
    script_mime_executable, script_response_check, should_skip_script,
};
use js_runtime::pump::{
    click_pump_continues, click_pump_step, pump_after_tick, pump_after_timer_wait,
    pump_tick_allowed, settle_step, PumpAction, PumpState, SettleAction, SettleState,
};
use js_runtime::dom::ScriptEntry;
use js_runtime::esm::VITE_ENV_DEFAULT_JS;
use js_runtime::urls::{
    csr_fallback_source, follow_navigation, page_origin, resolve_module_specifier,
    resolve_script_url, reuse_storage, url_origin,
};

use js_runtime::module_strip::{module_eval_fallback_source, MODULE_STUB_PRELUDE};
use js_runtime::plan::{prefetch_plan, run_order, unique_urls};
use js_runtime::json::{parse_json, Json};
use js_runtime::jsgen::{storage_get_js, storage_key_js, storage_remove_js, storage_set_js};
use js_runtime::pump::event_loop_budget_ms;
use js_runtime::jsgen::join_shims;
use js_runtime::graph::{module_graph_start, module_graph_step};

#[test]
fn diag_protocol_relative_url_resolution() {
    let src = "//o.alicdn.com/x.js";
    let r1 = resolve_script_url(src, Some("http://localhost:8899/page.html"));
    assert_eq!(r1.as_deref(), Some("http://o.alicdn.com/x.js"));
    let r2 = resolve_script_url(src, Some("https://open.bigmodel.cn/pricing"));
    assert_eq!(r2.as_deref(), Some("https://o.alicdn.com/x.js"));
    let r3 = resolve_script_url(src, None);
    assert_eq!(r3, None);
    let r4 = resolve_script_url("https://cdn.example.com/x.js", None);
    assert_eq!(r4.as_deref(), Some("https://cdn.example.com/x.js"));
}

#[test]
fn script_url_resolution_relative_and_absolute() {
    assert_eq!(
        resolve_script_url("js/app.js", Some("https://a.com/dir/page.html")).as_deref(),
        Some("https://a.com/dir/js/app.js")
    );
    assert_eq!(resolve_script_url("HTTPS://A.com", None).as_deref(), Some("https://a.com/"));
    assert_eq!(resolve_script_url("x.js", Some("not a url")), None);
}

#[test]
fn module_specifier_resolution() {
    assert_eq!(resolve_module_specifier("https://a.com/m/e.js", "./d.js").as_deref(), Some("https://a.com/m/d.js"));
    assert_eq!(resolve_module_specifier("bad", "http://x/y.js").as_deref(), Some("http://x/y.js"));
    assert_eq!(resolve_module_specifier("bad", "./d.js"), None);
    assert_eq!(resolve_module_specifier("https://a.com/m/e.js", "react"), None);
    assert_eq!(resolve_module_specifier("https://a.com/m/e.js", "../up.js").as_deref(), Some("https://a.com/up.js"));
    assert_eq!(resolve_module_specifier("https://a.com/m/e.js", "/root.js").as_deref(), Some("https://a.com/root.js"));
    assert_eq!(resolve_module_specifier("https://a.com/m/e.js", "https://x.org/y.js").as_deref(), Some("https://x.org/y.js"));
}

#[test]
fn origins_and_storage_reuse() {
    assert_eq!(url_origin("https://vite.dev/assets/app.js"), "https://vite.dev");
    assert_eq!(url_origin("http://h:8080"), "http://h:8080");
    assert_eq!(url_origin("no-scheme/x"), "no-scheme/x");
    assert_eq!(page_origin(None), "about:blank");
    assert_eq!(page_origin(Some("https://a.b/c?d")), "https://a.b");
    assert!(reuse_storage(Some("https://a.b"), "https://a.b"));
    assert!(!reuse_storage(Some("https://a.b"), "https://c.d"));
    assert!(!reuse_storage(None, "https://a.b"));
    assert!(follow_navigation(4));
    assert!(!follow_navigation(5));
}

#[test]
fn try_csr_fallback_skips_unregistered_host() {
    assert_eq!(csr_fallback_source("https://example.com/page"), None);
}

#[test]
fn try_csr_fallback_skips_about_blank() {
    assert_eq!(csr_fallback_source("about:blank"), None);
    assert_eq!(csr_fallback_source(""), None);
}

#[test]
fn csr_fallback_source_for_cls_hosts() {
    assert_eq!(
        csr_fallback_source("https://www.cls.cn/telegraph"),
        Some(("www.cls.cn".to_string(), "https://m.cls.cn/telegraph".to_string()))
    );
    assert_eq!(csr_fallback_source("not a url"), None);
}

#[test]
fn wrappers_contain_code_and_label() {
    let w = wrap_script("f();", "module[0] https://a/m.js");
    assert!(w.starts_with(WRAP_HEAD));
    assert!(w.contains("f();"));
    assert!(w.contains("__log('[module[0] https://a/m.js] ' + __parts.join(' | '));"));
    assert!(w.ends_with("})();\n"));
    let c = wrap_classic_script("g();", "inline[2]");
    assert!(c.contains("lineNumber="));
    assert!(c.ends_with("})();\n//# sourceURL=inline[2]\n"));
}

#[test]
fn labels() {
    assert_eq!(script_label("inline", 3, None), "inline[3]");
    assert_eq!(script_label("external", 10, Some("https://a/b.js")), "external[10] https://a/b.js");
}

#[test]
fn ws_payload_escaping() {
    assert_eq!(escape_js_ws_data("a'b\\c\nd\re\tf"), "a\\'b\\\\c\\nd\\re\\tf");
    assert_eq!(escape_js_ws_data(""), "");
    assert_eq!(escape_js_quotes("a'b\\c\n"), "a\\'b\\\\c\n");
    assert_eq!(ws_dispatch_js(7, "message", "it's"), "__wsDispatchEvent(7, 'message', 'it\\'s')");
    assert_eq!(ws_dispatch_js(0, "open", "a\nb"), "__wsDispatchEvent(0, 'open', 'a\\nb')");
    assert_eq!(ws_dispatch_js_quoted(12, "close", "a\nb'"), "__wsDispatchEvent(12, 'close', 'a\nb\\'')");
}

#[test]
fn dyn_pending_snippet() {
    let js = dyn_pending_js("/a'b.js", true);
    assert_eq!(
        js,
        "try{window.__dynStatus=window.__dynStatus||{};window.__dynStatus['/a\\'b.js']='loaded';}catch(e){}try{var __f=(window.__dynPending||{})['/a\\'b.js'];if(typeof __f==='function'){try{__f()}catch(e2){}}}catch(e1){}try{delete window.__dynPending['/a\\'b.js'];}catch(e3){}"
    );
    assert!(dyn_pending_js("x", false).contains("='failed';"));
}

#[test]
fn fetch_policy() {
    assert!(should_skip_script("https://www.googletagmanager.com/gtag.js"));
    assert!(should_skip_script("https://a/b.ts"));
    assert!(should_skip_script("https://a/b.ts?v=1"));
    assert!(!should_skip_script("https://a/b.tsx"));
    assert!(!should_skip_script("https://a/app.js"));
    assert!(script_mime_executable(None));
    assert!(script_mime_executable(Some("Text/JavaScript; charset=utf-8")));
    assert!(script_mime_executable(Some(" text/plain ")));
    assert!(!script_mime_executable(Some("text/csv")));
    assert!(!script_mime_executable(Some("")));
    assert_eq!(script_response_check(Some("image/png")).unwrap_err(), "blocked script MIME: image/png");
    assert!(script_response_check(None).is_ok());
}

#[test]
fn docsify_patch_only_for_docsify() {
    let code = "a=t[u(r)];(c=R.util.type(r));o(n)?window.addEventListener(e,n):e.addEventListener(n,i)";
    assert_eq!(patch_fetched_script("https://cdn/x.js", code), code);
    assert_eq!(
        patch_fetched_script("https://cdn.jsdelivr.net/npm/docsify@4", code),
        "a=t[r?u(r):0];(c=R.util.type(r||0));null===e||void 0===e||o(n)?window.addEventListener(e,n):e.addEventListener(n,i)"
    );
}

#[test]
fn dynamic_script_checks() {
    assert!(!dyn_script_runnable(""));
    assert!(!dyn_script_runnable("<html>404</html>"));
    assert!(dyn_script_runnable("a < b"));
    assert!(dyn_script_runnable("f()"));
    assert!(!log_dyn_error("SyntaxError: unexpected token in expression: '<'"));
    assert!(log_dyn_error("ReferenceError: x is not defined"));
    assert!(!log_module_error("TypeError: not a function"));
    assert_eq!(dyn_url_mark(&format!("{DYN_URL_PREFIX}/chunk.js")).as_deref(), Some("/chunk.js"));
    assert_eq!(dyn_url_mark("f()"), None);
}

#[test]
fn script_cache_read_after_write() {
    let mut c: ScriptCache = script_cache_public();
    assert_eq!(c.get("https://a/x.js"), None);
    c.insert("https://a/x.js".to_string(), "one".to_string());
    c.insert("https://a/y.js".to_string(), "two".to_string());
    c.insert("https://a/x.js".to_string(), "three".to_string());
    assert_eq!(c.get("https://a/x.js").as_deref(), Some("three"));
    assert_eq!(c.get("https://a/y.js").as_deref(), Some("two"));
    assert_eq!(c.get("https://a/z.js"), None);
    let fresh = ScriptCache::new();
    assert_eq!(fresh.get("https://a/x.js"), None);
}

#[test]
fn classic_pump_decisions() {
    assert!(pump_tick_allowed(0, 0));
    assert!(!pump_tick_allowed(1000, 0));
    assert!(!pump_tick_allowed(1, 3000));
    let mut st = PumpState::new();
    assert_eq!(pump_after_tick(&mut st, 2, None, 10, 0), PumpAction::Continue);
    assert_eq!(pump_after_tick(&mut st, 0, Some(200), 10, 0), PumpAction::WaitTimer(50));
    assert_eq!(pump_after_tick(&mut st, 0, Some(200), 2990, 0), PumpAction::WaitTimer(10));
    assert_eq!(pump_after_tick(&mut st, 0, Some(3), 10, 0), PumpAction::WaitTimer(3));
    assert!(!pump_after_timer_wait(&mut st, 100));
    assert!(!pump_after_timer_wait(&mut st, 400));
    assert!(!pump_after_timer_wait(&mut st, 450));
    assert!(pump_after_timer_wait(&mut st, 500));
    let mut st = PumpState::new();
    assert_eq!(pump_after_tick(&mut st, 0, None, 10, 0), PumpAction::Stop);
    assert_eq!(pump_after_tick(&mut st, 0, None, 10, 1), PumpAction::PollSockets(5));
    assert_eq!(st.ws_idle_polls, 1);
}

#[test]
fn settle_detection() {
    let mut st = SettleState::new();
    assert_eq!(settle_step(&mut st, false, false, 100), SettleAction::Continue);
    assert_eq!(st.idle_start_ms, Some(100));
    assert_eq!(settle_step(&mut st, false, false, 200), SettleAction::Continue);
    assert_eq!(settle_step(&mut st, false, false, 400), SettleAction::CheckContent);
    assert_eq!(settle_step(&mut st, false, false, 405), SettleAction::CheckContent);
    assert_eq!(settle_step(&mut st, false, false, 410), SettleAction::Stop);
    let mut st = SettleState::new();
    settle_step(&mut st, false, false, 0);
    assert_eq!(settle_step(&mut st, false, true, 500), SettleAction::Continue);
    assert_eq!(st.idle_start_ms, None);
    assert_eq!(click_pump_step(2, true, false), (0, true));
    assert_eq!(click_pump_step(2, false, true), (0, false));
    assert_eq!(click_pump_step(1, false, false), (2, true));
    assert!(click_pump_continues(2, 10, 500));
    assert!(!click_pump_continues(3, 10, 500));
    assert!(!click_pump_continues(0, 500, 500));
}

#[test]
fn module_source_plans() {
    let v = vite_module_source("x(import.meta.env.MODE, import.meta.hot)");
    assert!(v.starts_with("if(typeof __vite_hot_stub__==='undefined')"));
    assert!(v.contains(&format!("var __vite_env__={VITE_ENV_DEFAULT_JS};\n")));
    assert!(v.ends_with("x(__vite_env__.MODE, __vite_hot_stub__)"));
    assert!(inline_module_imports("import {a} from 'a'"));
    assert!(!inline_module_imports("imports()"));
    assert!(inline_module_has_static_import("import * as m from 'm'"));
    assert_eq!(inline_module_url(Some("https://p/"), 4), "https://p/?inline=4");
    assert_eq!(inline_module_url(None, 0), "about:blank?inline=0");
    assert_eq!(
        clean_inline_module("import {a} from 'a';\n  import{b}from'b'\nrun(a);\r\nhook.injectIntoGlobalHook(w)\nend()").as_deref(),
        Some("run(a);\nend()")
    );
    assert_eq!(clean_inline_module("import {a} from 'a'\n"), None);
    let entries = vec![ScriptEntry::Inline("a".into()), ScriptEntry::ExternalModule("m.js".into())];
    assert!(has_module_script(&entries));
    assert!(!has_module_script(&entries[..1]));
}

#[test]
fn lines_split_like_str_lines() {
    let cs: Vec<char> = "a\r\nb\n\nc\r".chars().collect();
    let ls: Vec<String> = split_lines(&cs).into_iter().map(|l| l.into_iter().collect()).collect();
    assert_eq!(ls, "a\r\nb\n\nc\r".lines().map(|s| s.to_string()).collect::<Vec<_>>());
    let cs: Vec<char> = "x\n".chars().collect();
    assert_eq!(split_lines(&cs).len(), 1);
}

#[test]
fn module_fallback_strips_statements() {
    let raw = "import React from \"/node_modules/.vite/deps/react.js\";\nimport __vite__cjsImport0_react from \"/node_modules/.vite/deps/react.js\"; const a = 1;\nconst u = import.meta.url;\nexport{a as b};\nlet x=1;export{x};\nconsole.log('é')";
    let want = format!(
        "{MODULE_STUB_PRELUDE}var __vite__cjsImport0_react=window.__vite_ns_registry__?.[\"http://localhost:5173/node_modules/.vite/deps/react.js\"]||__react_stub();\nconst u = \"http://localhost:5173/\";\nlet x=1;\nconsole.log('Ã©')\n"
    );
    assert_eq!(module_eval_fallback_source(raw), want);
    let inline = "foo(); import __vite__cjsImport1_x) from \"/x.js\"";
    assert_eq!(
        module_eval_fallback_source(inline),
        format!("{MODULE_STUB_PRELUDE}foo(); var __vite__cjsImport1_x=window.__vite_ns_registry__?.[\"http://localhost:5173/x.js\"]||__react_stub();\n")
    );
    assert!(MODULE_STUB_PRELUDE.starts_with("if(typeof __react_stub==='undefined')"));
    assert!(MODULE_STUB_PRELUDE.ends_with("r.textContent='[React stub]'}}};\n"));
}

#[test]
fn prefetch_plan_sorted_unique() {
    let entries = vec![
        ScriptEntry::External("/b.js".into()),
        ScriptEntry::ExternalModule("/a.mjs".into()),
        ScriptEntry::External("https://www.google-analytics.com/ga.js".into()),
        ScriptEntry::Inline("x()".into()),
        ScriptEntry::External("/b.js".into()),
        ScriptEntry::ExternalModule("/c.mjs".into()),
    ];
    let (urls, modules) = prefetch_plan(&entries, Some("https://s.io/p/index.html"));
    assert_eq!(urls, vec!["https://s.io/a.mjs", "https://s.io/b.js", "https://s.io/c.mjs"]);
    assert_eq!(modules, vec!["https://s.io/a.mjs", "https://s.io/c.mjs"]);
    let (urls, modules) = prefetch_plan(&entries, None);
    assert!(urls.is_empty() && modules.is_empty());
    let u = unique_urls(vec!["b".into(), "a".into(), "b".into(), "ab".into(), "".into()]);
    assert_eq!(u, vec!["", "a", "ab", "b"]);
}

#[test]
fn json_object_keys_in_order() {
    let v = parse_json(r#"{"b": 1, "a": 2, "c": {"z": 0, "y": 1}, "b": 3}"#).unwrap();
    if let Json::Object(m) = &v {
        let keys: Vec<&str> = m.iter().map(|(k, _)| k.as_str()).collect();
        assert_eq!(keys, vec!["a", "b", "c"]);
    } else {
        panic!();
    }
    assert_eq!(v.get("b").and_then(|x| x.as_number_text()), Some("3"));
}

#[test]
fn storage_call_code() {
    assert_eq!(storage_get_js("k"), "__storageGet(\"k\");");
    assert_eq!(storage_set_js("a'b", "x\"y"), "__storageSet(\"a'b\", \"x\\\"y\"); undefined;");
    assert_eq!(storage_remove_js("t\n"), "__storageRemove(\"t\\n\"); undefined;");
    assert_eq!(storage_key_js(-1), "__storageKey(-1);");
    assert_eq!(storage_key_js(3), "__storageKey(3);");
    assert_eq!(storage_key_js(i64::MIN), "__storageKey(-9223372036854775808);");
}

#[test]
fn event_loop_budget_setting() {
    assert_eq!(event_loop_budget_ms(None), 2000);
    assert_eq!(event_loop_budget_ms(Some("12000")), 12000);
    assert_eq!(event_loop_budget_ms(Some("+5")), 5);
    assert_eq!(event_loop_budget_ms(Some("")), 2000);
    assert_eq!(event_loop_budget_ms(Some("+")), 2000);
    assert_eq!(event_loop_budget_ms(Some("-5")), 2000);
    assert_eq!(event_loop_budget_ms(Some(" 5")), 2000);
    assert_eq!(event_loop_budget_ms(Some("18446744073709551615")), u64::MAX);
    assert_eq!(event_loop_budget_ms(Some("18446744073709551616")), 2000);
}

#[test]
fn shims_joined_with_statement_breaks() {
    assert_eq!(join_shims(&[]), "");
    assert_eq!(join_shims(&["a".to_string()]), "a");
    assert_eq!(join_shims(&["a".to_string(), "b".to_string(), "c".to_string()]), "a\n;\nb\n;\nc");
}

#[test]
fn module_graph_walk_layers() {
    let mut cache = ScriptCache::new();
    cache.insert("https://s.io/app/main.js".into(), "import{a}from\"./a.js\";import\"./b.js\";import(\"https://cdn.io/x.js\")".into());
    cache.insert("https://s.io/app/a.js".into(), "export{}from'./c.js';import'./main.js'".into());
    let entries = vec!["https://s.io/app/main.js".to_string(), "https://s.io/app/main.js".to_string(), "https://s.io/app/other.js".to_string()];
    let mut g = module_graph_start(&entries, &cache);
    assert_eq!(g.seen, vec!["https://s.io/app/main.js", "https://s.io/app/other.js"]);
    assert_eq!(g.frontier, vec!["https://s.io/app/main.js", "https://s.io/app/main.js"]);
    let l1 = module_graph_step(&mut g, &cache).unwrap();
    assert_eq!(l1, vec!["https://s.io/app/a.js", "https://s.io/app/b.js", "https://cdn.io/x.js"]);
    assert_eq!(g.depth, 1);
    let l2 = module_graph_step(&mut g, &cache).unwrap();
    assert_eq!(l2, vec!["https://s.io/app/c.js"]);
    assert_eq!(module_graph_step(&mut g, &cache), None);
    assert_eq!(g.depth, 3);
    assert!(g.frontier.is_empty());
    assert_eq!(module_graph_step(&mut g, &cache), None);
    assert_eq!(g.depth, 3);
}

#[test]
fn module_graph_skips_bare_specifiers() {
    let mut cache = ScriptCache::new();
    cache.insert("https://s.io/app/main.js".into(), "import React from \"react\";import{a}from\"./a.js\"".into());
    let entries = vec!["https://s.io/app/main.js".to_string()];
    let mut g = module_graph_start(&entries, &cache);
    assert_eq!(module_graph_step(&mut g, &cache), Some(vec!["https://s.io/app/a.js".to_string()]));
}

#[test]
fn script_fetch_steps() {
    let mut c = ScriptCache::new();
    assert!(matches!(script_fetch_start(&c, "https://a/x.js", false), ScriptFetchStart::Fetch));
    match script_fetch_start(&c, "https://a/x.js", true) {
        ScriptFetchStart::Skipped(e) => assert_eq!(e, DEADLINE_SKIP_MSG),
        other => panic!("{other:?}"),
    }
    let r = script_fetch_finish(&mut c, "https://a/x.js", Some("image/png"), Ok("x()".into()));
    assert_eq!(r, Err("blocked script MIME: image/png".to_string()));
    assert_eq!(c.get("https://a/x.js"), None);
    let r = script_fetch_finish(&mut c, "https://a/x.js", None, Err("non-utf8 response".into()));
    assert_eq!(r, Err("non-utf8 response".to_string()));
    let r = script_fetch_finish(&mut c, "https://a/x.js", Some("text/javascript; charset=utf-8"), Ok("x()".into()));
    assert_eq!(r, Ok("x()".to_string()));
    match script_fetch_start(&c, "https://a/x.js", true) {
        ScriptFetchStart::Cached(code) => assert_eq!(code, "x()"),
        other => panic!("{other:?}"),
    }
}

#[test]
fn modules_run_before_classic_scripts() {
    let entries = vec![
        ScriptEntry::Inline("a()".into()),
        ScriptEntry::ExternalModule("/m.js".into()),
        ScriptEntry::External("/c.js".into()),
        ScriptEntry::InlineModule("import'x'".into()),
    ];
    assert_eq!(run_order(&entries), vec![1, 3, 0, 2]);
    assert!(run_order(&[]).is_empty());
}
