use js_runtime::fallback::{
    civil_from_days, extract_roll_data_json, fallback_outcome, format_item, format_timestamp,
    host_is_cls_cn, inject_lines, roll_entries_from_html, FallbackItem, FALLBACK_HEADING,
};
use js_runtime::json::{parse_json, Json};

#[test]
fn civil_from_days_epoch() {
    assert_eq!(civil_from_days(0), (1970, 1, 1));
    assert_eq!(civil_from_days(365), (1971, 1, 1));
}

#[test]
fn format_timestamp_handles_zero() {
    assert_eq!(format_timestamp(0), "--");
    let s = format_timestamp(1_781_633_187);
    assert!(s.contains("2026"), "expected 2026, got {s}");
    assert_eq!(s.len(), 16);
}

#[test]
fn extract_roll_data_finds_balanced_array() {
    let html = r#"foo "roll_data":[{"a":1,"s":"x]"},{"b":[1,2]}] bar"#;
    let j = extract_roll_data_json(html).unwrap();
    assert!(j.starts_with('['));
    assert!(j.ends_with(']'));
    let parsed = parse_json(&j).unwrap();
    match parsed {
        Json::Array(a) => assert_eq!(a.len(), 2),
        _ => panic!("not array"),
    }
}

#[test]
fn extract_roll_data_handles_string_with_brackets() {
    let html = r#"roll_data":[{"title":"a]b","c":2}]"#;
    let j = extract_roll_data_json(html).unwrap();
    let parsed = parse_json(&j).unwrap();
    if let Json::Array(a) = parsed {
        assert_eq!(a.len(), 1);
    } else {
        panic!();
    }
}

#[test]
fn host_matcher_matches_cls_variants() {
    assert!(host_is_cls_cn("www.cls.cn"));
    assert!(host_is_cls_cn("cls.cn"));
    assert!(host_is_cls_cn("m.cls.cn"));
    assert!(!host_is_cls_cn("example.com"));
}

#[test]
fn format_item_renders_crawler_friendly_line() {
    let it = FallbackItem {
        ctime: 1_781_633_187,
        brief: "财联社6月17日电，测试。".into(),
        level: "B".into(),
    };
    let line = format_item(&it);
    assert!(line.contains("[2026-"), "got {line}");
    assert!(line.contains("[B]"), "got {line}");
    assert!(line.contains("测试"), "got {line}");
}

#[test]
fn civil_from_days_known_dates() {
    assert_eq!(civil_from_days(59), (1970, 3, 1));
    assert_eq!(civil_from_days(10957), (2000, 1, 1));
    assert_eq!(civil_from_days(11016), (2000, 2, 29));
    assert_eq!(civil_from_days(11017), (2000, 3, 1));
    assert_eq!(civil_from_days(-1), (1969, 12, 31));
    assert_eq!(civil_from_days(-719468), (0, 3, 1));
}

#[test]
fn format_timestamp_exact_values() {
    assert_eq!(format_timestamp(1_781_633_187), "2026-06-16 18:06");
    assert_eq!(format_timestamp(1), "1970-01-01 00:00");
    assert_eq!(format_timestamp(86_399), "1970-01-01 23:59");
    assert_eq!(format_timestamp(951_782_400), "2000-02-29 00:00");
}

#[test]
fn format_item_exact_lines() {
    let it = FallbackItem { ctime: 0, brief: "  news  ".into(), level: String::new() };
    assert_eq!(format_item(&it), "[--]  news");
    let it = FallbackItem { ctime: 60, brief: "x".into(), level: "C".into() };
    assert_eq!(format_item(&it), "[1970-01-01 00:01] [C] x");
    let empty = FallbackItem { ctime: 60, brief: String::new(), level: "C".into() };
    assert_eq!(format_item(&empty), "");
}

#[test]
fn extract_roll_data_missing_is_error() {
    assert_eq!(extract_roll_data_json("<html>nothing</html>").unwrap_err(), "roll_data not found");
    assert_eq!(extract_roll_data_json("roll_data: [1, 2").unwrap_err(), "roll_data not found");
}

#[test]
fn extract_roll_data_skips_key_without_array() {
    let html = r#"{"roll_data_count":3} roll_data":[7]"#;
    assert_eq!(extract_roll_data_json(html).unwrap(), "[7]");
}

#[test]
fn roll_entries_read_brief_content_and_level() {
    let html = r#"x "roll_data":[{"brief":"A","ctime":1781633187,"level":"B"},{"brief":"","content":" C "},{"brief":"  "},3] y"#;
    let v = roll_entries_from_html(html).unwrap();
    assert_eq!(v.len(), 2);
    assert_eq!(v[0].brief, "A");
    assert_eq!(v[0].ctime.as_deref(), Some("1781633187"));
    assert_eq!(v[0].level, "B");
    assert_eq!(v[1].brief, " C ");
    assert_eq!(v[1].ctime, None);
    assert_eq!(v[1].level, "");
}

#[test]
fn roll_entries_errors() {
    assert_eq!(roll_entries_from_html("none").unwrap_err(), "roll_data not found");
    let e = roll_entries_from_html(r#"roll_data":[1,]"#).unwrap_err();
    assert!(e.starts_with("roll_data parse: "), "got {e}");
}

#[test]
fn inject_items_appends_to_body() {
    assert!(inject_lines(&[]).is_empty());
    let items = vec![FallbackItem { ctime: 1_781_633_187, brief: "电报正文A".into(), level: "C".into() }];
    let lines = inject_lines(&items);
    assert_eq!(lines.len(), 2);
    assert_eq!(lines[0], FALLBACK_HEADING);
    let text = lines.join("\n");
    assert!(text.contains("电报正文A"), "got {text}");
    assert!(text.contains("CSR 兜底"), "got {text}");
}

#[test]
fn fallback_outcome_ignores_fetch_error() {
    let r = fallback_outcome(Err("timeout".to_string()), true);
    assert!(r.is_empty());
    let r = fallback_outcome(Ok(Vec::new()), true);
    assert!(r.is_empty());
    let items = vec![FallbackItem { ctime: 1_781_633_187, brief: "A".into(), level: String::new() }];
    assert!(fallback_outcome(Ok(items.clone()), false).is_empty());
    let lines = fallback_outcome(Ok(items), true);
    assert_eq!(lines.len(), 2);
    assert_eq!(lines[0], FALLBACK_HEADING);
}

#[test]
fn civil_dates_are_real_and_consecutive() {
    assert_eq!(civil_from_days(789), (1972, 2, 29));
    assert_eq!(civil_from_days(790), (1972, 3, 1));
    assert_eq!(civil_from_days(-1), (1969, 12, 31));
    assert_eq!(civil_from_days(0), (1970, 1, 1));
    assert_eq!(civil_from_days(11_016), (2000, 2, 29));
    assert_eq!(civil_from_days(-25_509), (1900, 2, 28));
    assert_eq!(civil_from_days(-25_508), (1900, 3, 1));
}
