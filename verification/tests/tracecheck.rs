use nudgec::tracecheck::{required, validate};

fn llm_line(seq: u64) -> String {
    format!(
        r#"{{"v": 1, "seq": {seq}, "kind": "llm.call", "model": "m", "params": {{}}, "input": "p", "output": "o", "tokens": {{"in": 1, "out": 1}}, "cost_usd": 0.001, "repair_round": 0, "outcome": "ok", "provider": "fake"}}"#
    )
}

#[test]
fn a_frozen_v1_trace_validates() {
    let text = format!(
        "{}\n{}\n{}\n",
        llm_line(1),
        r#"{"v": 1, "seq": 2, "kind": "tool.call", "tool": "web_search", "input": ["q"], "output": [], "server": "search"}"#,
        r#"{"v": 1, "seq": 3, "kind": "fn.return", "fn": "main", "output": {"x": 1}}"#,
    );
    assert_eq!(validate(&text), Vec::<String>::new());
}

#[test]
fn bad_version_kind_field_and_seq_are_reported() {
    let text = format!(
        "{}\n{}\n{}\n{}\n",
        r#"{"v": 2, "seq": 1, "kind": "llm.call"}"#,
        r#"{"v": 1, "seq": 2, "kind": "mystery"}"#,
        r#"{"v": 1, "seq": 3, "kind": "tool.call", "tool": "t"}"#,
        llm_line(7),
    );
    let errs = validate(&text);
    assert!(
        errs.iter().any(|e| e.contains("line 1") && e.contains("E0601")),
        "{errs:?}"
    );
    assert!(
        errs.iter()
            .any(|e| e.contains("line 1") && e.contains("missing `model`")),
        "{errs:?}"
    );
    assert!(
        errs.iter()
            .any(|e| e.contains("line 2") && e.contains("unknown record kind")),
        "{errs:?}"
    );
    assert!(
        errs.iter()
            .any(|e| e.contains("line 3") && e.contains("missing `input`")),
        "{errs:?}"
    );
    assert!(
        errs.iter()
            .any(|e| e.contains("line 4") && e.contains("out of order")),
        "{errs:?}"
    );
}

#[test]
fn a_missing_seq_rebaselines_instead_of_cascading() {
    let text = format!(
        "{}\n{}\n{}\n",
        llm_line(1),
        r#"{"v": 1, "kind": "fn.return", "fn": "main", "output": 1}"#,
        llm_line(2),
    );
    let errs = validate(&text);
    assert_eq!(errs.len(), 1, "{errs:?}");
    assert!(
        errs[0].contains("line 2") && errs[0].contains("`seq`"),
        "{errs:?}"
    );
}

#[test]
fn exact_messages_for_each_violation() {
    let text = "{\"v\": 2, \"seq\": 1, \"kind\": \"fn.return\", \"fn\": \"f\", \"output\": 1}\n\
                [1, 2]\n\
                {\"v\": 1,\n\
                \n\
                {\"seq\": 5, \"kind\": \"tool.call\", \"tool\": \"t\", \"input\": 1}\n\
                {\"v\": 1, \"seq\": \"6\"}\n";
    let errs = validate(text);
    assert_eq!(
        errs,
        vec![
            "line 1: unsupported record version 2 (E0601)".to_string(),
            "line 2: record is not a JSON object".to_string(),
            "line 3: invalid JSON: expected '\"' at byte 8".to_string(),
            "line 5: missing or non-numeric `v`".to_string(),
            "line 5: seq 5 out of order (expected 2)".to_string(),
            "line 5: tool.call record missing `output`".to_string(),
            "line 6: missing or non-numeric `seq`".to_string(),
            "line 6: missing `kind`".to_string(),
        ]
    );
}

#[test]
fn blank_lines_and_crlf_are_accepted() {
    let text = format!("\r\n   \n{}\r\n\t\n", llm_line(1));
    assert_eq!(validate(&text), Vec::<String>::new());
    assert_eq!(validate(""), Vec::<String>::new());
}

#[test]
fn required_fields_per_kind() {
    assert_eq!(required("tool.call"), Some(vec!["tool", "input", "output"]));
    assert_eq!(required("fn.return"), Some(vec!["fn", "output"]));
    assert_eq!(required("llm.call").map(|v| v.len()), Some(9));
    assert_eq!(required("llm"), None);
}

#[test]
fn fractional_seq_is_compared_exactly() {
    let a = r#"{"v": 1.0, "seq": 1.0, "kind": "fn.return", "fn": "f", "output": 0}"#;
    let b = r#"{"v": 1, "seq": 2.5, "kind": "fn.return", "fn": "f", "output": 0}"#;
    let c = r#"{"v": 1, "seq": 3.5, "kind": "fn.return", "fn": "f", "output": 0}"#;
    let errs = validate(&format!("{a}\n{b}\n{c}\n"));
    assert_eq!(errs, vec!["line 2: seq 2.5 out of order (expected 2)".to_string()]);
}

#[test]
fn record_count_skips_blank_lines() {
    assert_eq!(nudgec::tracecheck::record_count("{}\n\n  \n{}\r\n"), 2);
    assert_eq!(nudgec::tracecheck::record_count(""), 0);
}

#[test]
fn blank_lines_only_move_line_numbers() {
    let bad = format!("{}\n{}\n", llm_line(1), llm_line(3));
    let spaced = format!("\n{}\n   \n\n{}\n", llm_line(1), llm_line(3));
    let e1 = validate(&bad);
    let e2 = validate(&spaced);
    assert_eq!(e1.len(), 1, "{e1:?}");
    assert_eq!(e2.len(), e1.len(), "{e2:?}");
    assert!(e1[0].starts_with("line 2: ") && e2[0].starts_with("line 5: "), "{e1:?} {e2:?}");
    let good = format!("\n{}\n\n{}\n", llm_line(1), llm_line(2));
    assert!(validate(&good).is_empty());
    let wrong_version = r#"{"v": 2, "seq": 1, "kind": "fn.return", "fn": "f", "output": 1}"#;
    assert!(!validate(wrong_version).is_empty());
}

#[test]
fn extra_fields_and_blank_lines_change_no_error_count() {
    let plain = format!("{}\n{}\n", llm_line(1), llm_line(5));
    let widened = format!(
        "\n{}\n\n{}\n",
        llm_line(1).replace("\"provider\": \"fake\"}", "\"provider\": \"fake\", \"note\": \"x\", \"span\": [1, 2]}"),
        llm_line(5)
    );
    assert_ne!(plain, widened);
    assert_eq!(validate(&plain).len(), 1);
    assert_eq!(validate(&widened).len(), validate(&plain).len());
}
