use nudgec::tracediff::diff;

fn llm(seq: u64, out: &str, tin: u64, tout: u64, cost: f64) -> String {
    format!(
        r#"{{"v": 1, "seq": {seq}, "kind": "llm.call", "model": "m", "params": {{}}, "input": "p", "output": {out}, "tokens": {{"in": {tin}, "out": {tout}}}, "cost_usd": {cost}, "repair_round": 0, "outcome": "ok", "provider": "fake"}}"#
    )
}

#[test]
fn identical_traces_report_no_differences() {
    let t = format!("{}\n", llm(1, "\"x\"", 10, 5, 0.001));
    let r = diff(&t, &t);
    assert!(r.contains("traces identical"), "{r}");
}

#[test]
fn changed_output_and_cost_are_reported() {
    let a = format!("{}\n", llm(1, "\"old\"", 10, 5, 0.001));
    let b = format!("{}\n", llm(1, "\"new\"", 12, 8, 0.002));
    let r = diff(&a, &b);
    assert!(r.contains("output    CHANGED"), "{r}");
    assert!(r.contains("tokens    15 -> 20 (+5)"), "{r}");
    assert!(r.contains("$0.0010 -> $0.0020 (+$0.0010)"), "{r}");
    assert!(r.contains("1 record(s) differ"), "{r}");
}

#[test]
fn length_mismatch_is_reported() {
    let a = format!(
        "{}\n{}\n",
        llm(1, "\"x\"", 1, 1, 0.001),
        llm(2, "\"y\"", 1, 1, 0.001)
    );
    let b = format!("{}\n", llm(1, "\"x\"", 1, 1, 0.001));
    let r = diff(&a, &b);
    assert!(r.contains("only in A"), "{r}");
}

#[test]
fn repair_counts_are_totalled() {
    let repaired = r#"{"v": 1, "seq": 1, "kind": "llm.call", "model": "m", "params": {}, "input": "p", "output": "o", "tokens": {"in": 1, "out": 1}, "cost_usd": 0.001, "repair_round": 2, "outcome": "ok", "provider": "fake"}"#;
    let clean = format!("{}\n", llm(1, "\"o\"", 1, 1, 0.001));
    let r = diff(&format!("{repaired}\n"), &clean);
    assert!(r.contains("repairs   1 -> 0 (-1)"), "{r}");
}

#[test]
fn whole_report_for_a_changed_trace() {
    let a = format!(
        "{}\n{}\n",
        llm(1, "\"old\"", 10, 5, 0.001),
        r#"{"v": 1, "seq": 2, "kind": "tool.call", "tool": "web", "input": "q", "output": [1, 2]}"#
    );
    let b = format!(
        "{}\nnot json\n{}\n{}\n",
        llm(1, "\"new\\nline\"", 12, 8, 0.0025),
        r#"{"v": 1, "seq": 2, "kind": "tool.call", "tool": "web", "input": "q", "output": [1, 2.0]}"#,
        r#"{"v": 1, "seq": 3, "kind": "fn.return", "fn": "main", "output": null}"#
    );
    let r = diff(&a, &b);
    let expected = "records   2 -> 3\n\
llm calls 1 -> 1   tool calls 1 -> 1\n\
tokens    15 -> 20 (+5)   (in 10 -> 12, out 5 -> 8)\n\
cost      $0.0010 -> $0.0025 (+$0.0015)\n\
repairs   0 -> 0\n\
\n\
#1 llm.call m\n  tokens    15 -> 20 (+5)\n  cost      $0.0010 -> $0.0025 (+$0.0015)\n  output    CHANGED\n    - \"old\"\n    + \"new line\"\n\
\n\
#3 fn.return — only in B\n\
\n\
-- 2 record(s) differ\n";
    assert_eq!(r, expected);
}

#[test]
fn cheaper_run_shows_negative_deltas() {
    let a = format!("{}\n", llm(1, "{\"k\": 1}", 100, 50, 0.01));
    let b = format!("{}\n", llm(1, "{\"k\": 1}", 90, 40, 0.004));
    let r = diff(&a, &b);
    assert!(r.contains("tokens    150 -> 130 (-20)"), "{r}");
    assert!(r.contains("cost      $0.0100 -> $0.0040 (-$0.0060)"), "{r}");
    assert!(!r.contains("output"), "{r}");
}

#[test]
fn long_outputs_are_cut_with_an_ellipsis() {
    let long = "x".repeat(100);
    let a = format!("{}\n", llm(1, &format!("\"{long}\""), 1, 1, 0.001));
    let b = format!("{}\n", llm(1, "\"y\"", 1, 1, 0.001));
    let r = diff(&a, &b);
    let cut = format!("    - \"{}…\"", "x".repeat(71));
    assert!(r.contains(&cut), "{r}");
}

#[test]
fn empty_traces_are_identical() {
    let r = diff("", "\n\n");
    assert_eq!(
        r,
        "records   0 -> 0\nllm calls 0 -> 0   tool calls 0 -> 0\ntokens    0 -> 0   (in 0 -> 0, out 0 -> 0)\ncost      $0.0000 -> $0.0000\nrepairs   0 -> 0\n\n-- traces identical (per-record)\n"
    );
}

#[test]
fn lines_that_are_not_records_change_nothing() {
    let a = "{\"kind\": \"llm.call\", \"tokens\": {\"in\": 3, \"out\": 4}, \"cost_usd\": 0.5, \"output\": \"x\"}\n{\"kind\": \"fn.return\", \"output\": 1}\n";
    let a2 = "not json\n{\"kind\": \"llm.call\", \"tokens\": {\"in\": 3, \"out\": 4}, \"cost_usd\": 0.5, \"output\": \"x\"}\n\n[1, 2]\n{\"kind\": \"fn.return\", \"output\": 1}\n42\n";
    let b = "{\"kind\": \"llm.call\", \"tokens\": {\"in\": 3, \"out\": 5}, \"cost_usd\": 0.5, \"output\": \"y\"}\n";
    assert_eq!(diff(a2, b), diff(a, b));
    assert_eq!(diff(b, a2), diff(b, a));
    let r = diff(a, b);
    assert!(r.starts_with("records   2 -> 1\n"), "{r}");
    assert!(r.ends_with("\n-- 2 record(s) differ\n"), "{r}");
}
