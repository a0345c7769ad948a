use nudgec::lexer::lex;
use nudgec::lint::{lint, lint_items, prompt_words, Lint};
use nudgec::parser::parse;

fn lints(src: &str) -> Vec<Lint> {
    let toks = lex(src).unwrap();
    let items = parse(toks).unwrap();
    lint_items(&items)
}

#[test]
fn no_budget_warns_w0001() {
    let ls = lints("fn f() -> string uses LLM {\n    llm\"\"\"summarize this text please\"\"\" with { model: \"fake\" }\n}");
    assert!(ls.iter().any(|l| l.code == "W0001"), "{ls:?}");
    assert!(!ls.iter().any(|l| l.code == "W0002"), "{ls:?}");
}

#[test]
fn vague_prompt_warns_w0002() {
    let ls = lints("fn f() -> string uses LLM {\n    llm\"\"\"do it\"\"\" with { model: \"fake\", budget: 0.01 USD }\n}");
    assert!(ls.iter().any(|l| l.code == "W0002"), "{ls:?}");
    assert!(!ls.iter().any(|l| l.code == "W0001"), "{ls:?}");
}

#[test]
fn schema_silence_warns_w0003_and_mentioning_fields_clears_it() {
    let ty = "type Smoke = { title: string, confidence: float }\n";
    let silent = lints(&format!("{ty}fn f() -> string uses LLM {{\n    llm\"\"\"analyze this thing carefully\"\"\" with {{ model: \"fake\", schema: Smoke, budget: 0.01 USD }}\n}}"));
    assert!(silent.iter().any(|l| l.code == "W0003"), "{silent:?}");
    let loud = lints(&format!("{ty}fn f() -> string uses LLM {{\n    llm\"\"\"return JSON with fields: title and confidence\"\"\" with {{ model: \"fake\", schema: Smoke, budget: 0.01 USD, retry: 2 with repair }}\n}}"));
    assert!(!loud.iter().any(|l| l.code == "W0003"), "{loud:?}");
    assert!(loud.is_empty(), "{loud:?}");
}

#[test]
fn schema_without_repair_warns_w0004() {
    let ty = "type S = { title: string }\n";
    let no_repair = lints(&format!("{ty}fn f() -> S uses LLM {{\n    llm\"\"\"return JSON with the title field\"\"\" with {{ model: \"fake\", schema: S, budget: 0.01 USD }}\n}}"));
    assert!(no_repair.iter().any(|l| l.code == "W0004"), "{no_repair:?}");
    let repaired = lints(&format!("{ty}fn f() -> S uses LLM {{\n    llm\"\"\"return JSON with the title field\"\"\" with {{ model: \"fake\", schema: S, budget: 0.01 USD, retry: 2 with repair }}\n}}"));
    assert!(repaired.is_empty(), "{repaired:?}");
}

#[test]
fn w0003_uses_word_boundaries_not_substrings() {
    let ty = "type T = { inp: string }\n";
    let ls = lints(&format!("{ty}fn f() -> string uses LLM {{\n    llm\"\"\"follow the instructions carefully and answer well\"\"\" with {{ model: \"fake\", schema: T, budget: 0.01 USD }}\n}}"));
    assert!(ls.iter().any(|l| l.code == "W0003"), "substring false-negative guard: {ls:?}");
    let ok = lints(&format!("{ty}fn f() -> string uses LLM {{\n    llm\"\"\"return JSON with the inp field please\"\"\" with {{ model: \"fake\", schema: T, budget: 0.01 USD }}\n}}"));
    assert!(!ok.iter().any(|l| l.code == "W0003"), "substring false positive: {ok:?}");
}

#[test]
fn warnings_carry_fn_context() {
    let ls = lints("fn analyze() -> string uses LLM {\n    llm\"\"\"do it\"\"\" with { model: \"fake\" }\n}");
    assert!(ls.iter().all(|l| l.msg.contains("in fn analyze")), "{ls:?}");
}

#[test]
fn streaming_calls_get_w0004_too() {
    let ty = "type S = { title: string }\n";
    let streamed = lints(&format!("{ty}fn f() -> string uses LLM {{\n    stream let a = llm\"\"\"return JSON with the title field\"\"\" with {{ model: \"fake\", schema: S, budget: 0.01 USD }}\n}}"));
    assert!(streamed.iter().any(|l| l.code == "W0004"), "{streamed:?}");
    let repaired = lints(&format!("{ty}fn f() -> string uses LLM {{\n    stream let a = llm\"\"\"return JSON with the title field\"\"\" with {{ model: \"fake\", schema: S, budget: 0.01 USD, retry: 2 with repair }}\n}}"));
    assert!(!repaired.iter().any(|l| l.code == "W0004"), "{repaired:?}");
}

#[test]
fn identical_warnings_collapse_with_a_count() {
    let src = "fn f() -> string uses LLM {\n    let a = llm\"\"\"summarize this text please\"\"\" with { model: \"fake\" }\n    let b = llm\"\"\"summarize this text please\"\"\" with { model: \"fake\" }\n}";
    let ls = lints(src);
    let w1: Vec<_> = ls.iter().filter(|l| l.code == "W0001").collect();
    assert_eq!(w1.len(), 1, "{ls:?}");
    assert!(w1[0].msg.contains("×2"), "{}", w1[0].msg);
}

#[test]
fn interpolations_do_not_count_as_words() {
    assert_eq!(prompt_words("summarize {text} briefly please"), 3);
    assert_eq!(prompt_words(""), 0);
}

#[test]
fn word_counting_edge_cases() {
    assert_eq!(prompt_words("one"), 1);
    assert_eq!(prompt_words("  two  words  "), 2);
    assert_eq!(prompt_words("a{b}c"), 2);
    assert_eq!(prompt_words("{unclosed hole and more"), 0);
    assert_eq!(prompt_words("tab\tand\nnewline"), 3);
    assert_eq!(prompt_words("x}y"), 1);
}

#[test]
fn lint_keeps_code_and_message() {
    let l = lint("W0001", "no budget".to_string());
    assert_eq!(l.code, "W0001");
    assert_eq!(l.msg, "no budget");
}

#[test]
fn exact_messages_and_order() {
    let ty = "type S = { title: string, body: string }\n";
    let ls = lints(&format!("{ty}fn f() -> S uses LLM {{\n    llm\"\"\"go\"\"\" with {{ model: \"m\", schema: S }}\n}}"));
    let got: Vec<(&str, &str)> = ls.iter().map(|l| (l.code, l.msg.as_str())).collect();
    assert_eq!(
        got,
        vec![
            ("W0001", "in fn f: llm call has no `budget` option — cost is uncapped; add `budget: N USD` to the with-block"),
            ("W0004", "in fn f: `schema` without `retry: N with repair` — a schema violation raises at runtime instead of being repaired; add a repair loop or accept the crash"),
            ("W0002", "in fn f: prompt is fewer than 4 words — vague instructions produce vague output; state the task and the expected shape"),
            ("W0003", "in fn f: schema `S` fields (title, body) never appear in the prompt — tell the model the output contract, e.g. \"return JSON with fields: title, body\""),
        ]
    );
}

#[test]
fn agent_and_test_contexts() {
    let ls = lints("agent Bot {\n    fn ask() -> string uses LLM {\n        llm\"\"\"please answer the question well\"\"\" with { model: \"m\" }\n    }\n}\ntest \"t\" {\n    let x = llm\"\"\"please answer the question well\"\"\" with { model: \"m\", budget: 1 USD }\n}");
    assert_eq!(ls.len(), 1, "{ls:?}");
    assert!(ls[0].msg.starts_with("in agent Bot / fn ask:"), "{ls:?}");
}

#[test]
fn field_match_ignores_case() {
    let ty = "type S = { Title: string }\n";
    let ls = lints(&format!("{ty}fn f() -> S uses LLM {{\n    llm\"\"\"return the TITLE of this text\"\"\" with {{ model: \"m\", schema: S, budget: 1 USD, retry: 1 with repair }}\n}}"));
    assert!(ls.is_empty(), "{ls:?}");
}

#[test]
fn three_repeats_count_three() {
    let src = "fn f() -> string uses LLM {\n    let a = llm\"\"\"summarize this text please\"\"\" with { model: \"fake\" }\n    let b = llm\"\"\"summarize this text please\"\"\" with { model: \"fake\" }\n    let c = llm\"\"\"summarize this text please\"\"\" with { model: \"fake\" }\n}";
    let ls = lints(src);
    assert_eq!(ls.len(), 1);
    assert!(ls[0].msg.ends_with(" (×3)"), "{}", ls[0].msg);
}

#[test]
fn test_blocks_quote_their_name_in_the_context() {
    let ls = lints("test \"t\" {\n    let a = llm\"\"\"do it\"\"\" with { model: \"m\" }\n}");
    let codes: Vec<&str> = ls.iter().map(|l| l.code).collect();
    assert_eq!(codes, vec!["W0001", "W0002"], "{ls:?}");
    assert!(ls.iter().all(|l| l.msg.starts_with("in test \"t\": ")), "{ls:?}");
}
