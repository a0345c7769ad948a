use nudgec::check::{check, CheckError};
use nudgec::lexer::lex;
use nudgec::parser::parse;

fn check_src(src: &str) -> Vec<CheckError> {
    check(&parse(lex(src).unwrap()).unwrap())
}

#[test]
fn schema_must_match_return_type() {
    let errs = check_src(
        "type Finding = { claim: string }\ntype Report = { title: string }\nfn f() -> [Finding] uses LLM { llm\"\"\"x\"\"\" with { schema: Report } }",
    );
    assert!(errs.iter().any(|e| e.code == "E0201" && e.msg.contains("declares ->")), "got {errs:?}");
    assert_eq!(errs.len(), 1, "got {errs:?}");
}

#[test]
fn unknown_interpolation_identifier() {
    let errs = check_src("fn f(q: string) -> string uses LLM { llm\"\"\"hi {qusetion}\"\"\" with { model: \"m\" } }");
    assert!(errs.iter().any(|e| e.code == "E0101" && e.msg.contains("qusetion")), "got {errs:?}");
}

#[test]
fn unknown_type_name() {
    let errs = check_src("fn f(x: Strnig) -> int { 1 }");
    assert!(errs.iter().any(|e| e.code == "E0101" && e.msg.contains("Strnig")), "got {errs:?}");
}

#[test]
fn malformed_range_refinement() {
    let errs = check_src("type S = float @range(1)");
    assert!(errs.iter().any(|e| e.code == "E0202" && e.msg.contains("@range")), "got {errs:?}");
}

#[test]
fn unknown_refinement() {
    let errs = check_src("type S = float @between(0, 1)");
    assert!(errs.iter().any(|e| e.code == "E0202" && e.msg.contains("@between")), "got {errs:?}");
}

#[test]
fn let_annotation_mismatch() {
    let errs = check_src("fn f() -> int { let x: int = \"nope\" }");
    assert!(errs.iter().any(|e| e.code == "E0201" && e.msg.contains("let 'x'")), "got {errs:?}");
}

#[test]
fn int_widens_to_float() {
    let errs = check_src("fn f() -> float { let x: float = 1\n x }");
    assert_eq!(errs, vec![]);
}

#[test]
fn call_argument_type_and_arity() {
    let src = "type R = { t: string }\ntool web(q: string) -> [R] { impl: mcp(\"s\").web(q) }\nfn f(n: int) -> [R] uses Tool { web(n) }";
    let errs = check_src(src);
    assert!(errs.iter().any(|e| e.code == "E0201" && e.msg.contains("argument to 'web'")), "got {errs:?}");
    let errs2 = check_src(
        "type R = { t: string }\ntool web(q: string) -> [R] { impl: mcp(\"s\").web(q) }\nfn f() -> [R] uses Tool { web() }",
    );
    assert!(errs2.iter().any(|e| e.code == "E0201" && e.msg.contains("takes 1 argument")), "got {errs2:?}");
}

#[test]
fn cyclic_alias_is_an_error_not_a_hang() {
    let errs = check_src("type A = { b: B }\ntype B = { a: A }");
    assert!(errs.iter().any(|e| e.code == "E0202" && e.msg.contains("cyclic")), "got {errs:?}");
}

#[test]
fn par_map_typing_flows_through_zip() {
    let src = "type R = { t: string }\ntool web(q: string) -> [R] { impl: mcp(\"s\").web(q) }\nfn a(q: string, h: [R]) -> string uses LLM { llm\"\"\"{q} {h}\"\"\" with { model: \"m\" } }\nfn run(qs: [string]) -> [string] uses LLM, Tool {\n    let hits = par map qs |q| -> web(q)\n    par map(qs zip hits) |(q, h)| -> a(q, h)\n}";
    assert_eq!(check_src(src), vec![]);
}

#[test]
fn llm_call_without_uses_is_e0301() {
    let errs = check_src("fn f() -> string { llm\"\"\"x\"\"\" with { model: \"m\" } }");
    assert!(errs.iter().any(|e| e.code == "E0301" && e.msg.contains("LLM") && e.msg.contains("f")), "got {errs:?}");
}

#[test]
fn narrow_annotation_is_e0302() {
    let src = "type R = { t: string }\ntool web(q: string) -> [R] { impl: mcp(\"s\").web(q) }\nfn f(q: string) -> [R] uses LLM { web(q) }";
    let errs = check_src(src);
    assert!(errs.iter().any(|e| e.code == "E0302" && e.msg.contains("Tool") && e.msg.contains("too narrow")), "got {errs:?}");
}

#[test]
fn effects_propagate_through_user_fn_calls() {
    let src = "fn a() -> string uses LLM { llm\"\"\"x\"\"\" with { model: \"m\" } }\nfn b() -> string { a() }";
    let errs = check_src(src);
    assert_eq!(errs.len(), 1, "got {errs:?}");
    assert!(errs[0].code == "E0301" && errs[0].msg.contains("'b'"), "got {errs:?}");
}

#[test]
fn replay_and_python_are_io() {
    let errs = check_src("fn f(p: string) -> string { replay(p) }");
    assert!(errs.iter().any(|e| e.code == "E0301" && e.msg.contains("IO")), "got {errs:?}");
    let errs2 = check_src("fn f(p: string) -> string uses IO { replay(p) }");
    assert_eq!(errs2, vec![]);
}

#[test]
fn tool_call_declared_is_clean() {
    let src = "type R = { t: string }\ntool web(q: string) -> [R] { impl: mcp(\"s\").web(q) }\nfn f(q: string) -> [R] uses Tool { web(q) }";
    assert_eq!(check_src(src), vec![]);
}

#[test]
fn unknown_effect_name_is_e0101() {
    let errs = check_src("fn f() -> int uses Magic { 1 }");
    assert!(errs.iter().any(|e| e.code == "E0101" && e.msg.contains("Magic")), "got {errs:?}");
}

#[test]
fn test_blocks_are_exempt_from_effect_rules() {
    let errs = check_src("test \"t\" { let x = replay(\"t.jsonl\")\nassert true }");
    assert_eq!(errs, vec![]);
}

#[test]
fn non_usd_budget_is_e0501() {
    let errs = check_src("fn f() -> string uses LLM { llm\"\"\"x\"\"\" with { budget: 5 EUR } }");
    assert!(errs.iter().any(|e| e.code == "E0501" && e.msg.contains("EUR")), "got {errs:?}");
}

#[test]
fn usd_budget_is_clean() {
    let errs = check_src("fn f() -> string uses LLM { llm\"\"\"x\"\"\" with { budget: 0.02 USD } }");
    assert_eq!(errs, vec![]);
}

#[test]
fn agent_state_checks_and_e0701_outside_agent() {
    let src = "agent A {\n    state {\n        notes: [string] = [],\n        round: int = 0,\n    }\n    fn step(q: string) -> int uses LLM {\n        let r = llm\"\"\"next: {q}\"\"\" with { model: \"m\" }\n        state.notes += [r]\n        state.round = state.round + 1\n        state.round\n    }\n}";
    assert_eq!(check_src(src), vec![], "expected zero diagnostics");
    let errs = check_src("fn f() -> int { state.round = 1\n    0 }");
    assert!(errs.iter().any(|e| e.code == "E0701"), "got {errs:?}");
    let errs = check_src("agent B {\n    state {\n        round: int = 0,\n    }\n    fn step() -> int { state.missing = 1\n        0\n    }\n}");
    assert!(errs.iter().any(|e| e.code == "E0701" && e.msg.contains("no field 'missing'")), "got {errs:?}");
    let errs = check_src("agent C {\n    state {\n        round: int = 0,\n    }\n    fn step() -> int { state.round = \"oops\"\n        0\n    }\n}");
    assert!(errs.iter().any(|e| e.code == "E0201"), "got {errs:?}");
}

#[test]
fn merge_reducer_checks_operands() {
    assert_eq!(check_src("fn f(x: [int]) -> [int] { x | merge x }"), vec![]);
    assert_eq!(check_src("type R = { a: int }\nfn f(x: R) -> R { x | merge x }"), vec![]);
    let errs = check_src("fn f(x: int) -> int { x | merge x }");
    assert!(errs.iter().any(|e| e.code == "E0201" && e.msg.contains("merge expects")), "got {errs:?}");
    let errs = check_src("fn f(x: [int], s: string) -> [int] { x | merge s }");
    assert!(errs.iter().any(|e| e.code == "E0201"), "got {errs:?}");
}

#[test]
fn route_block_requires_otherwise_and_bool_conditions() {
    assert_eq!(check_src("fn f(b: bool) -> string uses LLM { llm\"\"\"x\"\"\" with { model: route{ cheap: \"m1\" when b, strong: \"m2\" otherwise } } }"), vec![]);
    let errs = check_src("fn f(b: bool) -> string uses LLM { llm\"\"\"x\"\"\" with { model: route{ cheap: \"m1\" when b } } }");
    assert!(errs.iter().any(|e| e.code == "E0702"), "got {errs:?}");
    let errs = check_src("fn f(n: int) -> string uses LLM { llm\"\"\"x\"\"\" with { model: route{ cheap: \"m1\" when n, strong: \"m2\" otherwise } } }");
    assert!(errs.iter().any(|e| e.code == "E0201" && e.msg.contains("non-bool when")), "got {errs:?}");
}

#[test]
fn research_agent_readme_example_checks_clean() {
    let src = r#"
type Finding = { claim: string, source: string, confidence: float @range(0, 1) }
type Research = { topic: string, findings: [Finding], summary: string, gaps: [string] }

fn research_topic(topic: string, sources: [string]) -> Research uses LLM {
    llm"""Research the topic: {topic}

    Available sources:
    {sources}"""
    with { schema: Research, model: "anthropic:sonnet-4.6", budget: 0.05 USD, retry: 2 with repair }
}

fn main() -> Research uses LLM {
    let sources = [
        "Nudge is a typed programming language for LLM agents",
        "It compiles to Python and TypeScript"
    ]
    research_topic("Nudge programming language", sources)
}

test "research produces structured findings" {
    let t = replay("traces/research.jsonl")
    assert len(t.output.findings) >= 2
    assert t.output.summary != ""
    assert t.cost_usd < 0.10
}
"#;
    assert_eq!(check_src(src), vec![]);
}

#[test]
fn exact_messages() {
    let errs = check_src("fn f(x: Strnig) -> int { 1 }");
    assert_eq!(errs, vec![CheckError { code: "E0101", msg: "unknown type 'Strnig'".to_string() }]);
    let errs = check_src("type A = { b: B }\ntype B = { a: A }");
    assert_eq!(
        errs,
        vec![
            CheckError { code: "E0202", msg: "cyclic type alias 'A → B → A'".to_string() },
            CheckError { code: "E0202", msg: "cyclic type alias 'B → A → B'".to_string() },
        ]
    );
    let errs = check_src("type S = float @range(1)");
    assert_eq!(
        errs,
        vec![CheckError { code: "E0202", msg: "@range expects 2 numeric bounds, e.g. @range(0, 1) — got [Int(1)]".to_string() }]
    );
    let errs = check_src("fn f() -> string { llm\"\"\"x\"\"\" with { schema: 3 } }");
    assert_eq!(errs[0].msg, "schema must be a type (e.g. schema: Report or schema: [Finding]) — got Int(3)");
    let errs = check_src("fn f() -> [int] { [1.5] }");
    assert_eq!(errs, vec![CheckError { code: "E0201", msg: "fn 'f' declares -> [int] but its body yields [float]".to_string() }]);
    let errs = check_src("fn f(r: {a: int, b: string}) -> int { r }");
    assert_eq!(errs[0].msg, "fn 'f' declares -> int but its body yields {a: int, b: string}");
    let errs = check_src("fn g() -> int uses IO, Magic { replay(\"x\")\n    mcp(\"y\")\n    1 }");
    assert_eq!(
        errs,
        vec![
            CheckError { code: "E0101", msg: "unknown effect 'Magic' in fn 'g' (known: LLM, Tool, IO)".to_string() },
            CheckError { code: "E0302", msg: "fn 'g' declares `uses IO, Magic` but its body also uses Tool — annotation too narrow".to_string() },
        ]
    );
    let errs = check_src("fn h() -> int { replay(\"x\")\n    llm\"\"\"y\"\"\" with { model: \"m\" }\n    1 }");
    assert_eq!(errs[0].msg, "fn 'h' uses IO, LLM but has no `uses` clause — add `uses IO, LLM` to its signature");
}

#[test]
fn effects_reach_through_call_cycles() {
    let src = "fn a() -> int uses LLM { b()\n    llm\"\"\"x\"\"\" with { model: \"m\" }\n    1 }\nfn b() -> int { a() }";
    let errs = check_src(src);
    assert_eq!(errs.len(), 1, "got {errs:?}");
    assert!(errs[0].code == "E0301" && errs[0].msg.contains("'b'"), "got {errs:?}");
}

#[test]
fn effect_errors_exactly_when_effects_are_missing() {
    let covered = "fn a() -> string uses LLM { llm\"\"\"x\"\"\" with { model: \"m\" } }\nfn b() -> string uses LLM, IO { a() }";
    assert!(check_src(covered).is_empty(), "got {:?}", check_src(covered));
    let pure_fn = "fn p(x: int) -> int { x }";
    assert!(check_src(pure_fn).is_empty());
    let wider = "fn w(x: int) -> int uses Tool { x }";
    assert!(check_src(wider).iter().all(|e| e.code != "E0301" && e.code != "E0302"));
    let in_test = "fn a() -> string uses LLM { llm\"\"\"x\"\"\" with { model: \"m\" } }\ntest \"t\" { a() }";
    assert!(check_src(in_test).iter().all(|e| e.code != "E0301" && e.code != "E0302"));
}
