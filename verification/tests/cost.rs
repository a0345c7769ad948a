use nudgec::cost::{report, report_fits};
use nudgec::lexer::lex;
use nudgec::parser::parse;

fn cost_of(src: &str) -> String {
    let items = parse(lex(src).unwrap()).unwrap();
    assert!(report_fits(&items));
    report(&items)
}

#[test]
fn llm_sites_inside_par_map_are_marked_dynamic() {
    let src = "fn f(xs: [string]) -> [string] uses LLM {\n    par map xs |x| -> llm\"\"\"go {x}\"\"\" with { model: \"m\" }\n}";
    let r = cost_of(src);
    assert!(r.contains("f: 1 llm call site(s), min $0.001, max $0.001"), "got:\n{r}");
    assert!(r.contains("runtime-dependent"), "par map calls must be marked dynamic, got:\n{r}");
}

#[test]
fn retry_with_repairs_multiplies_the_worst_case() {
    let src = "fn f() -> string uses LLM {\n    llm\"\"\"x\"\"\" with { model: \"m\", retry: 2 with repair }\n}";
    let r = cost_of(src);
    assert!(r.contains("f: 1 llm call site(s), min $0.001, max $0.003"), "got:\n{r}");
    let src2 = "fn f() -> string uses LLM {\n    llm\"\"\"x\"\"\" with { model: \"m\", retry: 2 }\n}";
    let r2 = cost_of(src2);
    assert!(r2.contains("max $0.001"), "got:\n{r2}");
}

#[test]
fn callee_costs_are_annotated_transitively() {
    let src = "fn g() -> string uses LLM {\n    llm\"\"\"go\"\"\" with { model: \"m\" }\n}\nfn f() -> string { g() }";
    let r = cost_of(src);
    assert!(r.contains("f: 0 llm call site(s), min $0.000, max $0.000"), "got:\n{r}");
    assert!(r.contains("(incl. callees: min $0.001, max $0.001)"), "got:\n{r}");
    assert!(r.contains("total: 1 llm call site(s)"), "got:\n{r}");
    let src = "fn a() -> string uses LLM { b() }\nfn b() -> string uses LLM {\n    llm\"\"\"go\"\"\" with { model: \"m\" }\n    a()\n}";
    let _ = cost_of(src);
    let src = "fn g(x: string) -> string uses LLM {\n    llm\"\"\"go {x}\"\"\" with { model: \"m\" }\n}\nfn f(xs: [string]) -> [string] uses LLM {\n    par map xs |x| -> g(x)\n}";
    let r = cost_of(src);
    assert!(r.contains("× collection size via par map"), "got:\n{r}");
}

#[test]
fn whole_report_is_exact() {
    let src = "fn g() -> string uses LLM {\n    llm\"\"\"go\"\"\" with { model: \"m\", retry: 4 with repair }\n}\nfn f() -> string { g() }";
    let r = cost_of(src);
    assert_eq!(
        r,
        "cost report (fake pricing, $0.001 per call)\n  g: 1 llm call site(s), min $0.001, max $0.005\n  f: 0 llm call site(s), min $0.000, max $0.000  (incl. callees: min $0.001, max $0.005)\n  total: 1 llm call site(s), min $0.001, max $0.005\n"
    );
}

#[test]
fn agent_fns_are_shown_with_their_agent() {
    let src = "agent Bot {\n    fn ask() -> string uses LLM {\n        llm\"\"\"hi\"\"\" with { model: \"m\" }\n    }\n}";
    let r = cost_of(src);
    assert!(r.contains("  Bot.ask: 1 llm call site(s), min $0.001, max $0.001\n"), "got:\n{r}");
}

#[test]
fn builtin_calls_are_not_call_edges() {
    let src = "fn len() -> string uses LLM {\n    llm\"\"\"go\"\"\" with { model: \"m\" }\n}\nfn f(xs: [string]) -> int { len(xs) }";
    let r = cost_of(src);
    assert!(r.contains("  f: 0 llm call site(s), min $0.000, max $0.000\n"), "got:\n{r}");
}

#[test]
fn thousand_calls_cost_a_dollar() {
    let src = "fn f() -> string uses LLM {\n    llm\"\"\"x\"\"\" with { model: \"m\", retry: 1999 with repair }\n}";
    let r = cost_of(src);
    assert!(r.contains("max $2.000"), "got:\n{r}");
}

#[test]
fn empty_program_reports_zero_total() {
    let r = cost_of("type T = int");
    assert_eq!(r, "cost report (fake pricing, $0.001 per call)\n  total: 0 llm call site(s), min $0.000, max $0.000\n");
}
