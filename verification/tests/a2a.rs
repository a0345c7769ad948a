use nudgec::a2a::cards;
use nudgec::json::{dumps, parse as parse_json};
use nudgec::lexer::lex;
use nudgec::parser::parse;

#[test]
fn agent_block_exports_an_a2a_card() {
    let src = "agent Researcher {\n    state {\n        round: int = 0,\n    }\n    fn step(q: string) -> string uses LLM {\n        llm\"\"\"go {q}\"\"\" with { model: \"m\" }\n    }\n}";
    let items = parse(lex(src).unwrap()).unwrap();
    let cs = cards(&items, "demo");
    assert_eq!(cs.len(), 1);
    let (stem, c) = &cs[0];
    assert_eq!(stem, "researcher");
    let s = dumps(c);
    assert!(s.contains("\"name\": \"Researcher\""), "{s}");
    assert!(s.contains("\"version\": \"1.0.0\""), "{s}");
    assert!(s.contains("\"stateTransitionHistory\": true"), "{s}");
    assert!(s.contains("\"id\": \"step\""), "{s}");
    assert!(s.contains("step(q: string) -> string uses LLM"), "{s}");
    assert!(s.contains("\"tags\": [\"llm\"]"), "{s}");
    assert!(parse_json(&s).unwrap().is_obj());
}

#[test]
fn a_file_without_agents_exports_one_card_for_its_fns() {
    let src = "fn run(q: string) -> [string] uses Tool {\n    web(q)\n}";
    let items = parse(lex(src).unwrap()).unwrap();
    let cs = cards(&items, "research_agent");
    assert_eq!(cs.len(), 1);
    let s = dumps(&cs[0].1);
    assert!(s.contains("\"name\": \"research_agent\""), "{s}");
    assert!(s.contains("run(q: string) -> [string] uses Tool"), "{s}");
    assert!(s.contains("\"defaultInputModes\": [\"text\"]"), "{s}");
}

#[test]
fn pure_fns_are_tagged_pure_and_types_are_spelled_out() {
    let src = "fn f(p: { a: int, b: [string] }, s: float @range(0, 1)) -> int { 1 }";
    let items = parse(lex(src).unwrap()).unwrap();
    let cs = cards(&items, "x");
    let s = dumps(&cs[0].1);
    assert!(s.contains("\"tags\": [\"pure\"]"), "{s}");
    assert!(s.contains("f(p: {a: int, b: [string]}, s: float @range(…)) -> int`"), "{s}");
}

#[test]
fn one_card_per_agent_in_order() {
    let src = "agent A {\n    fn x() -> int { 1 }\n}\nagent Bee {\n    fn y() -> int uses LLM, Tool { 2 }\n}\nfn top() -> int { 3 }";
    let items = parse(lex(src).unwrap()).unwrap();
    let cs = cards(&items, "file");
    assert_eq!(cs.len(), 2);
    assert_eq!(cs[0].0, "a");
    assert_eq!(cs[1].0, "bee");
    let s = dumps(&cs[1].1);
    assert!(s.contains("\"tags\": [\"llm\", \"tool\"]"), "{s}");
    assert!(!s.contains("top"), "{s}");
}

#[test]
fn card_is_exact() {
    let items = parse(lex("type T = int").unwrap()).unwrap();
    let cs = cards(&items, "empty");
    assert_eq!(
        dumps(&cs[0].1),
        "{\"name\": \"empty\", \"description\": \"Nudge agent 'empty' — compiled from .ndg (https://github.com/NekomyaDev/nudge)\", \"version\": \"1.0.0\", \"url\": \"http://localhost:9999/\", \"capabilities\": {\"streaming\": false, \"pushNotifications\": false, \"stateTransitionHistory\": true}, \"defaultInputModes\": [\"text\"], \"defaultOutputModes\": [\"text\"], \"skills\": []}"
    );
}
