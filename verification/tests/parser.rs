use nudgec::ast::{BinOp, Expr, Item, StateOp, StmtKind, TypeExpr};
use nudgec::lexer::lex;
use nudgec::parser::{parse, scan_interpolations, ParseError, Parser};

fn parse_str(src: &str) -> Vec<Item> {
    parse(lex(src).unwrap()).unwrap()
}

fn parse_err(src: &str) -> ParseError {
    parse(lex(src).unwrap()).unwrap_err()
}

#[test]
fn type_alias_with_record_and_refinement() {
    let items = parse_str("type Finding = { claim: string, confidence: float @range(0, 1) }");
    match &items[0] {
        Item::TypeAlias { name, ty } => {
            assert_eq!(name, "Finding");
            match ty {
                TypeExpr::Record(fields) => {
                    assert_eq!(fields.len(), 2);
                    assert!(matches!(fields[1].1, TypeExpr::Refine(_, ref r, _) if r == "range"));
                }
                other => panic!("expected record type, got {other:?}"),
            }
        }
        other => panic!("expected type alias, got {other:?}"),
    }
}

#[test]
fn fn_with_llm_call_options_and_repair() {
    let src = r#"
fn analyze(q: string) -> [Finding] uses LLM {
    llm"""Extract findings about {q}"""
    with { schema: [Finding], model: "m", budget: 0.03 USD, retry: 2 with repair }
}"#;
    let items = parse_str(src);
    match &items[0] {
        Item::Fn { name, effects, body, .. } => {
            assert_eq!(name, "analyze");
            assert_eq!(effects, &vec!["LLM".to_string()]);
            match &body[0].kind {
                StmtKind::ExprStmt(Expr::LlmCall { prompt, options, repair }) => {
                    assert!(repair);
                    assert_eq!(options.len(), 4);
                    match prompt.as_ref() {
                        Expr::Prompt { interpolations, .. } => {
                            assert_eq!(interpolations, &vec!["q".to_string()]);
                        }
                        other => panic!("expected prompt, got {other:?}"),
                    }
                }
                other => panic!("expected llm call, got {other:?}"),
            }
        }
        other => panic!("expected fn, got {other:?}"),
    }
}

#[test]
fn par_map_both_forms() {
    let items = parse_str("fn f() -> () { let h = par map angles |a| -> search(a) }");
    match &items[0] {
        Item::Fn { body, .. } => match &body[0].kind {
            StmtKind::Let { value: Expr::ParMap { params, kwargs, .. }, .. } => {
                assert_eq!(params, &vec!["a".to_string()]);
                assert!(kwargs.is_empty());
            }
            other => panic!("expected par map, got {other:?}"),
        },
        _ => panic!("expected fn"),
    }
    let items = parse_str(
        "fn f() -> () { let f2 = par map(angles zip hits, concurrency = 3) |(a, h)| -> analyze(a, h) }",
    );
    match &items[0] {
        Item::Fn { body, .. } => match &body[0].kind {
            StmtKind::Let { value: Expr::ParMap { coll, params, kwargs, .. }, .. } => {
                assert_eq!(params, &vec!["a".to_string(), "h".to_string()]);
                assert_eq!(kwargs.len(), 1);
                assert!(matches!(coll.as_ref(), Expr::Call { .. }));
            }
            other => panic!("expected par map, got {other:?}"),
        },
        _ => panic!("expected fn"),
    }
}

#[test]
fn test_block_with_asserts() {
    let src = r#"
test "budget" {
    let t = replay("traces/demo.jsonl")
    assert t.cost_usd < 0.25
    assert len(t.output.findings) >= 3
}"#;
    let items = parse_str(src);
    match &items[0] {
        Item::Test { name, body } => {
            assert_eq!(name, "budget");
            assert_eq!(body.len(), 3);
            assert!(matches!(body[1].kind, StmtKind::Assert(Expr::Binary { op: BinOp::Lt, .. })));
            assert!(matches!(body[2].kind, StmtKind::Assert(Expr::Binary { op: BinOp::GtEq, .. })));
        }
        other => panic!("expected test, got {other:?}"),
    }
}

#[test]
fn tool_fields_without_commas() {
    let src = "tool web_search(q: string) -> [SearchResult] { impl: mcp(\"search\").web(q) side_effects: none }";
    let items = parse_str(src);
    match &items[0] {
        Item::Tool { fields, .. } => {
            assert_eq!(fields.len(), 2);
            assert_eq!(fields[0].0, "impl");
            assert_eq!(fields[1].0, "side_effects");
            assert!(matches!(fields[1].1, Expr::NoneLit));
        }
        other => panic!("expected tool, got {other:?}"),
    }
}

#[test]
fn stream_let_parses_and_stream_stays_an_identifier() {
    let src = "fn f() -> string uses LLM { stream let t: string = llm\"\"\"x\"\"\" with { model: \"m\" }\n    t }";
    let items = parse_str(src);
    match &items[0] {
        Item::Fn { body, .. } => match &body[0].kind {
            StmtKind::Let { name, stream, value, .. } => {
                assert_eq!(name, "t");
                assert!(stream);
                assert!(matches!(value, Expr::LlmCall { .. }));
            }
            other => panic!("expected stream let, got {other:?}"),
        },
        _ => panic!("expected fn"),
    }
    let items = parse_str("fn f() -> int { let stream = 3\n    stream }");
    match &items[0] {
        Item::Fn { body, .. } => match &body[0].kind {
            StmtKind::Let { name, stream, .. } => {
                assert_eq!(name, "stream");
                assert!(!stream);
            }
            other => panic!("expected plain let, got {other:?}"),
        },
        _ => panic!("expected fn"),
    }
}

#[test]
fn agent_state_block_parses() {
    let src = "agent Researcher {\n    state {\n        notes: [string] = [],\n        round: int = 0,\n    }\n    fn step(q: string) -> int uses LLM {\n        let r = llm\"\"\"next: {q}\"\"\" with { model: \"m\" }\n        state.notes += [r]\n        state.round = state.round + 1\n        state.round\n    }\n}";
    let items = parse(lex(src).unwrap()).unwrap();
    match &items[0] {
        Item::Agent { name, state, fns } => {
            assert_eq!(name, "Researcher");
            assert_eq!(state.len(), 2);
            assert_eq!(state[0].0, "notes");
            assert_eq!(state[1].0, "round");
            assert_eq!(fns.len(), 1);
            match &fns[0] {
                Item::Fn { body, .. } => {
                    assert!(
                        matches!(&body[1].kind, StmtKind::StateWrite { field, op: StateOp::Add, .. } if field == "notes")
                    );
                    assert!(
                        matches!(&body[2].kind, StmtKind::StateWrite { field, op: StateOp::Assign, .. } if field == "round")
                    );
                }
                other => panic!("expected fn inside agent, got {other:?}"),
            }
        }
        other => panic!("expected agent, got {other:?}"),
    }
}

#[test]
fn route_block_parses_and_route_stays_an_identifier() {
    let src = "fn f(cheap_ok: bool) -> string uses LLM { llm\"\"\"x\"\"\" with { model: route{ cheap: \"m1\" when cheap_ok, strong: \"m2\" otherwise } } }";
    let items = parse(lex(src).unwrap()).unwrap();
    match &items[0] {
        Item::Fn { body, .. } => match &body[0].kind {
            StmtKind::ExprStmt(Expr::LlmCall { options, .. }) => match &options[0].1 {
                Expr::Route { arms } => {
                    assert_eq!(arms.len(), 2);
                    assert_eq!(arms[0].0, "cheap");
                    assert_eq!(arms[0].1, "m1");
                    assert!(arms[0].2.is_some());
                    assert_eq!(arms[1].0, "strong");
                    assert!(arms[1].2.is_none());
                }
                other => panic!("expected route, got {other:?}"),
            },
            other => panic!("expected llm call, got {other:?}"),
        },
        _ => panic!("expected fn"),
    }
    let items = parse(lex("fn f() -> int { let route = 3\n    route }").unwrap()).unwrap();
    match &items[0] {
        Item::Fn { body, .. } => {
            assert!(matches!(&body[0].kind, StmtKind::Let { name, .. } if name == "route"))
        }
        _ => panic!("expected fn"),
    }
}

#[test]
fn merge_infix_parses_and_merge_stays_an_identifier() {
    let items = parse(lex("fn f(x: [int]) -> [int] { x | merge x }").unwrap()).unwrap();
    match &items[0] {
        Item::Fn { body, .. } => match &body[0].kind {
            StmtKind::ExprStmt(Expr::Merge { .. }) => {}
            other => panic!("expected merge expr, got {other:?}"),
        },
        _ => panic!("expected fn"),
    }
    let items = parse(lex("fn f() -> int { let merge = 3\n    merge }").unwrap()).unwrap();
    match &items[0] {
        Item::Fn { body, .. } => {
            assert!(matches!(&body[0].kind, StmtKind::Let { name, .. } if name == "merge"));
        }
        _ => panic!("expected fn"),
    }
}

#[test]
fn statements_carry_source_spans() {
    let src = "fn f() -> int { let x = 1\n    x }";
    let items = parse(lex(src).unwrap()).unwrap();
    match &items[0] {
        Item::Fn { body, .. } => {
            let sp = body[0].span;
            assert_eq!(&src[sp.start..sp.end], "let x = 1");
            let sp2 = body[1].span;
            assert_eq!(&src[sp2.start..sp2.end], "x");
        }
        _ => panic!("expected fn"),
    }
}

#[test]
fn parse_error_is_clean_not_panic() {
    assert!(parse(lex("fn broken(").unwrap()).is_err());
}

#[test]
fn state_write_supports_minus_eq() {
    let src = "agent A {\n    state {\n        round: int = 0,\n    }\n    fn back() -> int {\n        state.round -= 1\n        state.round\n    }\n}";
    let items = parse(lex(src).unwrap()).unwrap();
    match &items[0] {
        Item::Agent { fns, .. } => match &fns[0] {
            Item::Fn { body, .. } => {
                assert!(
                    matches!(&body[0].kind, StmtKind::StateWrite { field, op: StateOp::Sub, .. } if field == "round")
                );
            }
            other => panic!("expected fn, got {other:?}"),
        },
        other => panic!("expected agent, got {other:?}"),
    }
}

#[test]
fn research_agent_readme_example_parses() {
    let src = r#"
type Finding = { claim: string, source: string, confidence: float @range(0, 1) }
type Research = { topic: string, findings: [Finding], summary: string, gaps: [string] }

fn research_topic(topic: string, sources: [string]) -> Research uses LLM {
    llm"""Research the topic: {topic}

    Available sources:
    {sources}"""
    with { schema: Research, model: "anthropic:sonnet-4.6", budget: 0.05 USD, retry: 2 with repair }
}

fn main() -> Research uses LLM {
    let sources = [
        "Nudge is a typed programming language for LLM agents",
        "It compiles to Python and TypeScript"
    ]
    research_topic("Nudge programming language", sources)
}

test "research produces structured findings" {
    let t = replay("traces/research.jsonl")
    assert len(t.output.findings) >= 2
    assert t.output.summary != ""
    assert t.cost_usd < 0.10
}
"#;
    let items = parse_str(src);
    assert_eq!(items.len(), 5);
    assert!(matches!(items[0], Item::TypeAlias { .. }));
    assert!(matches!(items[1], Item::TypeAlias { .. }));
    assert!(matches!(items[2], Item::Fn { .. }));
    assert!(matches!(items[3], Item::Fn { .. }));
    match &items[4] {
        Item::Test { body, .. } => {
            assert_eq!(body.len(), 4);
            assert!(matches!(body[2].kind, StmtKind::Assert(Expr::Binary { op: BinOp::NotEq, .. })));
        }
        other => panic!("expected test, got {other:?}"),
    }
}

#[test]
fn operator_precedence_and_associativity() {
    let items = parse_str("fn f() -> int { 1 + 2 * 3 - 4 }");
    match &items[0] {
        Item::Fn { body, .. } => match &body[0].kind {
            StmtKind::ExprStmt(Expr::Binary { op: BinOp::Sub, l, r }) => {
                assert!(matches!(r.as_ref(), Expr::Int(4)));
                match l.as_ref() {
                    Expr::Binary { op: BinOp::Add, l, r } => {
                        assert!(matches!(l.as_ref(), Expr::Int(1)));
                        assert!(matches!(r.as_ref(), Expr::Binary { op: BinOp::Mul, .. }));
                    }
                    other => panic!("expected addition, got {other:?}"),
                }
            }
            other => panic!("expected subtraction, got {other:?}"),
        },
        _ => panic!("expected fn"),
    }
}

#[test]
fn unary_and_logical_operators() {
    let items = parse_str("fn f(a: bool, b: bool) -> bool { !a and -1 < 2 or b }");
    match &items[0] {
        Item::Fn { body, .. } => match &body[0].kind {
            StmtKind::ExprStmt(Expr::Binary { op: BinOp::Or, l, .. }) => match l.as_ref() {
                Expr::Binary { op: BinOp::And, l, r } => {
                    assert!(matches!(l.as_ref(), Expr::Unary { op: BinOp::Not, .. }));
                    assert!(matches!(r.as_ref(), Expr::Binary { op: BinOp::Lt, .. }));
                }
                other => panic!("expected and, got {other:?}"),
            },
            other => panic!("expected or, got {other:?}"),
        },
        _ => panic!("expected fn"),
    }
}

#[test]
fn error_messages_name_the_token_and_offset() {
    let e = parse_err("fn broken(");
    assert_eq!(e.msg, "expected identifier, found Eof");
    assert_eq!(e.at, 10);
    let e = parse_err("let x = 1");
    assert_eq!(e.msg, "expected item (type/fn/tool/test), found Let");
    assert_eq!(e.at, 0);
    let e = parse_err("type T = 3");
    assert_eq!(e.msg, "expected type, found Int(3)");
    assert_eq!(e.at, 9);
    let e = parse_err("fn f() -> int { 1");
    assert_eq!(e.msg, "unexpected end of file inside block");
    let e = parse_err("fn f() -> int { par race 3 }");
    assert_eq!(e.msg, "par race expects a list of callables");
    let e = parse_err("fn f() -> int { par map(a, b) |x| -> x }");
    assert_eq!(e.msg, "par map takes exactly one positional collection");
    let e = parse_err("fn f() -> int { route{ a: \"m\" maybe } }");
    assert_eq!(e.msg, "expected `when <cond>` or `otherwise` in route arm");
    let e = parse_err("agent A { let }");
    assert_eq!(e.msg, "expected `state` or `fn` inside agent, found Let");
    let e = parse_err("test nope { }");
    assert_eq!(e.msg, "expected test name string, found Ident(\"nope\")");
}

#[test]
fn empty_program_and_list_forms() {
    assert!(parse_str("").is_empty());
    let items = parse_str("fn f() -> [int] { [1, 2, 3,] }");
    match &items[0] {
        Item::Fn { body, .. } => match &body[0].kind {
            StmtKind::ExprStmt(Expr::ListLit(xs)) => assert_eq!(xs.len(), 3),
            other => panic!("expected list, got {other:?}"),
        },
        _ => panic!("expected fn"),
    }
}

#[test]
fn parser_struct_parses_expressions_and_programs() {
    let mut p = Parser::new(lex("a.b(1, k = 2) + 3").unwrap());
    match p.parse_expr().unwrap() {
        Expr::Binary { op: BinOp::Add, l, .. } => match l.as_ref() {
            Expr::Call { func, args, kwargs } => {
                assert!(matches!(func.as_ref(), Expr::Field { name, .. } if name == "b"));
                assert_eq!(args.len(), 1);
                assert_eq!(kwargs.len(), 1);
                assert_eq!(kwargs[0].0, "k");
            }
            other => panic!("expected call, got {other:?}"),
        },
        other => panic!("expected sum, got {other:?}"),
    }
    let mut p = Parser::new(lex("type A = [int]").unwrap());
    let items = p.parse_program().unwrap();
    assert!(matches!(&items[0], Item::TypeAlias { ty: TypeExpr::List(_), .. }));
}

#[test]
fn interpolations_are_trimmed_and_unclosed_braces_end_the_scan() {
    assert_eq!(scan_interpolations("a { x } b {y.z}"), vec!["x".to_string(), "y.z".to_string()]);
    assert_eq!(scan_interpolations("{a} {b"), vec!["a".to_string()]);
    assert!(scan_interpolations("none here").is_empty());
}

#[test]
fn interpolations_stop_at_the_first_closing_brace() {
    assert_eq!(scan_interpolations("{a{b}}"), vec!["a{b".to_string()]);
    assert_eq!(scan_interpolations("}{ x }}"), vec!["x".to_string()]);
    assert!(scan_interpolations("no braces").is_empty());
}

#[test]
fn syntax_errors_point_at_a_token_start() {
    for src in ["fn broken(", "fn f( -> int {}", "type = int", "fn f() -> int { let }", "agent A { state { x: } }", "test \"t\" { 1 + }"] {
        let toks = nudgec::lexer::lex(src).unwrap();
        let starts: Vec<usize> = toks.iter().map(|s| s.start).collect();
        let e = parse(toks).unwrap_err();
        assert!(e.at == 0 || starts.contains(&e.at), "{src}: {}", e.at);
        assert!(e.at <= src.len());
    }
}
