use nudgec::decimal::Num;
use nudgec::json::{dumps, Json};
use nudgec::lsp::{completions, definition, diagnostics, hover, index, is_ident_char, is_ident_start, line_col, word_at, Lsp};

const DOC: &str = "type Finding = { claim: string, confidence: float }\nfn find(q: string) -> Finding uses LLM {\n    let x = 1\n}\nfn main() -> string { find(\"a\").claim }\n";

#[test]
fn word_at_extracts_identifier() {
    assert_eq!(word_at("fn find(q) { 0 }", 0, 4).as_deref(), Some("find"));
    assert_eq!(word_at("fn find(q) { 0 }", 0, 6).as_deref(), Some("find"));
    assert_eq!(word_at("   ", 0, 1), None);
}

#[test]
fn index_finds_declarations() {
    let syms = index(DOC);
    let names: Vec<&str> = syms.iter().map(|s| s.name.as_str()).collect();
    assert!(names.contains(&"Finding"), "{names:?}");
    assert!(names.contains(&"find"), "{names:?}");
    assert!(names.contains(&"main"), "{names:?}");
    assert!(names.contains(&"x"), "{names:?}");
    let f = syms.iter().find(|s| s.name == "find").unwrap();
    assert_eq!((f.line, f.col), (1, 3));
    assert_eq!(f.kind, "function");
}

#[test]
fn index_details_and_skips() {
    let syms = index("// fn hidden()\n  let y = 2 {{\nfn 9bad()\ntype T = int { \n");
    assert_eq!(syms.len(), 2);
    assert_eq!(syms[0].name, "y");
    assert_eq!(syms[0].kind, "variable");
    assert_eq!((syms[0].line, syms[0].col), (1, 6));
    assert_eq!(syms[0].detail, "let y = 2");
    assert_eq!(syms[1].detail, "type T = int");
}

#[test]
fn line_col_counts_characters_from_byte_offsets() {
    assert_eq!(line_col("ab\ncd", 4), (1, 1));
    assert_eq!(line_col("ab\ncd", 3), (1, 0));
    assert_eq!(line_col("ab\ncd", 99), (1, 2));
    assert_eq!(line_col("é\nx", 2), (0, 1));
    assert_eq!(line_col("", 0), (0, 0));
}

#[test]
fn word_at_edges() {
    assert_eq!(word_at("ab)", 0, 3).as_deref(), Some("ab)"));
    assert_eq!(word_at("x\n9lives", 1, 2), None);
    assert_eq!(word_at("abc", 0, 4), None);
    assert_eq!(word_at("abc", 5, 0), None);
    assert_eq!(word_at("", 0, 0), None);
}

#[test]
fn identifier_classes() {
    assert!(is_ident_start('_') && is_ident_start('Z') && !is_ident_start('1'));
    assert!(is_ident_char('1') && !is_ident_char('-') && !is_ident_char('é'));
}

#[test]
fn a_new_server_has_no_documents() {
    let _lsp = Lsp::new();
}

fn num(n: usize) -> Json {
    Json::Num(Num::from_usize(n))
}

fn request(id: usize, method: &str, params: Json) -> Json {
    Json::Obj(vec![
        ("jsonrpc".into(), Json::str("2.0")),
        ("id".into(), num(id)),
        ("method".into(), Json::str(method)),
        ("params".into(), params),
    ])
}

fn pos_params(uri: &str, line: usize, col: usize) -> Json {
    Json::Obj(vec![
        ("textDocument".into(), Json::Obj(vec![("uri".into(), Json::str(uri))])),
        ("position".into(), Json::Obj(vec![("line".into(), num(line)), ("character".into(), num(col))])),
    ])
}

fn open_doc(lsp: &mut Lsp, uri: &str, text: &str) {
    lsp.dispatch(&Json::Obj(vec![
        ("jsonrpc".into(), Json::str("2.0")),
        ("method".into(), Json::str("textDocument/didOpen")),
        (
            "params".into(),
            Json::Obj(vec![(
                "textDocument".into(),
                Json::Obj(vec![("uri".into(), Json::str(uri)), ("text".into(), Json::str(text))]),
            )]),
        ),
    ]));
}

#[test]
fn initialize_and_shutdown_answer() {
    let mut lsp = Lsp::new();
    let out = lsp.dispatch(&request(1, "initialize", Json::Obj(vec![])));
    let s = dumps(&out[0]);
    assert!(s.contains("\"id\": 1") && s.contains("\"textDocumentSync\": 1"), "{s}");
    let out2 = lsp.dispatch(&request(2, "shutdown", Json::Null));
    assert!(dumps(&out2[0]).contains("\"result\": null"));
    let out3 = lsp.dispatch(&request(3, "textDocument/references", Json::Obj(vec![])));
    assert!(dumps(&out3[0]).contains("-32601"));
}

#[test]
fn hover_definition_completion_work() {
    let mut lsp = Lsp::new();
    let uri = "file:///t.ndg";
    open_doc(&mut lsp, uri, DOC);
    let init = lsp.dispatch(&request(1, "initialize", Json::Obj(vec![])));
    let s = dumps(&init[0]);
    assert!(s.contains("hoverProvider") && s.contains("definitionProvider") && s.contains("completionProvider"), "{s}");
    let h = lsp.dispatch(&request(2, "textDocument/hover", pos_params(uri, 4, 26)));
    let s = dumps(&h[0]);
    assert!(s.contains("fn find(q: string) -> Finding uses LLM"), "{s}");
    let h2 = lsp.dispatch(&request(3, "textDocument/hover", pos_params(uri, 0, 1)));
    assert!(dumps(&h2[0]).contains("Declare a named type"), "{}", dumps(&h2[0]));
    let d = lsp.dispatch(&request(4, "textDocument/definition", pos_params(uri, 4, 26)));
    let s = dumps(&d[0]);
    assert!(s.contains(uri) && s.contains("\"line\": 1") && s.contains("\"character\": 3"), "{s}");
    let c = lsp.dispatch(&request(5, "textDocument/completion", pos_params(uri, 4, 26)));
    let s = dumps(&c[0]);
    assert!(
        s.contains("\"label\": \"schema\"") && s.contains("\"label\": \"find\"") && s.contains("\"label\": \"Finding\""),
        "{s}"
    );
    let n = lsp.dispatch(&request(6, "textDocument/hover", pos_params(uri, 2, 14)));
    assert!(dumps(&n[0]).contains("\"result\": null"), "{}", dumps(&n[0]));
}

#[test]
fn did_open_publishes_real_diagnostics() {
    let mut lsp = Lsp::new();
    let params = Json::Obj(vec![(
        "textDocument".into(),
        Json::Obj(vec![
            ("uri".into(), Json::str("file:///t.ndg")),
            ("text".into(), Json::str("fn f() -> Strnig { 0 }")),
        ]),
    )]);
    let out = lsp.dispatch(&Json::Obj(vec![
        ("jsonrpc".into(), Json::str("2.0")),
        ("method".into(), Json::str("textDocument/didOpen")),
        ("params".into(), params),
    ]));
    let s = dumps(&out[0]);
    assert!(s.contains("textDocument/publishDiagnostics"), "{s}");
    assert!(s.contains("E0101"), "{s}");
    assert!(s.contains("file:///t.ndg"), "{s}");
    let diags = diagnostics("fn broken( {\n");
    assert_eq!(diags.len(), 1);
    assert!(dumps(&diags[0]).contains("E0002"), "{diags:?}");
}

#[test]
fn prompt_clippy_warnings_reach_the_editor() {
    let diags = diagnostics("fn analyze() -> string uses LLM {\n    llm\"\"\"do it\"\"\" with { model: \"fake\" }\n}");
    assert_eq!(diags.len(), 2, "{diags:?}");
    let s = dumps(&Json::Arr(diags));
    assert!(s.contains("\"severity\": 2"), "{s}");
    assert!(s.contains("W0001") && s.contains("W0002"), "{s}");
}

fn change(uri: &str, text: &str) -> Json {
    Json::Obj(vec![
        ("jsonrpc".into(), Json::str("2.0")),
        ("method".into(), Json::str("textDocument/didChange")),
        (
            "params".into(),
            Json::Obj(vec![
                ("textDocument".into(), Json::Obj(vec![("uri".into(), Json::str(uri))])),
                (
                    "contentChanges".into(),
                    Json::Arr(vec![Json::Obj(vec![("text".into(), Json::str(text))])]),
                ),
            ]),
        ),
    ])
}

#[test]
fn did_change_full_sync_rechecks() {
    let mut lsp = Lsp::new();
    let bad = lsp.dispatch(&change("file:///t.ndg", "fn f() -> Strnig { 0 }"));
    assert!(dumps(&bad[0]).contains("E0101"));
    let good = lsp.dispatch(&change("file:///t.ndg", "fn f() -> string { \"ok\" }"));
    let s = dumps(&good[0]);
    assert!(s.contains("\"diagnostics\": []"), "{s}");
}

#[test]
fn lex_errors_point_at_their_line_and_column() {
    let diags = diagnostics("fn f() {\n  \"open");
    assert_eq!(diags.len(), 1);
    let s = dumps(&diags[0]);
    assert!(s.contains("E0001"), "{s}");
    assert!(s.contains("\"line\": 1"), "{s}");
}

#[test]
fn exit_status_follows_shutdown() {
    let mut lsp = Lsp::new();
    assert_eq!(lsp.exit_code(), None);
    let out = lsp.dispatch(&Json::Obj(vec![("method".into(), Json::str("exit"))]));
    assert!(out.is_empty());
    assert_eq!(lsp.exit_code(), Some(1));
    let mut lsp2 = Lsp::new();
    lsp2.dispatch(&request(1, "shutdown", Json::Null));
    lsp2.dispatch(&Json::Obj(vec![("method".into(), Json::str("exit"))]));
    assert_eq!(lsp2.exit_code(), Some(0));
}

#[test]
fn closed_documents_get_null_answers_and_empty_diagnostics() {
    let mut lsp = Lsp::new();
    let uri = "file:///c.ndg";
    open_doc(&mut lsp, uri, DOC);
    let close = Json::Obj(vec![
        ("method".into(), Json::str("textDocument/didClose")),
        ("params".into(), Json::Obj(vec![("textDocument".into(), Json::Obj(vec![("uri".into(), Json::str(uri))]))])),
    ]);
    let out = lsp.dispatch(&close);
    assert!(dumps(&out[0]).contains("\"diagnostics\": []"));
    let h = lsp.dispatch(&request(2, "textDocument/hover", pos_params(uri, 4, 26)));
    assert!(dumps(&h[0]).contains("\"result\": null"));
    let unknown_notification = lsp.dispatch(&Json::Obj(vec![("method".into(), Json::str("foo/bar"))]));
    assert!(unknown_notification.is_empty());
}

#[test]
fn editor_features_directly() {
    let h = dumps(&hover(DOC, 1, 4));
    assert!(h.contains("declared on line 2"), "{h}");
    let p = dumps(&hover("x: int", 0, 4));
    assert!(p.contains("`int` — primitive type"), "{p}");
    let d = dumps(&definition(DOC, "u", 4, 26));
    assert!(d.contains("\"character\": 7"), "{d}");
    let c = dumps(&completions(""));
    assert!(c.contains("\"isIncomplete\": false"), "{c}");
    assert!(c.contains("\"label\": \"bool\", \"kind\": 25"), "{c}");
}

#[test]
fn a_new_server_answers_null_for_unopened_documents() {
    let mut lsp = Lsp::new();
    let uri = "file:///never.ndg";
    for (id, method) in [(1, "textDocument/hover"), (2, "textDocument/definition"), (3, "textDocument/completion")] {
        let out = lsp.dispatch(&request(id, method, pos_params(uri, 0, 0)));
        assert_eq!(out.len(), 1);
        assert_eq!(dumps(&out[0]), format!("{{\"jsonrpc\": \"2.0\", \"id\": {id}, \"result\": null}}"));
    }
}
