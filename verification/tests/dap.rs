use nudgec::dap::Dap;
use nudgec::decimal::Num;
use nudgec::json::{dumps, Json};

const TRACE: &str = r#"{"v": 1, "seq": 1, "kind": "llm.call", "model": "m", "outcome": "ok"}
{"v": 1, "seq": 2, "kind": "tool.call", "tool": "web"}
{"v": 1, "seq": 3, "kind": "fn.return", "fn": "main", "output": "done"}"#;

fn obj(pairs: Vec<(&str, Json)>) -> Json {
    Json::Obj(pairs.into_iter().map(|(k, v)| (k.to_string(), v)).collect())
}

fn num(n: usize) -> Json {
    Json::Num(Num::from_usize(n))
}

fn request(seq: usize, command: &str, arguments: Json) -> Json {
    obj(vec![
        ("seq", num(seq)),
        ("type", Json::str("request")),
        ("command", Json::str(command)),
        ("arguments", arguments),
    ])
}

#[test]
fn full_session_steps_to_the_end() {
    let mut dap = Dap::new(TRACE);
    let out = dap.dispatch(&request(1, "initialize", Json::Obj(vec![])));
    assert!(dumps(&out[0]).contains("supportsConfigurationDoneRequest"));
    assert!(dumps(&out[1]).contains("\"event\": \"initialized\""));

    let out = dap.dispatch(&request(2, "configurationDone", Json::Obj(vec![])));
    assert!(dumps(&out[1]).contains("\"reason\": \"entry\""));

    let out = dap.dispatch(&request(3, "stackTrace", Json::Obj(vec![])));
    assert!(dumps(&out[0]).contains("llm.call seq 1"), "{}", dumps(&out[0]));

    let out = dap.dispatch(&request(4, "variables", Json::Obj(vec![])));
    let s = dumps(&out[0]);
    assert!(s.contains("\"name\": \"model\"") && s.contains("\"name\": \"outcome\""), "{s}");

    dap.dispatch(&request(5, "next", Json::Obj(vec![])));
    dap.dispatch(&request(6, "next", Json::Obj(vec![])));
    let out = dap.dispatch(&request(7, "next", Json::Obj(vec![])));
    assert!(dumps(&out[1]).contains("\"event\": \"terminated\""));
    assert!(dap.is_terminated());
}

#[test]
fn continue_lands_on_breakpoints() {
    let mut dap = Dap::new(TRACE);
    dap.dispatch(&request(1, "initialize", Json::Obj(vec![])));
    let bps = obj(vec![(
        "breakpoints",
        Json::Arr(vec![obj(vec![("line", num(3))])]),
    )]);
    let out = dap.dispatch(&request(2, "setBreakpoints", bps));
    assert!(dumps(&out[0]).contains("\"verified\": true"));
    let out = dap.dispatch(&request(3, "configurationDone", Json::Obj(vec![])));
    assert!(dumps(&out[1]).contains("\"reason\": \"breakpoint\""));
    let out = dap.dispatch(&request(4, "stackTrace", Json::Obj(vec![])));
    assert!(dumps(&out[0]).contains("fn.return seq 3"));
    let out = dap.dispatch(&request(5, "continue", Json::Obj(vec![])));
    assert!(dumps(&out[1]).contains("\"event\": \"terminated\""));
}

#[test]
fn unknown_commands_fail_cleanly() {
    let mut dap = Dap::new(TRACE);
    let out = dap.dispatch(&request(1, "evaluate", Json::Obj(vec![])));
    let s = dumps(&out[0]);
    assert!(s.contains("\"success\": false") && s.contains("not implemented"), "{s}");
}

#[test]
fn exact_messages_and_numbering() {
    let mut dap = Dap::new(TRACE);
    let out = dap.dispatch(&request(9, "initialize", Json::Obj(vec![])));
    assert_eq!(
        dumps(&out[0]),
        "{\"seq\": 1, \"type\": \"response\", \"request_seq\": 9, \"success\": true, \"command\": \"initialize\", \"body\": {\"supportsConfigurationDoneRequest\": true, \"supportsSetVariable\": false}}"
    );
    assert_eq!(
        dumps(&out[1]),
        "{\"seq\": 2, \"type\": \"event\", \"event\": \"initialized\", \"body\": {}}"
    );
    let out = dap.dispatch(&request(10, "threads", Json::Obj(vec![])));
    assert_eq!(
        dumps(&out[0]),
        "{\"seq\": 3, \"type\": \"response\", \"request_seq\": 10, \"success\": true, \"command\": \"threads\", \"body\": {\"threads\": [{\"id\": 1, \"name\": \"trace replay\"}]}}"
    );
    let out = dap.dispatch(&request(11, "stepBack", Json::Obj(vec![])));
    assert_eq!(
        dumps(&out[0]),
        "{\"seq\": 4, \"type\": \"response\", \"request_seq\": 11, \"success\": false, \"command\": \"stepBack\", \"body\": {}, \"message\": \"command not implemented: stepBack\"}"
    );
}

#[test]
fn past_the_end_there_is_no_frame() {
    let mut dap = Dap::new("not json\n\n{\"seq\": 1}\n");
    dap.dispatch(&request(1, "next", Json::Obj(vec![])));
    let out = dap.dispatch(&request(2, "stackTrace", Json::Obj(vec![])));
    assert!(dumps(&out[0]).contains("\"name\": \"<end of trace>\", \"line\": 0"));
    let out = dap.dispatch(&request(3, "disconnect", Json::Obj(vec![])));
    assert_eq!(out.len(), 1);
    assert!(dap.is_terminated());
}
