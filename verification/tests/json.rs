use nudgec::json::{dumps, escape, parse, Json};

/// Structural equality of two values: same variants, same strings and
/// keys in the same order, numbers equal as numbers.
fn same(a: &Json, b: &Json) -> bool {
    match (a, b) {
        (Json::Null, Json::Null) => true,
        (Json::Bool(x), Json::Bool(y)) => x == y,
        (Json::Num(x), Json::Num(y)) => x.equal(y),
        (Json::Str(x), Json::Str(y)) => x == y,
        (Json::Arr(xs), Json::Arr(ys)) => xs.len() == ys.len() && xs.iter().zip(ys.iter()).all(|(x, y)| same(x, y)),
        (Json::Obj(xs), Json::Obj(ys)) => {
            xs.len() == ys.len() && xs.iter().zip(ys.iter()).all(|((kx, x), (ky, y))| kx == ky && same(x, y))
        }
        _ => false,
    }
}

fn num(j: Option<&Json>) -> Option<f64> {
    j.and_then(|x| x.as_num()).map(|n| {
        let mut s = String::new();
        n.write_display(&mut s);
        s.parse::<f64>().unwrap()
    })
}

#[test]
fn json_roundtrip() {
    let v = parse(r#"{"a": [1, 2.5, "x\ny", true, null], "b": {"c": "é"}}"#).unwrap();
    assert_eq!(num(v.get("a").and_then(|a| a.idx(0))), Some(1.0));
    assert_eq!(v.get("a").and_then(|a| a.idx(2)).and_then(Json::as_str), Some("x\ny"));
    assert_eq!(v.get("b").and_then(|b| b.get("c")).and_then(Json::as_str), Some("é"));
    let s = dumps(&v);
    let v2 = parse(&s).unwrap();
    assert!(same(&v, &v2));
}

#[test]
fn json_numbers_print_int_when_whole() {
    let three = parse("3.0").unwrap();
    assert_eq!(dumps(&three), "3");
    let milli = parse("1e-3").unwrap();
    assert_eq!(dumps(&milli), "0.001");
    assert!(parse("{\"a\":}").is_err());
    assert!(parse("[1,]").is_err());
}

#[test]
fn parse_errors_name_the_byte() {
    assert_eq!(parse("").unwrap_err(), "unexpected end of input");
    assert_eq!(parse("[1 2]").unwrap_err(), "expected ',' or ']' at byte 3");
    assert_eq!(parse("{\"a\" 1}").unwrap_err(), "expected ':' at byte 5");
    assert_eq!(parse("{\"a\": 1 \"b\"}").unwrap_err(), "expected ',' or '}' at byte 8");
    assert_eq!(parse("{1: 2}").unwrap_err(), "expected '\"' at byte 1");
    assert_eq!(parse("tru").unwrap_err(), "invalid literal at byte 0");
    assert_eq!(parse("[1,]").unwrap_err(), "invalid number '' at byte 3");
    assert_eq!(parse("1.2.3").unwrap_err(), "invalid number '1.2.3' at byte 0");
    assert_eq!(parse("\"abc").unwrap_err(), "unterminated string");
    assert_eq!(parse("\"\\q\"").unwrap_err(), "bad escape at byte 2");
    assert_eq!(parse("\"\\u12\"").unwrap_err(), "bad \\u escape");
    assert_eq!(parse("1 2").unwrap_err(), "trailing data at byte 2");
    assert_eq!(parse("\"é\" x").unwrap_err(), "trailing data at byte 5");
}

#[test]
fn strings_and_escapes() {
    let v = parse(r#""a\"b\\c\/d\n\r\t\b\f\u0041\u00e9\uD800\u+041""#).unwrap();
    assert_eq!(v.as_str(), Some("a\"b\\c/d\n\r\t\u{8}\u{c}Aé\u{FFFD}A"));
    assert_eq!(escape("q\"\\\n\r\t\u{1}é"), "q\\\"\\\\\\n\\r\\t\\u0001é");
    assert_eq!(dumps(&Json::str("tab\there")), "\"tab\\there\"");
}

#[test]
fn dumps_of_structures() {
    let v = parse(" { \"k\" : [ true , false , null , -0 , 1e2 , 0.5 ] , \"e\" : { } , \"a\" : [ ] } ").unwrap();
    assert_eq!(dumps(&v), "{\"k\": [true, false, null, 0, 100, 0.5], \"e\": {}, \"a\": []}");
    assert!(v.is_obj());
    assert!(v.get("missing").is_none());
    assert!(v.idx(0).is_none());
}

#[test]
fn first_duplicate_key_wins() {
    let v = parse("{\"a\": 1, \"a\": 2}").unwrap();
    assert_eq!(num(v.get("a")), Some(1.0));
}

#[test]
fn numbers_read_back_after_dumps() {
    for lit in ["0", "-0.5", "1e20", "0.001", "123456.789", "-7", "2.5e-9", "[1, {\"k\": [0.25, -3e5]}]"] {
        let v = parse(lit).unwrap();
        let back = parse(&dumps(&v)).unwrap();
        assert!(same(&v, &back), "{lit}");
    }
}
