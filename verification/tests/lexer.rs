use nudgec::decimal::Num;
use nudgec::lexer::{lex, LexError, Spanned, Tok};

fn toks(src: &str) -> Vec<Tok> {
    lex(src).unwrap().into_iter().map(|s| s.tok).collect()
}

fn n(s: &str) -> Num {
    Num::parse_literal(&s.chars().collect()).unwrap()
}

#[test]
fn fn_signature_with_effects() {
    let t = toks("fn research(q: string) -> Report uses LLM, Tool {}");
    assert_eq!(
        t[..8],
        [
            Tok::Fn,
            Tok::Ident("research".into()),
            Tok::LParen,
            Tok::Ident("q".into()),
            Tok::Colon,
            Tok::Ident("string".into()),
            Tok::RParen,
            Tok::Arrow,
        ]
    );
    assert!(t.contains(&Tok::Uses));
}

#[test]
fn money_literal() {
    let t = toks("budget: 0.02 USD");
    assert_eq!(
        t,
        vec![
            Tok::Ident("budget".into()),
            Tok::Colon,
            Tok::Money(n("0.02"), "USD".into()),
            Tok::Eof
        ]
    );
}

#[test]
fn money_keeps_any_unit_for_e0501() {
    let t = lex("5 EUR")
        .unwrap()
        .into_iter()
        .map(|s| s.tok)
        .collect::<Vec<_>>();
    assert_eq!(t, vec![Tok::Money(n("5.0"), "EUR".into()), Tok::Eof]);
    let t = lex("5 apples")
        .unwrap()
        .into_iter()
        .map(|s| s.tok)
        .collect::<Vec<_>>();
    assert_eq!(t, vec![Tok::Int(5), Tok::Ident("apples".into()), Tok::Eof]);
}

#[test]
fn prompt_literal_captures_body() {
    let t = toks("llm\"\"\"Break down: {question}\"\"\" with {}");
    assert_eq!(t[0], Tok::Prompt("Break down: {question}".into()));
    assert_eq!(t[1], Tok::With);
}

#[test]
fn refinement_and_repair() {
    let t = toks("float @range(0, 1) retry: 2 with repair");
    assert!(t.contains(&Tok::At));
    assert!(t.contains(&Tok::With));
    assert!(t.contains(&Tok::Ident("retry".into())));
    assert!(t.contains(&Tok::Ident("repair".into())));
}

#[test]
fn par_map_fanout() {
    let t = toks("par map steps |s| -> execute(s)");
    assert_eq!(
        t[..4],
        [Tok::Par, Tok::MapKw, Tok::Ident("steps".into()), Tok::Bar]
    );
}

#[test]
fn and_or_are_keywords() {
    let t = toks("a and b or c");
    assert_eq!(
        t,
        vec![
            Tok::Ident("a".into()),
            Tok::And,
            Tok::Ident("b".into()),
            Tok::Or,
            Tok::Ident("c".into()),
            Tok::Eof,
        ]
    );
}

#[test]
fn utf8_string_contents_survive() {
    let t = toks("\"héllo dünya — 你好\"");
    assert_eq!(t[0], Tok::Str("héllo dünya — 你好".into()));
}

#[test]
fn non_ascii_outside_strings_errors_not_panics() {
    assert!(lex("let café = 1").is_err());
    assert!(lex("-é").is_err());
}

#[test]
fn unterminated_string_errors() {
    assert!(lex("\"oops").is_err());
}

#[test]
fn money_tolerates_whitespace_before_the_unit() {
    let t = toks("budget: 0.02  USD");
    assert!(t.contains(&Tok::Money(n("0.02"), "USD".into())), "{t:?}");
    let t = toks("budget: 0.02\tUSD");
    assert!(t.contains(&Tok::Money(n("0.02"), "USD".into())), "{t:?}");
}

#[test]
fn spans_are_byte_offsets() {
    let v = lex("\"é\" x // note\n  1.5").unwrap();
    assert_eq!(
        v,
        vec![
            Spanned { tok: Tok::Str("é".into()), start: 0, end: 4 },
            Spanned { tok: Tok::Ident("x".into()), start: 5, end: 6 },
            Spanned { tok: Tok::Float(n("1.5")), start: 17, end: 20 },
            Spanned { tok: Tok::Eof, start: 20, end: 20 },
        ]
    );
    let p = lex("llm\"\"\"a\"\"\"").unwrap();
    assert_eq!((p[0].start, p[0].end), (6, 10));
}

#[test]
fn lexical_errors_say_what_and_where() {
    assert_eq!(
        lex("x é").unwrap_err(),
        LexError { msg: "unexpected character 'Ã'".into(), at: 2 }
    );
    assert_eq!(lex("a \"b").unwrap_err(), LexError { msg: "unterminated string".into(), at: 2 });
    assert_eq!(lex("\"a\\q\"").unwrap_err(), LexError { msg: "bad escape".into(), at: 3 });
    assert_eq!(
        lex("  llm\"\"\"open").unwrap_err(),
        LexError { msg: "unterminated llm\"\"\" prompt".into(), at: 2 }
    );
    assert_eq!(
        lex("99999999999999999999").unwrap_err(),
        LexError { msg: "integer literal out of range".into(), at: 0 }
    );
    assert_eq!(toks("9223372036854775807"), vec![Tok::Int(i64::MAX), Tok::Eof]);
}

#[test]
fn operators_and_escapes() {
    assert_eq!(
        toks("a|>b+=1-=2==3!=4<=5>=6 ; % ! *"),
        vec![
            Tok::Ident("a".into()),
            Tok::Pipe,
            Tok::Ident("b".into()),
            Tok::PlusEq,
            Tok::Int(1),
            Tok::MinusEq,
            Tok::Int(2),
            Tok::EqEq,
            Tok::Int(3),
            Tok::NotEq,
            Tok::Int(4),
            Tok::LtEq,
            Tok::Int(5),
            Tok::GtEq,
            Tok::Int(6),
            Tok::Semi,
            Tok::Percent,
            Tok::Bang,
            Tok::Star,
            Tok::Eof,
        ]
    );
    assert_eq!(toks("\"a\\n\\t\\\"\\\\\""), vec![Tok::Str("a\n\t\"\\".into()), Tok::Eof]);
    assert_eq!(toks("1.x"), vec![Tok::Int(1), Tok::Dot, Tok::Ident("x".into()), Tok::Eof]);
    assert_eq!(toks("none map"), vec![Tok::NoneKw, Tok::MapKw, Tok::Eof]);
}

#[test]
fn tokens_cover_their_text_and_spell_it() {
    let src = "fn hello_x(a: int) -> int uses LLM { \"é\" + 12 USD + a }";
    let ts = lex(src).unwrap();
    let (last, rest) = ts.split_last().unwrap();
    assert_eq!((last.tok.clone(), last.start, last.end), (Tok::Eof, src.len(), src.len()));
    for w in rest.windows(2) {
        assert!(w[0].end <= w[1].start);
    }
    for s in rest {
        assert!(s.start < s.end && s.tok != Tok::Eof);
        assert!(src.is_char_boundary(s.start) && src.is_char_boundary(s.end));
        if let Tok::Ident(w) = &s.tok {
            assert_eq!(&src[s.start..s.end], w.as_str());
        }
        if s.tok == Tok::Uses {
            assert_eq!(&src[s.start..s.end], "uses");
        }
        if let Tok::Money(_, u) = &s.tok {
            assert!(u.len() >= 2 && u.chars().all(|c| c.is_ascii_uppercase()));
        }
    }
    let bad = "let x = \"open";
    let e: LexError = lex(bad).unwrap_err();
    assert!(e.at <= bad.len());
}
