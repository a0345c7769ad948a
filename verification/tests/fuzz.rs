use nudgec::check::check;
use nudgec::json;
use nudgec::lexer::lex;
use nudgec::parser::parse;

/// xorshift64*: a tiny deterministic generator, so runs are reproducible.
struct Rng(u64);

impl Rng {
    fn next(&mut self) -> u64 {
        let mut x = self.0;
        x ^= x >> 12;
        x ^= x << 25;
        x ^= x >> 27;
        self.0 = x;
        x.wrapping_mul(0x2545F4914F6CDD1D)
    }
    fn below(&mut self, n: usize) -> usize {
        (self.next() % n.max(1) as u64) as usize
    }
}

fn random_string(rng: &mut Rng, len: usize) -> String {
    (0..len)
        .map(|_| match rng.below(40) {
            0 => '\n',
            1 => '😀',
            2 => 'é',
            3 => '\\',
            n => (b' ' + ((n * 7) % 95) as u8) as char,
        })
        .collect()
}

fn drive(src: &str) {
    let Ok(tokens) = lex(src) else { return };
    let Ok(items) = parse(tokens) else { return };
    let _ = check(&items);
}

#[test]
fn fuzz_random_strings_never_panic() {
    let mut rng = Rng(0x5EED_0002);
    for _ in 0..2000 {
        let len = 1 + rng.below(128);
        drive(&random_string(&mut rng, len));
    }
}

#[test]
fn fuzz_json_parser_never_panics() {
    let mut rng = Rng(0x5EED_0003);
    let json_fragments = [
        "{", "}", "[", "]", ":", ",", "\"", "\\u", "\\uD83D", "\\uDE00", "null", "true", "false", "-", ".", "e+",
        "e-", "123456789012345678901234567890", "\"\\\"", "😀",
    ];
    for _ in 0..4000 {
        let mut s = String::new();
        for _ in 0..rng.below(24) {
            s.push_str(json_fragments[rng.below(json_fragments.len())]);
        }
        let _ = json::parse(&s);
        if let Ok(v) = json::parse(&s) {
            let _ = json::dumps(&v);
        }
    }
}

#[test]
fn fuzz_inline_programs_with_mutations_never_panic() {
    let seeds = [
        "fn f() -> int { 1 }",
        "agent A {\n    state {\n        n: int = 0,\n    }\n    fn step() -> int uses LLM {\n        llm\"\"\"go {state.n}\"\"\" with { model: \"m\", budget: 0.01 USD }\n    }\n}",
    ];
    let fragments = ["\"\"\"", "llm\"\"\"", "{", "}", "(", ")", "|", "->", "==", "+=", ":", ",", ".", "state.", "par map", "route{", "when", "otherwise", "é"];
    let mut rng = Rng(0x5EED_0004);
    for _ in 0..500 {
        let mut s = seeds[rng.below(seeds.len())].to_string();
        let f = fragments[rng.below(fragments.len())];
        let mut at = rng.below(s.len() + 1);
        while !s.is_char_boundary(at) {
            at -= 1;
        }
        s.insert_str(at, f);
        drive(&s);
        let _ = nudgec::lint::lint_items(&match parse(match lex(&s) {
            Ok(t) => t,
            Err(_) => continue,
        }) {
            Ok(i) => i,
            Err(_) => continue,
        });
    }
}
