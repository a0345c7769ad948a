//! Lexical analysis: source text to tokens with byte spans.
//!
//! Identifiers are ASCII; string literals may hold any text; `//` comments
//! run to the end of the line. Reserved words lex as keywords, contextual
//! ones (`schema`, `retry`, ...) as identifiers.

use vstd::prelude::*;
use crate::decimal::{be_val, digits_end, is_digit, lit_ok, lit_value, Num, NumV};
use crate::lsp::{ident_char, ident_right, is_ident_char};
use crate::text::{byte_len, byte_off, byte_offset, chars_of, line_end, push_char, push_chars, string_of};

verus! {

/// A token.
#[derive(Debug, Clone, PartialEq)]
pub enum Tok {
    Ident(String),
    Int(i64),
    Float(Num),
    /// `"..."`, escapes resolved.
    Str(String),
    /// `llm"""..."""`: the raw body.
    Prompt(String),
    /// `0.02 USD`: the amount and the unit.
    Money(Num, String),
    Fn,
    Let,
    Type,
    Tool,
    Agent,
    State,
    Uses,
    With,
    Par,
    MapKw,
    All,
    Race,
    For,
    In,
    If,
    Else,
    Return,
    Test,
    Assert,
    Export,
    Use,
    And,
    Or,
    True,
    False,
    NoneKw,
    LParen,
    RParen,
    LBrace,
    RBrace,
    LBracket,
    RBracket,
    Comma,
    Colon,
    Dot,
    Semi,
    At,
    /// `->`
    Arrow,
    /// `|>`
    Pipe,
    /// `|`
    Bar,
    Assign,
    PlusEq,
    MinusEq,
    Plus,
    Minus,
    Star,
    Slash,
    Percent,
    Bang,
    EqEq,
    NotEq,
    Lt,
    LtEq,
    Gt,
    GtEq,
    Eof,
}

/// The mathematical value of a token.
pub enum TokV {
    Ident(Seq<char>),
    Int(int),
    Float(NumV),
    Str(Seq<char>),
    Prompt(Seq<char>),
    Money(NumV, Seq<char>),
    Fn,
    Let,
    Type,
    Tool,
    Agent,
    State,
    Uses,
    With,
    Par,
    MapKw,
    All,
    Race,
    For,
    In,
    If,
    Else,
    Return,
    Test,
    Assert,
    Export,
    Use,
    And,
    Or,
    True,
    False,
    NoneKw,
    LParen,
    RParen,
    LBrace,
    RBrace,
    LBracket,
    RBracket,
    Comma,
    Colon,
    Dot,
    Semi,
    At,
    Arrow,
    Pipe,
    Bar,
    Assign,
    PlusEq,
    MinusEq,
    Plus,
    Minus,
    Star,
    Slash,
    Percent,
    Bang,
    EqEq,
    NotEq,
    Lt,
    LtEq,
    Gt,
    GtEq,
    Eof,
}

impl View for Tok {
    type V = TokV;

    open spec fn view(&self) -> TokV {
        match self {
            Tok::Ident(s) => TokV::Ident(s@),
            Tok::Int(n) => TokV::Int(*n as int),
            Tok::Float(x) => TokV::Float(x@),
            Tok::Str(s) => TokV::Str(s@),
            Tok::Prompt(s) => TokV::Prompt(s@),
            Tok::Money(x, u) => TokV::Money(x@, u@),
            Tok::Fn => TokV::Fn,
            Tok::Let => TokV::Let,
            Tok::Type => TokV::Type,
            Tok::Tool => TokV::Tool,
            Tok::Agent => TokV::Agent,
            Tok::State => TokV::State,
            Tok::Uses => TokV::Uses,
            Tok::With => TokV::With,
            Tok::Par => TokV::Par,
            Tok::MapKw => TokV::MapKw,
            Tok::All => TokV::All,
            Tok::Race => TokV::Race,
            Tok::For => TokV::For,
            Tok::In => TokV::In,
            Tok::If => TokV::If,
            Tok::Else => TokV::Else,
            Tok::Return => TokV::Return,
            Tok::Test => TokV::Test,
            Tok::Assert => TokV::Assert,
            Tok::Export => TokV::Export,
            Tok::Use => TokV::Use,
            Tok::And => TokV::And,
            Tok::Or => TokV::Or,
            Tok::True => TokV::True,
            Tok::False => TokV::False,
            Tok::NoneKw => TokV::NoneKw,
            Tok::LParen => TokV::LParen,
            Tok::RParen => TokV::RParen,
            Tok::LBrace => TokV::LBrace,
            Tok::RBrace => TokV::RBrace,
            Tok::LBracket => TokV::LBracket,
            Tok::RBracket => TokV::RBracket,
            Tok::Comma => TokV::Comma,
            Tok::Colon => TokV::Colon,
            Tok::Dot => TokV::Dot,
            Tok::Semi => TokV::Semi,
            Tok::At => TokV::At,
            Tok::Arrow => TokV::Arrow,
            Tok::Pipe => TokV::Pipe,
            Tok::Bar => TokV::Bar,
            Tok::Assign => TokV::Assign,
            Tok::PlusEq => TokV::PlusEq,
            Tok::MinusEq => TokV::MinusEq,
            Tok::Plus => TokV::Plus,
            Tok::Minus => TokV::Minus,
            Tok::Star => TokV::Star,
            Tok::Slash => TokV::Slash,
            Tok::Percent => TokV::Percent,
            Tok::Bang => TokV::Bang,
            Tok::EqEq => TokV::EqEq,
            Tok::NotEq => TokV::NotEq,
            Tok::Lt => TokV::Lt,
            Tok::LtEq => TokV::LtEq,
            Tok::Gt => TokV::Gt,
            Tok::GtEq => TokV::GtEq,
            Tok::Eof => TokV::Eof,
        }
    }
}

/// The reserved word spelled `w`, if it is one.
pub open spec fn keyword_v(w: Seq<char>) -> Option<TokV> {
    if w == "fn"@ {
        Some(TokV::Fn)
    } else if w == "let"@ {
        Some(TokV::Let)
    } else if w == "type"@ {
        Some(TokV::Type)
    } else if w == "tool"@ {
        Some(TokV::Tool)
    } else if w == "agent"@ {
        Some(TokV::Agent)
    } else if w == "state"@ {
        Some(TokV::State)
    } else if w == "uses"@ {
        Some(TokV::Uses)
    } else if w == "with"@ {
        Some(TokV::With)
    } else if w == "par"@ {
        Some(TokV::Par)
    } else if w == "map"@ {
        Some(TokV::MapKw)
    } else if w == "all"@ {
        Some(TokV::All)
    } else if w == "race"@ {
        Some(TokV::Race)
    } else if w == "for"@ {
        Some(TokV::For)
    } else if w == "in"@ {
        Some(TokV::In)
    } else if w == "if"@ {
        Some(TokV::If)
    } else if w == "else"@ {
        Some(TokV::Else)
    } else if w == "return"@ {
        Some(TokV::Return)
    } else if w == "test"@ {
        Some(TokV::Test)
    } else if w == "assert"@ {
        Some(TokV::Assert)
    } else if w == "export"@ {
        Some(TokV::Export)
    } else if w == "use"@ {
        Some(TokV::Use)
    } else if w == "and"@ {
        Some(TokV::And)
    } else if w == "or"@ {
        Some(TokV::Or)
    } else if w == "true"@ {
        Some(TokV::True)
    } else if w == "false"@ {
        Some(TokV::False)
    } else if w == "none"@ {
        Some(TokV::NoneKw)
    } else {
        None
    }
}

/// The two-character operator `a b`, if it is one.
pub open spec fn op2_v(a: char, b: char) -> Option<TokV> {
    if a == '-' && b == '>' {
        Some(TokV::Arrow)
    } else if a == '|' && b == '>' {
        Some(TokV::Pipe)
    } else if a == '+' && b == '=' {
        Some(TokV::PlusEq)
    } else if a == '-' && b == '=' {
        Some(TokV::MinusEq)
    } else if a == '=' && b == '=' {
        Some(TokV::EqEq)
    } else if a == '!' && b == '=' {
        Some(TokV::NotEq)
    } else if a == '<' && b == '=' {
        Some(TokV::LtEq)
    } else if a == '>' && b == '=' {
        Some(TokV::GtEq)
    } else {
        None
    }
}

/// The one-character operator or punctuation `a`, if it is one.
pub open spec fn op1_v(a: char) -> Option<TokV> {
    if a == '(' {
        Some(TokV::LParen)
    } else if a == ')' {
        Some(TokV::RParen)
    } else if a == '{' {
        Some(TokV::LBrace)
    } else if a == '}' {
        Some(TokV::RBrace)
    } else if a == '[' {
        Some(TokV::LBracket)
    } else if a == ']' {
        Some(TokV::RBracket)
    } else if a == ',' {
        Some(TokV::Comma)
    } else if a == ':' {
        Some(TokV::Colon)
    } else if a == '.' {
        Some(TokV::Dot)
    } else if a == ';' {
        Some(TokV::Semi)
    } else if a == '@' {
        Some(TokV::At)
    } else if a == '|' {
        Some(TokV::Bar)
    } else if a == '=' {
        Some(TokV::Assign)
    } else if a == '+' {
        Some(TokV::Plus)
    } else if a == '-' {
        Some(TokV::Minus)
    } else if a == '*' {
        Some(TokV::Star)
    } else if a == '/' {
        Some(TokV::Slash)
    } else if a == '%' {
        Some(TokV::Percent)
    } else if a == '!' {
        Some(TokV::Bang)
    } else if a == '<' {
        Some(TokV::Lt)
    } else if a == '>' {
        Some(TokV::Gt)
    } else {
        None
    }
}

fn keyword(w: &str) -> (r: Option<Tok>)
    ensures
        r is Some <==> keyword_v(w@) is Some,
        r matches Some(t) ==> keyword_v(w@) == Some(t@),
{
    if crate::text::str_eq(w, "fn") {
        Some(Tok::Fn)
    } else if crate::text::str_eq(w, "let") {
        Some(Tok::Let)
    } else if crate::text::str_eq(w, "type") {
        Some(Tok::Type)
    } else if crate::text::str_eq(w, "tool") {
        Some(Tok::Tool)
    } else if crate::text::str_eq(w, "agent") {
        Some(Tok::Agent)
    } else if crate::text::str_eq(w, "state") {
        Some(Tok::State)
    } else if crate::text::str_eq(w, "uses") {
        Some(Tok::Uses)
    } else if crate::text::str_eq(w, "with") {
        Some(Tok::With)
    } else if crate::text::str_eq(w, "par") {
        Some(Tok::Par)
    } else if crate::text::str_eq(w, "map") {
        Some(Tok::MapKw)
    } else if crate::text::str_eq(w, "all") {
        Some(Tok::All)
    } else if crate::text::str_eq(w, "race") {
        Some(Tok::Race)
    } else if crate::text::str_eq(w, "for") {
        Some(Tok::For)
    } else if crate::text::str_eq(w, "in") {
        Some(Tok::In)
    } else if crate::text::str_eq(w, "if") {
        Some(Tok::If)
    } else if crate::text::str_eq(w, "else") {
        Some(Tok::Else)
    } else if crate::text::str_eq(w, "return") {
        Some(Tok::Return)
    } else if crate::text::str_eq(w, "test") {
        Some(Tok::Test)
    } else if crate::text::str_eq(w, "assert") {
        Some(Tok::Assert)
    } else if crate::text::str_eq(w, "export") {
        Some(Tok::Export)
    } else if crate::text::str_eq(w, "use") {
        Some(Tok::Use)
    } else if crate::text::str_eq(w, "and") {
        Some(Tok::And)
    } else if crate::text::str_eq(w, "or") {
        Some(Tok::Or)
    } else if crate::text::str_eq(w, "true") {
        Some(Tok::True)
    } else if crate::text::str_eq(w, "false") {
        Some(Tok::False)
    } else if crate::text::str_eq(w, "none") {
        Some(Tok::NoneKw)
    } else {
        None
    }
}

fn op2(a: char, b: char) -> (r: Option<Tok>)
    ensures
        r is Some <==> op2_v(a, b) is Some,
        r matches Some(t) ==> op2_v(a, b) == Some(t@),
{
    if a == '-' && b == '>' {
        Some(Tok::Arrow)
    } else if a == '|' && b == '>' {
        Some(Tok::Pipe)
    } else if a == '+' && b == '=' {
        Some(Tok::PlusEq)
    } else if a == '-' && b == '=' {
        Some(Tok::MinusEq)
    } else if a == '=' && b == '=' {
        Some(Tok::EqEq)
    } else if a == '!' && b == '=' {
        Some(Tok::NotEq)
    } else if a == '<' && b == '=' {
        Some(Tok::LtEq)
    } else if a == '>' && b == '=' {
        Some(Tok::GtEq)
    } else {
        None
    }
}

fn op1(a: char) -> (r: Option<Tok>)
    ensures
        r is Some <==> op1_v(a) is Some,
        r matches Some(t) ==> op1_v(a) == Some(t@),
{
    if a == '(' {
        Some(Tok::LParen)
    } else if a == ')' {
        Some(Tok::RParen)
    } else if a == '{' {
        Some(Tok::LBrace)
    } else if a == '}' {
        Some(Tok::RBrace)
    } else if a == '[' {
        Some(Tok::LBracket)
    } else if a == ']' {
        Some(Tok::RBracket)
    } else if a == ',' {
        Some(Tok::Comma)
    } else if a == ':' {
        Some(Tok::Colon)
    } else if a == '.' {
        Some(Tok::Dot)
    } else if a == ';' {
        Some(Tok::Semi)
    } else if a == '@' {
        Some(Tok::At)
    } else if a == '|' {
        Some(Tok::Bar)
    } else if a == '=' {
        Some(Tok::Assign)
    } else if a == '+' {
        Some(Tok::Plus)
    } else if a == '-' {
        Some(Tok::Minus)
    } else if a == '*' {
        Some(Tok::Star)
    } else if a == '/' {
        Some(Tok::Slash)
    } else if a == '%' {
        Some(Tok::Percent)
    } else if a == '!' {
        Some(Tok::Bang)
    } else if a == '<' {
        Some(Tok::Lt)
    } else if a == '>' {
        Some(Tok::Gt)
    } else {
        None
    }
}

} // verus!

verus! {

/// A lexical error: what went wrong and the byte offset where.
#[derive(Debug, Clone, PartialEq)]
pub struct LexError {
    pub msg: String,
    pub at: usize,
}

/// A token with its byte span.
#[derive(Debug, Clone, PartialEq)]
pub struct Spanned {
    pub tok: Tok,
    pub start: usize,
    pub end: usize,
}

pub struct SpannedV {
    pub tok: TokV,
    pub start: nat,
    pub end: nat,
}

impl Spanned {
    pub open spec fn view_s(&self) -> SpannedV {
        SpannedV { tok: self.tok@, start: self.start as nat, end: self.end as nat }
    }
}

/// What the lexer does at one position: skip to a later one, emit a token
/// spanning characters `s..e` (and go on at `e`), or fail with a message at
/// a byte offset.
pub enum Step {
    Skip(int),
    Emit(TokV, int, int),
    Fail(Seq<char>, nat),
}

/// ASCII whitespace (`char::is_whitespace` on an ASCII byte).
pub open spec fn is_ascii_ws(c: char) -> bool {
    (9 <= (c as u32) <= 13) || c == ' '
}

pub open spec fn is_upper(c: char) -> bool {
    'A' <= c <= 'Z'
}

/// End of the run of spaces and tabs starting at `i`.
pub open spec fn blank_end(t: Seq<char>, i: int) -> int
    decreases t.len() - i,
{
    if 0 <= i < t.len() && (t[i] == ' ' || t[i] == '\t') {
        blank_end(t, i + 1)
    } else {
        i
    }
}

/// End of the run of ASCII capitals starting at `i`.
pub open spec fn upper_end(t: Seq<char>, i: int) -> int
    decreases t.len() - i,
{
    if 0 <= i < t.len() && is_upper(t[i]) {
        upper_end(t, i + 1)
    } else {
        i
    }
}

/// `"""` starts at `p`.
pub open spec fn triple_at(t: Seq<char>, p: int) -> bool {
    0 <= p && p + 3 <= t.len() && t[p] == '"' && t[p + 1] == '"' && t[p + 2] == '"'
}

/// The first `"""` at or after `k`, or -1.
pub open spec fn find_triple(t: Seq<char>, k: int) -> int
    decreases t.len() - k,
{
    if k < 0 || k + 3 > t.len() {
        -1
    } else if triple_at(t, k) {
        k
    } else {
        find_triple(t, k + 1)
    }
}

/// The first byte of the UTF-8 encoding of `c`, read as a character: the
/// lexer scans bytes, and names an unexpected character by its first byte.
pub open spec fn lead_char(c: char) -> char {
    let u = c as u32;
    if u < 0x80 {
        c
    } else if u < 0x800 {
        (0xC0 + u / 64) as char
    } else if u < 0x10000 {
        (0xE0 + u / 4096) as char
    } else {
        (0xF0 + u / 262144) as char
    }
}

/// The character a string escape stands for.
pub open spec fn lex_esc(c: char) -> Option<char> {
    if c == 'n' {
        Some('\n')
    } else if c == 't' {
        Some('\t')
    } else if c == '"' {
        Some('"')
    } else if c == '\\' {
        Some('\\')
    } else {
        None
    }
}

/// The rest of a string literal opened at `start`, from `k` on, with
/// `acc` read so far.
pub open spec fn string_v(t: Seq<char>, k: int, acc: Seq<char>, start: int) -> Step
    decreases t.len() - k,
{
    if k < 0 || k >= t.len() {
        Step::Fail("unterminated string"@, byte_off(t, start))
    } else if t[k] == '"' {
        Step::Emit(TokV::Str(acc), start, k + 1)
    } else if t[k] == '\\' {
        if k + 1 < t.len() && lex_esc(t[k + 1]) is Some {
            string_v(t, k + 2, acc.push(lex_esc(t[k + 1])->0), start)
        } else {
            Step::Fail("bad escape"@, byte_off(t, k + 1))
        }
    } else {
        string_v(t, k + 1, acc.push(t[k]), start)
    }
}

/// A word starting at `i`: a prompt literal, a reserved word or an
/// identifier.
pub open spec fn word_v(t: Seq<char>, i: int) -> Step {
    let j = ident_right(t, i);
    let w = t.subrange(i, j);
    if w == "llm"@ && triple_at(t, j) {
        let p = find_triple(t, j + 3);
        if p < 0 {
            Step::Fail("unterminated llm\"\"\" prompt"@, byte_off(t, i))
        } else {
            Step::Emit(TokV::Prompt(t.subrange(j + 3, p)), j + 3, p + 3)
        }
    } else {
        Step::Emit(
            match keyword_v(w) {
                Some(k) => k,
                None => TokV::Ident(w),
            },
            i,
            j,
        )
    }
}

/// A number starting at `i`: an integer, a decimal, or either followed by
/// spaces and a unit of two or more capitals (money).
pub open spec fn number_v(t: Seq<char>, i: int) -> Step {
    let j = digits_end(t, i);
    let fl = j + 1 < t.len() && t[j] == '.' && is_digit(t[j + 1]);
    let j2 = if fl {
        digits_end(t, j + 1)
    } else {
        j
    };
    let text = t.subrange(i, j2);
    let w = blank_end(t, j2);
    let u = upper_end(t, w);
    if u - w >= 2 {
        if lit_ok(text) {
            Step::Emit(TokV::Money(lit_value(text), t.subrange(w, u)), i, u)
        } else {
            Step::Fail("bad money literal"@, byte_off(t, i))
        }
    } else if fl {
        if lit_ok(text) {
            Step::Emit(TokV::Float(lit_value(text)), i, j2)
        } else {
            Step::Fail("bad float literal"@, byte_off(t, i))
        }
    } else if be_val(t, i, j2) <= i64::MAX {
        Step::Emit(TokV::Int(be_val(t, i, j2) as int), i, j2)
    } else {
        Step::Fail("integer literal out of range"@, byte_off(t, i))
    }
}

/// An operator or punctuation at `i`; two-character operators are only
/// looked for when both characters are ASCII.
pub open spec fn op_v(t: Seq<char>, i: int) -> Step {
    let n = t.len();
    let c = t[i];
    let two = if n - i > 1 && (c as u32) < 128 && (t[i + 1] as u32) < 128 {
        op2_v(c, t[i + 1])
    } else {
        None
    };
    match two {
        Some(k) => Step::Emit(k, i, i + 2),
        None => match op1_v(c) {
            Some(k) => Step::Emit(k, i, i + 1),
            None => Step::Fail(
                "unexpected character '"@ + seq![lead_char(c)] + "'"@,
                byte_off(t, i),
            ),
        },
    }
}

/// What the lexer does at position `i` (`0 <= i < t.len()`).
pub open spec fn step_v(t: Seq<char>, i: int) -> Step {
    let c = t[i];
    if is_ascii_ws(c) {
        Step::Skip(i + 1)
    } else if c == '/' && i + 1 < t.len() && t[i + 1] == '/' {
        Step::Skip(line_end(t, i))
    } else if crate::lsp::ident_start(c) {
        word_v(t, i)
    } else if is_digit(c) {
        number_v(t, i)
    } else if c == '"' {
        string_v(t, i + 1, Seq::empty(), i)
    } else {
        op_v(t, i)
    }
}

/// The tokens from position `i` on, after `acc`; an `Eof` token ends them.
pub open spec fn lex_from(t: Seq<char>, i: int, acc: Seq<SpannedV>) -> Result<
    Seq<SpannedV>,
    (Seq<char>, nat),
>
    decreases t.len() - i,
{
    if i < 0 {
        Err((Seq::empty(), 0))
    } else if i >= t.len() {
        Ok(acc.push(SpannedV { tok: TokV::Eof, start: byte_len(t), end: byte_len(t) }))
    } else {
        match step_v(t, i) {
            Step::Skip(j) => if i < j <= t.len() {
                lex_from(t, j, acc)
            } else {
                Err((Seq::empty(), 0))
            },
            Step::Emit(tok, s, e) => if i < e <= t.len() {
                lex_from(
                    t,
                    e,
                    acc.push(SpannedV { tok, start: byte_off(t, s), end: byte_off(t, e) }),
                )
            } else {
                Err((Seq::empty(), 0))
            },
            Step::Fail(m, at) => Err((m, at)),
        }
    }
}

/// The tokens of a source text, or the first lexical error.
pub open spec fn lex_v(t: Seq<char>) -> Result<Seq<SpannedV>, (Seq<char>, nat)> {
    lex_from(t, 0, Seq::empty())
}

} // verus!

verus! {

/// What the lexer does at one position (see `Step`).
pub enum ExStep {
    Skip(usize),
    Emit(Tok, usize, usize),
    Fail(String, usize),
}

/// `x` is `s`, and a step that goes on goes forward from `i`.
pub open spec fn step_is(x: ExStep, s: Step, i: int, n: int) -> bool {
    match (x, s) {
        (ExStep::Skip(a), Step::Skip(b)) => a == b && i < a <= n,
        (ExStep::Emit(tk, a, b), Step::Emit(tv, c, d)) => tk@ == tv && a == c && b == d && i <= a
            <= b && i < b <= n,
        (ExStep::Fail(m, at), Step::Fail(ms, ats)) => m@ == ms && at == ats,
        _ => false,
    }
}

fn fail_at(msg: &str, t: &Vec<char>, k: usize) -> (r: ExStep)
    requires
        k <= t@.len(),
        byte_len(t@) <= usize::MAX,
    ensures
        r matches ExStep::Fail(m, at) && m@ == msg@ && at == byte_off(t@, k as int),
{
    ExStep::Fail(string_of(msg), byte_offset(t, k))
}

fn in_class(c: char, which: u8) -> (r: bool)
    ensures
        which == 0 ==> r == ident_char(c),
        which == 1 ==> r == is_digit(c),
        which == 2 ==> r == (c == ' ' || c == '\t'),
        which == 3 ==> r == is_upper(c),
{
    if which == 0 {
        is_ident_char(c)
    } else if which == 1 {
        '0' <= c && c <= '9'
    } else if which == 2 {
        c == ' ' || c == '\t'
    } else {
        'A' <= c && c <= 'Z'
    }
}

/// End of the run of characters satisfying the test `which` from `i`
/// (0: identifier characters, 1: digits, 2: spaces and tabs, 3: capitals).
fn run_end(t: &Vec<char>, i: usize, which: u8) -> (e: usize)
    requires
        i <= t@.len(),
        which < 4,
    ensures
        i <= e <= t@.len(),
        which == 0 ==> e == ident_right(t@, i as int),
        which == 1 ==> e == digits_end(t@, i as int),
        which == 2 ==> e == blank_end(t@, i as int),
        which == 3 ==> e == upper_end(t@, i as int),
{
    let mut e = i;
    while e < t.len() && in_class(t[e], which)
        invariant
            i <= e <= t@.len(),
            which < 4,
            which == 0 ==> ident_right(t@, e as int) == ident_right(t@, i as int),
            which == 1 ==> digits_end(t@, e as int) == digits_end(t@, i as int),
            which == 2 ==> blank_end(t@, e as int) == blank_end(t@, i as int),
            which == 3 ==> upper_end(t@, e as int) == upper_end(t@, i as int),
        decreases t@.len() - e,
    {
        e = e + 1;
    }
    e
}

/// The characters `t[lo..hi]` as a vector.
fn slice(t: &Vec<char>, lo: usize, hi: usize) -> (r: Vec<char>)
    requires
        lo <= hi <= t@.len(),
    ensures
        r@ == t@.subrange(lo as int, hi as int),
{
    let mut r: Vec<char> = Vec::new();
    let mut k = lo;
    while k < hi
        invariant
            lo <= k <= hi <= t@.len(),
            r@ == t@.subrange(lo as int, k as int),
        decreases hi - k,
    {
        r.push(t[k]);
        k = k + 1;
        assert(r@ =~= t@.subrange(lo as int, k as int));
    }
    r
}

#[verifier::spinoff_prover]
fn word_x(t: &Vec<char>, i: usize) -> (r: ExStep)
    requires
        i < t@.len(),
        crate::lsp::ident_start(t@[i as int]),
        byte_len(t@) <= usize::MAX,
    ensures
        step_is(r, word_v(t@, i as int), i as int, t@.len() as int),
{
    let n = t.len();
    let j = run_end(t, i, 0);
    proof {
        reveal_strlit("llm");
        crate::lsp::lemma_ident_right(t@, i + 1);
    }
    let is_llm = j - i == 3 && t[i] == 'l' && t[i + 1] == 'l' && t[i + 2] == 'm';
    assert(is_llm <==> t@.subrange(i as int, j as int) == "llm"@) by {
        assert("llm"@.len() == 3);
        assert(t@.subrange(i as int, j as int).len() == j - i);
        if j - i == 3 {
            if is_llm {
                assert(t@.subrange(i as int, j as int) =~= "llm"@);
            } else if t@.subrange(i as int, j as int) == "llm"@ {
                assert(t@.subrange(i as int, j as int)[0] == 'l');
                assert(t@.subrange(i as int, j as int)[1] == 'l');
                assert(t@.subrange(i as int, j as int)[2] == 'm');
            }
        }
    }
    if is_llm && n - j >= 3 && t[j] == '"' && t[j + 1] == '"' && t[j + 2] == '"' {
        let mut p = j + 3;
        while n - p >= 3 && !(t[p] == '"' && t[p + 1] == '"' && t[p + 2] == '"')
            invariant
                j + 3 <= p <= n == t@.len(),
                find_triple(t@, p as int) == find_triple(t@, j + 3),
            decreases n - p,
        {
            p = p + 1;
        }
        if n - p < 3 {
            return fail_at("unterminated llm\"\"\" prompt", t, i);
        }
        let mut body = String::new();
        push_chars(&mut body, t, j + 3, p);
        return ExStep::Emit(Tok::Prompt(body), j + 3, p + 3);
    }
    let mut w = String::new();
    push_chars(&mut w, t, i, j);
    assert(w@ =~= t@.subrange(i as int, j as int));
    match keyword(w.as_str()) {
        Some(k) => ExStep::Emit(k, i, j),
        None => ExStep::Emit(Tok::Ident(w), i, j),
    }
}

/// The value of the digits `t[lo..hi]`, if it fits an `i64`.
fn int_value(t: &Vec<char>, lo: usize, hi: usize) -> (r: Option<i64>)
    requires
        lo <= hi <= t@.len(),
        forall|k: int| lo <= k < hi ==> is_digit(#[trigger] t@[k]),
    ensures
        r is Some <==> be_val(t@, lo as int, hi as int) <= i64::MAX,
        r matches Some(v) ==> v as int == be_val(t@, lo as int, hi as int),
{
    let mut v: i64 = 0;
    let mut k = lo;
    while k < hi
        invariant
            lo <= k <= hi <= t@.len(),
            forall|q: int| lo <= q < hi ==> is_digit(#[trigger] t@[q]),
            v as int == be_val(t@, lo as int, k as int),
            v >= 0,
        decreases hi - k,
    {
        let d = (t[k] as u32 - '0' as u32) as i64;
        if v > (i64::MAX - d) / 10 {
            proof {
                lemma_be_val_ge(t@, lo as int, k + 1, hi as int);
            }
            return None;
        }
        v = v * 10 + d;
        k = k + 1;
    }
    Some(v)
}

proof fn lemma_be_val_ge(t: Seq<char>, lo: int, a: int, b: int)
    requires
        lo <= a <= b,
    ensures
        be_val(t, lo, a) <= be_val(t, lo, b),
    decreases b - a,
{
    if a < b {
        lemma_be_val_ge(t, lo, a, b - 1);
    }
}

fn number_x(t: &Vec<char>, i: usize) -> (r: ExStep)
    requires
        i < t@.len(),
        is_digit(t@[i as int]),
        byte_len(t@) <= usize::MAX,
    ensures
        step_is(r, number_v(t@, i as int), i as int, t@.len() as int),
{
    let n = t.len();
    proof {
        crate::decimal::lemma_digits_end(t@, i as int);
    }
    let j = run_end(t, i, 1);
    let fl = j < n && n - j > 1 && t[j] == '.' && '0' <= t[j + 1] && t[j + 1] <= '9';
    let j2 = if fl {
        proof {
            crate::decimal::lemma_digits_end(t@, j + 1);
        }
        run_end(t, j + 1, 1)
    } else {
        j
    };
    let text = slice(t, i, j2);
    let w = run_end(t, j2, 2);
    let u = run_end(t, w, 3);
    if u - w >= 2 {
        match Num::parse_literal(&text) {
            Some(v) => {
                let mut unit = String::new();
                push_chars(&mut unit, t, w, u);
                ExStep::Emit(Tok::Money(v, unit), i, u)
            },
            None => fail_at("bad money literal", t, i),
        }
    } else if fl {
        match Num::parse_literal(&text) {
            Some(v) => ExStep::Emit(Tok::Float(v), i, j2),
            None => fail_at("bad float literal", t, i),
        }
    } else {
        match int_value(t, i, j2) {
            Some(v) => ExStep::Emit(Tok::Int(v), i, j2),
            None => fail_at("integer literal out of range", t, i),
        }
    }
}

fn string_lit_x(t: &Vec<char>, i: usize) -> (r: ExStep)
    requires
        i < t@.len(),
        t@[i as int] == '"',
        byte_len(t@) <= usize::MAX,
    ensures
        step_is(r, string_v(t@, i + 1, Seq::empty(), i as int), i as int, t@.len() as int),
{
    let n = t.len();
    let mut s = String::new();
    let mut k = i + 1;
    loop
        invariant
            i < k <= n == t@.len(),
            byte_len(t@) <= usize::MAX,
            string_v(t@, k as int, s@, i as int) == string_v(t@, i + 1, Seq::empty(), i as int),
        decreases n - k,
    {
        if k >= n {
            return fail_at("unterminated string", t, i);
        }
        let c = t[k];
        if c == '"' {
            return ExStep::Emit(Tok::Str(s), i, k + 1);
        } else if c == '\\' {
            if k + 1 >= n {
                return fail_at("bad escape", t, k + 1);
            }
            let e = t[k + 1];
            if e == 'n' {
                push_char(&mut s, '\n');
            } else if e == 't' {
                push_char(&mut s, '\t');
            } else if e == '"' {
                push_char(&mut s, '"');
            } else if e == '\\' {
                push_char(&mut s, '\\');
            } else {
                return fail_at("bad escape", t, k + 1);
            }
            k = k + 2;
        } else {
            push_char(&mut s, c);
            k = k + 1;
        }
    }
}

fn op_x(t: &Vec<char>, i: usize) -> (r: ExStep)
    requires
        i < t@.len(),
        byte_len(t@) <= usize::MAX,
    ensures
        step_is(r, op_v(t@, i as int), i as int, t@.len() as int),
{
    let n = t.len();
    let c = t[i];
    let two = if n - i > 1 && (c as u32) < 128 && (t[i + 1] as u32) < 128 {
        op2(c, t[i + 1])
    } else {
        None
    };
    match two {
        Some(k) => ExStep::Emit(k, i, i + 2),
        None => match op1(c) {
            Some(k) => ExStep::Emit(k, i, i + 1),
            None => {
                let u = c as u32;
                proof {
                    vstd::utf8::char_is_scalar(c);
                }
                let lead: u32 = if u < 0x80 {
                    u
                } else if u < 0x800 {
                    0xC0 + u / 64
                } else if u < 0x10000 {
                    0xE0 + u / 4096
                } else {
                    0xF0 + u / 262144
                };
                assert(lead < 256);
                let lb = lead as u8;
                assert(lb as int == lead as int);
                let lc = lb as char;
                proof {
                    assert(lc == lead_char(c)) by {
                        if u < 0x80 {
                            vstd::utf8::char_u32_cast(c, u);
                            assert(lc as u32 == u);
                        }
                    }
                }
                let mut m = string_of("unexpected character '");
                push_char(&mut m, lc);
                crate::text::push_str(&mut m, "'");
                assert(m@ =~= "unexpected character '"@ + seq![lead_char(c)] + "'"@);
                ExStep::Fail(m, byte_offset(t, i))
            },
        },
    }
}

/// What the lexer does at position `i`.
fn step_x(t: &Vec<char>, i: usize) -> (r: ExStep)
    requires
        i < t@.len(),
        byte_len(t@) <= usize::MAX,
    ensures
        step_is(r, step_v(t@, i as int), i as int, t@.len() as int),
{
    let n = t.len();
    let c = t[i];
    let u = c as u32;
    if (9 <= u && u <= 13) || c == ' ' {
        ExStep::Skip(i + 1)
    } else if c == '/' && n - i > 1 && t[i + 1] == '/' {
        proof {
            crate::text::lemma_line_end(t@, i as int);
        }
        let mut e = i;
        while e < t.len() && t[e] != '\n'
            invariant
                i <= e <= t@.len(),
                line_end(t@, e as int) == line_end(t@, i as int),
            decreases t@.len() - e,
        {
            e = e + 1;
        }
        ExStep::Skip(e)
    } else if crate::lsp::is_ident_start(c) {
        word_x(t, i)
    } else if '0' <= c && c <= '9' {
        number_x(t, i)
    } else if c == '"' {
        string_lit_x(t, i)
    } else {
        op_x(t, i)
    }
}

} // verus!

verus! {

/// `byte_off(t, e)` from `byte_off(t, i) == b`.
fn advance(t: &Vec<char>, i: usize, b: usize, e: usize) -> (r: usize)
    requires
        i <= e <= t@.len(),
        b == byte_off(t@, i as int),
        byte_len(t@) <= usize::MAX,
    ensures
        r == byte_off(t@, e as int),
{
    let mut k = i;
    let mut r = b;
    while k < e
        invariant
            i <= k <= e <= t@.len(),
            r == byte_off(t@, k as int),
            byte_len(t@) <= usize::MAX,
        decreases e - k,
    {
        proof {
            crate::text::lemma_byte_off_step(t@, k as int);
            crate::text::lemma_byte_off_bound(t@, k + 1);
        }
        let u = t[k] as u32;
        let w: usize = if u < 0x80 {
            1
        } else if u < 0x800 {
            2
        } else if u < 0x10000 {
            3
        } else {
            4
        };
        r = r + w;
        k = k + 1;
    }
    r
}

/// The views of a list of spanned tokens.
pub open spec fn spanned_views(v: Seq<Spanned>) -> Seq<SpannedV> {
    Seq::new(v.len(), |i: int| v[i].view_s())
}

/// Splits source text into tokens with byte spans, ending with `Eof`.
pub fn lex(src: &str) -> (r: Result<Vec<Spanned>, LexError>)
    ensures
        match r {
            Ok(v) => lex_v(src@) == Ok::<Seq<SpannedV>, (Seq<char>, nat)>(spanned_views(v@)),
            Err(e) => lex_v(src@) == Err::<Seq<SpannedV>, (Seq<char>, nat)>((e.msg@, e.at as nat)),
        },
{
    let _bytes = crate::text::str_byte_len(src);
    let t = chars_of(src);
    let n = t.len();
    let mut out: Vec<Spanned> = Vec::new();
    let mut i: usize = 0;
    let mut b: usize = 0;
    proof {
        assert(t@.take(0) =~= Seq::<char>::empty());
        assert(spanned_views(out@) =~= Seq::<SpannedV>::empty());
    }
    while i < n
        invariant
            i <= n == t@.len(),
            t@ == src@,
            byte_len(t@) <= usize::MAX,
            b == byte_off(t@, i as int),
            lex_from(t@, i as int, spanned_views(out@)) == lex_v(t@),
        decreases n - i,
    {
        match step_x(&t, i) {
            ExStep::Skip(j) => {
                b = advance(&t, i, b, j);
                i = j;
            },
            ExStep::Emit(tok, s, e) => {
                let bs = advance(&t, i, b, s);
                let be = advance(&t, s, bs, e);
                let ghost before = spanned_views(out@);
                let sp = Spanned { tok, start: bs, end: be };
                let ghost sv = sp.view_s();
                out.push(sp);
                assert(spanned_views(out@) =~= before.push(sv));
                i = e;
                b = be;
            },
            ExStep::Fail(m, at) => {
                return Err(LexError { msg: m, at });
            },
        }
    }
    proof {
        assert(t@.take(n as int) =~= t@);
    }
    let ghost before = spanned_views(out@);
    let eof = Spanned { tok: Tok::Eof, start: b, end: b };
    let ghost ev = eof.view_s();
    out.push(eof);
    assert(spanned_views(out@) =~= before.push(ev));
    Ok(out)
}

} // verus!

verus! {

/// Spans within `0..bound`, each ending where or before the next starts.
pub open spec fn spans_ordered(s: Seq<SpannedV>, bound: nat) -> bool {
    &&& forall|k: int| 0 <= k < s.len() ==> (#[trigger] s[k]).start <= s[k].end <= bound
    &&& forall|k: int| 0 <= k < s.len() - 1 ==> s[k].end <= #[trigger] s[k + 1].start
}

proof fn lemma_find_triple(t: Seq<char>, k: int)
    requires
        0 <= k,
    ensures
        find_triple(t, k) == -1 || find_triple(t, k) >= k,
    decreases t.len() - k,
{
    if k + 3 <= t.len() && !triple_at(t, k) {
        lemma_find_triple(t, k + 1);
    }
}

proof fn lemma_string_start(t: Seq<char>, k: int, acc: Seq<char>, start: int)
    ensures
        string_v(t, k, acc, start) matches Step::Emit(_, s, _) ==> s == start,
    decreases t.len() - k,
{
    if 0 <= k < t.len() && t[k] != '"' {
        if t[k] == '\\' {
            if k + 1 < t.len() && lex_esc(t[k + 1]) is Some {
                lemma_string_start(t, k + 2, acc.push(lex_esc(t[k + 1])->0), start);
            }
        } else {
            lemma_string_start(t, k + 1, acc.push(t[k]), start);
        }
    }
}

proof fn lemma_step_bounds(t: Seq<char>, i: int)
    requires
        0 <= i < t.len(),
    ensures
        step_v(t, i) matches Step::Emit(_, s, e) ==> i <= s && (i < e ==> s <= e),
{
    lemma_string_start(t, i + 1, Seq::empty(), i);
    crate::lsp::lemma_ident_right(t, i);
    let j = ident_right(t, i);
    lemma_find_triple(t, j + 3);
}

proof fn lemma_lex_from_ordered(t: Seq<char>, i: int, acc: Seq<SpannedV>)
    requires
        0 <= i <= t.len(),
        spans_ordered(acc, byte_off(t, i)),
    ensures
        lex_from(t, i, acc) matches Ok(r) ==> {
            &&& spans_ordered(r, byte_len(t))
            &&& r.len() >= 1
            &&& r.last() == (SpannedV { tok: TokV::Eof, start: byte_len(t), end: byte_len(t) })
        },
    decreases t.len() - i,
{
    crate::text::lemma_byte_off_bound(t, i);
    if i >= t.len() {
        let r = acc.push(SpannedV { tok: TokV::Eof, start: byte_len(t), end: byte_len(t) });
        assert(t.take(i) =~= t);
        assert(spans_ordered(r, byte_len(t))) by {
            assert forall|k: int| 0 <= k < r.len() - 1 implies r[k].end <= #[trigger] r[k + 1].start by {
                if k < acc.len() - 1 {
                    assert(r[k + 1] == acc[k + 1]);
                }
            }
        }
    } else {
        lemma_step_bounds(t, i);
        match step_v(t, i) {
            Step::Skip(j) => if i < j <= t.len() {
                crate::text::lemma_byte_off_mono(t, i, j);
                lemma_lex_from_ordered(t, j, acc);
            },
            Step::Emit(tok, s, e) => if i < e <= t.len() {
                crate::text::lemma_byte_off_mono(t, i, s);
                crate::text::lemma_byte_off_mono(t, s, e);
                let sp = SpannedV { tok, start: byte_off(t, s), end: byte_off(t, e) };
                let acc2 = acc.push(sp);
                assert(spans_ordered(acc2, byte_off(t, e))) by {
                    assert forall|k: int| 0 <= k < acc2.len() - 1 implies acc2[k].end
                        <= #[trigger] acc2[k + 1].start by {
                        if k < acc.len() - 1 {
                            assert(acc2[k + 1] == acc[k + 1]);
                        }
                    }
                }
                lemma_lex_from_ordered(t, e, acc2);
            },
            Step::Fail(_, _) => {},
        }
    }
}

/// The token spans of a lexed text are ordered byte ranges within the
/// text, and the last token is `Eof` at its end.
pub proof fn law_spans_are_ordered(t: Seq<char>, toks: Seq<SpannedV>)
    requires
        lex_v(t) == Ok::<Seq<SpannedV>, (Seq<char>, nat)>(toks),
    ensures
        spans_ordered(toks, byte_len(t)),
        toks.len() >= 1,
        toks.last() == (SpannedV { tok: TokV::Eof, start: byte_len(t), end: byte_len(t) }),
{
    assert(t.take(0) =~= Seq::<char>::empty());
    lemma_lex_from_ordered(t, 0, Seq::empty());
}

} // verus!

verus! {

/// The name `Debug` prints for a token without fields.
pub open spec fn unit_name(t: TokV) -> Seq<char> {
    match t {
        TokV::Fn => "Fn"@,
        TokV::Let => "Let"@,
        TokV::Type => "Type"@,
        TokV::Tool => "Tool"@,
        TokV::Agent => "Agent"@,
        TokV::State => "State"@,
        TokV::Uses => "Uses"@,
        TokV::With => "With"@,
        TokV::Par => "Par"@,
        TokV::MapKw => "Map"@,
        TokV::All => "All"@,
        TokV::Race => "Race"@,
        TokV::For => "For"@,
        TokV::In => "In"@,
        TokV::If => "If"@,
        TokV::Else => "Else"@,
        TokV::Return => "Return"@,
        TokV::Test => "Test"@,
        TokV::Assert => "Assert"@,
        TokV::Export => "Export"@,
        TokV::Use => "Use"@,
        TokV::And => "And"@,
        TokV::Or => "Or"@,
        TokV::True => "True"@,
        TokV::False => "False"@,
        TokV::NoneKw => "None"@,
        TokV::LParen => "LParen"@,
        TokV::RParen => "RParen"@,
        TokV::LBrace => "LBrace"@,
        TokV::RBrace => "RBrace"@,
        TokV::LBracket => "LBracket"@,
        TokV::RBracket => "RBracket"@,
        TokV::Comma => "Comma"@,
        TokV::Colon => "Colon"@,
        TokV::Dot => "Dot"@,
        TokV::Semi => "Semi"@,
        TokV::At => "At"@,
        TokV::Arrow => "Arrow"@,
        TokV::Pipe => "Pipe"@,
        TokV::Bar => "Bar"@,
        TokV::Assign => "Assign"@,
        TokV::PlusEq => "PlusEq"@,
        TokV::MinusEq => "MinusEq"@,
        TokV::Plus => "Plus"@,
        TokV::Minus => "Minus"@,
        TokV::Star => "Star"@,
        TokV::Slash => "Slash"@,
        TokV::Percent => "Percent"@,
        TokV::Bang => "Bang"@,
        TokV::EqEq => "EqEq"@,
        TokV::NotEq => "NotEq"@,
        TokV::Lt => "Lt"@,
        TokV::LtEq => "LtEq"@,
        TokV::Gt => "Gt"@,
        TokV::GtEq => "GtEq"@,
        TokV::Eof => "Eof"@,
        _ => ""@,
    }
}

/// How `Debug` prints a token.
pub open spec fn tok_debug_v(t: TokV) -> Seq<char> {
    match t {
        TokV::Ident(s) => "Ident("@ + crate::text::str_debug_v(s) + ")"@,
        TokV::Int(n) => "Int("@ + crate::text::int_str(n) + ")"@,
        TokV::Float(x) => "Float("@ + crate::decimal::debug_v(x) + ")"@,
        TokV::Str(s) => "Str("@ + crate::text::str_debug_v(s) + ")"@,
        TokV::Prompt(s) => "Prompt("@ + crate::text::str_debug_v(s) + ")"@,
        TokV::Money(x, u) => "Money("@ + crate::decimal::debug_v(x) + ", "@ + crate::text::str_debug_v(u)
            + ")"@,
        _ => unit_name(t),
    }
}

fn unit_name_x(t: &Tok) -> (r: &'static str)
    ensures
        r@ == unit_name(t@),
{
    match t {
        Tok::Fn => "Fn",
        Tok::Let => "Let",
        Tok::Type => "Type",
        Tok::Tool => "Tool",
        Tok::Agent => "Agent",
        Tok::State => "State",
        Tok::Uses => "Uses",
        Tok::With => "With",
        Tok::Par => "Par",
        Tok::MapKw => "Map",
        Tok::All => "All",
        Tok::Race => "Race",
        Tok::For => "For",
        Tok::In => "In",
        Tok::If => "If",
        Tok::Else => "Else",
        Tok::Return => "Return",
        Tok::Test => "Test",
        Tok::Assert => "Assert",
        Tok::Export => "Export",
        Tok::Use => "Use",
        Tok::And => "And",
        Tok::Or => "Or",
        Tok::True => "True",
        Tok::False => "False",
        Tok::NoneKw => "None",
        Tok::LParen => "LParen",
        Tok::RParen => "RParen",
        Tok::LBrace => "LBrace",
        Tok::RBrace => "RBrace",
        Tok::LBracket => "LBracket",
        Tok::RBracket => "RBracket",
        Tok::Comma => "Comma",
        Tok::Colon => "Colon",
        Tok::Dot => "Dot",
        Tok::Semi => "Semi",
        Tok::At => "At",
        Tok::Arrow => "Arrow",
        Tok::Pipe => "Pipe",
        Tok::Bar => "Bar",
        Tok::Assign => "Assign",
        Tok::PlusEq => "PlusEq",
        Tok::MinusEq => "MinusEq",
        Tok::Plus => "Plus",
        Tok::Minus => "Minus",
        Tok::Star => "Star",
        Tok::Slash => "Slash",
        Tok::Percent => "Percent",
        Tok::Bang => "Bang",
        Tok::EqEq => "EqEq",
        Tok::NotEq => "NotEq",
        Tok::Lt => "Lt",
        Tok::LtEq => "LtEq",
        Tok::Gt => "Gt",
        Tok::GtEq => "GtEq",
        Tok::Eof => "Eof",
        _ => "",
    }
}

/// Appends `format!("{:?}", t)`.
pub fn push_tok_debug(out: &mut String, t: &Tok)
    ensures
        final(out)@ == old(out)@ + tok_debug_v(t@),
{
    let ghost o = out@;
    match t {
        Tok::Ident(s) => {
            crate::text::push_str(out, "Ident(");
            crate::text::push_str_debug(out, s.as_str());
            crate::text::push_str(out, ")");
        },
        Tok::Int(n) => {
            crate::text::push_str(out, "Int(");
            crate::text::push_i64(out, *n);
            crate::text::push_str(out, ")");
        },
        Tok::Float(x) => {
            crate::text::push_str(out, "Float(");
            x.write_debug(out);
            crate::text::push_str(out, ")");
        },
        Tok::Str(s) => {
            crate::text::push_str(out, "Str(");
            crate::text::push_str_debug(out, s.as_str());
            crate::text::push_str(out, ")");
        },
        Tok::Prompt(s) => {
            crate::text::push_str(out, "Prompt(");
            crate::text::push_str_debug(out, s.as_str());
            crate::text::push_str(out, ")");
        },
        Tok::Money(x, u) => {
            crate::text::push_str(out, "Money(");
            x.write_debug(out);
            crate::text::push_str(out, ", ");
            crate::text::push_str_debug(out, u.as_str());
            crate::text::push_str(out, ")");
        },
        _ => {
            crate::text::push_str(out, unit_name_x(t));
        },
    }
    assert(out@ =~= o + tok_debug_v(t@));
}

} // verus!

verus! {

/// `b` is a byte offset of `t` that falls between two characters (or at
/// either end).
pub open spec fn on_boundary(t: Seq<char>, b: nat) -> bool {
    exists|x: int| 0 <= x <= t.len() && #[trigger] byte_off(t, x) == b
}

/// Every token but the last covers at least one byte and is not `Eof`,
/// and every span starts and ends on a character boundary of `t`.
pub open spec fn spans_well_formed(t: Seq<char>, s: Seq<SpannedV>) -> bool {
    &&& forall|k: int| 0 <= k < s.len() - 1 ==> (#[trigger] s[k]).start < s[k].end && !(s[k].tok is Eof)
    &&& forall|k: int| 0 <= k < s.len() ==> on_boundary(t, (#[trigger] s[k]).start) && on_boundary(t, s[k].end)
}

proof fn lemma_blank_upper_end(t: Seq<char>, i: int)
    requires
        0 <= i,
    ensures
        i <= blank_end(t, i),
        i <= upper_end(t, i),
    decreases t.len() - i,
{
    if i < t.len() {
        lemma_blank_upper_end(t, i + 1);
    }
}

proof fn lemma_string_steps(t: Seq<char>, k: int, acc: Seq<char>, start: int)
    requires
        0 <= start <= t.len(),
        0 <= k,
    ensures
        string_v(t, k, acc, start) matches Step::Emit(tok, _, e) ==> e > k && tok is Str,
        string_v(t, k, acc, start) matches Step::Fail(_, at) ==> at <= byte_len(t),
    decreases t.len() - k,
{
    crate::text::lemma_byte_off_bound(t, start);
    if k < t.len() && t[k] != '"' {
        if t[k] == '\\' {
            if k + 1 < t.len() && lex_esc(t[k + 1]) is Some {
                lemma_string_steps(t, k + 2, acc.push(lex_esc(t[k + 1])->0), start);
            } else {
                crate::text::lemma_byte_off_bound(t, k + 1);
            }
        } else {
            lemma_string_steps(t, k + 1, acc.push(t[k]), start);
        }
    }
}

proof fn lemma_step_emits(t: Seq<char>, i: int)
    requires
        0 <= i < t.len(),
    ensures
        step_v(t, i) matches Step::Emit(tok, s, e) ==> s < e && !(tok is Eof),
        step_v(t, i) matches Step::Fail(_, at) ==> at <= byte_len(t),
{
    lemma_step_bounds(t, i);
    crate::text::lemma_byte_off_bound(t, i);
    lemma_string_steps(t, i + 1, Seq::empty(), i);
    lemma_string_start(t, i + 1, Seq::empty(), i);
    crate::lsp::lemma_ident_right(t, i + 1);
    crate::lsp::lemma_ident_right(t, i);
    let j = ident_right(t, i);
    lemma_find_triple(t, j + 3);
    crate::decimal::lemma_digits_end(t, i);
    crate::decimal::lemma_digits_end(t, i + 1);
    let d = crate::decimal::digits_end(t, i);
    if d + 1 < t.len() {
        crate::decimal::lemma_digits_end(t, d + 1);
    }
    let fl = d + 1 < t.len() && t[d] == '.' && is_digit(t[d + 1]);
    let j2 = if fl {
        crate::decimal::digits_end(t, d + 1)
    } else {
        d
    };
    lemma_blank_upper_end(t, j2);
    lemma_blank_upper_end(t, blank_end(t, j2));
}

proof fn lemma_lex_from_well_formed(t: Seq<char>, i: int, acc: Seq<SpannedV>)
    requires
        0 <= i <= t.len(),
        forall|k: int| 0 <= k < acc.len() ==> (#[trigger] acc[k]).start < acc[k].end && !(acc[k].tok is Eof),
        forall|k: int| 0 <= k < acc.len() ==> on_boundary(t, (#[trigger] acc[k]).start) && on_boundary(t, acc[k].end),
    ensures
        lex_from(t, i, acc) matches Ok(r) ==> spans_well_formed(t, r),
        lex_from(t, i, acc) matches Err(e) ==> e.1 <= byte_len(t),
    decreases t.len() - i,
{
    if i >= t.len() {
        let r = acc.push(SpannedV { tok: TokV::Eof, start: byte_len(t), end: byte_len(t) });
        assert(t.take(t.len() as int) =~= t);
        assert(byte_off(t, t.len() as int) == byte_len(t));
        assert forall|k: int| 0 <= k < r.len() implies on_boundary(t, (#[trigger] r[k]).start) && on_boundary(t, r[k].end) by {
            if k < acc.len() {
                assert(r[k] == acc[k]);
            }
        }
        assert forall|k: int| 0 <= k < r.len() - 1 implies (#[trigger] r[k]).start < r[k].end && !(r[k].tok is Eof) by {
            assert(r[k] == acc[k]);
        }
    } else {
        lemma_step_emits(t, i);
        lemma_step_bounds(t, i);
        match step_v(t, i) {
            Step::Skip(j) => if i < j <= t.len() {
                lemma_lex_from_well_formed(t, j, acc);
            },
            Step::Emit(tok, s, e) => if i < e <= t.len() {
                crate::lsp::lemma_byte_off_strict(t, s, e);
                let sp = SpannedV { tok, start: byte_off(t, s), end: byte_off(t, e) };
                let acc2 = acc.push(sp);
                assert(on_boundary(t, sp.start));
                assert(on_boundary(t, sp.end));
                assert forall|k: int| 0 <= k < acc2.len() implies (#[trigger] acc2[k]).start < acc2[k].end && !(acc2[k].tok is Eof)
                    && on_boundary(t, acc2[k].start) && on_boundary(t, acc2[k].end) by {
                    if k < acc.len() {
                        assert(acc2[k] == acc[k]);
                    }
                }
                lemma_lex_from_well_formed(t, e, acc2);
            },
            Step::Fail(_, _) => {},
        }
    }
}

/// A lexed text is cut into tokens that each cover at least one byte, with
/// `Eof` only at the end, and every span starts and ends between two
/// characters; a lexical error is reported at an offset within the text.
pub proof fn law_tokens_cover_the_text(t: Seq<char>)
    ensures
        lex_v(t) matches Ok(toks) ==> spans_well_formed(t, toks) && spans_ordered(toks, byte_len(t)),
        lex_v(t) matches Err(e) ==> e.1 <= byte_len(t),
{
    lemma_lex_from_well_formed(t, 0, Seq::empty());
    if lex_v(t) is Ok {
        law_spans_are_ordered(t, lex_v(t)->Ok_0);
    }
}

} // verus!

verus! {

/// The token is one of the reserved words.
pub open spec fn is_reserved(tok: TokV) -> bool {
    ||| tok is Fn || tok is Let || tok is Type || tok is Tool || tok is Agent || tok is State
    ||| tok is Uses || tok is With || tok is Par || tok is MapKw || tok is All || tok is Race
    ||| tok is For || tok is In || tok is If || tok is Else || tok is Return || tok is Test
    ||| tok is Assert || tok is Export || tok is Use || tok is And || tok is Or || tok is True
    ||| tok is False || tok is NoneKw
}

/// An identifier: a letter or `_`, then letters, digits and `_`.
pub open spec fn is_ident_word(w: Seq<char>) -> bool {
    w.len() >= 1 && crate::lsp::ident_start(w[0]) && forall|k: int| 0 <= k < w.len() ==> crate::lsp::ident_char(#[trigger] w[k])
}

/// What `tok`, read from the characters `t[x..y]`, says of them: an
/// identifier is those characters, a well-formed name and no reserved word;
/// a reserved word is spelled there; a money unit is two or more capitals.
pub open spec fn spelled_at(t: Seq<char>, tok: TokV, x: int, y: int) -> bool {
    match tok {
        TokV::Ident(w) => w == t.subrange(x, y) && is_ident_word(w) && keyword_v(w) is None,
        TokV::Money(_, u) => u.len() >= 2 && forall|k: int| 0 <= k < u.len() ==> is_upper(#[trigger] u[k]),
        _ => is_reserved(tok) ==> keyword_v(t.subrange(x, y)) == Some(tok),
    }
}

/// The span of `sp` is the byte range of some characters `t[x..y]` that
/// its token spells.
pub open spec fn token_spelled(t: Seq<char>, sp: SpannedV) -> bool {
    exists|x: int, y: int|
        0 <= x < y <= t.len() && byte_off(t, x) == sp.start && byte_off(t, y) == sp.end && #[trigger] spelled_at(
            t,
            sp.tok,
            x,
            y,
        )
}

proof fn lemma_ident_run(t: Seq<char>, e: int)
    requires
        0 <= e <= t.len(),
    ensures
        forall|m: int| e <= m < ident_right(t, e) ==> crate::lsp::ident_char(#[trigger] t[m]),
    decreases t.len() - e,
{
    if e < t.len() && crate::lsp::ident_char(t[e]) {
        lemma_ident_run(t, e + 1);
    }
}

proof fn lemma_upper_run(t: Seq<char>, e: int)
    requires
        0 <= e,
    ensures
        forall|m: int| e <= m < upper_end(t, e) ==> is_upper(#[trigger] t[m]),
        upper_end(t, e) <= t.len() || upper_end(t, e) == e,
    decreases t.len() - e,
{
    if e < t.len() && is_upper(t[e]) {
        lemma_upper_run(t, e + 1);
    }
}

proof fn lemma_step_spelled(t: Seq<char>, i: int)
    requires
        0 <= i < t.len(),
    ensures
        step_v(t, i) matches Step::Emit(tok, s, e) ==> spelled_at(t, tok, s, e),
{
    lemma_step_emits(t, i);
    lemma_string_steps(t, i + 1, Seq::empty(), i);
    crate::lsp::lemma_ident_right(t, i);
    lemma_ident_run(t, i);
    let j = ident_right(t, i);
    let w = t.subrange(i, j);
    if crate::lsp::ident_start(t[i]) && j > i {
        assert forall|k: int| 0 <= k < w.len() implies crate::lsp::ident_char(#[trigger] w[k]) by {
            assert(w[k] == t[i + k]);
        }
    }
    crate::decimal::lemma_digits_end(t, i);
    let d = crate::decimal::digits_end(t, i);
    if d + 1 < t.len() {
        crate::decimal::lemma_digits_end(t, d + 1);
    }
    let fl = d + 1 < t.len() && t[d] == '.' && is_digit(t[d + 1]);
    let j2 = if fl {
        crate::decimal::digits_end(t, d + 1)
    } else {
        d
    };
    lemma_blank_upper_end(t, j2);
    let b = blank_end(t, j2);
    lemma_upper_run(t, b);
    let u = t.subrange(b, upper_end(t, b));
    if upper_end(t, b) - b >= 2 {
        assert forall|k: int| 0 <= k < u.len() implies is_upper(#[trigger] u[k]) by {
            assert(u[k] == t[b + k]);
        }
    }
}

proof fn lemma_lex_from_spelled(t: Seq<char>, i: int, acc: Seq<SpannedV>)
    requires
        0 <= i <= t.len(),
        forall|k: int| 0 <= k < acc.len() ==> token_spelled(t, #[trigger] acc[k]),
    ensures
        lex_from(t, i, acc) matches Ok(r) ==> forall|k: int| 0 <= k < r.len() - 1 ==> token_spelled(t, #[trigger] r[k]),
    decreases t.len() - i,
{
    if i >= t.len() {
        let r = acc.push(SpannedV { tok: TokV::Eof, start: byte_len(t), end: byte_len(t) });
        assert forall|k: int| 0 <= k < r.len() - 1 implies token_spelled(t, #[trigger] r[k]) by {
            assert(r[k] == acc[k]);
        }
    } else {
        lemma_step_emits(t, i);
        lemma_step_bounds(t, i);
        lemma_step_spelled(t, i);
        match step_v(t, i) {
            Step::Skip(j) => if i < j <= t.len() {
                lemma_lex_from_spelled(t, j, acc);
            },
            Step::Emit(tok, s, e) => if i < e <= t.len() {
                let sp = SpannedV { tok, start: byte_off(t, s), end: byte_off(t, e) };
                let acc2 = acc.push(sp);
                assert(spelled_at(t, tok, s, e));
                assert(token_spelled(t, sp));
                assert forall|k: int| 0 <= k < acc2.len() implies token_spelled(t, #[trigger] acc2[k]) by {
                    if k < acc.len() {
                        assert(acc2[k] == acc[k]);
                    }
                }
                lemma_lex_from_spelled(t, e, acc2);
            },
            Step::Fail(_, _) => {},
        }
    }
}

/// Every token of a lexed text spells what it stands for: an identifier is
/// the characters of its span, a well-formed name that is no reserved word;
/// a reserved word is spelled in its span; a money unit is two or more
/// capitals.
pub proof fn law_tokens_spell_their_text(t: Seq<char>)
    ensures
        lex_v(t) matches Ok(toks) ==> forall|k: int| 0 <= k < toks.len() - 1 ==> token_spelled(t, #[trigger] toks[k]),
{
    lemma_lex_from_spelled(t, 0, Seq::empty());
}

} // verus!
