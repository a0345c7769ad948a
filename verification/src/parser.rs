//! The parser: tokens to a program, by recursive descent.
//!
//! Each parsing function computes exactly what the spec function of the
//! same name in `grammar` says: the value and the position after it, or the
//! error. Contextual keywords (`stream`, `merge`, `route`, `zip`, `when`,
//! `otherwise`, `repair`) lex as identifiers and are matched here by their
//! text, so they stay usable as names.

use vstd::prelude::*;
use crate::text::{chars_of, push_str, str_eq, string_of, trim_range, trim_v};
use crate::lexer::{push_tok_debug, spanned_views, tok_debug_v, SpannedV, TokV, Spanned, Tok};
use crate::ast::{arm_cond_v, names_v, params_v, stmts_v, strs_v, BinOp, Expr, ExprV, Item, ItemV, Param, ParamV, Span, StateOp, Stmt, StmtKind, StmtKindV, StmtV, TypeExpr, TypeExprV};
use crate::grammar::{
    add_loop, add_op, and_loop, args_loop, at_pos, bump, rel_loop, rel_op, expect, fail_at, found,
    ident, interps, is_word, lambda_params, list_loop, merge_loop, mul_loop, mul_op, or_loop,
    p_add, p_and, p_call_args, p_rel, p_expr, p_merge, p_mul, p_or, p_par, p_postfix, p_primary,
    p_unary, par_map_tail, postfix_loop, route_loop, tk, with_loop, PR, p_type, record_loop,
    refine_args, spanned, let_tail, state_write_ahead, p_stmt, block_loop, p_block, p_params,
    params_loop, p_effects, effects_loop, p_fn, tool_loop, p_tool, p_test, p_type_alias,
    AgentState, state_loop, agent_loop, p_agent, p_item, program_loop, parse_v, tool_field,
    state_field,
};

verus! {

/// A parse error: what went wrong and the byte offset where.
#[derive(Debug, Clone, PartialEq)]
pub struct ParseError {
    pub msg: String,
    pub at: usize,
}

/// Index of the first `c` at or after `i`, or the length.
pub open spec fn find_from(s: Seq<char>, c: char, i: int) -> int
    decreases s.len() - i,
{
    if i < 0 || i >= s.len() || s[i] == c {
        i
    } else {
        find_from(s, c, i + 1)
    }
}

pub proof fn lemma_find_from(s: Seq<char>, c: char, i: int)
    requires
        0 <= i <= s.len(),
    ensures
        i <= find_from(s, c, i) <= s.len(),
        find_from(s, c, i) < s.len() ==> s[find_from(s, c, i)] == c,
    decreases s.len() - i,
{
    if i < s.len() && s[i] != c {
        lemma_find_from(s, c, i + 1);
    }
}

/// The interpolations of `s` from index `i` on: each `{` up to the next
/// `}`, the text between them trimmed; an unclosed `{` ends the scan.
pub open spec fn interp_from(s: Seq<char>, i: int) -> Seq<Seq<char>>
    decreases s.len() - i,
{
    if i < 0 || i > s.len() {
        Seq::empty()
    } else {
        let o = find_from(s, '{', i);
        proof {
            lemma_find_from(s, '{', i);
        }
        if o >= s.len() {
            Seq::empty()
        } else {
            let c = find_from(s, '}', o);
            proof {
                lemma_find_from(s, '}', o);
            }
            if c >= s.len() {
                Seq::empty()
            } else {
                seq![trim_v(s.subrange(o + 1, c))] + interp_from(s, c + 1)
            }
        }
    }
}

/// Pull `{name}` / `{path.to.value}` interpolations out of a prompt body.
pub fn scan_interpolations(body: &str) -> (r: Vec<String>)
    ensures
        r@.len() == interp_from(body@, 0).len(),
        forall|k: int| 0 <= k < r@.len() ==> (#[trigger] r@[k])@ == interp_from(body@, 0)[k],
{
    let s = chars_of(body);
    let mut out: Vec<String> = Vec::new();
    let mut i: usize = 0;
    loop
        invariant
            i <= s@.len(),
            s@ == body@,
            out@.len() + interp_from(s@, i as int).len() == interp_from(s@, 0).len(),
            forall|k: int| 0 <= k < out@.len() ==> (#[trigger] out@[k])@ == interp_from(s@, 0)[k],
            forall|k: int|
                0 <= k < interp_from(s@, i as int).len() ==> interp_from(s@, i as int)[k]
                    == #[trigger] interp_from(s@, 0)[out@.len() + k],
        decreases s@.len() - i,
    {
        proof {
            lemma_find_from(s@, '{', i as int);
        }
        let mut o = i;
        while o < s.len() && s[o] != '{'
            invariant
                i <= o <= s@.len(),
                find_from(s@, '{', o as int) == find_from(s@, '{', i as int),
            decreases s@.len() - o,
        {
            o = o + 1;
        }
        if o >= s.len() {
            return out;
        }
        proof {
            lemma_find_from(s@, '}', o as int);
        }
        let mut c = o;
        while c < s.len() && s[c] != '}'
            invariant
                o <= c <= s@.len(),
                find_from(s@, '}', c as int) == find_from(s@, '}', o as int),
            decreases s@.len() - c,
        {
            c = c + 1;
        }
        if c >= s.len() {
            return out;
        }
        let ghost rest = interp_from(s@, i as int);
        let w = trim_range(&s, o + 1, c);
        proof {
            assert(rest == seq![w@] + interp_from(s@, c + 1));
            let z: int = 0;
            assert(rest[z] == interp_from(s@, 0)[out@.len() + z]);
        }
        out.push(w);
        i = c + 1;
        proof {
            assert forall|k: int| 0 <= k < interp_from(s@, i as int).len() implies interp_from(
                s@,
                i as int,
            )[k] == #[trigger] interp_from(s@, 0)[out@.len() + k] by {
                assert(interp_from(s@, i as int)[k] == rest[k + 1]);
                assert(rest[k + 1] == interp_from(s@, 0)[out@.len() - 1 + (k + 1)]);
            }
        }
    }
}

} // verus!

verus! {

/// The token kinds the parser tells apart by themselves; tokens that carry
/// a value, and keywords the grammar never asks for, are `Other`.
#[derive(Clone, Copy, PartialEq, Eq, Structural)]
enum K {
    Fn,
    Let,
    Type,
    Tool,
    Agent,
    State,
    Uses,
    With,
    Par,
    MapKw,
    All,
    Race,
    Test,
    Assert,
    And,
    Or,
    True,
    False,
    NoneKw,
    LParen,
    RParen,
    LBrace,
    RBrace,
    LBracket,
    RBracket,
    Comma,
    Colon,
    Dot,
    At,
    Arrow,
    Bar,
    Assign,
    PlusEq,
    MinusEq,
    Plus,
    Minus,
    Star,
    Slash,
    Percent,
    Bang,
    EqEq,
    NotEq,
    Lt,
    LtEq,
    Gt,
    GtEq,
    Eof,
    Other,
}

spec fn kind_v(x: TokV) -> K {
    match x {
        TokV::Fn => K::Fn,
        TokV::Let => K::Let,
        TokV::Type => K::Type,
        TokV::Tool => K::Tool,
        TokV::Agent => K::Agent,
        TokV::State => K::State,
        TokV::Uses => K::Uses,
        TokV::With => K::With,
        TokV::Par => K::Par,
        TokV::MapKw => K::MapKw,
        TokV::All => K::All,
        TokV::Race => K::Race,
        TokV::Test => K::Test,
        TokV::Assert => K::Assert,
        TokV::And => K::And,
        TokV::Or => K::Or,
        TokV::True => K::True,
        TokV::False => K::False,
        TokV::NoneKw => K::NoneKw,
        TokV::LParen => K::LParen,
        TokV::RParen => K::RParen,
        TokV::LBrace => K::LBrace,
        TokV::RBrace => K::RBrace,
        TokV::LBracket => K::LBracket,
        TokV::RBracket => K::RBracket,
        TokV::Comma => K::Comma,
        TokV::Colon => K::Colon,
        TokV::Dot => K::Dot,
        TokV::At => K::At,
        TokV::Arrow => K::Arrow,
        TokV::Bar => K::Bar,
        TokV::Assign => K::Assign,
        TokV::PlusEq => K::PlusEq,
        TokV::MinusEq => K::MinusEq,
        TokV::Plus => K::Plus,
        TokV::Minus => K::Minus,
        TokV::Star => K::Star,
        TokV::Slash => K::Slash,
        TokV::Percent => K::Percent,
        TokV::Bang => K::Bang,
        TokV::EqEq => K::EqEq,
        TokV::NotEq => K::NotEq,
        TokV::Lt => K::Lt,
        TokV::LtEq => K::LtEq,
        TokV::Gt => K::Gt,
        TokV::GtEq => K::GtEq,
        TokV::Eof => K::Eof,
        _ => K::Other,
    }
}

/// The token of a kind (`Other` has none of its own).
spec fn tok_of(k: K) -> TokV {
    match k {
        K::Fn => TokV::Fn,
        K::Let => TokV::Let,
        K::Type => TokV::Type,
        K::Tool => TokV::Tool,
        K::Agent => TokV::Agent,
        K::State => TokV::State,
        K::Uses => TokV::Uses,
        K::With => TokV::With,
        K::Par => TokV::Par,
        K::MapKw => TokV::MapKw,
        K::All => TokV::All,
        K::Race => TokV::Race,
        K::Test => TokV::Test,
        K::Assert => TokV::Assert,
        K::And => TokV::And,
        K::Or => TokV::Or,
        K::True => TokV::True,
        K::False => TokV::False,
        K::NoneKw => TokV::NoneKw,
        K::LParen => TokV::LParen,
        K::RParen => TokV::RParen,
        K::LBrace => TokV::LBrace,
        K::RBrace => TokV::RBrace,
        K::LBracket => TokV::LBracket,
        K::RBracket => TokV::RBracket,
        K::Comma => TokV::Comma,
        K::Colon => TokV::Colon,
        K::Dot => TokV::Dot,
        K::At => TokV::At,
        K::Arrow => TokV::Arrow,
        K::Bar => TokV::Bar,
        K::Assign => TokV::Assign,
        K::PlusEq => TokV::PlusEq,
        K::MinusEq => TokV::MinusEq,
        K::Plus => TokV::Plus,
        K::Minus => TokV::Minus,
        K::Star => TokV::Star,
        K::Slash => TokV::Slash,
        K::Percent => TokV::Percent,
        K::Bang => TokV::Bang,
        K::EqEq => TokV::EqEq,
        K::NotEq => TokV::NotEq,
        K::Lt => TokV::Lt,
        K::LtEq => TokV::LtEq,
        K::Gt => TokV::Gt,
        K::GtEq => TokV::GtEq,
        K::Eof => TokV::Eof,
        K::Other => TokV::Semi,
    }
}

proof fn lemma_kind(x: TokV, k: K)
    requires
        k != K::Other,
    ensures
        (kind_v(x) == k) == (x == tok_of(k)),
{
}

/// The kind of the token at `i` (`Eof` past the end).
fn kind(t: &Vec<Spanned>, i: usize) -> (r: K)
    ensures
        r == kind_v(tk(spanned_views(t@), i as int)),
{
    if i >= t.len() {
        return K::Eof;
    }
    match &t[i].tok {
        Tok::Fn => K::Fn,
        Tok::Let => K::Let,
        Tok::Type => K::Type,
        Tok::Tool => K::Tool,
        Tok::Agent => K::Agent,
        Tok::State => K::State,
        Tok::Uses => K::Uses,
        Tok::With => K::With,
        Tok::Par => K::Par,
        Tok::MapKw => K::MapKw,
        Tok::All => K::All,
        Tok::Race => K::Race,
        Tok::Test => K::Test,
        Tok::Assert => K::Assert,
        Tok::And => K::And,
        Tok::Or => K::Or,
        Tok::True => K::True,
        Tok::False => K::False,
        Tok::NoneKw => K::NoneKw,
        Tok::LParen => K::LParen,
        Tok::RParen => K::RParen,
        Tok::LBrace => K::LBrace,
        Tok::RBrace => K::RBrace,
        Tok::LBracket => K::LBracket,
        Tok::RBracket => K::RBracket,
        Tok::Comma => K::Comma,
        Tok::Colon => K::Colon,
        Tok::Dot => K::Dot,
        Tok::At => K::At,
        Tok::Arrow => K::Arrow,
        Tok::Bar => K::Bar,
        Tok::Assign => K::Assign,
        Tok::PlusEq => K::PlusEq,
        Tok::MinusEq => K::MinusEq,
        Tok::Plus => K::Plus,
        Tok::Minus => K::Minus,
        Tok::Star => K::Star,
        Tok::Slash => K::Slash,
        Tok::Percent => K::Percent,
        Tok::Bang => K::Bang,
        Tok::EqEq => K::EqEq,
        Tok::NotEq => K::NotEq,
        Tok::Lt => K::Lt,
        Tok::LtEq => K::LtEq,
        Tok::Gt => K::Gt,
        Tok::GtEq => K::GtEq,
        Tok::Eof => K::Eof,
        _ => K::Other,
    }
}

/// The token at `i` is of kind `k`.
fn at_x(t: &Vec<Spanned>, i: usize, k: K) -> (r: bool)
    requires
        k != K::Other,
    ensures
        r == (tk(spanned_views(t@), i as int) == tok_of(k)),
{
    proof {
        lemma_kind(tk(spanned_views(t@), i as int), k);
    }
    kind(t, i) == k
}

/// The views of a list of values.
pub open spec fn views<T: View>(s: Seq<T>) -> Seq<T::V> {
    Seq::new(s.len(), |i: int| s[i]@)
}

/// The values of `name = value` pairs.
pub open spec fn vals_v(s: Seq<(String, Expr)>) -> Seq<ExprV> {
    Seq::new(s.len(), |i: int| s[i].1@)
}

/// `r` is what the grammar says (`s`), and a position it gives is a token
/// of the list (of length `n`).
pub open spec fn yields<T: View>(r: Result<(T, usize), ParseError>, s: PR<T::V>, n: nat) -> bool {
    match r {
        Ok((v, k)) => s == PR::Got(v@, k as int) && k < n,
        Err(e) => s == PR::<T::V>::Fail(e.msg@, e.at as nat),
    }
}

/// `yields` for a list of values.
pub open spec fn yields_all<T: View>(r: Result<(Vec<T>, usize), ParseError>, s: PR<Seq<T::V>>, n: nat) -> bool {
    match r {
        Ok((v, k)) => s == PR::Got(views(v@), k as int) && k < n,
        Err(e) => s == PR::<Seq<T::V>>::Fail(e.msg@, e.at as nat),
    }
}

/// The spec result "no progress" (never met on a list that ends in `Eof`).
fn stuck_x() -> (e: ParseError)
    ensures
        e.msg@ == Seq::<char>::empty(),
        e.at == 0,
{
    let msg = String::new();
    proof {
        assert(msg@ =~= Seq::<char>::empty());
    }
    ParseError { msg, at: 0 }
}

/// The position after the token at `i`.
fn bump_x(t: &Vec<Spanned>, i: usize) -> (r: usize)
    requires
        i < t@.len(),
    ensures
        r as int == bump(spanned_views(t@), i as int),
        r < t@.len(),
        i <= r,
{
    if i < t.len() - 1 {
        i + 1
    } else {
        i
    }
}

/// An error naming the token at `i` after `prefix`.
fn found_x(t: &Vec<Spanned>, i: usize, prefix: &str) -> (e: ParseError)
    requires
        i < t@.len(),
    ensures
        PR::<()>::Fail(e.msg@, e.at as nat) == found::<()>(spanned_views(t@), i as int, prefix@),
{
    let mut msg = string_of(prefix);
    push_tok_debug(&mut msg, &t[i].tok);
    ParseError { msg, at: t[i].start }
}

/// An error at the token at `i`.
fn fail_x(t: &Vec<Spanned>, i: usize, text: &str) -> (e: ParseError)
    requires
        i < t@.len(),
    ensures
        PR::<()>::Fail(e.msg@, e.at as nat) == fail_at::<()>(spanned_views(t@), i as int, text@),
{
    ParseError { msg: string_of(text), at: t[i].start }
}

/// The token of kind `k` is required at `i`: the position after it.
fn expect_x(t: &Vec<Spanned>, i: usize, k: K, what: &str) -> (r: Result<usize, ParseError>)
    requires
        i < t@.len(),
        k != K::Other,
    ensures
        match r {
            Ok(j) => expect(spanned_views(t@), i as int, tok_of(k), what@) == PR::Got((), j as int)
                && j < t@.len(),
            Err(e) => expect(spanned_views(t@), i as int, tok_of(k), what@) == PR::<()>::Fail(
                e.msg@,
                e.at as nat,
            ),
        },
{
    if at_x(t, i, k) {
        Ok(bump_x(t, i))
    } else {
        let mut msg = string_of("expected ");
        push_str(&mut msg, what);
        push_str(&mut msg, ", found ");
        push_tok_debug(&mut msg, &t[i].tok);
        proof {
            reveal_strlit("expected ");
            reveal_strlit(", found ");
            assert(msg@ =~= "expected "@ + what@ + ", found "@ + tok_debug_v(tk(spanned_views(t@), i as int)));
        }
        Err(ParseError { msg, at: t[i].start })
    }
}

/// Consumes a token of kind `k` at `i` if it is there.
fn eat_x(t: &Vec<Spanned>, i: usize, k: K) -> (r: usize)
    requires
        i < t@.len(),
        k != K::Other,
    ensures
        r as int == crate::grammar::eat(spanned_views(t@), i as int, tok_of(k)),
        r < t@.len(),
        i <= r,
{
    if at_x(t, i, k) {
        bump_x(t, i)
    } else {
        i
    }
}

/// An identifier at `i`.
fn ident_x(t: &Vec<Spanned>, i: usize) -> (r: Result<(String, usize), ParseError>)
    requires
        i < t@.len(),
    ensures
        yields(r, ident(spanned_views(t@), i as int), t@.len()),
{
    match &t[i].tok {
        Tok::Ident(s) => Ok((string_of(s.as_str()), bump_x(t, i))),
        _ => {
            let e = found_x(t, i, "expected identifier, found ");
            Err(e)
        },
    }
}

/// The token at `i` is the identifier `w`.
fn is_word_x(t: &Vec<Spanned>, i: usize, w: &str) -> (r: bool)
    ensures
        r == is_word(spanned_views(t@), i as int, w@),
{
    if i >= t.len() {
        return false;
    }
    match &t[i].tok {
        Tok::Ident(s) => str_eq(s.as_str(), w),
        _ => false,
    }
}

} // verus!

verus! {

/// The text of the identifier at `k`, if the token there is one.
fn ident_text(t: &Vec<Spanned>, k: usize) -> (r: Option<String>)
    ensures
        match r {
            Some(n) => tk(spanned_views(t@), k as int) is Ident && n@ == tk(
                spanned_views(t@),
                k as int,
            )->Ident_0,
            None => !(tk(spanned_views(t@), k as int) is Ident),
        },
{
    if k >= t.len() {
        return None;
    }
    match &t[k].tok {
        Tok::Ident(s) => Some(string_of(s.as_str())),
        _ => None,
    }
}

/// The labels, models and conditions of `route` arms.
pub open spec fn labels_v(a: Seq<(String, String, Option<Expr>)>) -> Seq<Seq<char>> {
    Seq::new(a.len(), |i: int| a[i].0@)
}

pub open spec fn models_v(a: Seq<(String, String, Option<Expr>)>) -> Seq<Seq<char>> {
    Seq::new(a.len(), |i: int| a[i].1@)
}

pub open spec fn conds_v(a: Seq<(String, String, Option<Expr>)>) -> Seq<Option<ExprV>> {
    Seq::new(a.len(), |i: int| arm_cond_v(a[i]))
}

/// What a call's argument list gives: positional and keyword arguments.
pub open spec fn args_agree(
    r: Result<((Vec<Expr>, Vec<(String, Expr)>), usize), ParseError>,
    s: PR<(Seq<ExprV>, Seq<Seq<char>>, Seq<ExprV>)>,
    n: nat,
) -> bool {
    match r {
        Ok(((a, kw), k)) => s == PR::Got((views(a@), names_v(kw@), vals_v(kw@)), k as int) && k < n,
        Err(e) => s == PR::<(Seq<ExprV>, Seq<Seq<char>>, Seq<ExprV>)>::Fail(e.msg@, e.at as nat),
    }
}

#[verifier::spinoff_prover]
#[verifier::rlimit(100)]
fn expr_x(t: &Vec<Spanned>, i: usize) -> (r: Result<(Expr, usize), ParseError>)
    requires
        i < t@.len(),
    ensures
        yields(r, p_expr(spanned_views(t@), i as int), t@.len()),
    decreases t@.len() - i, 10int,
{
    merge_x(t, i)
}

#[verifier::spinoff_prover]
#[verifier::rlimit(100)]
fn merge_x(t: &Vec<Spanned>, i: usize) -> (r: Result<(Expr, usize), ParseError>)
    requires
        i < t@.len(),
    ensures
        yields(r, p_merge(spanned_views(t@), i as int), t@.len()),
    decreases t@.len() - i, 9int,
{
    let ghost s = spanned_views(t@);
    let (mut l, mut k) = match or_x(t, i) {
        Ok(p) => p,
        Err(e) => return Err(e),
    };
    if k <= i {
        return Err(stuck_x());
    }
    loop
        invariant
            s == spanned_views(t@),
            i < k < t@.len(),
            merge_loop(s, k as int, l@) == p_merge(s, i as int),
        decreases t@.len() - k,
    {
        if at_x(t, k, K::Bar) && k < t.len() - 1 && is_word_x(t, k + 1, "merge") {
            let k2 = bump_x(t, bump_x(t, k));
            if k2 <= k {
                return Err(stuck_x());
            }
            match or_x(t, k2) {
                Ok((r, k3)) => {
                    if k3 <= k2 {
                        return Err(stuck_x());
                    }
                    l = Expr::Merge { l: Box::new(l), r: Box::new(r) };
                    k = k3;
                },
                Err(e) => return Err(e),
            }
        } else {
            return Ok((l, k));
        }
    }
}

#[verifier::spinoff_prover]
#[verifier::rlimit(100)]
fn or_x(t: &Vec<Spanned>, i: usize) -> (r: Result<(Expr, usize), ParseError>)
    requires
        i < t@.len(),
    ensures
        yields(r, p_or(spanned_views(t@), i as int), t@.len()),
    decreases t@.len() - i, 8int,
{
    match and_x(t, i) {
        Ok((l, k)) => {
            if k <= i {
                return Err(stuck_x());
            }
            or_loop_x(t, k, l)
        },
        Err(e) => Err(e),
    }
}

/// More `|| operand` after `l`, from `k`.
#[verifier::spinoff_prover]
#[verifier::rlimit(100)]
fn or_loop_x(t: &Vec<Spanned>, k: usize, l: Expr) -> (r: Result<(Expr, usize), ParseError>)
    requires
        k < t@.len(),
    ensures
        yields(r, or_loop(spanned_views(t@), k as int, l@), t@.len()),
    decreases t@.len() - k, 0int,
{
    let ghost s = spanned_views(t@);
    if !at_x(t, k, K::Or) {
        assert(or_loop(s, k as int, l@) == PR::Got(l@, k as int));
        return Ok((l, k));
    }
    let k2 = bump_x(t, k);
    if k2 <= k {
        return Err(stuck_x());
    }
    match and_x(t, k2) {
        Ok((r, k3)) => {
            if k3 <= k2 {
                return Err(stuck_x());
            }
            let ghost lv = l@;
            let ghost rv = r@;
            let e = Expr::Binary { op: BinOp::Or, l: Box::new(l), r: Box::new(r) };
            assert(e@ == ExprV::Binary(BinOp::Or, Box::new(lv), Box::new(rv)));
            or_loop_x(t, k3, e)
        },
        Err(e) => {
            Err(e)
        },
    }
}

#[verifier::spinoff_prover]
#[verifier::rlimit(100)]
fn and_x(t: &Vec<Spanned>, i: usize) -> (r: Result<(Expr, usize), ParseError>)
    requires
        i < t@.len(),
    ensures
        yields(r, p_and(spanned_views(t@), i as int), t@.len()),
    decreases t@.len() - i, 7int,
{
    let ghost s = spanned_views(t@);
    let (mut l, mut k) = match rel_x(t, i) {
        Ok(p) => p,
        Err(e) => return Err(e),
    };
    if k <= i {
        return Err(stuck_x());
    }
    loop
        invariant
            s == spanned_views(t@),
            i < k < t@.len(),
            and_loop(s, k as int, l@) == p_and(s, i as int),
        decreases t@.len() - k,
    {
        if at_x(t, k, K::And) {
            let k2 = bump_x(t, k);
            if k2 <= k {
                return Err(stuck_x());
            }
            match rel_x(t, k2) {
                Ok((r, k3)) => {
                    if k3 <= k2 {
                        return Err(stuck_x());
                    }
                    l = Expr::Binary { op: BinOp::And, l: Box::new(l), r: Box::new(r) };
                    k = k3;
                },
                Err(e) => return Err(e),
            }
        } else {
            return Ok((l, k));
        }
    }
}

/// The comparison operator of the token at `k`.
fn rel_op_x(t: &Vec<Spanned>, k: usize) -> (r: Option<BinOp>)
    ensures
        r == rel_op(tk(spanned_views(t@), k as int)),
{
    match kind(t, k) {
        K::EqEq => Some(BinOp::Eq),
        K::NotEq => Some(BinOp::NotEq),
        K::Lt => Some(BinOp::Lt),
        K::LtEq => Some(BinOp::LtEq),
        K::Gt => Some(BinOp::Gt),
        K::GtEq => Some(BinOp::GtEq),
        _ => None,
    }
}

#[verifier::spinoff_prover]
#[verifier::rlimit(100)]
fn rel_x(t: &Vec<Spanned>, i: usize) -> (r: Result<(Expr, usize), ParseError>)
    requires
        i < t@.len(),
    ensures
        yields(r, p_rel(spanned_views(t@), i as int), t@.len()),
    decreases t@.len() - i, 6int,
{
    match add_x(t, i) {
        Ok((l, k)) => {
            if k <= i {
                return Err(stuck_x());
            }
            rel_loop_x(t, k, l)
        },
        Err(e) => Err(e),
    }
}

/// More comparisons (or `zip` operands) after `l`, from `k`.
#[verifier::spinoff_prover]
fn rel_loop_x(t: &Vec<Spanned>, k: usize, l: Expr) -> (r: Result<(Expr, usize), ParseError>)
    requires
        k < t@.len(),
    ensures
        yields(r, rel_loop(spanned_views(t@), k as int, l@), t@.len()),
    decreases t@.len() - k, 0int,
{
    let op = rel_op_x(t, k);
    let zip = is_word_x(t, k, "zip");
    if !(op.is_some() || zip) {
        return Ok((l, k));
    }
    let k2 = bump_x(t, k);
    if k2 <= k {
        return Err(stuck_x());
    }
    match add_x(t, k2) {
        Ok((r, k3)) => {
            if k3 <= k2 {
                return Err(stuck_x());
            }
            let ghost lv = l@;
            let ghost rv = r@;
            let e = match op {
                Some(o) => {
                    let e = Expr::Binary { op: o, l: Box::new(l), r: Box::new(r) };
                    assert(e@ == ExprV::Binary(o, Box::new(lv), Box::new(rv)));
                    e
                },
                None => {
                    let args = vec![l, r];
                    let f = Expr::Ident(string_of("zip"));
                    assert(f@ == ExprV::Ident("zip"@));
                    let e = Expr::Call { func: Box::new(f), args, kwargs: Vec::new() };
                    proof {
                        assert(*e@->Call_0 == ExprV::Ident("zip"@));
                        assert(e@->Call_1 =~= seq![lv, rv]);
                        assert(e@->Call_2 =~= Seq::<Seq<char>>::empty());
                        assert(e@->Call_3 =~= Seq::<ExprV>::empty());
                        assert(e@ == ExprV::Call(
                            Box::new(ExprV::Ident("zip"@)),
                            seq![lv, rv],
                            Seq::empty(),
                            Seq::empty(),
                        ));
                    }
                    e
                },
            };
            rel_loop_x(t, k3, e)
        },
        Err(e) => Err(e),
    }
}

#[verifier::spinoff_prover]
#[verifier::rlimit(100)]
fn add_x(t: &Vec<Spanned>, i: usize) -> (r: Result<(Expr, usize), ParseError>)
    requires
        i < t@.len(),
    ensures
        yields(r, p_add(spanned_views(t@), i as int), t@.len()),
    decreases t@.len() - i, 5int,
{
    let ghost s = spanned_views(t@);
    let (mut l, mut k) = match mul_x(t, i) {
        Ok(p) => p,
        Err(e) => return Err(e),
    };
    if k <= i {
        return Err(stuck_x());
    }
    loop
        invariant
            s == spanned_views(t@),
            i < k < t@.len(),
            add_loop(s, k as int, l@) == p_add(s, i as int),
        decreases t@.len() - k,
    {
        let op = if at_x(t, k, K::Plus) {
            BinOp::Add
        } else if at_x(t, k, K::Minus) {
            BinOp::Sub
        } else {
            return Ok((l, k));
        };
        assert(add_op(tk(s, k as int)) == Some(op));
        let k2 = bump_x(t, k);
        if k2 <= k {
            return Err(stuck_x());
        }
        match mul_x(t, k2) {
            Ok((r, k3)) => {
                if k3 <= k2 {
                    return Err(stuck_x());
                }
                l = Expr::Binary { op, l: Box::new(l), r: Box::new(r) };
                k = k3;
            },
            Err(e) => return Err(e),
        }
    }
}

#[verifier::spinoff_prover]
#[verifier::rlimit(100)]
fn mul_x(t: &Vec<Spanned>, i: usize) -> (r: Result<(Expr, usize), ParseError>)
    requires
        i < t@.len(),
    ensures
        yields(r, p_mul(spanned_views(t@), i as int), t@.len()),
    decreases t@.len() - i, 4int,
{
    let ghost s = spanned_views(t@);
    let (mut l, mut k) = match unary_x(t, i) {
        Ok(p) => p,
        Err(e) => return Err(e),
    };
    if k <= i {
        return Err(stuck_x());
    }
    loop
        invariant
            s == spanned_views(t@),
            i < k < t@.len(),
            mul_loop(s, k as int, l@) == p_mul(s, i as int),
        decreases t@.len() - k,
    {
        let op = if at_x(t, k, K::Star) {
            BinOp::Mul
        } else if at_x(t, k, K::Slash) {
            BinOp::Div
        } else if at_x(t, k, K::Percent) {
            BinOp::Mod
        } else {
            return Ok((l, k));
        };
        assert(mul_op(tk(s, k as int)) == Some(op));
        let k2 = bump_x(t, k);
        if k2 <= k {
            return Err(stuck_x());
        }
        match unary_x(t, k2) {
            Ok((r, k3)) => {
                if k3 <= k2 {
                    return Err(stuck_x());
                }
                l = Expr::Binary { op, l: Box::new(l), r: Box::new(r) };
                k = k3;
            },
            Err(e) => return Err(e),
        }
    }
}

#[verifier::spinoff_prover]
#[verifier::rlimit(100)]
fn unary_x(t: &Vec<Spanned>, i: usize) -> (r: Result<(Expr, usize), ParseError>)
    requires
        i < t@.len(),
    ensures
        yields(r, p_unary(spanned_views(t@), i as int), t@.len()),
    decreases t@.len() - i, 3int,
{
    let minus = at_x(t, i, K::Minus);
    if minus || at_x(t, i, K::Bang) {
        let k = bump_x(t, i);
        if k <= i {
            return Err(stuck_x());
        }
        match unary_x(t, k) {
            Ok((x, k2)) => {
                let op = if minus {
                    BinOp::Sub
                } else {
                    BinOp::Not
                };
                Ok((Expr::Unary { op, x: Box::new(x) }, k2))
            },
            Err(e) => Err(e),
        }
    } else {
        postfix_x(t, i)
    }
}

#[verifier::spinoff_prover]
#[verifier::rlimit(100)]
fn postfix_x(t: &Vec<Spanned>, i: usize) -> (r: Result<(Expr, usize), ParseError>)
    requires
        i < t@.len(),
    ensures
        yields(r, p_postfix(spanned_views(t@), i as int), t@.len()),
    decreases t@.len() - i, 2int,
{
    let ghost s = spanned_views(t@);
    let (mut e, mut k) = match primary_x(t, i) {
        Ok(p) => p,
        Err(err) => return Err(err),
    };
    if k <= i {
        return Err(stuck_x());
    }
    loop
        invariant
            s == spanned_views(t@),
            i < k < t@.len(),
            postfix_loop(s, k as int, e@) == p_postfix(s, i as int),
        decreases t@.len() - k,
    {
        if at_x(t, k, K::Dot) {
            let k2 = bump_x(t, k);
            match ident_x(t, k2) {
                Ok((name, k3)) => {
                    if k3 <= k {
                        return Err(stuck_x());
                    }
                    e = Expr::Field { obj: Box::new(e), name };
                    k = k3;
                },
                Err(err) => return Err(err),
            }
        } else if at_x(t, k, K::LParen) {
            match call_args_x(t, k) {
                Ok(((args, kwargs), k2)) => {
                    if k2 <= k {
                        return Err(stuck_x());
                    }
                    let ghost ev = e@;
                    let ghost av = views(args@);
                    let ghost kn = names_v(kwargs@);
                    let ghost kv = vals_v(kwargs@);
                    e = Expr::Call { func: Box::new(e), args, kwargs };
                    proof {
                        assert(e@->Call_1 =~= av);
                        assert(e@->Call_2 =~= kn);
                        assert(e@->Call_3 =~= kv);
                    }
                    k = k2;
                },
                Err(err) => return Err(err),
            }
        } else {
            return Ok((e, k));
        }
    }
}

#[verifier::spinoff_prover]
#[verifier::rlimit(100)]
fn call_args_x(t: &Vec<Spanned>, i: usize) -> (r: Result<((Vec<Expr>, Vec<(String, Expr)>), usize), ParseError>)
    requires
        i < t@.len(),
    ensures
        args_agree(r, p_call_args(spanned_views(t@), i as int), t@.len()),
    decreases t@.len() - i, 0int,
{
    let ghost s = spanned_views(t@);
    let k0 = match expect_x(t, i, K::LParen, "'('") {
        Ok(k) => k,
        Err(e) => return Err(e),
    };
    if k0 <= i {
        return Err(stuck_x());
    }
    let mut args: Vec<Expr> = Vec::new();
    let mut kwargs: Vec<(String, Expr)> = Vec::new();
    let mut k = k0;
    proof {
        assert(views(args@) =~= Seq::<ExprV>::empty());
        assert(names_v(kwargs@) =~= Seq::<Seq<char>>::empty());
        assert(vals_v(kwargs@) =~= Seq::<ExprV>::empty());
    }
    loop
        invariant
            s == spanned_views(t@),
            i < k < t@.len(),
            args_loop(s, k as int, views(args@), names_v(kwargs@), vals_v(kwargs@)) == p_call_args(
                s,
                i as int,
            ),
        decreases t@.len() - k,
    {
        if at_x(t, k, K::RParen) {
            match expect_x(t, k, K::RParen, "')'") {
                Ok(k2) => return Ok(((args, kwargs), k2)),
                Err(e) => return Err(e),
            }
        }
        let named = ident_text(t, k);
        let is_kw = match &named {
            Some(_) => k < t.len() - 1 && at_x(t, k + 1, K::Assign),
            None => false,
        };
        if is_kw {
            let name = match named {
                Some(n) => n,
                None => return Err(stuck_x()),
            };
            let k2 = bump_x(t, bump_x(t, k));
            if k2 <= k {
                return Err(stuck_x());
            }
            match expr_x(t, k2) {
                Ok((v, k3)) => {
                    if k3 <= k2 {
                        return Err(stuck_x());
                    }
                    let ghost kn = names_v(kwargs@);
                    let ghost kv = vals_v(kwargs@);
                    let ghost nv = name@;
                    let ghost vv = v@;
                    kwargs.push((name, v));
                    proof {
                        assert(names_v(kwargs@) =~= kn.push(nv));
                        assert(vals_v(kwargs@) =~= kv.push(vv));
                    }
                    k = eat_x(t, k3, K::Comma);
                },
                Err(e) => return Err(e),
            }
        } else {
            match expr_x(t, k) {
                Ok((v, k3)) => {
                    if k3 <= k {
                        return Err(stuck_x());
                    }
                    let ghost av = views(args@);
                    let ghost vv = v@;
                    args.push(v);
                    proof {
                        assert(views(args@) =~= av.push(vv));
                    }
                    k = eat_x(t, k3, K::Comma);
                },
                Err(e) => return Err(e),
            }
        }
    }
}

#[verifier::spinoff_prover]
#[verifier::rlimit(100)]
fn primary_x(t: &Vec<Spanned>, i: usize) -> (r: Result<(Expr, usize), ParseError>)
    requires
        i < t@.len(),
    ensures
        yields(r, p_primary(spanned_views(t@), i as int), t@.len()),
    decreases t@.len() - i, 1int,
{
    let ghost s = spanned_views(t@);
    let k = bump_x(t, i);
    if k <= i {
        return match &t[i].tok {
            Tok::Int(_) | Tok::Float(_) | Tok::Str(_) | Tok::Money(_, _) | Tok::True | Tok::False
            | Tok::NoneKw | Tok::State | Tok::Ident(_) | Tok::LBracket | Tok::LParen | Tok::Prompt(_)
            | Tok::Par => Err(stuck_x()),
            _ => Err(found_x(t, i, "unexpected token ")),
        };
    }
    match &t[i].tok {
        Tok::Int(n) => Ok((Expr::Int(*n), k)),
        Tok::Float(x) => Ok((Expr::Float(x.copy()), k)),
        Tok::Str(v) => Ok((Expr::Str(string_of(v.as_str())), k)),
        Tok::Money(x, u) => Ok((Expr::Money(x.copy(), string_of(u.as_str())), k)),
        Tok::True => Ok((Expr::Bool(true), k)),
        Tok::False => Ok((Expr::Bool(false), k)),
        Tok::NoneKw => Ok((Expr::NoneLit, k)),
        Tok::Ident(name) => {
            if str_eq(name.as_str(), "route") && i < t.len() - 1 && at_x(t, i + 1, K::LBrace) {
                proof {
                    reveal_strlit("route");
                }
                route_x(t, bump_x(t, k))
            } else {
                Ok((Expr::Ident(string_of(name.as_str())), k))
            }
        },
        Tok::State => Ok((Expr::Ident(string_of("state")), k)),
        Tok::LBracket => list_x(t, k),
        Tok::LParen => match expr_x(t, k) {
            Ok((e, k2)) => match expect_x(t, k2, K::RParen, "')'") {
                Ok(k3) => Ok((e, k3)),
                Err(err) => Err(err),
            },
            Err(err) => Err(err),
        },
        Tok::Prompt(body) => {
            let found = scan_interpolations(body.as_str());
            let prompt = Expr::Prompt { body: string_of(body.as_str()), interpolations: found };
            proof {
                assert(prompt@->Prompt_1 =~= interps(body@));
            }
            if at_x(t, k, K::With) && k < t.len() - 1 && at_x(t, k + 1, K::LBrace) {
                match expect_x(t, bump_x(t, k), K::LBrace, "'{'") {
                    Ok(k2) => {
                        if k2 <= k {
                            return Err(stuck_x());
                        }
                        with_x(t, k2, prompt)
                    },
                    Err(err) => Err(err),
                }
            } else {
                Ok((prompt, k))
            }
        },
        Tok::Par => par_x(t, k),
        _ => Err(found_x(t, i, "unexpected token ")),
    }
}

/// The elements of a list literal from `k0`, up to its `]`.
#[verifier::spinoff_prover]
#[verifier::rlimit(100)]
fn list_x(t: &Vec<Spanned>, k0: usize) -> (r: Result<(Expr, usize), ParseError>)
    requires
        k0 < t@.len(),
    ensures
        yields(r, list_loop(spanned_views(t@), k0 as int, Seq::empty()), t@.len()),
    decreases t@.len() - k0, 11int,
{
    let ghost s = spanned_views(t@);
    let mut xs: Vec<Expr> = Vec::new();
    let mut k = k0;
    proof {
        assert(views(xs@) =~= Seq::<ExprV>::empty());
    }
    loop
        invariant
            s == spanned_views(t@),
            k0 <= k < t@.len(),
            list_loop(s, k as int, views(xs@)) == list_loop(s, k0 as int, Seq::empty()),
        decreases t@.len() - k,
    {
        if at_x(t, k, K::RBracket) {
            match expect_x(t, k, K::RBracket, "']'") {
                Ok(k2) => {
                    let ghost xv = views(xs@);
                    let e = Expr::ListLit(xs);
                    proof {
                        assert(e@->ListLit_0 =~= xv);
                    }
                    return Ok((e, k2));
                },
                Err(err) => return Err(err),
            }
        }
        match expr_x(t, k) {
            Ok((v, k2)) => {
                if k2 <= k {
                    return Err(stuck_x());
                }
                let ghost xv = views(xs@);
                let ghost vv = v@;
                xs.push(v);
                proof {
                    assert(views(xs@) =~= xv.push(vv));
                }
                k = eat_x(t, k2, K::Comma);
            },
            Err(err) => return Err(err),
        }
    }
}

/// The arms of a `route` block from `k0`, up to its `}`.
#[verifier::spinoff_prover]
#[verifier::rlimit(100)]
fn route_x(t: &Vec<Spanned>, k0: usize) -> (r: Result<(Expr, usize), ParseError>)
    requires
        k0 < t@.len(),
    ensures
        yields(
            r,
            route_loop(spanned_views(t@), k0 as int, Seq::empty(), Seq::empty(), Seq::empty()),
            t@.len(),
        ),
    decreases t@.len() - k0, 0int,
{
    let ghost s = spanned_views(t@);
    let mut arms: Vec<(String, String, Option<Expr>)> = Vec::new();
    let mut k = k0;
    proof {
        assert(labels_v(arms@) =~= Seq::<Seq<char>>::empty());
        assert(models_v(arms@) =~= Seq::<Seq<char>>::empty());
        assert(conds_v(arms@) =~= Seq::<Option<ExprV>>::empty());
    }
    loop
        invariant
            s == spanned_views(t@),
            k0 <= k < t@.len(),
            route_loop(s, k as int, labels_v(arms@), models_v(arms@), conds_v(arms@)) == route_loop(
                s,
                k0 as int,
                Seq::empty(),
                Seq::empty(),
                Seq::empty(),
            ),
        decreases t@.len() - k,
    {
        if at_x(t, k, K::RBrace) {
            match expect_x(t, k, K::RBrace, "'}' after route block") {
                Ok(k2) => {
                    let ghost lv = labels_v(arms@);
                    let ghost mv = models_v(arms@);
                    let ghost cv = conds_v(arms@);
                    let e = Expr::Route { arms };
                    proof {
                        assert(e@->Route_0 =~= lv);
                        assert(e@->Route_1 =~= mv);
                        assert(e@->Route_2 =~= cv);
                    }
                    return Ok((e, k2));
                },
                Err(err) => return Err(err),
            }
        }
        let (label, k1) = match ident_x(t, k) {
            Ok(p) => p,
            Err(err) => return Err(err),
        };
        let k2 = match expect_x(t, k1, K::Colon, "':' in route arm") {
            Ok(j) => j,
            Err(err) => return Err(err),
        };
        let model = match &t[k2].tok {
            Tok::Str(m) => string_of(m.as_str()),
            _ => return Err(found_x(t, k2, "expected model string in route arm, found ")),
        };
        let k3 = bump_x(t, k2);
        let ghost lv = labels_v(arms@);
        let ghost mv = models_v(arms@);
        let ghost cv = conds_v(arms@);
        let ghost la = label@;
        let ghost mo = model@;
        if is_word_x(t, k3, "when") {
            let k4 = bump_x(t, k3);
            if k4 <= k {
                return Err(stuck_x());
            }
            match expr_x(t, k4) {
                Ok((c, k5)) => {
                    if k5 <= k {
                        return Err(stuck_x());
                    }
                    let ghost co = c@;
                    arms.push((label, model, Some(c)));
                    proof {
                        assert(labels_v(arms@) =~= lv.push(la));
                        assert(models_v(arms@) =~= mv.push(mo));
                        assert(conds_v(arms@) =~= cv.push(Some(co)));
                    }
                    k = eat_x(t, k5, K::Comma);
                },
                Err(err) => return Err(err),
            }
        } else if is_word_x(t, k3, "otherwise") {
            let k4 = bump_x(t, k3);
            if k4 <= k {
                return Err(stuck_x());
            }
            arms.push((label, model, None));
            proof {
                assert(labels_v(arms@) =~= lv.push(la));
                assert(models_v(arms@) =~= mv.push(mo));
                assert(conds_v(arms@) =~= cv.push(None));
            }
            k = eat_x(t, k4, K::Comma);
        } else {
            return Err(fail_x(t, k3, "expected `when <cond>` or `otherwise` in route arm"));
        }
    }
}

/// The options of a `with { ... }` block from `k0`, up to its `}`.
#[verifier::spinoff_prover]
#[verifier::rlimit(100)]
fn with_x(t: &Vec<Spanned>, k0: usize, prompt: Expr) -> (r: Result<(Expr, usize), ParseError>)
    requires
        k0 < t@.len(),
    ensures
        yields(
            r,
            with_loop(spanned_views(t@), k0 as int, prompt@, Seq::empty(), Seq::empty(), false),
            t@.len(),
        ),
    decreases t@.len() - k0, 0int,
{
    let ghost s = spanned_views(t@);
    let ghost pv = prompt@;
    let mut options: Vec<(String, Expr)> = Vec::new();
    let mut repair = false;
    let mut k = k0;
    proof {
        assert(names_v(options@) =~= Seq::<Seq<char>>::empty());
        assert(vals_v(options@) =~= Seq::<ExprV>::empty());
    }
    loop
        invariant
            s == spanned_views(t@),
            pv == prompt@,
            k0 <= k < t@.len(),
            with_loop(s, k as int, pv, names_v(options@), vals_v(options@), repair) == with_loop(
                s,
                k0 as int,
                pv,
                Seq::empty(),
                Seq::empty(),
                false,
            ),
        decreases t@.len() - k,
    {
        if at_x(t, k, K::RBrace) {
            match expect_x(t, k, K::RBrace, "'}'") {
                Ok(k2) => {
                    let ghost kn = names_v(options@);
                    let ghost kv = vals_v(options@);
                    let e = Expr::LlmCall { prompt: Box::new(prompt), options, repair };
                    proof {
                        assert(e@->LlmCall_1 =~= kn);
                        assert(e@->LlmCall_2 =~= kv);
                    }
                    return Ok((e, k2));
                },
                Err(err) => return Err(err),
            }
        }
        let (key, k1) = match ident_x(t, k) {
            Ok(p) => p,
            Err(err) => return Err(err),
        };
        let k2 = match expect_x(t, k1, K::Colon, "':' in with-block") {
            Ok(j) => j,
            Err(err) => return Err(err),
        };
        if k2 <= k {
            return Err(stuck_x());
        }
        let (v, k3) = match expr_x(t, k2) {
            Ok(p) => p,
            Err(err) => return Err(err),
        };
        if k3 <= k {
            return Err(stuck_x());
        }
        let rep = at_x(t, k3, K::With) && k3 < t.len() - 1 && is_word_x(t, k3 + 1, "repair");
        let k4 = if rep {
            bump_x(t, bump_x(t, k3))
        } else {
            k3
        };
        let ghost kn = names_v(options@);
        let ghost kv = vals_v(options@);
        let ghost kk = key@;
        let ghost vv = v@;
        options.push((key, v));
        proof {
            assert(names_v(options@) =~= kn.push(kk));
            assert(vals_v(options@) =~= kv.push(vv));
        }
        repair = repair || rep;
        k = eat_x(t, k4, K::Comma);
    }
}

/// After `par` (at `k`): `map`, `all` or `race`.
#[verifier::spinoff_prover]
#[verifier::rlimit(100)]
fn par_x(t: &Vec<Spanned>, k: usize) -> (r: Result<(Expr, usize), ParseError>)
    requires
        0 < k < t@.len(),
    ensures
        yields(r, p_par(spanned_views(t@), k as int), t@.len()),
    decreases t@.len() - k, 1int,
{
    let ghost s = spanned_views(t@);
    let k1 = bump_x(t, k);
    if at_x(t, k, K::MapKw) {
            if k1 <= k {
                return Err(stuck_x());
            }
            if at_x(t, k1, K::LParen) {
                match call_args_x(t, k1) {
                    Ok(((args, kwargs), k2)) => {
                        if args.len() != 1 {
                            return Err(fail_x(t, k2, "par map takes exactly one positional collection"));
                        }
                        if k2 <= k1 {
                            return Err(stuck_x());
                        }
                        let ghost av = views(args@);
                        let mut args = args;
                        let coll = match args.pop() {
                            Some(c) => c,
                            None => return Err(stuck_x()),
                        };
                        assert(coll@ == av[0]);
                        par_map_tail_x(t, k2, coll, kwargs)
                    },
                    Err(err) => Err(err),
                }
            } else {
                match add_x(t, k1) {
                    Ok((coll, k2)) => {
                        if k2 <= k1 {
                            return Err(stuck_x());
                        }
                        let kwargs: Vec<(String, Expr)> = Vec::new();
                        proof {
                            assert(names_v(kwargs@) =~= Seq::<Seq<char>>::empty());
                            assert(vals_v(kwargs@) =~= Seq::<ExprV>::empty());
                        }
                        par_map_tail_x(t, k2, coll, kwargs)
                    },
                    Err(err) => Err(err),
                }
            }
    } else if at_x(t, k, K::All) {
            if k1 <= k {
                return Err(stuck_x());
            }
            match call_args_x(t, k1) {
                Ok(((args, _), k2)) => {
                    let ghost av = views(args@);
                    let e = Expr::ParAll(args);
                    proof {
                        assert(e@->ParAll_0 =~= av);
                    }
                    Ok((e, k2))
                },
                Err(err) => Err(err),
            }
    } else if at_x(t, k, K::Race) {
            if k1 <= k {
                return Err(stuck_x());
            }
            match primary_x(t, k1) {
                Ok((e, k2)) => match e {
                    Expr::ListLit(xs) => {
                        let r = Expr::ParRace(xs);
                        proof {
                            assert(r@->ParRace_0 =~= views(xs@));
                        }
                        Ok((r, k2))
                    },
                    _ => Err(fail_x(t, k2, "par race expects a list of callables")),
                },
                Err(err) => Err(err),
            }
    } else {
        Err(found_x(t, k, "expected map/all/race after par, found "))
    }
}

/// The lambda of a `par map` at `k`, after its collection.
#[verifier::spinoff_prover]
#[verifier::rlimit(100)]
fn par_map_tail_x(t: &Vec<Spanned>, k: usize, coll: Expr, kwargs: Vec<(String, Expr)>) -> (r: Result<
    (Expr, usize),
    ParseError,
>)
    requires
        k < t@.len(),
    ensures
        yields(
            r,
            par_map_tail(spanned_views(t@), k as int, coll@, names_v(kwargs@), vals_v(kwargs@)),
            t@.len(),
        ),
    decreases t@.len() - k, 0int,
{
    let k1 = match expect_x(t, k, K::Bar, "'|' to start lambda parameters") {
        Ok(j) => j,
        Err(err) => return Err(err),
    };
    let ps = if at_x(t, k1, K::LParen) {
        lambda_params_x(t, bump_x(t, k1))
    } else {
        match ident_x(t, k1) {
            Ok((p, k2)) => {
                let v = vec![p];
                proof {
                    assert(views(v@) =~= seq![p@]);
                }
                Ok((v, k2))
            },
            Err(err) => Err(err),
        }
    };
    let (params, k2) = match ps {
        Ok(p) => p,
        Err(err) => return Err(err),
    };
    let k3 = match expect_x(t, k2, K::Bar, "closing '|'") {
        Ok(j) => j,
        Err(err) => return Err(err),
    };
    let k4 = match expect_x(t, k3, K::Arrow, "'->' before lambda body") {
        Ok(j) => j,
        Err(err) => return Err(err),
    };
    if k4 <= k {
        return Err(stuck_x());
    }
    match expr_x(t, k4) {
        Ok((body, k5)) => {
            let ghost cv = coll@;
            let ghost kn = names_v(kwargs@);
            let ghost kv = vals_v(kwargs@);
            let ghost pv = views(params@);
            let ghost bv = body@;
            let e = Expr::ParMap { coll: Box::new(coll), kwargs, params, body: Box::new(body) };
            proof {
                assert(e@->ParMap_1 =~= kn);
                assert(e@->ParMap_2 =~= kv);
                assert(e@->ParMap_3 =~= pv);
            }
            Ok((e, k5))
        },
        Err(err) => Err(err),
    }
}

/// Parenthesized lambda parameters from `k0`, up to the `)`.
#[verifier::spinoff_prover]
#[verifier::rlimit(100)]
fn lambda_params_x(t: &Vec<Spanned>, k0: usize) -> (r: Result<(Vec<String>, usize), ParseError>)
    requires
        k0 < t@.len(),
    ensures
        yields_all(r, lambda_params(spanned_views(t@), k0 as int, Seq::empty()), t@.len()),
{
    let ghost s = spanned_views(t@);
    let mut ps: Vec<String> = Vec::new();
    let mut k = k0;
    proof {
        assert(views(ps@) =~= Seq::<Seq<char>>::empty());
    }
    loop
        invariant
            s == spanned_views(t@),
            k0 <= k < t@.len(),
            lambda_params(s, k as int, views(ps@)) == lambda_params(s, k0 as int, Seq::empty()),
        decreases t@.len() - k,
    {
        if at_x(t, k, K::RParen) {
            match expect_x(t, k, K::RParen, "')'") {
                Ok(k2) => return Ok((ps, k2)),
                Err(err) => return Err(err),
            }
        }
        match ident_x(t, k) {
            Ok((p, k2)) => {
                if k2 <= k {
                    return Err(stuck_x());
                }
                let ghost pv = views(ps@);
                let ghost x = p@;
                ps.push(p);
                proof {
                    assert(views(ps@) =~= pv.push(x));
                }
                k = eat_x(t, k2, K::Comma);
            },
            Err(err) => return Err(err),
        }
    }
}

} // verus!

verus! {

/// The types of `name: T` pairs.
pub open spec fn tys_v(s: Seq<(String, TypeExpr)>) -> Seq<TypeExprV> {
    Seq::new(s.len(), |i: int| s[i].1@)
}

#[verifier::spinoff_prover]
fn type_x(t: &Vec<Spanned>, i: usize) -> (r: Result<(TypeExpr, usize), ParseError>)
    requires
        i < t@.len(),
    ensures
        yields(r, p_type(spanned_views(t@), i as int), t@.len()),
    decreases t@.len() - i, 1int,
{
    let ghost s = spanned_views(t@);
    let k = bump_x(t, i);
    let base: Result<(TypeExpr, usize), ParseError> = match &t[i].tok {
        Tok::Ident(name) => Ok((TypeExpr::Named(string_of(name.as_str())), k)),
        Tok::LBracket => {
            if k <= i {
                Err(stuck_x())
            } else {
                match type_x(t, k) {
                    Ok((inner, k2)) => match expect_x(t, k2, K::RBracket, "']' in list type") {
                        Ok(k3) => Ok((TypeExpr::List(Box::new(inner)), k3)),
                        Err(e) => Err(e),
                    },
                    Err(e) => Err(e),
                }
            }
        },
        Tok::LBrace => {
            if k <= i {
                Err(stuck_x())
            } else {
                record_x(t, k)
            }
        },
        Tok::LParen => match expect_x(t, k, K::RParen, "unit type '()'") {
            Ok(k2) => Ok((TypeExpr::Named(string_of("()")), k2)),
            Err(e) => Err(e),
        },
        _ => Err(found_x(t, i, "expected type, found ")),
    };
    let (ty, k2) = match base {
        Ok(p) => p,
        Err(e) => return Err(e),
    };
    if !at_x(t, k2, K::At) {
        return Ok((ty, k2));
    }
    let (rname, k3) = match ident_x(t, bump_x(t, k2)) {
        Ok(p) => p,
        Err(e) => return Err(e),
    };
    let k4 = match expect_x(t, k3, K::LParen, "'(' after refinement name") {
        Ok(j) => j,
        Err(e) => return Err(e),
    };
    match refine_x(t, k4) {
        Ok((args, k5)) => {
            let ghost tv = ty@;
            let ghost av = views(args@);
            let r = TypeExpr::Refine(Box::new(ty), rname, args);
            proof {
                assert(r@->Refine_2 =~= av);
            }
            Ok((r, k5))
        },
        Err(e) => Err(e),
    }
}

/// The fields of a record type from `k0`, up to its `}`.
#[verifier::spinoff_prover]
fn record_x(t: &Vec<Spanned>, k0: usize) -> (r: Result<(TypeExpr, usize), ParseError>)
    requires
        k0 < t@.len(),
    ensures
        yields(r, record_loop(spanned_views(t@), k0 as int, Seq::empty(), Seq::empty()), t@.len()),
    decreases t@.len() - k0, 0int,
{
    let ghost s = spanned_views(t@);
    let mut fields: Vec<(String, TypeExpr)> = Vec::new();
    let mut k = k0;
    proof {
        assert(names_v(fields@) =~= Seq::<Seq<char>>::empty());
        assert(tys_v(fields@) =~= Seq::<TypeExprV>::empty());
    }
    loop
        invariant
            s == spanned_views(t@),
            k0 <= k < t@.len(),
            record_loop(s, k as int, names_v(fields@), tys_v(fields@)) == record_loop(
                s,
                k0 as int,
                Seq::empty(),
                Seq::empty(),
            ),
        decreases t@.len() - k,
    {
        if at_x(t, k, K::RBrace) {
            match expect_x(t, k, K::RBrace, "'}' in record type") {
                Ok(k2) => {
                    let ghost nv = names_v(fields@);
                    let ghost tv = tys_v(fields@);
                    let r = TypeExpr::Record(fields);
                    proof {
                        assert(r@->Record_0 =~= nv);
                        assert(r@->Record_1 =~= tv);
                    }
                    return Ok((r, k2));
                },
                Err(e) => return Err(e),
            }
        }
        let (name, k1) = match ident_x(t, k) {
            Ok(p) => p,
            Err(e) => return Err(e),
        };
        let k2 = match expect_x(t, k1, K::Colon, "':' in record type") {
            Ok(j) => j,
            Err(e) => return Err(e),
        };
        if k2 <= k {
            return Err(stuck_x());
        }
        match type_x(t, k2) {
            Ok((ty, k3)) => {
                if k3 <= k {
                    return Err(stuck_x());
                }
                let ghost nv = names_v(fields@);
                let ghost tv = tys_v(fields@);
                let ghost n = name@;
                let ghost y = ty@;
                fields.push((name, ty));
                proof {
                    assert(names_v(fields@) =~= nv.push(n));
                    assert(tys_v(fields@) =~= tv.push(y));
                }
                k = eat_x(t, k3, K::Comma);
            },
            Err(e) => return Err(e),
        }
    }
}

/// The arguments of a refinement from `k0`, up to the `)`.
#[verifier::spinoff_prover]
fn refine_x(t: &Vec<Spanned>, k0: usize) -> (r: Result<(Vec<Expr>, usize), ParseError>)
    requires
        k0 < t@.len(),
    ensures
        yields_all(r, refine_args(spanned_views(t@), k0 as int, Seq::empty()), t@.len()),
{
    let ghost s = spanned_views(t@);
    let mut args: Vec<Expr> = Vec::new();
    let mut k = k0;
    proof {
        assert(views(args@) =~= Seq::<ExprV>::empty());
    }
    loop
        invariant
            s == spanned_views(t@),
            k0 <= k < t@.len(),
            refine_args(s, k as int, views(args@)) == refine_args(s, k0 as int, Seq::empty()),
        decreases t@.len() - k,
    {
        if at_x(t, k, K::RParen) {
            match expect_x(t, k, K::RParen, "')'") {
                Ok(k2) => return Ok((args, k2)),
                Err(e) => return Err(e),
            }
        }
        match expr_x(t, k) {
            Ok((v, k2)) => {
                if k2 <= k {
                    return Err(stuck_x());
                }
                let ghost av = views(args@);
                let ghost vv = v@;
                args.push(v);
                proof {
                    assert(views(args@) =~= av.push(vv));
                }
                k = eat_x(t, k2, K::Comma);
            },
            Err(e) => return Err(e),
        }
    }
}

} // verus!

verus! {

/// A statement of kind `kind` spanning from `start` to the end of the
/// token before `j`.
fn spanned_x(t: &Vec<Spanned>, start: usize, j: usize, kind: StmtKind) -> (r: Stmt)
    requires
        j < t@.len(),
    ensures
        r@ == spanned(spanned_views(t@), start as nat, j as int, kind@),
{
    let end = if j == 0 {
        start
    } else {
        t[j - 1].end
    };
    Stmt { kind, span: Span { start, end: if end >= start { end } else { start } } }
}

/// `let name[: T] = value` from `i` (just after `let`).
#[verifier::spinoff_prover]
fn let_tail_x(t: &Vec<Spanned>, i: usize, start: usize, stream: bool) -> (r: Result<(Stmt, usize), ParseError>)
    requires
        i < t@.len(),
    ensures
        yields(r, let_tail(spanned_views(t@), i as int, start as nat, stream), t@.len()),
{
    proof {
        reveal(let_tail);
    }
    let (name, k1) = match ident_x(t, i) {
        Ok(p) => p,
        Err(e) => return Err(e),
    };
    let (ty, k2) = if at_x(t, k1, K::Colon) {
        match type_x(t, bump_x(t, k1)) {
            Ok((ty, k2)) => (Some(ty), k2),
            Err(e) => return Err(e),
        }
    } else {
        (None, k1)
    };
    let what = if stream {
        "'=' in stream let binding"
    } else {
        "'=' in let binding"
    };
    let k3 = match expect_x(t, k2, K::Assign, what) {
        Ok(j) => j,
        Err(e) => return Err(e),
    };
    match expr_x(t, k3) {
        Ok((value, k4)) => {
            let kind = StmtKind::Let { name, ty, value, stream };
            Ok((spanned_x(t, start, k4, kind), k4))
        },
        Err(e) => Err(e),
    }
}

/// A state write `state.field op value` is next.
fn state_write_ahead_x(t: &Vec<Spanned>, i: usize) -> (r: bool)
    requires
        i < t@.len(),
    ensures
        r == state_write_ahead(spanned_views(t@), i as int),
{
    if !(at_x(t, i, K::State) && t.len() - i > 3 && at_x(t, i + 1, K::Dot)) {
        return false;
    }
    let named = match &t[i + 2].tok {
        Tok::Ident(_) => true,
        _ => false,
    };
    named && (at_x(t, i + 3, K::Assign) || at_x(t, i + 3, K::PlusEq) || at_x(t, i + 3, K::MinusEq))
}

/// A statement at `i`.
#[verifier::spinoff_prover]
fn stmt_x(t: &Vec<Spanned>, i: usize) -> (r: Result<(Stmt, usize), ParseError>)
    requires
        i < t@.len(),
    ensures
        yields(r, p_stmt(spanned_views(t@), i as int), t@.len()),
{
    proof {
        reveal(p_stmt);
    }
    let start = t[i].start;
    if at_x(t, i, K::Let) {
        return let_tail_x(t, bump_x(t, i), start, false);
    }
    if is_word_x(t, i, "stream") && i < t.len() - 1 && at_x(t, i + 1, K::Let) {
        return let_tail_x(t, bump_x(t, bump_x(t, i)), start, true);
    }
    if at_x(t, i, K::Assert) {
        return match expr_x(t, bump_x(t, i)) {
            Ok((e, k)) => Ok((spanned_x(t, start, k, StmtKind::Assert(e)), k)),
            Err(e) => Err(e),
        };
    }
    if state_write_ahead_x(t, i) {
        let (field, k1) = match ident_x(t, bump_x(t, bump_x(t, i))) {
            Ok(p) => p,
            Err(e) => return Err(e),
        };
        let (op, k2) = if at_x(t, k1, K::PlusEq) {
            (StateOp::Add, bump_x(t, k1))
        } else if at_x(t, k1, K::MinusEq) {
            (StateOp::Sub, bump_x(t, k1))
        } else {
            match expect_x(t, k1, K::Assign, "'=', '+=' or '-=' in state write") {
                Ok(j) => (StateOp::Assign, j),
                Err(e) => return Err(e),
            }
        };
        return match expr_x(t, k2) {
            Ok((value, k3)) => Ok(
                (spanned_x(t, start, k3, StmtKind::StateWrite { field, op, value }), k3),
            ),
            Err(e) => Err(e),
        };
    }
    match expr_x(t, i) {
        Ok((e, k)) => Ok((spanned_x(t, start, k, StmtKind::ExprStmt(e)), k)),
        Err(e) => Err(e),
    }
}

/// A block `{ stmt* }` at `i`.
#[verifier::spinoff_prover]
fn block_x(t: &Vec<Spanned>, i: usize) -> (r: Result<(Vec<Stmt>, usize), ParseError>)
    requires
        i < t@.len(),
    ensures
        yields_all(r, p_block(spanned_views(t@), i as int), t@.len()),
{
    proof {
        reveal(p_block);
    }
    let ghost s = spanned_views(t@);
    let k0 = match expect_x(t, i, K::LBrace, "'{'") {
        Ok(j) => j,
        Err(e) => return Err(e),
    };
    let mut ss: Vec<Stmt> = Vec::new();
    let mut k = k0;
    proof {
        assert(views(ss@) =~= Seq::<StmtV>::empty());
    }
    loop
        invariant
            s == spanned_views(t@),
            k < t@.len(),
            block_loop(s, k as int, views(ss@)) == p_block(s, i as int),
        decreases t@.len() - k,
    {
        if at_x(t, k, K::RBrace) {
            match expect_x(t, k, K::RBrace, "'}'") {
                Ok(k2) => return Ok((ss, k2)),
                Err(e) => return Err(e),
            }
        }
        if at_x(t, k, K::Eof) {
            return Err(fail_x(t, k, "unexpected end of file inside block"));
        }
        match stmt_x(t, k) {
            Ok((st, k2)) => {
                if k2 <= k {
                    return Err(stuck_x());
                }
                let ghost sv = views(ss@);
                let ghost x = st@;
                ss.push(st);
                proof {
                    assert(views(ss@) =~= sv.push(x));
                }
                k = k2;
            },
            Err(e) => return Err(e),
        }
    }
}

} // verus!

verus! {

/// Parameters `(name: T, ...)` at `i`.
#[verifier::spinoff_prover]
fn params_x(t: &Vec<Spanned>, i: usize) -> (r: Result<(Vec<Param>, usize), ParseError>)
    requires
        i < t@.len(),
    ensures
        yields_all(r, p_params(spanned_views(t@), i as int), t@.len()),
{
    proof {
        reveal(p_params);
    }
    let ghost s = spanned_views(t@);
    let k0 = match expect_x(t, i, K::LParen, "'('") {
        Ok(j) => j,
        Err(e) => return Err(e),
    };
    let mut ps: Vec<Param> = Vec::new();
    let mut k = k0;
    proof {
        assert(views(ps@) =~= Seq::<ParamV>::empty());
    }
    loop
        invariant
            s == spanned_views(t@),
            k < t@.len(),
            params_loop(s, k as int, views(ps@)) == p_params(s, i as int),
        decreases t@.len() - k,
    {
        if at_x(t, k, K::RParen) {
            match expect_x(t, k, K::RParen, "')'") {
                Ok(k2) => return Ok((ps, k2)),
                Err(e) => return Err(e),
            }
        }
        let (name, k1) = match ident_x(t, k) {
            Ok(p) => p,
            Err(e) => return Err(e),
        };
        let k2 = match expect_x(t, k1, K::Colon, "':' after parameter name") {
            Ok(j) => j,
            Err(e) => return Err(e),
        };
        match type_x(t, k2) {
            Ok((ty, k3)) => {
                if k3 <= k {
                    return Err(stuck_x());
                }
                let ghost pv = views(ps@);
                let p = Param { name, ty };
                let ghost x = p@;
                ps.push(p);
                proof {
                    assert(views(ps@) =~= pv.push(x));
                }
                k = eat_x(t, k3, K::Comma);
            },
            Err(e) => return Err(e),
        }
    }
}

/// `uses A, B, ...` at `i`, or nothing.
#[verifier::spinoff_prover]
fn effects_x(t: &Vec<Spanned>, i: usize) -> (r: Result<(Vec<String>, usize), ParseError>)
    requires
        i < t@.len(),
    ensures
        yields_all(r, p_effects(spanned_views(t@), i as int), t@.len()),
{
    proof {
        reveal(p_effects);
    }
    let ghost s = spanned_views(t@);
    let mut es: Vec<String> = Vec::new();
    proof {
        assert(views(es@) =~= Seq::<Seq<char>>::empty());
    }
    if !at_x(t, i, K::Uses) {
        return Ok((es, i));
    }
    let mut k = bump_x(t, i);
    loop
        invariant
            s == spanned_views(t@),
            k < t@.len(),
            effects_loop(s, k as int, views(es@)) == p_effects(s, i as int),
        decreases t@.len() - k,
    {
        let (e, k1) = match ident_x(t, k) {
            Ok(p) => p,
            Err(err) => return Err(err),
        };
        let ghost ev = views(es@);
        let ghost x = e@;
        es.push(e);
        proof {
            assert(views(es@) =~= ev.push(x));
        }
        if !at_x(t, k1, K::Comma) {
            return Ok((es, k1));
        }
        let k2 = bump_x(t, k1);
        if k2 <= k {
            return Err(stuck_x());
        }
        k = k2;
    }
}

/// `fn name(params) -> T [uses ...] { ... }` at `i`.
#[verifier::spinoff_prover]
fn fn_x(t: &Vec<Spanned>, i: usize) -> (r: Result<(Item, usize), ParseError>)
    requires
        i < t@.len(),
    ensures
        yields(r, p_fn(spanned_views(t@), i as int), t@.len()),
{
    proof {
        reveal(p_fn);
    }
    let (name, k1) = match ident_x(t, bump_x(t, i)) {
        Ok(p) => p,
        Err(e) => return Err(e),
    };
    let (params, k2) = match params_x(t, k1) {
        Ok(p) => p,
        Err(e) => return Err(e),
    };
    let k3 = match expect_x(t, k2, K::Arrow, "'->' before return type") {
        Ok(j) => j,
        Err(e) => return Err(e),
    };
    let (ret, k4) = match type_x(t, k3) {
        Ok(p) => p,
        Err(e) => return Err(e),
    };
    let (effects, k5) = match effects_x(t, k4) {
        Ok(p) => p,
        Err(e) => return Err(e),
    };
    match block_x(t, k5) {
        Ok((body, k6)) => {
            let ghost pv = views(params@);
            let ghost ev = views(effects@);
            let ghost bv = views(body@);
            let it = Item::Fn { name, params, ret, effects, body };
            proof {
                assert(it@->Fn_1 =~= pv);
                assert(it@->Fn_3 =~= ev);
                assert(it@->Fn_4 =~= bv);
            }
            Ok((it, k6))
        },
        Err(e) => Err(e),
    }
}

/// One field `name: value` of a tool body at `k`.
#[verifier::spinoff_prover]
fn tool_field_x(t: &Vec<Spanned>, k: usize) -> (r: Result<((String, Expr), usize), ParseError>)
    requires
        k < t@.len(),
    ensures
        match r {
            Ok(((n, v), j)) => tool_field(spanned_views(t@), k as int) == PR::Got((n@, v@), j as int)
                && j < t@.len(),
            Err(e) => tool_field(spanned_views(t@), k as int) == PR::<(Seq<char>, ExprV)>::Fail(
                e.msg@,
                e.at as nat,
            ),
        },
{
    proof {
        reveal(tool_field);
    }
    let (name, k1) = match ident_x(t, k) {
        Ok(p) => p,
        Err(e) => return Err(e),
    };
    let k2 = match expect_x(t, k1, K::Colon, "':' in tool field") {
        Ok(j) => j,
        Err(e) => return Err(e),
    };
    match expr_x(t, k2) {
        Ok((v, k3)) => Ok(((name, v), k3)),
        Err(e) => Err(e),
    }
}

/// One field `name: T = default` of a state block at `k`.
#[verifier::spinoff_prover]
fn state_field_x(t: &Vec<Spanned>, k: usize) -> (r: Result<((String, TypeExpr, Expr), usize), ParseError>)
    requires
        k < t@.len(),
    ensures
        match r {
            Ok(((n, y, d), j)) => state_field(spanned_views(t@), k as int) == PR::Got(
                (n@, y@, d@),
                j as int,
            ) && j < t@.len(),
            Err(e) => state_field(spanned_views(t@), k as int) == PR::<
                (Seq<char>, TypeExprV, ExprV),
            >::Fail(e.msg@, e.at as nat),
        },
{
    proof {
        reveal(state_field);
    }
    let (name, k1) = match ident_x(t, k) {
        Ok(p) => p,
        Err(e) => return Err(e),
    };
    let k2 = match expect_x(t, k1, K::Colon, "':' in state field") {
        Ok(j) => j,
        Err(e) => return Err(e),
    };
    let (ty, k3) = match type_x(t, k2) {
        Ok(p) => p,
        Err(e) => return Err(e),
    };
    let k4 = match expect_x(t, k3, K::Assign, "'=' before state default") {
        Ok(j) => j,
        Err(e) => return Err(e),
    };
    match expr_x(t, k4) {
        Ok((d, k5)) => Ok(((name, ty, d), k5)),
        Err(e) => Err(e),
    }
}

/// `tool name(params) -> T { field: value ... }` at `i`.
#[verifier::spinoff_prover]
fn tool_x(t: &Vec<Spanned>, i: usize) -> (r: Result<(Item, usize), ParseError>)
    requires
        i < t@.len(),
    ensures
        yields(r, p_tool(spanned_views(t@), i as int), t@.len()),
{
    proof {
        reveal(p_tool);
    }
    let ghost s = spanned_views(t@);
    let (name, k1) = match ident_x(t, bump_x(t, i)) {
        Ok(p) => p,
        Err(e) => return Err(e),
    };
    let (params, k2) = match params_x(t, k1) {
        Ok(p) => p,
        Err(e) => return Err(e),
    };
    let k3 = match expect_x(t, k2, K::Arrow, "'->' before return type") {
        Ok(j) => j,
        Err(e) => return Err(e),
    };
    let (ret, k4) = match type_x(t, k3) {
        Ok(p) => p,
        Err(e) => return Err(e),
    };
    let k5 = match expect_x(t, k4, K::LBrace, "'{' before tool body") {
        Ok(j) => j,
        Err(e) => return Err(e),
    };
    match tool_fields_x(t, k5) {
        Ok((fields, k6)) => {
            let ghost pv = views(params@);
            let ghost nv = names_v(fields@);
            let ghost vv = vals_v(fields@);
            let it = Item::Tool { name, params, ret, fields };
            proof {
                assert(it@->Tool_1 =~= pv);
                assert(it@->Tool_3 =~= nv);
                assert(it@->Tool_4 =~= vv);
            }
            Ok((it, k6))
        },
        Err(e) => Err(e),
    }
}

/// The fields of a tool body from `k0`, up to its `}`.
#[verifier::spinoff_prover]
fn tool_fields_x(t: &Vec<Spanned>, k0: usize) -> (r: Result<(Vec<(String, Expr)>, usize), ParseError>)
    requires
        k0 < t@.len(),
    ensures
        match r {
            Ok((f, j)) => tool_loop(spanned_views(t@), k0 as int, Seq::empty(), Seq::empty())
                == PR::Got((names_v(f@), vals_v(f@)), j as int) && j < t@.len(),
            Err(e) => tool_loop(spanned_views(t@), k0 as int, Seq::empty(), Seq::empty()) == PR::<
                (Seq<Seq<char>>, Seq<ExprV>),
            >::Fail(e.msg@, e.at as nat),
        },
{
    let ghost s = spanned_views(t@);
    let mut fields: Vec<(String, Expr)> = Vec::new();
    let mut k = k0;
    proof {
        assert(names_v(fields@) =~= Seq::<Seq<char>>::empty());
        assert(vals_v(fields@) =~= Seq::<ExprV>::empty());
    }
    loop
        invariant
            s == spanned_views(t@),
            k < t@.len(),
            tool_loop(s, k as int, names_v(fields@), vals_v(fields@)) == tool_loop(
                s,
                k0 as int,
                Seq::empty(),
                Seq::empty(),
            ),
        decreases t@.len() - k,
    {
        if at_x(t, k, K::RBrace) {
            return match expect_x(t, k, K::RBrace, "'}'") {
                Ok(k2) => Ok((fields, k2)),
                Err(e) => Err(e),
            };
        }
        match tool_field_x(t, k) {
            Ok(((fname, v), k3)) => {
                if k3 <= k {
                    return Err(stuck_x());
                }
                let ghost nv = names_v(fields@);
                let ghost vv = vals_v(fields@);
                let ghost n = fname@;
                let ghost x = v@;
                fields.push((fname, v));
                proof {
                    assert(names_v(fields@) =~= nv.push(n));
                    assert(vals_v(fields@) =~= vv.push(x));
                }
                k = eat_x(t, k3, K::Comma);
            },
            Err(e) => return Err(e),
        }
    }
}

/// `test "name" { ... }` at `i`.
#[verifier::spinoff_prover]
fn test_x(t: &Vec<Spanned>, i: usize) -> (r: Result<(Item, usize), ParseError>)
    requires
        i < t@.len(),
    ensures
        yields(r, p_test(spanned_views(t@), i as int), t@.len()),
{
    proof {
        reveal(p_test);
    }
    let k = bump_x(t, i);
    let name = match &t[k].tok {
        Tok::Str(v) => string_of(v.as_str()),
        _ => return Err(found_x(t, k, "expected test name string, found ")),
    };
    match block_x(t, bump_x(t, k)) {
        Ok((body, k2)) => {
            let ghost bv = views(body@);
            let it = Item::Test { name, body };
            proof {
                assert(it@->Test_1 =~= bv);
            }
            Ok((it, k2))
        },
        Err(e) => Err(e),
    }
}

/// `type Name = T` at `i`.
#[verifier::spinoff_prover]
fn type_alias_x(t: &Vec<Spanned>, i: usize) -> (r: Result<(Item, usize), ParseError>)
    requires
        i < t@.len(),
    ensures
        yields(r, p_type_alias(spanned_views(t@), i as int), t@.len()),
{
    proof {
        reveal(p_type_alias);
    }
    let (name, k1) = match ident_x(t, bump_x(t, i)) {
        Ok(p) => p,
        Err(e) => return Err(e),
    };
    let k2 = match expect_x(t, k1, K::Assign, "'=' in type alias") {
        Ok(j) => j,
        Err(e) => return Err(e),
    };
    match type_x(t, k2) {
        Ok((ty, k3)) => Ok((Item::TypeAlias { name, ty }, k3)),
        Err(e) => Err(e),
    }
}

/// The view of an agent's state fields.
pub open spec fn state_v(st: Seq<(String, TypeExpr, Expr)>) -> AgentState {
    AgentState {
        names: Seq::new(st.len(), |i: int| st[i].0@),
        tys: Seq::new(st.len(), |i: int| st[i].1@),
        defaults: Seq::new(st.len(), |i: int| st[i].2@),
    }
}

/// The fields of a `state { ... }` block from `k0` up to its `}`, added
/// to `st`.
#[verifier::spinoff_prover]
fn state_x(t: &Vec<Spanned>, k0: usize, st: &mut Vec<(String, TypeExpr, Expr)>) -> (r: Result<usize, ParseError>)
    requires
        k0 < t@.len(),
    ensures
        match r {
            Ok(k) => state_loop(spanned_views(t@), k0 as int, state_v(old(st)@)) == PR::Got(
                state_v(final(st)@),
                k as int,
            ) && k < t@.len(),
            Err(e) => state_loop(spanned_views(t@), k0 as int, state_v(old(st)@)) == PR::<
                AgentState,
            >::Fail(e.msg@, e.at as nat),
        },
{
    let ghost s = spanned_views(t@);
    let mut k = k0;
    loop
        invariant
            s == spanned_views(t@),
            k < t@.len(),
            state_loop(s, k as int, state_v(st@)) == state_loop(s, k0 as int, state_v(old(st)@)),
        decreases t@.len() - k,
    {
        if at_x(t, k, K::RBrace) {
            return match expect_x(t, k, K::RBrace, "'}' after state block") {
                Ok(k2) => Ok(k2),
                Err(e) => Err(e),
            };
        }
        let ((name, ty, d), k5) = match state_field_x(t, k) {
            Ok(p) => p,
            Err(e) => return Err(e),
        };
        if k5 <= k {
            return Err(stuck_x());
        }
        let ghost sv = state_v(st@);
        let ghost n = name@;
        let ghost y = ty@;
        let ghost x = d@;
        st.push((name, ty, d));
        proof {
            assert(state_v(st@).names =~= sv.names.push(n));
            assert(state_v(st@).tys =~= sv.tys.push(y));
            assert(state_v(st@).defaults =~= sv.defaults.push(x));
        }
        k = eat_x(t, k5, K::Comma);
    }
}

/// `agent Name { state { ... } fn ... }` at `i`.
#[verifier::spinoff_prover]
fn agent_x(t: &Vec<Spanned>, i: usize) -> (r: Result<(Item, usize), ParseError>)
    requires
        i < t@.len(),
    ensures
        yields(r, p_agent(spanned_views(t@), i as int), t@.len()),
{
    proof {
        reveal(p_agent);
    }
    let ghost s = spanned_views(t@);
    let (name, k1) = match ident_x(t, bump_x(t, i)) {
        Ok(p) => p,
        Err(e) => return Err(e),
    };
    let k2 = match expect_x(t, k1, K::LBrace, "'{' before agent body") {
        Ok(j) => j,
        Err(e) => return Err(e),
    };
    match agent_body_x(t, k2) {
        Ok(((state, fns), k3)) => {
            let ghost sv = state_v(state@);
            let ghost fv = views(fns@);
            let it = Item::Agent { name, state, fns };
            proof {
                assert(it@->Agent_1 =~= sv.names);
                assert(it@->Agent_2 =~= sv.tys);
                assert(it@->Agent_3 =~= sv.defaults);
                assert(it@->Agent_4 =~= fv);
            }
            Ok((it, k3))
        },
        Err(e) => Err(e),
    }
}

/// The body of an agent from `k0`: state blocks and fns, up to its `}`.
#[verifier::spinoff_prover]
fn agent_body_x(t: &Vec<Spanned>, k0: usize) -> (r: Result<
    ((Vec<(String, TypeExpr, Expr)>, Vec<Item>), usize),
    ParseError,
>)
    requires
        k0 < t@.len(),
    ensures
        match r {
            Ok(((st, fs), j)) => agent_loop(
                spanned_views(t@),
                k0 as int,
                AgentState { names: Seq::empty(), tys: Seq::empty(), defaults: Seq::empty() },
                Seq::empty(),
            ) == PR::Got((state_v(st@), views(fs@)), j as int) && j < t@.len(),
            Err(e) => agent_loop(
                spanned_views(t@),
                k0 as int,
                AgentState { names: Seq::empty(), tys: Seq::empty(), defaults: Seq::empty() },
                Seq::empty(),
            ) == PR::<(AgentState, Seq<ItemV>)>::Fail(e.msg@, e.at as nat),
        },
{
    let ghost s = spanned_views(t@);
    let mut state: Vec<(String, TypeExpr, Expr)> = Vec::new();
    let mut fns: Vec<Item> = Vec::new();
    let ghost goal = agent_loop(
        s,
        k0 as int,
        AgentState { names: Seq::empty(), tys: Seq::empty(), defaults: Seq::empty() },
        Seq::empty(),
    );
    proof {
        assert(state_v(state@).names =~= Seq::<Seq<char>>::empty());
        assert(state_v(state@).tys =~= Seq::<TypeExprV>::empty());
        assert(state_v(state@).defaults =~= Seq::<ExprV>::empty());
        assert(views(fns@) =~= Seq::<ItemV>::empty());
    }
    let mut k = k0;
    loop
        invariant
            s == spanned_views(t@),
            k < t@.len(),
            agent_loop(s, k as int, state_v(state@), views(fns@)) == goal,
            goal == agent_loop(
                s,
                k0 as int,
                AgentState { names: Seq::empty(), tys: Seq::empty(), defaults: Seq::empty() },
                Seq::empty(),
            ),
        decreases t@.len() - k,
    {
        if at_x(t, k, K::RBrace) {
            return match expect_x(t, k, K::RBrace, "'}' after agent body") {
                Ok(j) => Ok(((state, fns), j)),
                Err(e) => Err(e),
            };
        }
        if at_x(t, k, K::Eof) {
            return Err(fail_x(t, k, "unexpected end of file inside agent"));
        }
        if at_x(t, k, K::State) {
            let kb = match expect_x(t, bump_x(t, k), K::LBrace, "'{' before state block") {
                Ok(j) => j,
                Err(e) => return Err(e),
            };
            match state_x(t, kb, &mut state) {
                Ok(j) => {
                    if j <= k {
                        return Err(stuck_x());
                    }
                    k = j;
                },
                Err(e) => return Err(e),
            }
        } else if at_x(t, k, K::Fn) {
            match fn_x(t, k) {
                Ok((f, j)) => {
                    if j <= k {
                        return Err(stuck_x());
                    }
                    let ghost fv = views(fns@);
                    let ghost x = f@;
                    fns.push(f);
                    proof {
                        assert(views(fns@) =~= fv.push(x));
                    }
                    k = j;
                },
                Err(e) => return Err(e),
            }
        } else {
            return Err(found_x(t, k, "expected `state` or `fn` inside agent, found "));
        }
    }
}

/// An item at `i`.
fn item_x(t: &Vec<Spanned>, i: usize) -> (r: Result<(Item, usize), ParseError>)
    requires
        i < t@.len(),
    ensures
        yields(r, p_item(spanned_views(t@), i as int), t@.len()),
{
    proof {
        reveal(p_item);
    }
    if at_x(t, i, K::Type) {
        type_alias_x(t, i)
    } else if at_x(t, i, K::Fn) {
        fn_x(t, i)
    } else if at_x(t, i, K::Tool) {
        tool_x(t, i)
    } else if at_x(t, i, K::Test) {
        test_x(t, i)
    } else if at_x(t, i, K::Agent) {
        agent_x(t, i)
    } else {
        Err(found_x(t, i, "expected item (type/fn/tool/test), found "))
    }
}

/// A recursive-descent parser over a token list: the tokens and the
/// position of the next one.
pub struct Parser {
    t: Vec<Spanned>,
    i: usize,
}

impl Parser {
    /// The tokens being parsed.
    pub closed spec fn tokens(&self) -> Seq<SpannedV> {
        spanned_views(self.t@)
    }

    /// The position of the next token.
    pub closed spec fn pos(&self) -> int {
        self.i as int
    }

    /// The position is that of a token.
    pub open spec fn wf(&self) -> bool {
        0 <= self.pos() < self.tokens().len()
    }

    /// A parser at the first of `tokens`.
    pub fn new(tokens: Vec<Spanned>) -> (p: Parser)
        ensures
            p.tokens() == spanned_views(tokens@),
            p.pos() == 0,
    {
        Parser { t: tokens, i: 0 }
    }

    /// The items from the position up to `Eof`, or the first syntax error;
    /// on success the position is left at the `Eof`.
    pub fn parse_program(&mut self) -> (r: Result<Vec<Item>, ParseError>)
        requires
            old(self).wf(),
        ensures
            final(self).tokens() == old(self).tokens(),
            final(self).wf(),
            match r {
                Ok(items) => program_loop(old(self).tokens(), old(self).pos(), Seq::empty()) == PR::Got(
                    views(items@),
                    final(self).pos(),
                ),
                Err(e) => program_loop(old(self).tokens(), old(self).pos(), Seq::empty()) == PR::<
                    Seq<ItemV>,
                >::Fail(e.msg@, e.at as nat),
            },
    {
        let ghost s = spanned_views(self.t@);
        let ghost i0 = self.i as int;
        let mut items: Vec<Item> = Vec::new();
        let mut k: usize = self.i;
        proof {
            assert(views(items@) =~= Seq::<ItemV>::empty());
        }
        loop
            invariant
                s == spanned_views(self.t@),
                s == old(self).tokens(),
                i0 == old(self).pos(),
                k < self.t@.len(),
                self.i < self.t@.len(),
                program_loop(s, k as int, views(items@)) == program_loop(s, i0, Seq::empty()),
            decreases self.t@.len() - k,
        {
            if at_x(&self.t, k, K::Eof) {
                self.i = k;
                return Ok(items);
            }
            match item_x(&self.t, k) {
                Ok((it, j)) => {
                    if j <= k {
                        return Err(stuck_x());
                    }
                    let ghost iv = views(items@);
                    let ghost x = it@;
                    items.push(it);
                    proof {
                        assert(views(items@) =~= iv.push(x));
                    }
                    k = j;
                    self.i = j;
                },
                Err(e) => return Err(e),
            }
        }
    }

    /// An expression at the position; on success the position moves past
    /// it.
    pub fn parse_expr(&mut self) -> (r: Result<Expr, ParseError>)
        requires
            old(self).wf(),
        ensures
            final(self).tokens() == old(self).tokens(),
            final(self).wf(),
            match r {
                Ok(e) => p_expr(old(self).tokens(), old(self).pos()) == PR::Got(e@, final(self).pos()),
                Err(err) => p_expr(old(self).tokens(), old(self).pos()) == PR::<ExprV>::Fail(
                    err.msg@,
                    err.at as nat,
                ),
            },
    {
        match expr_x(&self.t, self.i) {
            Ok((e, k)) => {
                self.i = k;
                Ok(e)
            },
            Err(err) => Err(err),
        }
    }
}

/// The program that a token list spells (as `lex` gives it, ending in
/// `Eof`), or the first syntax error.
pub fn parse(tokens: Vec<Spanned>) -> (r: Result<Vec<Item>, ParseError>)
    requires
        tokens@.len() > 0,
    ensures
        match r {
            Ok(items) => parse_v(spanned_views(tokens@)) == Ok::<Seq<ItemV>, (Seq<char>, nat)>(
                views(items@),
            ),
            Err(e) => parse_v(spanned_views(tokens@)) == Err::<Seq<ItemV>, (Seq<char>, nat)>(
                (e.msg@, e.at as nat),
            ),
        },
{
    let mut p = Parser::new(tokens);
    p.parse_program()
}

} // verus!

verus! {

/// How many of `s[i..]` are `c`.
pub open spec fn count_from(s: Seq<char>, c: char, i: int) -> nat
    decreases s.len() - i,
{
    if i < 0 || i >= s.len() {
        0
    } else {
        count_from(s, c, i + 1) + if s[i] == c {
            1nat
        } else {
            0nat
        }
    }
}

proof fn lemma_count_from_mono(s: Seq<char>, c: char, i: int, j: int)
    requires
        0 <= i <= j,
    ensures
        count_from(s, c, j) <= count_from(s, c, i),
    decreases j - i,
{
    if i < j {
        lemma_count_from_mono(s, c, i + 1, j);
    }
}

proof fn lemma_interp_count(s: Seq<char>, i: int)
    requires
        0 <= i <= s.len(),
    ensures
        interp_from(s, i).len() <= count_from(s, '{', i),
        interp_from(s, i).len() <= count_from(s, '}', i),
    decreases s.len() - i,
{
    lemma_find_from(s, '{', i);
    let o = find_from(s, '{', i);
    if o < s.len() {
        lemma_find_from(s, '}', o);
        let c = find_from(s, '}', o);
        if c < s.len() {
            lemma_interp_count(s, c + 1);
            lemma_count_from_mono(s, '{', o + 1, c + 1);
            lemma_count_from_mono(s, '{', i, o);
            lemma_count_from_mono(s, '}', i, c);
            assert(count_from(s, '{', o) == count_from(s, '{', o + 1) + 1);
            assert(count_from(s, '}', c) == count_from(s, '}', c + 1) + 1);
        }
    }
}

/// A prompt body yields at most one interpolation per `{` and per `}` in
/// it: each is read from a `{` up to the first `}` after it, and the scan
/// goes on after that `}`.
pub proof fn law_interpolations_are_bracketed(s: Seq<char>)
    ensures
        interp_from(s, 0).len() <= count_from(s, '{', 0),
        interp_from(s, 0).len() <= count_from(s, '}', 0),
{
    lemma_interp_count(s, 0);
}

} // verus!
