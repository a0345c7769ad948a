//! The grammar of Nudge as spec functions: what parsing from a token
//! position gives. The executable parser in `parser` is proved to compute
//! exactly these results.

use vstd::prelude::*;
use crate::lexer::{tok_debug_v, SpannedV, TokV};
use crate::ast::{BinOp, ExprV, ItemV, ParamV, Span, StateOp, StmtKindV, StmtV, TypeExprV};
use crate::parser::interp_from;

verus! {

/// What parsing from a token position gives: a value and the position
/// after it, or an error message at a byte offset.
pub enum PR<T> {
    Got(T, int),
    Fail(Seq<char>, nat),
}

pub open spec fn stuck<T>() -> PR<T> {
    PR::Fail(Seq::empty(), 0)
}

/// The token at `i` (`Eof` past the end).
pub open spec fn tk(t: Seq<SpannedV>, i: int) -> TokV {
    if 0 <= i < t.len() {
        t[i].tok
    } else {
        TokV::Eof
    }
}

/// The byte offset where the token at `i` starts.
pub open spec fn at_pos(t: Seq<SpannedV>, i: int) -> nat {
    if 0 <= i < t.len() {
        t[i].start
    } else {
        0
    }
}

/// The position after consuming the token at `i`; the last token is never
/// consumed.
pub open spec fn bump(t: Seq<SpannedV>, i: int) -> int {
    if i + 1 < t.len() {
        i + 1
    } else {
        i
    }
}

/// An error naming the token at `i`.
pub open spec fn found<T>(t: Seq<SpannedV>, i: int, prefix: Seq<char>) -> PR<T> {
    PR::Fail(prefix + tok_debug_v(tk(t, i)), at_pos(t, i))
}

/// An error at the token at `i`.
pub open spec fn fail_at<T>(t: Seq<SpannedV>, i: int, msg: Seq<char>) -> PR<T> {
    PR::Fail(msg, at_pos(t, i))
}

/// The token `k` is required at `i`.
pub open spec fn expect(t: Seq<SpannedV>, i: int, k: TokV, what: Seq<char>) -> PR<()> {
    if tk(t, i) == k {
        PR::Got((), bump(t, i))
    } else {
        found(t, i, "expected "@ + what + ", found "@)
    }
}

/// Consumes the token `k` at `i` if it is there.
pub open spec fn eat(t: Seq<SpannedV>, i: int, k: TokV) -> int {
    if tk(t, i) == k {
        bump(t, i)
    } else {
        i
    }
}

/// An identifier at `i`.
pub open spec fn ident(t: Seq<SpannedV>, i: int) -> PR<Seq<char>> {
    match tk(t, i) {
        TokV::Ident(s) => PR::Got(s, bump(t, i)),
        _ => found(t, i, "expected identifier, found "@),
    }
}

/// The token at `i` is the identifier `s`.
pub open spec fn is_word(t: Seq<SpannedV>, i: int, s: Seq<char>) -> bool {
    tk(t, i) == TokV::Ident(s)
}

} // verus!

verus! {

/// An expression at `i` (the loosest binding level).
pub open spec fn p_expr(t: Seq<SpannedV>, i: int) -> PR<ExprV>
    decreases t.len() - i, 10int,
{
    if i < 0 || i > t.len() {
        stuck()
    } else {
        p_merge(t, i)
    }
}

/// `l | merge r`, left-associative.
pub open spec fn p_merge(t: Seq<SpannedV>, i: int) -> PR<ExprV>
    decreases t.len() - i, 9int,
{
    if i < 0 || i > t.len() {
        stuck()
    } else {
        match p_or(t, i) {
            PR::Got(l, k) => if i < k <= t.len() {
                merge_loop(t, k, l)
            } else {
                stuck()
            },
            PR::Fail(m, a) => PR::Fail(m, a),
        }
    }
}

pub open spec fn merge_loop(t: Seq<SpannedV>, k: int, l: ExprV) -> PR<ExprV>
    decreases t.len() - k, 0int,
{
    if k < 0 || k > t.len() {
        stuck()
    } else if tk(t, k) == TokV::Bar && is_word(t, k + 1, "merge"@) {
        let k2 = bump(t, bump(t, k));
        if !(k < k2) {
            stuck()
        } else {
            match p_or(t, k2) {
                PR::Got(r, k3) => if k2 < k3 <= t.len() {
                    merge_loop(t, k3, ExprV::Merge(Box::new(l), Box::new(r)))
                } else {
                    stuck()
                },
                PR::Fail(m, a) => PR::Fail(m, a),
            }
        }
    } else {
        PR::Got(l, k)
    }
}

pub open spec fn p_or(t: Seq<SpannedV>, i: int) -> PR<ExprV>
    decreases t.len() - i, 8int,
{
    if i < 0 || i > t.len() {
        stuck()
    } else {
        match p_and(t, i) {
            PR::Got(l, k) => if i < k <= t.len() {
                or_loop(t, k, l)
            } else {
                stuck()
            },
            PR::Fail(m, a) => PR::Fail(m, a),
        }
    }
}

pub open spec fn or_loop(t: Seq<SpannedV>, k: int, l: ExprV) -> PR<ExprV>
    decreases t.len() - k, 0int,
{
    if k < 0 || k > t.len() {
        stuck()
    } else if tk(t, k) == TokV::Or {
        let k2 = bump(t, k);
        if !(k < k2) {
            stuck()
        } else {
            match p_and(t, k2) {
                PR::Got(r, k3) => if k2 < k3 <= t.len() {
                    or_loop(t, k3, ExprV::Binary(BinOp::Or, Box::new(l), Box::new(r)))
                } else {
                    stuck()
                },
                PR::Fail(m, a) => PR::Fail(m, a),
            }
        }
    } else {
        PR::Got(l, k)
    }
}

pub open spec fn p_and(t: Seq<SpannedV>, i: int) -> PR<ExprV>
    decreases t.len() - i, 7int,
{
    if i < 0 || i > t.len() {
        stuck()
    } else {
        match p_rel(t, i) {
            PR::Got(l, k) => if i < k <= t.len() {
                and_loop(t, k, l)
            } else {
                stuck()
            },
            PR::Fail(m, a) => PR::Fail(m, a),
        }
    }
}

pub open spec fn and_loop(t: Seq<SpannedV>, k: int, l: ExprV) -> PR<ExprV>
    decreases t.len() - k, 0int,
{
    if k < 0 || k > t.len() {
        stuck()
    } else if tk(t, k) == TokV::And {
        let k2 = bump(t, k);
        if !(k < k2) {
            stuck()
        } else {
            match p_rel(t, k2) {
                PR::Got(r, k3) => if k2 < k3 <= t.len() {
                    and_loop(t, k3, ExprV::Binary(BinOp::And, Box::new(l), Box::new(r)))
                } else {
                    stuck()
                },
                PR::Fail(m, a) => PR::Fail(m, a),
            }
        }
    } else {
        PR::Got(l, k)
    }
}

/// The comparison operator a token stands for.
pub open spec fn rel_op(k: TokV) -> Option<BinOp> {
    match k {
        TokV::EqEq => Some(BinOp::Eq),
        TokV::NotEq => Some(BinOp::NotEq),
        TokV::Lt => Some(BinOp::Lt),
        TokV::LtEq => Some(BinOp::LtEq),
        TokV::Gt => Some(BinOp::Gt),
        TokV::GtEq => Some(BinOp::GtEq),
        _ => None,
    }
}

pub open spec fn p_rel(t: Seq<SpannedV>, i: int) -> PR<ExprV>
    decreases t.len() - i, 6int,
{
    if i < 0 || i > t.len() {
        stuck()
    } else {
        match p_add(t, i) {
            PR::Got(l, k) => if i < k <= t.len() {
                rel_loop(t, k, l)
            } else {
                stuck()
            },
            PR::Fail(m, a) => PR::Fail(m, a),
        }
    }
}

/// Comparisons, and the infix `a zip b` (a call of `zip`).
pub open spec fn rel_loop(t: Seq<SpannedV>, k: int, l: ExprV) -> PR<ExprV>
    decreases t.len() - k, 0int,
{
    if k < 0 || k > t.len() {
        stuck()
    } else if rel_op(tk(t, k)) is Some || is_word(t, k, "zip"@) {
        let k2 = bump(t, k);
        if !(k < k2) {
            stuck()
        } else {
            match p_add(t, k2) {
                PR::Got(r, k3) => if k2 < k3 <= t.len() {
                    rel_loop(
                        t,
                        k3,
                        match rel_op(tk(t, k)) {
                            Some(op) => ExprV::Binary(op, Box::new(l), Box::new(r)),
                            None => ExprV::Call(
                                Box::new(ExprV::Ident("zip"@)),
                                seq![l, r],
                                Seq::empty(),
                                Seq::empty(),
                            ),
                        },
                    )
                } else {
                    stuck()
                },
                PR::Fail(m, a) => PR::Fail(m, a),
            }
        }
    } else {
        PR::Got(l, k)
    }
}

pub open spec fn p_add(t: Seq<SpannedV>, i: int) -> PR<ExprV>
    decreases t.len() - i, 5int,
{
    if i < 0 || i > t.len() {
        stuck()
    } else {
        match p_mul(t, i) {
            PR::Got(l, k) => if i < k <= t.len() {
                add_loop(t, k, l)
            } else {
                stuck()
            },
            PR::Fail(m, a) => PR::Fail(m, a),
        }
    }
}

pub open spec fn add_op(k: TokV) -> Option<BinOp> {
    match k {
        TokV::Plus => Some(BinOp::Add),
        TokV::Minus => Some(BinOp::Sub),
        _ => None,
    }
}

pub open spec fn add_loop(t: Seq<SpannedV>, k: int, l: ExprV) -> PR<ExprV>
    decreases t.len() - k, 0int,
{
    if k < 0 || k > t.len() {
        stuck()
    } else {
        match add_op(tk(t, k)) {
            Some(op) => {
                let k2 = bump(t, k);
                if !(k < k2) {
                    stuck()
                } else {
                    match p_mul(t, k2) {
                        PR::Got(r, k3) => if k2 < k3 <= t.len() {
                            add_loop(t, k3, ExprV::Binary(op, Box::new(l), Box::new(r)))
                        } else {
                            stuck()
                        },
                        PR::Fail(m, a) => PR::Fail(m, a),
                    }
                }
            },
            None => PR::Got(l, k),
        }
    }
}

pub open spec fn p_mul(t: Seq<SpannedV>, i: int) -> PR<ExprV>
    decreases t.len() - i, 4int,
{
    if i < 0 || i > t.len() {
        stuck()
    } else {
        match p_unary(t, i) {
            PR::Got(l, k) => if i < k <= t.len() {
                mul_loop(t, k, l)
            } else {
                stuck()
            },
            PR::Fail(m, a) => PR::Fail(m, a),
        }
    }
}

pub open spec fn mul_op(k: TokV) -> Option<BinOp> {
    match k {
        TokV::Star => Some(BinOp::Mul),
        TokV::Slash => Some(BinOp::Div),
        TokV::Percent => Some(BinOp::Mod),
        _ => None,
    }
}

pub open spec fn mul_loop(t: Seq<SpannedV>, k: int, l: ExprV) -> PR<ExprV>
    decreases t.len() - k, 0int,
{
    if k < 0 || k > t.len() {
        stuck()
    } else {
        match mul_op(tk(t, k)) {
            Some(op) => {
                let k2 = bump(t, k);
                if !(k < k2) {
                    stuck()
                } else {
                    match p_unary(t, k2) {
                        PR::Got(r, k3) => if k2 < k3 <= t.len() {
                            mul_loop(t, k3, ExprV::Binary(op, Box::new(l), Box::new(r)))
                        } else {
                            stuck()
                        },
                        PR::Fail(m, a) => PR::Fail(m, a),
                    }
                }
            },
            None => PR::Got(l, k),
        }
    }
}

/// Prefix `-` and `!`.
pub open spec fn p_unary(t: Seq<SpannedV>, i: int) -> PR<ExprV>
    decreases t.len() - i, 3int,
{
    if i < 0 || i > t.len() {
        stuck()
    } else if tk(t, i) == TokV::Minus || tk(t, i) == TokV::Bang {
        let k = bump(t, i);
        if !(i < k) {
            stuck()
        } else {
            match p_unary(t, k) {
                PR::Got(x, k2) => PR::Got(
                    ExprV::Unary(
                        if tk(t, i) == TokV::Minus {
                            BinOp::Sub
                        } else {
                            BinOp::Not
                        },
                        Box::new(x),
                    ),
                    k2,
                ),
                PR::Fail(m, a) => PR::Fail(m, a),
            }
        }
    } else {
        p_postfix(t, i)
    }
}

/// Field accesses and calls after a primary expression.
pub open spec fn p_postfix(t: Seq<SpannedV>, i: int) -> PR<ExprV>
    decreases t.len() - i, 2int,
{
    if i < 0 || i > t.len() {
        stuck()
    } else {
        match p_primary(t, i) {
            PR::Got(e, k) => if i < k <= t.len() {
                postfix_loop(t, k, e)
            } else {
                stuck()
            },
            PR::Fail(m, a) => PR::Fail(m, a),
        }
    }
}

pub open spec fn postfix_loop(t: Seq<SpannedV>, k: int, e: ExprV) -> PR<ExprV>
    decreases t.len() - k, 1int,
{
    if k < 0 || k > t.len() {
        stuck()
    } else if tk(t, k) == TokV::Dot {
        let k2 = bump(t, k);
        match ident(t, k2) {
            PR::Got(name, k3) => if k < k3 <= t.len() {
                postfix_loop(t, k3, ExprV::Field(Box::new(e), name))
            } else {
                stuck()
            },
            PR::Fail(m, a) => PR::Fail(m, a),
        }
    } else if tk(t, k) == TokV::LParen {
        match p_call_args(t, k) {
            PR::Got((args, kn, kv), k2) => if k < k2 <= t.len() {
                postfix_loop(t, k2, ExprV::Call(Box::new(e), args, kn, kv))
            } else {
                stuck()
            },
            PR::Fail(m, a) => PR::Fail(m, a),
        }
    } else {
        PR::Got(e, k)
    }
}

/// `( args )`: positional arguments and `name = value` keyword arguments.
pub open spec fn p_call_args(t: Seq<SpannedV>, i: int) -> PR<(Seq<ExprV>, Seq<Seq<char>>, Seq<ExprV>)>
    decreases t.len() - i, 0int,
{
    if i < 0 || i > t.len() {
        stuck()
    } else {
        match expect(t, i, TokV::LParen, "'('"@) {
            PR::Got(_, k) => if i < k <= t.len() {
                args_loop(t, k, Seq::empty(), Seq::empty(), Seq::empty())
            } else {
                stuck()
            },
            PR::Fail(m, a) => PR::Fail(m, a),
        }
    }
}

pub open spec fn args_loop(
    t: Seq<SpannedV>,
    k: int,
    args: Seq<ExprV>,
    kn: Seq<Seq<char>>,
    kv: Seq<ExprV>,
) -> PR<(Seq<ExprV>, Seq<Seq<char>>, Seq<ExprV>)>
    decreases t.len() - k, 11int,
{
    if k < 0 || k > t.len() {
        stuck()
    } else if tk(t, k) == TokV::RParen {
        match expect(t, k, TokV::RParen, "')'"@) {
            PR::Got(_, k2) => PR::Got((args, kn, kv), k2),
            PR::Fail(m, a) => PR::Fail(m, a),
        }
    } else if tk(t, k) is Ident && tk(t, k + 1) == TokV::Assign {
        let k2 = bump(t, bump(t, k));
        if !(k < k2) {
            stuck()
        } else {
            match p_expr(t, k2) {
                PR::Got(v, k3) => if k2 < k3 <= t.len() {
                    args_loop(t, eat(t, k3, TokV::Comma), args, kn.push(tk(t, k)->Ident_0), kv.push(v))
                } else {
                    stuck()
                },
                PR::Fail(m, a) => PR::Fail(m, a),
            }
        }
    } else {
        match p_expr(t, k) {
            PR::Got(v, k3) => if k < k3 <= t.len() {
                args_loop(t, eat(t, k3, TokV::Comma), args.push(v), kn, kv)
            } else {
                stuck()
            },
            PR::Fail(m, a) => PR::Fail(m, a),
        }
    }
}

} // verus!

verus! {

/// The interpolations of a prompt body.
pub open spec fn interps(body: Seq<char>) -> Seq<Seq<char>> {
    interp_from(body, 0)
}

/// An operand: a literal, a name, a list, a parenthesized expression, a
/// prompt (with its `with` block), a `route` block or a `par` form.
pub open spec fn p_primary(t: Seq<SpannedV>, i: int) -> PR<ExprV>
    decreases t.len() - i, 1int,
{
    if i < 0 || i > t.len() {
        stuck()
    } else {
        let k = bump(t, i);
        if !(i < k) {
            match tk(t, i) {
                TokV::Int(_) | TokV::Float(_) | TokV::Str(_) | TokV::Money(_, _) | TokV::True
                | TokV::False | TokV::NoneKw | TokV::State | TokV::Ident(_) | TokV::LBracket
                | TokV::LParen | TokV::Prompt(_) | TokV::Par => stuck(),
                _ => found(t, i, "unexpected token "@),
            }
        } else {
            match tk(t, i) {
                TokV::Int(n) => PR::Got(ExprV::Int(n), k),
                TokV::Float(x) => PR::Got(ExprV::Float(x), k),
                TokV::Str(s) => PR::Got(ExprV::Str(s), k),
                TokV::Money(x, u) => PR::Got(ExprV::Money(x, u), k),
                TokV::True => PR::Got(ExprV::Bool(true), k),
                TokV::False => PR::Got(ExprV::Bool(false), k),
                TokV::NoneKw => PR::Got(ExprV::NoneLit, k),
                TokV::Ident(s) => if s == "route"@ && tk(t, i + 1) == TokV::LBrace {
                    route_loop(t, bump(t, k), Seq::empty(), Seq::empty(), Seq::empty())
                } else {
                    PR::Got(ExprV::Ident(s), k)
                },
                TokV::State => PR::Got(ExprV::Ident("state"@), k),
                TokV::LBracket => list_loop(t, k, Seq::empty()),
                TokV::LParen => match p_expr(t, k) {
                    PR::Got(e, k2) => match expect(t, k2, TokV::RParen, "')'"@) {
                        PR::Got(_, k3) => PR::Got(e, k3),
                        PR::Fail(m, a) => PR::Fail(m, a),
                    },
                    PR::Fail(m, a) => PR::Fail(m, a),
                },
                TokV::Prompt(body) => {
                    let prompt = ExprV::Prompt(body, interps(body));
                    if tk(t, k) == TokV::With && tk(t, k + 1) == TokV::LBrace {
                        match expect(t, bump(t, k), TokV::LBrace, "'{'"@) {
                            PR::Got(_, k2) => if k < k2 <= t.len() {
                                with_loop(t, k2, prompt, Seq::empty(), Seq::empty(), false)
                            } else {
                                stuck()
                            },
                            PR::Fail(m, a) => PR::Fail(m, a),
                        }
                    } else {
                        PR::Got(prompt, k)
                    }
                },
                TokV::Par => p_par(t, k),
                _ => found(t, i, "unexpected token "@),
            }
        }
    }
}

/// The elements of a list literal, up to its `]`.
pub open spec fn list_loop(t: Seq<SpannedV>, k: int, xs: Seq<ExprV>) -> PR<ExprV>
    decreases t.len() - k, 11int,
{
    if k < 0 || k > t.len() {
        stuck()
    } else if tk(t, k) == TokV::RBracket {
        match expect(t, k, TokV::RBracket, "']'"@) {
            PR::Got(_, k2) => PR::Got(ExprV::ListLit(xs), k2),
            PR::Fail(m, a) => PR::Fail(m, a),
        }
    } else {
        match p_expr(t, k) {
            PR::Got(v, k2) => if k < k2 <= t.len() {
                list_loop(t, eat(t, k2, TokV::Comma), xs.push(v))
            } else {
                stuck()
            },
            PR::Fail(m, a) => PR::Fail(m, a),
        }
    }
}

/// The arms of a `route` block, up to its `}`.
pub open spec fn route_loop(
    t: Seq<SpannedV>,
    k: int,
    labels: Seq<Seq<char>>,
    models: Seq<Seq<char>>,
    conds: Seq<Option<ExprV>>,
) -> PR<ExprV>
    decreases t.len() - k, 0int,
{
    if k < 0 || k > t.len() {
        stuck()
    } else if tk(t, k) == TokV::RBrace {
        match expect(t, k, TokV::RBrace, "'}' after route block"@) {
            PR::Got(_, k2) => PR::Got(ExprV::Route(labels, models, conds), k2),
            PR::Fail(m, a) => PR::Fail(m, a),
        }
    } else {
        match ident(t, k) {
            PR::Got(label, k1) => match expect(t, k1, TokV::Colon, "':' in route arm"@) {
                PR::Got(_, k2) => match tk(t, k2) {
                    TokV::Str(model) => {
                        let k3 = bump(t, k2);
                        if is_word(t, k3, "when"@) {
                            let k4 = bump(t, k3);
                            if !(k < k4) {
                                stuck()
                            } else {
                                match p_expr(t, k4) {
                                    PR::Got(c, k5) => if k < k5 <= t.len() {
                                        route_loop(
                                            t,
                                            eat(t, k5, TokV::Comma),
                                            labels.push(label),
                                            models.push(model),
                                            conds.push(Some(c)),
                                        )
                                    } else {
                                        stuck()
                                    },
                                    PR::Fail(m, a) => PR::Fail(m, a),
                                }
                            }
                        } else if is_word(t, k3, "otherwise"@) {
                            let k4 = bump(t, k3);
                            if !(k < k4) {
                                stuck()
                            } else {
                                route_loop(
                                    t,
                                    eat(t, k4, TokV::Comma),
                                    labels.push(label),
                                    models.push(model),
                                    conds.push(None),
                                )
                            }
                        } else {
                            fail_at(t, k3, "expected `when <cond>` or `otherwise` in route arm"@)
                        }
                    },
                    _ => found(t, k2, "expected model string in route arm, found "@),
                },
                PR::Fail(m, a) => PR::Fail(m, a),
            },
            PR::Fail(m, a) => PR::Fail(m, a),
        }
    }
}

/// The options of a `with { ... }` block, up to its `}`.
pub open spec fn with_loop(
    t: Seq<SpannedV>,
    k: int,
    prompt: ExprV,
    keys: Seq<Seq<char>>,
    vals: Seq<ExprV>,
    repair: bool,
) -> PR<ExprV>
    decreases t.len() - k, 0int,
{
    if k < 0 || k > t.len() {
        stuck()
    } else if tk(t, k) == TokV::RBrace {
        match expect(t, k, TokV::RBrace, "'}'"@) {
            PR::Got(_, k2) => PR::Got(
                ExprV::LlmCall(Box::new(prompt), keys, vals, repair),
                k2,
            ),
            PR::Fail(m, a) => PR::Fail(m, a),
        }
    } else {
        match ident(t, k) {
            PR::Got(key, k1) => match expect(t, k1, TokV::Colon, "':' in with-block"@) {
                PR::Got(_, k2) => if !(k < k2) {
                    stuck()
                } else {
                    match p_expr(t, k2) {
                        PR::Got(v, k3) => if k < k3 <= t.len() {
                            let rep = tk(t, k3) == TokV::With && is_word(t, k3 + 1, "repair"@);
                            let k4 = if rep {
                                bump(t, bump(t, k3))
                            } else {
                                k3
                            };
                            with_loop(
                                t,
                                eat(t, k4, TokV::Comma),
                                prompt,
                                keys.push(key),
                                vals.push(v),
                                repair || rep,
                            )
                        } else {
                            stuck()
                        },
                        PR::Fail(m, a) => PR::Fail(m, a),
                    }
                },
                PR::Fail(m, a) => PR::Fail(m, a),
            },
            PR::Fail(m, a) => PR::Fail(m, a),
        }
    }
}

/// After `par`: `map` (with a collection and a lambda), `all (...)` or
/// `race [...]`.
pub open spec fn p_par(t: Seq<SpannedV>, k: int) -> PR<ExprV>
    decreases t.len() - k, 1int,
{
    if k < 1 || k > t.len() {
        stuck()
    } else {
        let k1 = bump(t, k);
        match tk(t, k) {
            TokV::MapKw => if !(k < k1) {
                stuck()
            } else if tk(t, k1) == TokV::LParen {
                match p_call_args(t, k1) {
                    PR::Got((args, kn, kv), k2) => if args.len() != 1 {
                        fail_at(t, k2, "par map takes exactly one positional collection"@)
                    } else if k1 < k2 <= t.len() {
                        par_map_tail(t, k2, args[0], kn, kv)
                    } else {
                        stuck()
                    },
                    PR::Fail(m, a) => PR::Fail(m, a),
                }
            } else {
                match p_add(t, k1) {
                    PR::Got(coll, k2) => if k1 < k2 <= t.len() {
                        par_map_tail(t, k2, coll, Seq::empty(), Seq::empty())
                    } else {
                        stuck()
                    },
                    PR::Fail(m, a) => PR::Fail(m, a),
                }
            },
            TokV::All => if !(k < k1) {
                stuck()
            } else {
                match p_call_args(t, k1) {
                    PR::Got((args, _, _), k2) => PR::Got(ExprV::ParAll(args), k2),
                    PR::Fail(m, a) => PR::Fail(m, a),
                }
            },
            TokV::Race => if !(k < k1) {
                stuck()
            } else {
                match p_primary(t, k1) {
                    PR::Got(e, k2) => match e {
                        ExprV::ListLit(xs) => PR::Got(ExprV::ParRace(xs), k2),
                        _ => fail_at(t, k2, "par race expects a list of callables"@),
                    },
                    PR::Fail(m, a) => PR::Fail(m, a),
                }
            },
            _ => found(t, k, "expected map/all/race after par, found "@),
        }
    }
}

/// The lambda of a `par map`, after its collection.
pub open spec fn par_map_tail(
    t: Seq<SpannedV>,
    k: int,
    coll: ExprV,
    kn: Seq<Seq<char>>,
    kv: Seq<ExprV>,
) -> PR<ExprV>
    decreases t.len() - k, 0int,
{
    if k < 0 || k > t.len() {
        stuck()
    } else {
        match expect(t, k, TokV::Bar, "'|' to start lambda parameters"@) {
            PR::Got(_, k1) => {
                let ps = if tk(t, k1) == TokV::LParen {
                    lambda_params(t, bump(t, k1), Seq::empty())
                } else {
                    match ident(t, k1) {
                        PR::Got(p, k2) => PR::Got(seq![p], k2),
                        PR::Fail(m, a) => PR::Fail(m, a),
                    }
                };
                match ps {
                    PR::Got(params, k2) => match expect(t, k2, TokV::Bar, "closing '|'"@) {
                        PR::Got(_, k3) => match expect(t, k3, TokV::Arrow, "'->' before lambda body"@) {
                            PR::Got(_, k4) => if !(k < k4) {
                                stuck()
                            } else {
                                match p_expr(t, k4) {
                                    PR::Got(body, k5) => PR::Got(
                                        ExprV::ParMap(Box::new(coll), kn, kv, params, Box::new(body)),
                                        k5,
                                    ),
                                    PR::Fail(m, a) => PR::Fail(m, a),
                                }
                            },
                            PR::Fail(m, a) => PR::Fail(m, a),
                        },
                        PR::Fail(m, a) => PR::Fail(m, a),
                    },
                    PR::Fail(m, a) => PR::Fail(m, a),
                }
            },
            PR::Fail(m, a) => PR::Fail(m, a),
        }
    }
}

/// Parenthesized lambda parameters, up to the `)`.
pub open spec fn lambda_params(t: Seq<SpannedV>, k: int, ps: Seq<Seq<char>>) -> PR<Seq<Seq<char>>>
    decreases t.len() - k,
{
    if k < 0 || k > t.len() {
        stuck()
    } else if tk(t, k) == TokV::RParen {
        match expect(t, k, TokV::RParen, "')'"@) {
            PR::Got(_, k2) => PR::Got(ps, k2),
            PR::Fail(m, a) => PR::Fail(m, a),
        }
    } else {
        match ident(t, k) {
            PR::Got(p, k2) => if k < k2 <= t.len() {
                lambda_params(t, eat(t, k2, TokV::Comma), ps.push(p))
            } else {
                stuck()
            },
            PR::Fail(m, a) => PR::Fail(m, a),
        }
    }
}

} // verus!

verus! {

/// A type at `i`, with an optional refinement `@name(args)`.
pub open spec fn p_type(t: Seq<SpannedV>, i: int) -> PR<TypeExprV>
    decreases t.len() - i, 1int,
{
    if i < 0 || i > t.len() {
        stuck()
    } else {
        let k = bump(t, i);
        let base: PR<TypeExprV> = match tk(t, i) {
            TokV::Ident(name) => PR::Got(TypeExprV::Named(name), k),
            TokV::LBracket => if !(i < k) {
                stuck()
            } else {
                match p_type(t, k) {
                    PR::Got(inner, k2) => match expect(t, k2, TokV::RBracket, "']' in list type"@) {
                        PR::Got(_, k3) => PR::Got(TypeExprV::List(Box::new(inner)), k3),
                        PR::Fail(m, a) => PR::Fail(m, a),
                    },
                    PR::Fail(m, a) => PR::Fail(m, a),
                }
            },
            TokV::LBrace => if !(i < k) {
                stuck()
            } else {
                record_loop(t, k, Seq::empty(), Seq::empty())
            },
            TokV::LParen => match expect(t, k, TokV::RParen, "unit type '()'"@) {
                PR::Got(_, k2) => PR::Got(TypeExprV::Named("()"@), k2),
                PR::Fail(m, a) => PR::Fail(m, a),
            },
            _ => found(t, i, "expected type, found "@),
        };
        match base {
            PR::Got(ty, k2) => if tk(t, k2) == TokV::At {
                match ident(t, bump(t, k2)) {
                    PR::Got(rname, k3) => match expect(t, k3, TokV::LParen, "'(' after refinement name"@) {
                        PR::Got(_, k4) => match refine_args(t, k4, Seq::empty()) {
                            PR::Got(args, k5) => PR::Got(TypeExprV::Refine(Box::new(ty), rname, args), k5),
                            PR::Fail(m, a) => PR::Fail(m, a),
                        },
                        PR::Fail(m, a) => PR::Fail(m, a),
                    },
                    PR::Fail(m, a) => PR::Fail(m, a),
                }
            } else {
                PR::Got(ty, k2)
            },
            PR::Fail(m, a) => PR::Fail(m, a),
        }
    }
}

/// The fields of a record type, up to its `}`.
pub open spec fn record_loop(
    t: Seq<SpannedV>,
    k: int,
    names: Seq<Seq<char>>,
    tys: Seq<TypeExprV>,
) -> PR<TypeExprV>
    decreases t.len() - k, 0int,
{
    if k < 0 || k > t.len() {
        stuck()
    } else if tk(t, k) == TokV::RBrace {
        match expect(t, k, TokV::RBrace, "'}' in record type"@) {
            PR::Got(_, k2) => PR::Got(TypeExprV::Record(names, tys), k2),
            PR::Fail(m, a) => PR::Fail(m, a),
        }
    } else {
        match ident(t, k) {
            PR::Got(name, k1) => match expect(t, k1, TokV::Colon, "':' in record type"@) {
                PR::Got(_, k2) => if !(k < k2) {
                    stuck()
                } else {
                    match p_type(t, k2) {
                        PR::Got(ty, k3) => if k < k3 <= t.len() {
                            record_loop(t, eat(t, k3, TokV::Comma), names.push(name), tys.push(ty))
                        } else {
                            stuck()
                        },
                        PR::Fail(m, a) => PR::Fail(m, a),
                    }
                },
                PR::Fail(m, a) => PR::Fail(m, a),
            },
            PR::Fail(m, a) => PR::Fail(m, a),
        }
    }
}

/// The arguments of a refinement, up to the `)`.
pub open spec fn refine_args(t: Seq<SpannedV>, k: int, args: Seq<ExprV>) -> PR<Seq<ExprV>>
    decreases t.len() - k, 0int,
{
    if k < 0 || k > t.len() {
        stuck()
    } else if tk(t, k) == TokV::RParen {
        match expect(t, k, TokV::RParen, "')'"@) {
            PR::Got(_, k2) => PR::Got(args, k2),
            PR::Fail(m, a) => PR::Fail(m, a),
        }
    } else {
        match p_expr(t, k) {
            PR::Got(v, k2) => if k < k2 <= t.len() {
                refine_args(t, eat(t, k2, TokV::Comma), args.push(v))
            } else {
                stuck()
            },
            PR::Fail(m, a) => PR::Fail(m, a),
        }
    }
}

/// A statement spanning from `start` to the end of the token before `j`.
pub open spec fn spanned(t: Seq<SpannedV>, start: nat, j: int, kind: StmtKindV) -> StmtV {
    let end = if j <= 0 || j > t.len() {
        start
    } else {
        t[j - 1].end
    };
    StmtV {
        kind,
        span: Span { start: start as usize, end: (if end >= start { end } else { start }) as usize },
    }
}

/// `let name[: T] = value` from `i` (just after `let`).
#[verifier::opaque]
pub open spec fn let_tail(t: Seq<SpannedV>, i: int, start: nat, stream: bool) -> PR<StmtV> {
    match ident(t, i) {
        PR::Got(name, k1) => {
            let ty: PR<Option<TypeExprV>> = if tk(t, k1) == TokV::Colon {
                match p_type(t, bump(t, k1)) {
                    PR::Got(ty, k2) => PR::Got(Some(ty), k2),
                    PR::Fail(m, a) => PR::Fail(m, a),
                }
            } else {
                PR::Got(None, k1)
            };
            match ty {
                PR::Got(ty, k2) => match expect(
                    t,
                    k2,
                    TokV::Assign,
                    if stream {
                        "'=' in stream let binding"@
                    } else {
                        "'=' in let binding"@
                    },
                ) {
                    PR::Got(_, k3) => match p_expr(t, k3) {
                        PR::Got(value, k4) => PR::Got(
                            spanned(t, start, k4, StmtKindV::Let(name, ty, value, stream)),
                            k4,
                        ),
                        PR::Fail(m, a) => PR::Fail(m, a),
                    },
                    PR::Fail(m, a) => PR::Fail(m, a),
                },
                PR::Fail(m, a) => PR::Fail(m, a),
            }
        },
        PR::Fail(m, a) => PR::Fail(m, a),
    }
}

/// A state write `state.field op value` is next (four-token lookahead).
pub open spec fn state_write_ahead(t: Seq<SpannedV>, i: int) -> bool {
    &&& tk(t, i) == TokV::State
    &&& tk(t, i + 1) == TokV::Dot
    &&& i + 2 < t.len() && t[i + 2].tok is Ident
    &&& i + 3 < t.len() && (t[i + 3].tok == TokV::Assign || t[i + 3].tok == TokV::PlusEq
        || t[i + 3].tok == TokV::MinusEq)
}

/// A statement at `i`.
#[verifier::opaque]
pub open spec fn p_stmt(t: Seq<SpannedV>, i: int) -> PR<StmtV> {
    let start = at_pos(t, i);
    if tk(t, i) == TokV::Let {
        let_tail(t, bump(t, i), start, false)
    } else if is_word(t, i, "stream"@) && tk(t, i + 1) == TokV::Let {
        let_tail(t, bump(t, bump(t, i)), start, true)
    } else if tk(t, i) == TokV::Assert {
        match p_expr(t, bump(t, i)) {
            PR::Got(e, k) => PR::Got(spanned(t, start, k, StmtKindV::Assert(e)), k),
            PR::Fail(m, a) => PR::Fail(m, a),
        }
    } else if state_write_ahead(t, i) {
        match ident(t, bump(t, bump(t, i))) {
            PR::Got(field, k1) => {
                let op: PR<StateOp> = if tk(t, k1) == TokV::PlusEq {
                    PR::Got(StateOp::Add, bump(t, k1))
                } else if tk(t, k1) == TokV::MinusEq {
                    PR::Got(StateOp::Sub, bump(t, k1))
                } else {
                    match expect(t, k1, TokV::Assign, "'=', '+=' or '-=' in state write"@) {
                        PR::Got(_, k2) => PR::Got(StateOp::Assign, k2),
                        PR::Fail(m, a) => PR::Fail(m, a),
                    }
                };
                match op {
                    PR::Got(op, k2) => match p_expr(t, k2) {
                        PR::Got(value, k3) => PR::Got(
                            spanned(t, start, k3, StmtKindV::StateWrite(field, op, value)),
                            k3,
                        ),
                        PR::Fail(m, a) => PR::Fail(m, a),
                    },
                    PR::Fail(m, a) => PR::Fail(m, a),
                }
            },
            PR::Fail(m, a) => PR::Fail(m, a),
        }
    } else {
        match p_expr(t, i) {
            PR::Got(e, k) => PR::Got(spanned(t, start, k, StmtKindV::ExprStmt(e)), k),
            PR::Fail(m, a) => PR::Fail(m, a),
        }
    }
}

/// The statements of a block, up to its `}`.
pub open spec fn block_loop(t: Seq<SpannedV>, k: int, ss: Seq<StmtV>) -> PR<Seq<StmtV>>
    decreases t.len() - k,
{
    if k < 0 || k > t.len() {
        stuck()
    } else if tk(t, k) == TokV::RBrace {
        match expect(t, k, TokV::RBrace, "'}'"@) {
            PR::Got(_, k2) => PR::Got(ss, k2),
            PR::Fail(m, a) => PR::Fail(m, a),
        }
    } else if tk(t, k) == TokV::Eof {
        fail_at(t, k, "unexpected end of file inside block"@)
    } else {
        match p_stmt(t, k) {
            PR::Got(s, k2) => if k < k2 <= t.len() {
                block_loop(t, k2, ss.push(s))
            } else {
                stuck()
            },
            PR::Fail(m, a) => PR::Fail(m, a),
        }
    }
}

/// A block `{ stmt* }` at `i`.
#[verifier::opaque]
pub open spec fn p_block(t: Seq<SpannedV>, i: int) -> PR<Seq<StmtV>> {
    match expect(t, i, TokV::LBrace, "'{'"@) {
        PR::Got(_, k) => block_loop(t, k, Seq::empty()),
        PR::Fail(m, a) => PR::Fail(m, a),
    }
}

} // verus!

verus! {

/// Parameters `(name: T, ...)` at `i`.
#[verifier::opaque]
pub open spec fn p_params(t: Seq<SpannedV>, i: int) -> PR<Seq<ParamV>> {
    match expect(t, i, TokV::LParen, "'('"@) {
        PR::Got(_, k) => params_loop(t, k, Seq::empty()),
        PR::Fail(m, a) => PR::Fail(m, a),
    }
}

pub open spec fn params_loop(t: Seq<SpannedV>, k: int, ps: Seq<ParamV>) -> PR<Seq<ParamV>>
    decreases t.len() - k,
{
    if k < 0 || k > t.len() {
        stuck()
    } else if tk(t, k) == TokV::RParen {
        match expect(t, k, TokV::RParen, "')'"@) {
            PR::Got(_, k2) => PR::Got(ps, k2),
            PR::Fail(m, a) => PR::Fail(m, a),
        }
    } else {
        match ident(t, k) {
            PR::Got(name, k1) => match expect(t, k1, TokV::Colon, "':' after parameter name"@) {
                PR::Got(_, k2) => match p_type(t, k2) {
                    PR::Got(ty, k3) => if k < k3 <= t.len() {
                        params_loop(t, eat(t, k3, TokV::Comma), ps.push(ParamV { name, ty }))
                    } else {
                        stuck()
                    },
                    PR::Fail(m, a) => PR::Fail(m, a),
                },
                PR::Fail(m, a) => PR::Fail(m, a),
            },
            PR::Fail(m, a) => PR::Fail(m, a),
        }
    }
}

/// `uses A, B, ...` at `i`, or nothing.
#[verifier::opaque]
pub open spec fn p_effects(t: Seq<SpannedV>, i: int) -> PR<Seq<Seq<char>>> {
    if tk(t, i) == TokV::Uses {
        effects_loop(t, bump(t, i), Seq::empty())
    } else {
        PR::Got(Seq::empty(), i)
    }
}

pub open spec fn effects_loop(t: Seq<SpannedV>, k: int, es: Seq<Seq<char>>) -> PR<Seq<Seq<char>>>
    decreases t.len() - k,
{
    if k < 0 || k > t.len() {
        stuck()
    } else {
        match ident(t, k) {
            PR::Got(e, k1) => if tk(t, k1) == TokV::Comma {
                let k2 = bump(t, k1);
                if k < k2 <= t.len() {
                    effects_loop(t, k2, es.push(e))
                } else {
                    stuck()
                }
            } else {
                PR::Got(es.push(e), k1)
            },
            PR::Fail(m, a) => PR::Fail(m, a),
        }
    }
}

/// `fn name(params) -> T [uses ...] { ... }` at `i`.
#[verifier::opaque]
pub open spec fn p_fn(t: Seq<SpannedV>, i: int) -> PR<ItemV> {
    match ident(t, bump(t, i)) {
        PR::Got(name, k1) => match p_params(t, k1) {
            PR::Got(params, k2) => match expect(t, k2, TokV::Arrow, "'->' before return type"@) {
                PR::Got(_, k3) => match p_type(t, k3) {
                    PR::Got(ret, k4) => match p_effects(t, k4) {
                        PR::Got(effects, k5) => match p_block(t, k5) {
                            PR::Got(body, k6) => PR::Got(ItemV::Fn(name, params, ret, effects, body), k6),
                            PR::Fail(m, a) => PR::Fail(m, a),
                        },
                        PR::Fail(m, a) => PR::Fail(m, a),
                    },
                    PR::Fail(m, a) => PR::Fail(m, a),
                },
                PR::Fail(m, a) => PR::Fail(m, a),
            },
            PR::Fail(m, a) => PR::Fail(m, a),
        },
        PR::Fail(m, a) => PR::Fail(m, a),
    }
}

/// The fields of a tool body, up to its `}`.
/// One field `name: value` of a tool body at `k`.
#[verifier::opaque]
pub open spec fn tool_field(t: Seq<SpannedV>, k: int) -> PR<(Seq<char>, ExprV)> {
    match ident(t, k) {
        PR::Got(name, k1) => match expect(t, k1, TokV::Colon, "':' in tool field"@) {
            PR::Got(_, k2) => match p_expr(t, k2) {
                PR::Got(v, k3) => PR::Got((name, v), k3),
                PR::Fail(m, a) => PR::Fail(m, a),
            },
            PR::Fail(m, a) => PR::Fail(m, a),
        },
        PR::Fail(m, a) => PR::Fail(m, a),
    }
}

pub open spec fn tool_loop(t: Seq<SpannedV>, k: int, names: Seq<Seq<char>>, vals: Seq<ExprV>) -> PR<(Seq<Seq<char>>, Seq<ExprV>)>
    decreases t.len() - k,
{
    if k < 0 || k > t.len() {
        stuck()
    } else if tk(t, k) == TokV::RBrace {
        match expect(t, k, TokV::RBrace, "'}'"@) {
            PR::Got(_, k2) => PR::Got((names, vals), k2),
            PR::Fail(m, a) => PR::Fail(m, a),
        }
    } else {
        match tool_field(t, k) {
            PR::Got((name, v), k3) => if k < k3 <= t.len() {
                tool_loop(t, eat(t, k3, TokV::Comma), names.push(name), vals.push(v))
            } else {
                stuck()
            },
            PR::Fail(m, a) => PR::Fail(m, a),
        }
    }
}

/// `tool name(params) -> T { field: value, ... }` at `i`.
#[verifier::opaque]
pub open spec fn p_tool(t: Seq<SpannedV>, i: int) -> PR<ItemV> {
    match ident(t, bump(t, i)) {
        PR::Got(name, k1) => match p_params(t, k1) {
            PR::Got(params, k2) => match expect(t, k2, TokV::Arrow, "'->' before return type"@) {
                PR::Got(_, k3) => match p_type(t, k3) {
                    PR::Got(ret, k4) => match expect(t, k4, TokV::LBrace, "'{' before tool body"@) {
                        PR::Got(_, k5) => match tool_loop(t, k5, Seq::empty(), Seq::empty()) {
                            PR::Got((names, vals), k6) => PR::Got(ItemV::Tool(name, params, ret, names, vals), k6),
                            PR::Fail(m, a) => PR::Fail(m, a),
                        },
                        PR::Fail(m, a) => PR::Fail(m, a),
                    },
                    PR::Fail(m, a) => PR::Fail(m, a),
                },
                PR::Fail(m, a) => PR::Fail(m, a),
            },
            PR::Fail(m, a) => PR::Fail(m, a),
        },
        PR::Fail(m, a) => PR::Fail(m, a),
    }
}

/// `test "name" { ... }` at `i`.
#[verifier::opaque]
pub open spec fn p_test(t: Seq<SpannedV>, i: int) -> PR<ItemV> {
    let k = bump(t, i);
    match tk(t, k) {
        TokV::Str(name) => match p_block(t, bump(t, k)) {
            PR::Got(body, k2) => PR::Got(ItemV::Test(name, body), k2),
            PR::Fail(m, a) => PR::Fail(m, a),
        },
        _ => found(t, k, "expected test name string, found "@),
    }
}

/// `type Name = T` at `i`.
#[verifier::opaque]
pub open spec fn p_type_alias(t: Seq<SpannedV>, i: int) -> PR<ItemV> {
    match ident(t, bump(t, i)) {
        PR::Got(name, k1) => match expect(t, k1, TokV::Assign, "'=' in type alias"@) {
            PR::Got(_, k2) => match p_type(t, k2) {
                PR::Got(ty, k3) => PR::Got(ItemV::TypeAlias(name, ty), k3),
                PR::Fail(m, a) => PR::Fail(m, a),
            },
            PR::Fail(m, a) => PR::Fail(m, a),
        },
        PR::Fail(m, a) => PR::Fail(m, a),
    }
}

/// The state of an agent so far: field names, types, defaults.
pub struct AgentState {
    pub names: Seq<Seq<char>>,
    pub tys: Seq<TypeExprV>,
    pub defaults: Seq<ExprV>,
}

/// One field `name: T = default` of a state block at `k`.
#[verifier::opaque]
pub open spec fn state_field(t: Seq<SpannedV>, k: int) -> PR<(Seq<char>, TypeExprV, ExprV)> {
    match ident(t, k) {
        PR::Got(name, k1) => match expect(t, k1, TokV::Colon, "':' in state field"@) {
            PR::Got(_, k2) => match p_type(t, k2) {
                PR::Got(ty, k3) => match expect(t, k3, TokV::Assign, "'=' before state default"@) {
                    PR::Got(_, k4) => match p_expr(t, k4) {
                        PR::Got(d, k5) => PR::Got((name, ty, d), k5),
                        PR::Fail(m, a) => PR::Fail(m, a),
                    },
                    PR::Fail(m, a) => PR::Fail(m, a),
                },
                PR::Fail(m, a) => PR::Fail(m, a),
            },
            PR::Fail(m, a) => PR::Fail(m, a),
        },
        PR::Fail(m, a) => PR::Fail(m, a),
    }
}

/// The fields of a `state { ... }` block, up to its `}`.
pub open spec fn state_loop(t: Seq<SpannedV>, k: int, st: AgentState) -> PR<AgentState>
    decreases t.len() - k,
{
    if k < 0 || k > t.len() {
        stuck()
    } else if tk(t, k) == TokV::RBrace {
        match expect(t, k, TokV::RBrace, "'}' after state block"@) {
            PR::Got(_, k2) => PR::Got(st, k2),
            PR::Fail(m, a) => PR::Fail(m, a),
        }
    } else {
        match state_field(t, k) {
            PR::Got((name, ty, d), k5) => if k < k5 <= t.len() {
                state_loop(
                    t,
                    eat(t, k5, TokV::Comma),
                    AgentState {
                        names: st.names.push(name),
                        tys: st.tys.push(ty),
                        defaults: st.defaults.push(d),
                    },
                )
            } else {
                stuck()
            },
            PR::Fail(m, a) => PR::Fail(m, a),
        }
    }
}

/// The body of an agent: state blocks and fns, up to its `}`.
pub open spec fn agent_loop(t: Seq<SpannedV>, k: int, st: AgentState, fns: Seq<ItemV>) -> PR<(AgentState, Seq<ItemV>)>
    decreases t.len() - k,
{
    if k < 0 || k > t.len() {
        stuck()
    } else if tk(t, k) == TokV::RBrace {
        match expect(t, k, TokV::RBrace, "'}' after agent body"@) {
            PR::Got(_, k2) => PR::Got((st, fns), k2),
            PR::Fail(m, a) => PR::Fail(m, a),
        }
    } else if tk(t, k) == TokV::Eof {
        fail_at(t, k, "unexpected end of file inside agent"@)
    } else if tk(t, k) == TokV::State {
        match expect(t, bump(t, k), TokV::LBrace, "'{' before state block"@) {
            PR::Got(_, k1) => match state_loop(t, k1, st) {
                PR::Got(st2, k2) => if k < k2 <= t.len() {
                    agent_loop(t, k2, st2, fns)
                } else {
                    stuck()
                },
                PR::Fail(m, a) => PR::Fail(m, a),
            },
            PR::Fail(m, a) => PR::Fail(m, a),
        }
    } else if tk(t, k) == TokV::Fn {
        match p_fn(t, k) {
            PR::Got(f, k2) => if k < k2 <= t.len() {
                agent_loop(t, k2, st, fns.push(f))
            } else {
                stuck()
            },
            PR::Fail(m, a) => PR::Fail(m, a),
        }
    } else {
        found(t, k, "expected `state` or `fn` inside agent, found "@)
    }
}

/// `agent Name { ... }` at `i`.
#[verifier::opaque]
pub open spec fn p_agent(t: Seq<SpannedV>, i: int) -> PR<ItemV> {
    match ident(t, bump(t, i)) {
        PR::Got(name, k1) => match expect(t, k1, TokV::LBrace, "'{' before agent body"@) {
            PR::Got(_, k2) => match agent_loop(
                t,
                k2,
                AgentState { names: Seq::empty(), tys: Seq::empty(), defaults: Seq::empty() },
                Seq::empty(),
            ) {
                PR::Got((st, fns), k3) => PR::Got(
                    ItemV::Agent(name, st.names, st.tys, st.defaults, fns),
                    k3,
                ),
                PR::Fail(m, a) => PR::Fail(m, a),
            },
            PR::Fail(m, a) => PR::Fail(m, a),
        },
        PR::Fail(m, a) => PR::Fail(m, a),
    }
}

/// An item at `i`.
#[verifier::opaque]
pub open spec fn p_item(t: Seq<SpannedV>, i: int) -> PR<ItemV> {
    match tk(t, i) {
        TokV::Type => p_type_alias(t, i),
        TokV::Fn => p_fn(t, i),
        TokV::Tool => p_tool(t, i),
        TokV::Test => p_test(t, i),
        TokV::Agent => p_agent(t, i),
        _ => found(t, i, "expected item (type/fn/tool/test), found "@),
    }
}

/// The items from `k` up to the `Eof`.
pub open spec fn program_loop(t: Seq<SpannedV>, k: int, items: Seq<ItemV>) -> PR<Seq<ItemV>>
    decreases t.len() - k,
{
    if k < 0 || k > t.len() {
        stuck()
    } else if tk(t, k) == TokV::Eof {
        PR::Got(items, k)
    } else {
        match p_item(t, k) {
            PR::Got(it, k2) => if k < k2 <= t.len() {
                program_loop(t, k2, items.push(it))
            } else {
                stuck()
            },
            PR::Fail(m, a) => PR::Fail(m, a),
        }
    }
}

/// The program a token list spells, or the first syntax error.
pub open spec fn parse_v(t: Seq<SpannedV>) -> Result<Seq<ItemV>, (Seq<char>, nat)> {
    match program_loop(t, 0, Seq::empty()) {
        PR::Got(items, _) => Ok(items),
        PR::Fail(m, a) => Err((m, a)),
    }
}

} // verus!

verus! {

/// `a` is the start of one of the tokens `t`, or 0.
pub open spec fn at_ok(t: Seq<SpannedV>, a: nat) -> bool {
    a == 0 || exists|j: int| 0 <= j < t.len() && #[trigger] t[j].start == a
}

/// A parse result that is an error is reported at a token's start (or 0).
pub open spec fn pr_ok<T>(t: Seq<SpannedV>, r: PR<T>) -> bool {
    match r {
        PR::Fail(_, a) => at_ok(t, a),
        PR::Got(_, _) => true,
    }
}

/// A parse that succeeds ends at or after where it started.
pub open spec fn got_ge<T>(r: PR<T>, i: int) -> bool {
    r is Got ==> r->Got_1 >= i
}

// Each `lemma_*_ok` below walks the cases of one grammar function and
// names every sub-parse it makes, so that the fact already known of that
// sub-parse (an earlier function at this position, or any function further
// on) is brought in.
proof fn lemma_helpers_ok(t: Seq<SpannedV>)
    ensures
        forall|i: int| at_ok(t, #[trigger] at_pos(t, i)),
        forall|i: int, k: TokV, what: Seq<char>| pr_ok(t, #[trigger] expect(t, i, k, what)),
        forall|i: int| pr_ok(t, #[trigger] ident(t, i)),
        forall|i: int| #[trigger] bump(t, i) >= i,
        forall|i: int, k: TokV| #[trigger] eat(t, i, k) >= i,
        forall|i: int, k: TokV, what: Seq<char>|
            #[trigger] expect(t, i, k, what) is Got ==> expect(t, i, k, what)->Got_1 >= i,
        forall|i: int| #[trigger] ident(t, i) is Got ==> ident(t, i)->Got_1 >= i,
{
    assert forall|i: int| at_ok(t, #[trigger] at_pos(t, i)) by {
        if 0 <= i < t.len() {
            assert(t[i].start == at_pos(t, i));
        }
    }
}

spec fn ok_lambda_params(t: Seq<SpannedV>, n: int) -> bool {
    forall|k: int, ps: Seq<Seq<char>>| t.len() - k <= n ==> pr_ok(t, #[trigger] lambda_params(t, k, ps)) && got_ge(lambda_params(t, k, ps), k)
}

spec fn ok_merge_loop(t: Seq<SpannedV>, n: int) -> bool {
    forall|k: int, l: ExprV| t.len() - k <= n ==> pr_ok(t, #[trigger] merge_loop(t, k, l)) && got_ge(merge_loop(t, k, l), k)
}

spec fn ok_or_loop(t: Seq<SpannedV>, n: int) -> bool {
    forall|k: int, l: ExprV| t.len() - k <= n ==> pr_ok(t, #[trigger] or_loop(t, k, l)) && got_ge(or_loop(t, k, l), k)
}

spec fn ok_and_loop(t: Seq<SpannedV>, n: int) -> bool {
    forall|k: int, l: ExprV| t.len() - k <= n ==> pr_ok(t, #[trigger] and_loop(t, k, l)) && got_ge(and_loop(t, k, l), k)
}

spec fn ok_rel_loop(t: Seq<SpannedV>, n: int) -> bool {
    forall|k: int, l: ExprV| t.len() - k <= n ==> pr_ok(t, #[trigger] rel_loop(t, k, l)) && got_ge(rel_loop(t, k, l), k)
}

spec fn ok_add_loop(t: Seq<SpannedV>, n: int) -> bool {
    forall|k: int, l: ExprV| t.len() - k <= n ==> pr_ok(t, #[trigger] add_loop(t, k, l)) && got_ge(add_loop(t, k, l), k)
}

spec fn ok_mul_loop(t: Seq<SpannedV>, n: int) -> bool {
    forall|k: int, l: ExprV| t.len() - k <= n ==> pr_ok(t, #[trigger] mul_loop(t, k, l)) && got_ge(mul_loop(t, k, l), k)
}

spec fn ok_p_call_args(t: Seq<SpannedV>, n: int) -> bool {
    forall|i: int| t.len() - i <= n ==> pr_ok(t, #[trigger] p_call_args(t, i)) && got_ge(p_call_args(t, i), i)
}

spec fn ok_route_loop(t: Seq<SpannedV>, n: int) -> bool {
    forall|k: int, labels: Seq<Seq<char>>, models: Seq<Seq<char>>, conds: Seq<Option<ExprV>>| t.len() - k <= n ==> pr_ok(t, #[trigger] route_loop(t, k, labels, models, conds)) && got_ge(route_loop(t, k, labels, models, conds), k)
}

spec fn ok_with_loop(t: Seq<SpannedV>, n: int) -> bool {
    forall|k: int, prompt: ExprV, keys: Seq<Seq<char>>, vals: Seq<ExprV>, repair: bool| t.len() - k <= n ==> pr_ok(t, #[trigger] with_loop(t, k, prompt, keys, vals, repair)) && got_ge(with_loop(t, k, prompt, keys, vals, repair), k)
}

spec fn ok_par_map_tail(t: Seq<SpannedV>, n: int) -> bool {
    forall|k: int, coll: ExprV, kn: Seq<Seq<char>>, kv: Seq<ExprV>| t.len() - k <= n ==> pr_ok(t, #[trigger] par_map_tail(t, k, coll, kn, kv)) && got_ge(par_map_tail(t, k, coll, kn, kv), k)
}

spec fn ok_postfix_loop(t: Seq<SpannedV>, n: int) -> bool {
    forall|k: int, e: ExprV| t.len() - k <= n ==> pr_ok(t, #[trigger] postfix_loop(t, k, e)) && got_ge(postfix_loop(t, k, e), k)
}

spec fn ok_p_primary(t: Seq<SpannedV>, n: int) -> bool {
    forall|i: int| t.len() - i <= n ==> pr_ok(t, #[trigger] p_primary(t, i)) && got_ge(p_primary(t, i), i)
}

spec fn ok_p_par(t: Seq<SpannedV>, n: int) -> bool {
    forall|k: int| t.len() - k <= n ==> pr_ok(t, #[trigger] p_par(t, k)) && got_ge(p_par(t, k), k)
}

spec fn ok_p_postfix(t: Seq<SpannedV>, n: int) -> bool {
    forall|i: int| t.len() - i <= n ==> pr_ok(t, #[trigger] p_postfix(t, i)) && got_ge(p_postfix(t, i), i)
}

spec fn ok_p_unary(t: Seq<SpannedV>, n: int) -> bool {
    forall|i: int| t.len() - i <= n ==> pr_ok(t, #[trigger] p_unary(t, i)) && got_ge(p_unary(t, i), i)
}

spec fn ok_p_mul(t: Seq<SpannedV>, n: int) -> bool {
    forall|i: int| t.len() - i <= n ==> pr_ok(t, #[trigger] p_mul(t, i)) && got_ge(p_mul(t, i), i)
}

spec fn ok_p_add(t: Seq<SpannedV>, n: int) -> bool {
    forall|i: int| t.len() - i <= n ==> pr_ok(t, #[trigger] p_add(t, i)) && got_ge(p_add(t, i), i)
}

spec fn ok_p_rel(t: Seq<SpannedV>, n: int) -> bool {
    forall|i: int| t.len() - i <= n ==> pr_ok(t, #[trigger] p_rel(t, i)) && got_ge(p_rel(t, i), i)
}

spec fn ok_p_and(t: Seq<SpannedV>, n: int) -> bool {
    forall|i: int| t.len() - i <= n ==> pr_ok(t, #[trigger] p_and(t, i)) && got_ge(p_and(t, i), i)
}

spec fn ok_p_or(t: Seq<SpannedV>, n: int) -> bool {
    forall|i: int| t.len() - i <= n ==> pr_ok(t, #[trigger] p_or(t, i)) && got_ge(p_or(t, i), i)
}

spec fn ok_p_merge(t: Seq<SpannedV>, n: int) -> bool {
    forall|i: int| t.len() - i <= n ==> pr_ok(t, #[trigger] p_merge(t, i)) && got_ge(p_merge(t, i), i)
}

spec fn ok_p_expr(t: Seq<SpannedV>, n: int) -> bool {
    forall|i: int| t.len() - i <= n ==> pr_ok(t, #[trigger] p_expr(t, i)) && got_ge(p_expr(t, i), i)
}

spec fn ok_args_loop(t: Seq<SpannedV>, n: int) -> bool {
    forall|k: int, args: Seq<ExprV>, kn: Seq<Seq<char>>, kv: Seq<ExprV>| t.len() - k <= n ==> pr_ok(t, #[trigger] args_loop(t, k, args, kn, kv)) && got_ge(args_loop(t, k, args, kn, kv), k)
}

spec fn ok_list_loop(t: Seq<SpannedV>, n: int) -> bool {
    forall|k: int, xs: Seq<ExprV>| t.len() - k <= n ==> pr_ok(t, #[trigger] list_loop(t, k, xs)) && got_ge(list_loop(t, k, xs), k)
}

spec fn ok_record_loop(t: Seq<SpannedV>, n: int) -> bool {
    forall|k: int, names: Seq<Seq<char>>, tys: Seq<TypeExprV>| t.len() - k <= n ==> pr_ok(t, #[trigger] record_loop(t, k, names, tys)) && got_ge(record_loop(t, k, names, tys), k)
}

spec fn ok_refine_args(t: Seq<SpannedV>, n: int) -> bool {
    forall|k: int, args: Seq<ExprV>| t.len() - k <= n ==> pr_ok(t, #[trigger] refine_args(t, k, args)) && got_ge(refine_args(t, k, args), k)
}

spec fn ok_p_type(t: Seq<SpannedV>, n: int) -> bool {
    forall|i: int| t.len() - i <= n ==> pr_ok(t, #[trigger] p_type(t, i)) && got_ge(p_type(t, i), i)
}

spec fn ok_let_tail(t: Seq<SpannedV>, n: int) -> bool {
    forall|i: int, start: nat, stream: bool| t.len() - i <= n ==> pr_ok(t, #[trigger] let_tail(t, i, start, stream)) && got_ge(let_tail(t, i, start, stream), i)
}

spec fn ok_p_stmt(t: Seq<SpannedV>, n: int) -> bool {
    forall|i: int| t.len() - i <= n ==> pr_ok(t, #[trigger] p_stmt(t, i)) && got_ge(p_stmt(t, i), i)
}

spec fn ok_block_loop(t: Seq<SpannedV>, n: int) -> bool {
    forall|k: int, ss: Seq<StmtV>| t.len() - k <= n ==> pr_ok(t, #[trigger] block_loop(t, k, ss)) && got_ge(block_loop(t, k, ss), k)
}

spec fn ok_p_block(t: Seq<SpannedV>, n: int) -> bool {
    forall|i: int| t.len() - i <= n ==> pr_ok(t, #[trigger] p_block(t, i)) && got_ge(p_block(t, i), i)
}

spec fn ok_params_loop(t: Seq<SpannedV>, n: int) -> bool {
    forall|k: int, ps: Seq<ParamV>| t.len() - k <= n ==> pr_ok(t, #[trigger] params_loop(t, k, ps)) && got_ge(params_loop(t, k, ps), k)
}

spec fn ok_p_params(t: Seq<SpannedV>, n: int) -> bool {
    forall|i: int| t.len() - i <= n ==> pr_ok(t, #[trigger] p_params(t, i)) && got_ge(p_params(t, i), i)
}

spec fn ok_effects_loop(t: Seq<SpannedV>, n: int) -> bool {
    forall|k: int, es: Seq<Seq<char>>| t.len() - k <= n ==> pr_ok(t, #[trigger] effects_loop(t, k, es)) && got_ge(effects_loop(t, k, es), k)
}

spec fn ok_p_effects(t: Seq<SpannedV>, n: int) -> bool {
    forall|i: int| t.len() - i <= n ==> pr_ok(t, #[trigger] p_effects(t, i)) && got_ge(p_effects(t, i), i)
}

spec fn ok_p_fn(t: Seq<SpannedV>, n: int) -> bool {
    forall|i: int| t.len() - i <= n ==> pr_ok(t, #[trigger] p_fn(t, i)) && got_ge(p_fn(t, i), i)
}

spec fn ok_tool_field(t: Seq<SpannedV>, n: int) -> bool {
    forall|k: int| t.len() - k <= n ==> pr_ok(t, #[trigger] tool_field(t, k)) && got_ge(tool_field(t, k), k)
}

spec fn ok_tool_loop(t: Seq<SpannedV>, n: int) -> bool {
    forall|k: int, names: Seq<Seq<char>>, vals: Seq<ExprV>| t.len() - k <= n ==> pr_ok(t, #[trigger] tool_loop(t, k, names, vals)) && got_ge(tool_loop(t, k, names, vals), k)
}

spec fn ok_p_tool(t: Seq<SpannedV>, n: int) -> bool {
    forall|i: int| t.len() - i <= n ==> pr_ok(t, #[trigger] p_tool(t, i)) && got_ge(p_tool(t, i), i)
}

spec fn ok_p_test(t: Seq<SpannedV>, n: int) -> bool {
    forall|i: int| t.len() - i <= n ==> pr_ok(t, #[trigger] p_test(t, i)) && got_ge(p_test(t, i), i)
}

spec fn ok_p_type_alias(t: Seq<SpannedV>, n: int) -> bool {
    forall|i: int| t.len() - i <= n ==> pr_ok(t, #[trigger] p_type_alias(t, i)) && got_ge(p_type_alias(t, i), i)
}

spec fn ok_state_field(t: Seq<SpannedV>, n: int) -> bool {
    forall|k: int| t.len() - k <= n ==> pr_ok(t, #[trigger] state_field(t, k)) && got_ge(state_field(t, k), k)
}

spec fn ok_state_loop(t: Seq<SpannedV>, n: int) -> bool {
    forall|k: int, st: AgentState| t.len() - k <= n ==> pr_ok(t, #[trigger] state_loop(t, k, st)) && got_ge(state_loop(t, k, st), k)
}

spec fn ok_agent_loop(t: Seq<SpannedV>, n: int) -> bool {
    forall|k: int, st: AgentState, fns: Seq<ItemV>| t.len() - k <= n ==> pr_ok(t, #[trigger] agent_loop(t, k, st, fns)) && got_ge(agent_loop(t, k, st, fns), k)
}

spec fn ok_p_agent(t: Seq<SpannedV>, n: int) -> bool {
    forall|i: int| t.len() - i <= n ==> pr_ok(t, #[trigger] p_agent(t, i)) && got_ge(p_agent(t, i), i)
}

spec fn ok_p_item(t: Seq<SpannedV>, n: int) -> bool {
    forall|i: int| t.len() - i <= n ==> pr_ok(t, #[trigger] p_item(t, i)) && got_ge(p_item(t, i), i)
}

spec fn ok_program_loop(t: Seq<SpannedV>, n: int) -> bool {
    forall|k: int, items: Seq<ItemV>| t.len() - k <= n ==> pr_ok(t, #[trigger] program_loop(t, k, items)) && got_ge(program_loop(t, k, items), k)
}

#[verifier::spinoff_prover]
#[verifier::rlimit(100)]
proof fn lemma_lambda_params_ok(t: Seq<SpannedV>, n: int)
    requires
        n >= 0 ==> ok_lambda_params(t, n - 1),
    ensures
        ok_lambda_params(t, n),
{
    lemma_helpers_ok(t);
    assert forall|k: int, ps: Seq<Seq<char>>| t.len() - k <= n implies pr_ok(t, #[trigger] lambda_params(t, k, ps)) && got_ge(lambda_params(t, k, ps), k) by {
        let _r = {
            if k < 0 || k > t.len() {
                stuck()
            } else if tk(t, k) == TokV::RParen {
                { assert(pr_ok(t, expect(t, k, TokV::RParen, "')'"@))); match expect(t, k, TokV::RParen, "')'"@) {
                    PR::Got(_, k2) => PR::Got(ps, k2),
                    PR::Fail(m, a) => PR::Fail(m, a),
                } }
            } else {
                { assert(pr_ok(t, ident(t, k))); match ident(t, k) {
                    PR::Got(p, k2) => if k < k2 <= t.len() {
                        { assert(pr_ok(t, lambda_params(t, eat(t, k2, TokV::Comma), ps.push(p)))); lambda_params(t, eat(t, k2, TokV::Comma), ps.push(p)) }
                    } else {
                        stuck()
                    },
                    PR::Fail(m, a) => PR::Fail(m, a),
                } }
            }
        };
    }
}

#[verifier::spinoff_prover]
#[verifier::rlimit(100)]
proof fn lemma_merge_loop_ok(t: Seq<SpannedV>, n: int)
    requires
        n >= 0 ==> ok_merge_loop(t, n - 1),
        n >= 0 ==> ok_p_or(t, n - 1),
    ensures
        ok_merge_loop(t, n),
{
    lemma_helpers_ok(t);
    assert forall|k: int, l: ExprV| t.len() - k <= n implies pr_ok(t, #[trigger] merge_loop(t, k, l)) && got_ge(merge_loop(t, k, l), k) by {
        let _r = {
            if k < 0 || k > t.len() {
                stuck()
            } else if tk(t, k) == TokV::Bar && is_word(t, k + 1, "merge"@) {
                let k2 = bump(t, bump(t, k));
                if !(k < k2) {
                    stuck()
                } else {
                    { assert(pr_ok(t, p_or(t, k2))); match p_or(t, k2) {
                        PR::Got(r, k3) => if k2 < k3 <= t.len() {
                            { assert(pr_ok(t, merge_loop(t, k3, ExprV::Merge(Box::new(l), Box::new(r))))); merge_loop(t, k3, ExprV::Merge(Box::new(l), Box::new(r))) }
                        } else {
                            stuck()
                        },
                        PR::Fail(m, a) => PR::Fail(m, a),
                    } }
                }
            } else {
                PR::Got(l, k)
            }
        };
    }
}

#[verifier::spinoff_prover]
#[verifier::rlimit(100)]
proof fn lemma_or_loop_ok(t: Seq<SpannedV>, n: int)
    requires
        n >= 0 ==> ok_or_loop(t, n - 1),
        n >= 0 ==> ok_p_and(t, n - 1),
    ensures
        ok_or_loop(t, n),
{
    lemma_helpers_ok(t);
    assert forall|k: int, l: ExprV| t.len() - k <= n implies pr_ok(t, #[trigger] or_loop(t, k, l)) && got_ge(or_loop(t, k, l), k) by {
        let _r = {
            if k < 0 || k > t.len() {
                stuck()
            } else if tk(t, k) == TokV::Or {
                let k2 = bump(t, k);
                if !(k < k2) {
                    stuck()
                } else {
                    { assert(pr_ok(t, p_and(t, k2))); match p_and(t, k2) {
                        PR::Got(r, k3) => if k2 < k3 <= t.len() {
                            { assert(pr_ok(t, or_loop(t, k3, ExprV::Binary(BinOp::Or, Box::new(l), Box::new(r))))); or_loop(t, k3, ExprV::Binary(BinOp::Or, Box::new(l), Box::new(r))) }
                        } else {
                            stuck()
                        },
                        PR::Fail(m, a) => PR::Fail(m, a),
                    } }
                }
            } else {
                PR::Got(l, k)
            }
        };
    }
}

#[verifier::spinoff_prover]
#[verifier::rlimit(100)]
proof fn lemma_and_loop_ok(t: Seq<SpannedV>, n: int)
    requires
        n >= 0 ==> ok_and_loop(t, n - 1),
        n >= 0 ==> ok_p_rel(t, n - 1),
    ensures
        ok_and_loop(t, n),
{
    lemma_helpers_ok(t);
    assert forall|k: int, l: ExprV| t.len() - k <= n implies pr_ok(t, #[trigger] and_loop(t, k, l)) && got_ge(and_loop(t, k, l), k) by {
        let _r = {
            if k < 0 || k > t.len() {
                stuck()
            } else if tk(t, k) == TokV::And {
                let k2 = bump(t, k);
                if !(k < k2) {
                    stuck()
                } else {
                    { assert(pr_ok(t, p_rel(t, k2))); match p_rel(t, k2) {
                        PR::Got(r, k3) => if k2 < k3 <= t.len() {
                            { assert(pr_ok(t, and_loop(t, k3, ExprV::Binary(BinOp::And, Box::new(l), Box::new(r))))); and_loop(t, k3, ExprV::Binary(BinOp::And, Box::new(l), Box::new(r))) }
                        } else {
                            stuck()
                        },
                        PR::Fail(m, a) => PR::Fail(m, a),
                    } }
                }
            } else {
                PR::Got(l, k)
            }
        };
    }
}

#[verifier::spinoff_prover]
#[verifier::rlimit(100)]
proof fn lemma_rel_loop_ok(t: Seq<SpannedV>, n: int)
    requires
        n >= 0 ==> ok_p_add(t, n - 1),
        n >= 0 ==> ok_rel_loop(t, n - 1),
    ensures
        ok_rel_loop(t, n),
{
    lemma_helpers_ok(t);
    assert forall|k: int, l: ExprV| t.len() - k <= n implies pr_ok(t, #[trigger] rel_loop(t, k, l)) && got_ge(rel_loop(t, k, l), k) by {
        let _r = {
            if k < 0 || k > t.len() {
                stuck()
            } else if rel_op(tk(t, k)) is Some || is_word(t, k, "zip"@) {
                let k2 = bump(t, k);
                if !(k < k2) {
                    stuck()
                } else {
                    { assert(pr_ok(t, p_add(t, k2))); match p_add(t, k2) {
                        PR::Got(r, k3) => if k2 < k3 <= t.len() {
                            { assert(pr_ok(t, rel_loop(
                                t,
                                k3,
                                match rel_op(tk(t, k)) {
                                    Some(op) => ExprV::Binary(op, Box::new(l), Box::new(r)),
                                    None => ExprV::Call(
                                        Box::new(ExprV::Ident("zip"@)),
                                        seq![l, r],
                                        Seq::empty(),
                                        Seq::empty(),
                                    ),
                                },
                            ))); rel_loop(
                                t,
                                k3,
                                match rel_op(tk(t, k)) {
                                    Some(op) => ExprV::Binary(op, Box::new(l), Box::new(r)),
                                    None => ExprV::Call(
                                        Box::new(ExprV::Ident("zip"@)),
                                        seq![l, r],
                                        Seq::empty(),
                                        Seq::empty(),
                                    ),
                                },
                            ) }
                        } else {
                            stuck()
                        },
                        PR::Fail(m, a) => PR::Fail(m, a),
                    } }
                }
            } else {
                PR::Got(l, k)
            }
        };
    }
}

#[verifier::spinoff_prover]
#[verifier::rlimit(100)]
proof fn lemma_add_loop_ok(t: Seq<SpannedV>, n: int)
    requires
        n >= 0 ==> ok_add_loop(t, n - 1),
        n >= 0 ==> ok_p_mul(t, n - 1),
    ensures
        ok_add_loop(t, n),
{
    lemma_helpers_ok(t);
    assert forall|k: int, l: ExprV| t.len() - k <= n implies pr_ok(t, #[trigger] add_loop(t, k, l)) && got_ge(add_loop(t, k, l), k) by {
        let _r = {
            if k < 0 || k > t.len() {
                stuck()
            } else {
                match add_op(tk(t, k)) {
                    Some(op) => {
                        let k2 = bump(t, k);
                        if !(k < k2) {
                            stuck()
                        } else {
                            { assert(pr_ok(t, p_mul(t, k2))); match p_mul(t, k2) {
                                PR::Got(r, k3) => if k2 < k3 <= t.len() {
                                    { assert(pr_ok(t, add_loop(t, k3, ExprV::Binary(op, Box::new(l), Box::new(r))))); add_loop(t, k3, ExprV::Binary(op, Box::new(l), Box::new(r))) }
                                } else {
                                    stuck()
                                },
                                PR::Fail(m, a) => PR::Fail(m, a),
                            } }
                        }
                    },
                    None => PR::Got(l, k),
                }
            }
        };
    }
}

#[verifier::spinoff_prover]
#[verifier::rlimit(100)]
proof fn lemma_mul_loop_ok(t: Seq<SpannedV>, n: int)
    requires
        n >= 0 ==> ok_mul_loop(t, n - 1),
        n >= 0 ==> ok_p_unary(t, n - 1),
    ensures
        ok_mul_loop(t, n),
{
    lemma_helpers_ok(t);
    assert forall|k: int, l: ExprV| t.len() - k <= n implies pr_ok(t, #[trigger] mul_loop(t, k, l)) && got_ge(mul_loop(t, k, l), k) by {
        let _r = {
            if k < 0 || k > t.len() {
                stuck()
            } else {
                match mul_op(tk(t, k)) {
                    Some(op) => {
                        let k2 = bump(t, k);
                        if !(k < k2) {
                            stuck()
                        } else {
                            { assert(pr_ok(t, p_unary(t, k2))); match p_unary(t, k2) {
                                PR::Got(r, k3) => if k2 < k3 <= t.len() {
                                    { assert(pr_ok(t, mul_loop(t, k3, ExprV::Binary(op, Box::new(l), Box::new(r))))); mul_loop(t, k3, ExprV::Binary(op, Box::new(l), Box::new(r))) }
                                } else {
                                    stuck()
                                },
                                PR::Fail(m, a) => PR::Fail(m, a),
                            } }
                        }
                    },
                    None => PR::Got(l, k),
                }
            }
        };
    }
}

#[verifier::spinoff_prover]
#[verifier::rlimit(100)]
proof fn lemma_p_call_args_ok(t: Seq<SpannedV>, n: int)
    requires
        n >= 0 ==> ok_args_loop(t, n - 1),
    ensures
        ok_p_call_args(t, n),
{
    lemma_helpers_ok(t);
    assert forall|i: int| t.len() - i <= n implies pr_ok(t, #[trigger] p_call_args(t, i)) && got_ge(p_call_args(t, i), i) by {
        let _r = {
            if i < 0 || i > t.len() {
                stuck()
            } else {
                { assert(pr_ok(t, expect(t, i, TokV::LParen, "'('"@))); match expect(t, i, TokV::LParen, "'('"@) {
                    PR::Got(_, k) => if i < k <= t.len() {
                        { assert(pr_ok(t, args_loop(t, k, Seq::empty(), Seq::empty(), Seq::empty()))); args_loop(t, k, Seq::empty(), Seq::empty(), Seq::empty()) }
                    } else {
                        stuck()
                    },
                    PR::Fail(m, a) => PR::Fail(m, a),
                } }
            }
        };
    }
}

#[verifier::spinoff_prover]
#[verifier::rlimit(100)]
proof fn lemma_route_loop_ok(t: Seq<SpannedV>, n: int)
    requires
        n >= 0 ==> ok_p_expr(t, n - 1),
        n >= 0 ==> ok_route_loop(t, n - 1),
    ensures
        ok_route_loop(t, n),
{
    lemma_helpers_ok(t);
    assert forall|k: int, labels: Seq<Seq<char>>, models: Seq<Seq<char>>, conds: Seq<Option<ExprV>>| t.len() - k <= n implies pr_ok(t, #[trigger] route_loop(t, k, labels, models, conds)) && got_ge(route_loop(t, k, labels, models, conds), k) by {
        let _r = {
            if k < 0 || k > t.len() {
                stuck()
            } else if tk(t, k) == TokV::RBrace {
                { assert(pr_ok(t, expect(t, k, TokV::RBrace, "'}' after route block"@))); match expect(t, k, TokV::RBrace, "'}' after route block"@) {
                    PR::Got(_, k2) => PR::Got(ExprV::Route(labels, models, conds), k2),
                    PR::Fail(m, a) => PR::Fail(m, a),
                } }
            } else {
                { assert(pr_ok(t, ident(t, k))); match ident(t, k) {
                    PR::Got(label, k1) => { assert(pr_ok(t, expect(t, k1, TokV::Colon, "':' in route arm"@))); match expect(t, k1, TokV::Colon, "':' in route arm"@) {
                        PR::Got(_, k2) => match tk(t, k2) {
                            TokV::Str(model) => {
                                let k3 = bump(t, k2);
                                if is_word(t, k3, "when"@) {
                                    let k4 = bump(t, k3);
                                    if !(k < k4) {
                                        stuck()
                                    } else {
                                        { assert(pr_ok(t, p_expr(t, k4))); match p_expr(t, k4) {
                                            PR::Got(c, k5) => if k < k5 <= t.len() {
                                                { assert(pr_ok(t, route_loop(
                                                    t,
                                                    eat(t, k5, TokV::Comma),
                                                    labels.push(label),
                                                    models.push(model),
                                                    conds.push(Some(c)),
                                                ))); route_loop(
                                                    t,
                                                    eat(t, k5, TokV::Comma),
                                                    labels.push(label),
                                                    models.push(model),
                                                    conds.push(Some(c)),
                                                ) }
                                            } else {
                                                stuck()
                                            },
                                            PR::Fail(m, a) => PR::Fail(m, a),
                                        } }
                                    }
                                } else if is_word(t, k3, "otherwise"@) {
                                    let k4 = bump(t, k3);
                                    if !(k < k4) {
                                        stuck()
                                    } else {
                                        { assert(pr_ok(t, route_loop(
                                            t,
                                            eat(t, k4, TokV::Comma),
                                            labels.push(label),
                                            models.push(model),
                                            conds.push(None),
                                        ))); route_loop(
                                            t,
                                            eat(t, k4, TokV::Comma),
                                            labels.push(label),
                                            models.push(model),
                                            conds.push(None),
                                        ) }
                                    }
                                } else {
                                    fail_at(t, k3, "expected `when <cond>` or `otherwise` in route arm"@)
                                }
                            },
                            _ => found(t, k2, "expected model string in route arm, found "@),
                        },
                        PR::Fail(m, a) => PR::Fail(m, a),
                    } },
                    PR::Fail(m, a) => PR::Fail(m, a),
                } }
            }
        };
    }
}

#[verifier::spinoff_prover]
#[verifier::rlimit(100)]
proof fn lemma_with_loop_ok(t: Seq<SpannedV>, n: int)
    requires
        n >= 0 ==> ok_p_expr(t, n - 1),
        n >= 0 ==> ok_with_loop(t, n - 1),
    ensures
        ok_with_loop(t, n),
{
    lemma_helpers_ok(t);
    assert forall|k: int, prompt: ExprV, keys: Seq<Seq<char>>, vals: Seq<ExprV>, repair: bool| t.len() - k <= n implies pr_ok(t, #[trigger] with_loop(t, k, prompt, keys, vals, repair)) && got_ge(with_loop(t, k, prompt, keys, vals, repair), k) by {
        let _r = {
            if k < 0 || k > t.len() {
                stuck()
            } else if tk(t, k) == TokV::RBrace {
                { assert(pr_ok(t, expect(t, k, TokV::RBrace, "'}'"@))); match expect(t, k, TokV::RBrace, "'}'"@) {
                    PR::Got(_, k2) => PR::Got(
                        ExprV::LlmCall(Box::new(prompt), keys, vals, repair),
                        k2,
                    ),
                    PR::Fail(m, a) => PR::Fail(m, a),
                } }
            } else {
                { assert(pr_ok(t, ident(t, k))); match ident(t, k) {
                    PR::Got(key, k1) => { assert(pr_ok(t, expect(t, k1, TokV::Colon, "':' in with-block"@))); match expect(t, k1, TokV::Colon, "':' in with-block"@) {
                        PR::Got(_, k2) => if !(k < k2) {
                            stuck()
                        } else {
                            { assert(pr_ok(t, p_expr(t, k2))); match p_expr(t, k2) {
                                PR::Got(v, k3) => if k < k3 <= t.len() {
                                    let rep = tk(t, k3) == TokV::With && is_word(t, k3 + 1, "repair"@);
                                    let k4 = if rep {
                                        bump(t, bump(t, k3))
                                    } else {
                                        k3
                                    };
                                    { assert(pr_ok(t, with_loop(
                                        t,
                                        eat(t, k4, TokV::Comma),
                                        prompt,
                                        keys.push(key),
                                        vals.push(v),
                                        repair || rep,
                                    ))); with_loop(
                                        t,
                                        eat(t, k4, TokV::Comma),
                                        prompt,
                                        keys.push(key),
                                        vals.push(v),
                                        repair || rep,
                                    ) }
                                } else {
                                    stuck()
                                },
                                PR::Fail(m, a) => PR::Fail(m, a),
                            } }
                        },
                        PR::Fail(m, a) => PR::Fail(m, a),
                    } },
                    PR::Fail(m, a) => PR::Fail(m, a),
                } }
            }
        };
    }
}

#[verifier::spinoff_prover]
#[verifier::rlimit(100)]
proof fn lemma_par_map_tail_ok(t: Seq<SpannedV>, n: int)
    requires
        n >= 0 ==> ok_p_expr(t, n - 1),
        ok_lambda_params(t, n),
    ensures
        ok_par_map_tail(t, n),
{
    lemma_helpers_ok(t);
    assert forall|k: int, coll: ExprV, kn: Seq<Seq<char>>, kv: Seq<ExprV>| t.len() - k <= n implies pr_ok(t, #[trigger] par_map_tail(t, k, coll, kn, kv)) && got_ge(par_map_tail(t, k, coll, kn, kv), k) by {
        let _r = {
            if k < 0 || k > t.len() {
                stuck()
            } else {
                { assert(pr_ok(t, expect(t, k, TokV::Bar, "'|' to start lambda parameters"@))); match expect(t, k, TokV::Bar, "'|' to start lambda parameters"@) {
                    PR::Got(_, k1) => {
                        let ps = if tk(t, k1) == TokV::LParen {
                            { assert(pr_ok(t, lambda_params(t, bump(t, k1), Seq::empty()))); lambda_params(t, bump(t, k1), Seq::empty()) }
                        } else {
                            { assert(pr_ok(t, ident(t, k1))); match ident(t, k1) {
                                PR::Got(p, k2) => PR::Got(seq![p], k2),
                                PR::Fail(m, a) => PR::Fail(m, a),
                            } }
                        };
                        match ps {
                            PR::Got(params, k2) => { assert(pr_ok(t, expect(t, k2, TokV::Bar, "closing '|'"@))); match expect(t, k2, TokV::Bar, "closing '|'"@) {
                                PR::Got(_, k3) => { assert(pr_ok(t, expect(t, k3, TokV::Arrow, "'->' before lambda body"@))); match expect(t, k3, TokV::Arrow, "'->' before lambda body"@) {
                                    PR::Got(_, k4) => if !(k < k4) {
                                        stuck()
                                    } else {
                                        { assert(pr_ok(t, p_expr(t, k4))); match p_expr(t, k4) {
                                            PR::Got(body, k5) => PR::Got(
                                                ExprV::ParMap(Box::new(coll), kn, kv, params, Box::new(body)),
                                                k5,
                                            ),
                                            PR::Fail(m, a) => PR::Fail(m, a),
                                        } }
                                    },
                                    PR::Fail(m, a) => PR::Fail(m, a),
                                } },
                                PR::Fail(m, a) => PR::Fail(m, a),
                            } },
                            PR::Fail(m, a) => PR::Fail(m, a),
                        }
                    },
                    PR::Fail(m, a) => PR::Fail(m, a),
                } }
            }
        };
    }
}

#[verifier::spinoff_prover]
#[verifier::rlimit(100)]
proof fn lemma_postfix_loop_ok(t: Seq<SpannedV>, n: int)
    requires
        n >= 0 ==> ok_postfix_loop(t, n - 1),
        ok_p_call_args(t, n),
    ensures
        ok_postfix_loop(t, n),
{
    lemma_helpers_ok(t);
    assert forall|k: int, e: ExprV| t.len() - k <= n implies pr_ok(t, #[trigger] postfix_loop(t, k, e)) && got_ge(postfix_loop(t, k, e), k) by {
        let _r = {
            if k < 0 || k > t.len() {
                stuck()
            } else if tk(t, k) == TokV::Dot {
                let k2 = bump(t, k);
                { assert(pr_ok(t, ident(t, k2))); match ident(t, k2) {
                    PR::Got(name, k3) => if k < k3 <= t.len() {
                        { assert(pr_ok(t, postfix_loop(t, k3, ExprV::Field(Box::new(e), name)))); postfix_loop(t, k3, ExprV::Field(Box::new(e), name)) }
                    } else {
                        stuck()
                    },
                    PR::Fail(m, a) => PR::Fail(m, a),
                } }
            } else if tk(t, k) == TokV::LParen {
                { assert(pr_ok(t, p_call_args(t, k))); match p_call_args(t, k) {
                    PR::Got((args, kn, kv), k2) => if k < k2 <= t.len() {
                        { assert(pr_ok(t, postfix_loop(t, k2, ExprV::Call(Box::new(e), args, kn, kv)))); postfix_loop(t, k2, ExprV::Call(Box::new(e), args, kn, kv)) }
                    } else {
                        stuck()
                    },
                    PR::Fail(m, a) => PR::Fail(m, a),
                } }
            } else {
                PR::Got(e, k)
            }
        };
    }
}

#[verifier::spinoff_prover]
#[verifier::rlimit(100)]
proof fn lemma_p_primary_ok(t: Seq<SpannedV>, n: int)
    requires
        n >= 0 ==> ok_list_loop(t, n - 1),
        n >= 0 ==> ok_p_expr(t, n - 1),
        n >= 0 ==> ok_p_par(t, n - 1),
        ok_route_loop(t, n),
        ok_with_loop(t, n),
    ensures
        ok_p_primary(t, n),
{
    lemma_helpers_ok(t);
    assert forall|i: int| t.len() - i <= n implies pr_ok(t, #[trigger] p_primary(t, i)) && got_ge(p_primary(t, i), i) by {
        let _r = {
            if i < 0 || i > t.len() {
                stuck()
            } else {
                let k = bump(t, i);
                if !(i < k) {
                    match tk(t, i) {
                        TokV::Int(_) | TokV::Float(_) | TokV::Str(_) | TokV::Money(_, _) | TokV::True
                        | TokV::False | TokV::NoneKw | TokV::State | TokV::Ident(_) | TokV::LBracket
                        | TokV::LParen | TokV::Prompt(_) | TokV::Par => stuck(),
                        _ => found(t, i, "unexpected token "@),
                    }
                } else {
                    match tk(t, i) {
                        TokV::Int(n) => PR::Got(ExprV::Int(n), k),
                        TokV::Float(x) => PR::Got(ExprV::Float(x), k),
                        TokV::Str(s) => PR::Got(ExprV::Str(s), k),
                        TokV::Money(x, u) => PR::Got(ExprV::Money(x, u), k),
                        TokV::True => PR::Got(ExprV::Bool(true), k),
                        TokV::False => PR::Got(ExprV::Bool(false), k),
                        TokV::NoneKw => PR::Got(ExprV::NoneLit, k),
                        TokV::Ident(s) => if s == "route"@ && tk(t, i + 1) == TokV::LBrace {
                            { assert(pr_ok(t, route_loop(t, bump(t, k), Seq::empty(), Seq::empty(), Seq::empty()))); route_loop(t, bump(t, k), Seq::empty(), Seq::empty(), Seq::empty()) }
                        } else {
                            PR::Got(ExprV::Ident(s), k)
                        },
                        TokV::State => PR::Got(ExprV::Ident("state"@), k),
                        TokV::LBracket => { assert(pr_ok(t, list_loop(t, k, Seq::empty()))); list_loop(t, k, Seq::empty()) },
                        TokV::LParen => { assert(pr_ok(t, p_expr(t, k))); match p_expr(t, k) {
                            PR::Got(e, k2) => { assert(pr_ok(t, expect(t, k2, TokV::RParen, "')'"@))); match expect(t, k2, TokV::RParen, "')'"@) {
                                PR::Got(_, k3) => PR::Got(e, k3),
                                PR::Fail(m, a) => PR::Fail(m, a),
                            } },
                            PR::Fail(m, a) => PR::Fail(m, a),
                        } },
                        TokV::Prompt(body) => {
                            let prompt = ExprV::Prompt(body, interps(body));
                            if tk(t, k) == TokV::With && tk(t, k + 1) == TokV::LBrace {
                                { assert(pr_ok(t, expect(t, bump(t, k), TokV::LBrace, "'{'"@))); match expect(t, bump(t, k), TokV::LBrace, "'{'"@) {
                                    PR::Got(_, k2) => if k < k2 <= t.len() {
                                        { assert(pr_ok(t, with_loop(t, k2, prompt, Seq::empty(), Seq::empty(), false))); with_loop(t, k2, prompt, Seq::empty(), Seq::empty(), false) }
                                    } else {
                                        stuck()
                                    },
                                    PR::Fail(m, a) => PR::Fail(m, a),
                                } }
                            } else {
                                PR::Got(prompt, k)
                            }
                        },
                        TokV::Par => { assert(pr_ok(t, p_par(t, k))); p_par(t, k) },
                        _ => found(t, i, "unexpected token "@),
                    }
                }
            }
        };
    }
}

#[verifier::spinoff_prover]
#[verifier::rlimit(100)]
proof fn lemma_p_par_ok(t: Seq<SpannedV>, n: int)
    requires
        n >= 0 ==> ok_p_add(t, n - 1),
        ok_p_call_args(t, n),
        ok_p_primary(t, n),
        ok_par_map_tail(t, n),
    ensures
        ok_p_par(t, n),
{
    lemma_helpers_ok(t);
    assert forall|k: int| t.len() - k <= n implies pr_ok(t, #[trigger] p_par(t, k)) && got_ge(p_par(t, k), k) by {
        let _r = {
            if k < 1 || k > t.len() {
                stuck()
            } else {
                let k1 = bump(t, k);
                match tk(t, k) {
                    TokV::MapKw => if !(k < k1) {
                        stuck()
                    } else if tk(t, k1) == TokV::LParen {
                        { assert(pr_ok(t, p_call_args(t, k1))); match p_call_args(t, k1) {
                            PR::Got((args, kn, kv), k2) => if args.len() != 1 {
                                fail_at(t, k2, "par map takes exactly one positional collection"@)
                            } else if k1 < k2 <= t.len() {
                                { assert(pr_ok(t, par_map_tail(t, k2, args[0], kn, kv))); par_map_tail(t, k2, args[0], kn, kv) }
                            } else {
                                stuck()
                            },
                            PR::Fail(m, a) => PR::Fail(m, a),
                        } }
                    } else {
                        { assert(pr_ok(t, p_add(t, k1))); match p_add(t, k1) {
                            PR::Got(coll, k2) => if k1 < k2 <= t.len() {
                                { assert(pr_ok(t, par_map_tail(t, k2, coll, Seq::empty(), Seq::empty()))); par_map_tail(t, k2, coll, Seq::empty(), Seq::empty()) }
                            } else {
                                stuck()
                            },
                            PR::Fail(m, a) => PR::Fail(m, a),
                        } }
                    },
                    TokV::All => if !(k < k1) {
                        stuck()
                    } else {
                        { assert(pr_ok(t, p_call_args(t, k1))); match p_call_args(t, k1) {
                            PR::Got((args, _, _), k2) => PR::Got(ExprV::ParAll(args), k2),
                            PR::Fail(m, a) => PR::Fail(m, a),
                        } }
                    },
                    TokV::Race => if !(k < k1) {
                        stuck()
                    } else {
                        { assert(pr_ok(t, p_primary(t, k1))); match p_primary(t, k1) {
                            PR::Got(e, k2) => match e {
                                ExprV::ListLit(xs) => PR::Got(ExprV::ParRace(xs), k2),
                                _ => fail_at(t, k2, "par race expects a list of callables"@),
                            },
                            PR::Fail(m, a) => PR::Fail(m, a),
                        } }
                    },
                    _ => found(t, k, "expected map/all/race after par, found "@),
                }
            }
        };
    }
}

#[verifier::spinoff_prover]
#[verifier::rlimit(100)]
proof fn lemma_p_postfix_ok(t: Seq<SpannedV>, n: int)
    requires
        ok_p_primary(t, n),
        ok_postfix_loop(t, n),
    ensures
        ok_p_postfix(t, n),
{
    lemma_helpers_ok(t);
    assert forall|i: int| t.len() - i <= n implies pr_ok(t, #[trigger] p_postfix(t, i)) && got_ge(p_postfix(t, i), i) by {
        let _r = {
            if i < 0 || i > t.len() {
                stuck()
            } else {
                { assert(pr_ok(t, p_primary(t, i))); match p_primary(t, i) {
                    PR::Got(e, k) => if i < k <= t.len() {
                        { assert(pr_ok(t, postfix_loop(t, k, e))); postfix_loop(t, k, e) }
                    } else {
                        stuck()
                    },
                    PR::Fail(m, a) => PR::Fail(m, a),
                } }
            }
        };
    }
}

#[verifier::spinoff_prover]
#[verifier::rlimit(100)]
proof fn lemma_p_unary_ok(t: Seq<SpannedV>, n: int)
    requires
        n >= 0 ==> ok_p_unary(t, n - 1),
        ok_p_postfix(t, n),
    ensures
        ok_p_unary(t, n),
{
    lemma_helpers_ok(t);
    assert forall|i: int| t.len() - i <= n implies pr_ok(t, #[trigger] p_unary(t, i)) && got_ge(p_unary(t, i), i) by {
        let _r = {
            if i < 0 || i > t.len() {
                stuck()
            } else if tk(t, i) == TokV::Minus || tk(t, i) == TokV::Bang {
                let k = bump(t, i);
                if !(i < k) {
                    stuck()
                } else {
                    { assert(pr_ok(t, p_unary(t, k))); match p_unary(t, k) {
                        PR::Got(x, k2) => PR::Got(
                            ExprV::Unary(
                                if tk(t, i) == TokV::Minus {
                                    BinOp::Sub
                                } else {
                                    BinOp::Not
                                },
                                Box::new(x),
                            ),
                            k2,
                        ),
                        PR::Fail(m, a) => PR::Fail(m, a),
                    } }
                }
            } else {
                { assert(pr_ok(t, p_postfix(t, i))); p_postfix(t, i) }
            }
        };
    }
}

#[verifier::spinoff_prover]
#[verifier::rlimit(100)]
proof fn lemma_p_mul_ok(t: Seq<SpannedV>, n: int)
    requires
        ok_mul_loop(t, n),
        ok_p_unary(t, n),
    ensures
        ok_p_mul(t, n),
{
    lemma_helpers_ok(t);
    assert forall|i: int| t.len() - i <= n implies pr_ok(t, #[trigger] p_mul(t, i)) && got_ge(p_mul(t, i), i) by {
        let _r = {
            if i < 0 || i > t.len() {
                stuck()
            } else {
                { assert(pr_ok(t, p_unary(t, i))); match p_unary(t, i) {
                    PR::Got(l, k) => if i < k <= t.len() {
                        { assert(pr_ok(t, mul_loop(t, k, l))); mul_loop(t, k, l) }
                    } else {
                        stuck()
                    },
                    PR::Fail(m, a) => PR::Fail(m, a),
                } }
            }
        };
    }
}

#[verifier::spinoff_prover]
#[verifier::rlimit(100)]
proof fn lemma_p_add_ok(t: Seq<SpannedV>, n: int)
    requires
        ok_add_loop(t, n),
        ok_p_mul(t, n),
    ensures
        ok_p_add(t, n),
{
    lemma_helpers_ok(t);
    assert forall|i: int| t.len() - i <= n implies pr_ok(t, #[trigger] p_add(t, i)) && got_ge(p_add(t, i), i) by {
        let _r = {
            if i < 0 || i > t.len() {
                stuck()
            } else {
                { assert(pr_ok(t, p_mul(t, i))); match p_mul(t, i) {
                    PR::Got(l, k) => if i < k <= t.len() {
                        { assert(pr_ok(t, add_loop(t, k, l))); add_loop(t, k, l) }
                    } else {
                        stuck()
                    },
                    PR::Fail(m, a) => PR::Fail(m, a),
                } }
            }
        };
    }
}

#[verifier::spinoff_prover]
#[verifier::rlimit(100)]
proof fn lemma_p_rel_ok(t: Seq<SpannedV>, n: int)
    requires
        ok_p_add(t, n),
        ok_rel_loop(t, n),
    ensures
        ok_p_rel(t, n),
{
    lemma_helpers_ok(t);
    assert forall|i: int| t.len() - i <= n implies pr_ok(t, #[trigger] p_rel(t, i)) && got_ge(p_rel(t, i), i) by {
        let _r = {
            if i < 0 || i > t.len() {
                stuck()
            } else {
                { assert(pr_ok(t, p_add(t, i))); match p_add(t, i) {
                    PR::Got(l, k) => if i < k <= t.len() {
                        { assert(pr_ok(t, rel_loop(t, k, l))); rel_loop(t, k, l) }
                    } else {
                        stuck()
                    },
                    PR::Fail(m, a) => PR::Fail(m, a),
                } }
            }
        };
    }
}

#[verifier::spinoff_prover]
#[verifier::rlimit(100)]
proof fn lemma_p_and_ok(t: Seq<SpannedV>, n: int)
    requires
        ok_and_loop(t, n),
        ok_p_rel(t, n),
    ensures
        ok_p_and(t, n),
{
    lemma_helpers_ok(t);
    assert forall|i: int| t.len() - i <= n implies pr_ok(t, #[trigger] p_and(t, i)) && got_ge(p_and(t, i), i) by {
        let _r = {
            if i < 0 || i > t.len() {
                stuck()
            } else {
                { assert(pr_ok(t, p_rel(t, i))); match p_rel(t, i) {
                    PR::Got(l, k) => if i < k <= t.len() {
                        { assert(pr_ok(t, and_loop(t, k, l))); and_loop(t, k, l) }
                    } else {
                        stuck()
                    },
                    PR::Fail(m, a) => PR::Fail(m, a),
                } }
            }
        };
    }
}

#[verifier::spinoff_prover]
#[verifier::rlimit(100)]
proof fn lemma_p_or_ok(t: Seq<SpannedV>, n: int)
    requires
        ok_or_loop(t, n),
        ok_p_and(t, n),
    ensures
        ok_p_or(t, n),
{
    lemma_helpers_ok(t);
    assert forall|i: int| t.len() - i <= n implies pr_ok(t, #[trigger] p_or(t, i)) && got_ge(p_or(t, i), i) by {
        let _r = {
            if i < 0 || i > t.len() {
                stuck()
            } else {
                { assert(pr_ok(t, p_and(t, i))); match p_and(t, i) {
                    PR::Got(l, k) => if i < k <= t.len() {
                        { assert(pr_ok(t, or_loop(t, k, l))); or_loop(t, k, l) }
                    } else {
                        stuck()
                    },
                    PR::Fail(m, a) => PR::Fail(m, a),
                } }
            }
        };
    }
}

#[verifier::spinoff_prover]
#[verifier::rlimit(100)]
proof fn lemma_p_merge_ok(t: Seq<SpannedV>, n: int)
    requires
        ok_merge_loop(t, n),
        ok_p_or(t, n),
    ensures
        ok_p_merge(t, n),
{
    lemma_helpers_ok(t);
    assert forall|i: int| t.len() - i <= n implies pr_ok(t, #[trigger] p_merge(t, i)) && got_ge(p_merge(t, i), i) by {
        let _r = {
            if i < 0 || i > t.len() {
                stuck()
            } else {
                { assert(pr_ok(t, p_or(t, i))); match p_or(t, i) {
                    PR::Got(l, k) => if i < k <= t.len() {
                        { assert(pr_ok(t, merge_loop(t, k, l))); merge_loop(t, k, l) }
                    } else {
                        stuck()
                    },
                    PR::Fail(m, a) => PR::Fail(m, a),
                } }
            }
        };
    }
}

#[verifier::spinoff_prover]
#[verifier::rlimit(100)]
proof fn lemma_p_expr_ok(t: Seq<SpannedV>, n: int)
    requires
        ok_p_merge(t, n),
    ensures
        ok_p_expr(t, n),
{
    lemma_helpers_ok(t);
    assert forall|i: int| t.len() - i <= n implies pr_ok(t, #[trigger] p_expr(t, i)) && got_ge(p_expr(t, i), i) by {
        let _r = {
            if i < 0 || i > t.len() {
                stuck()
            } else {
                { assert(pr_ok(t, p_merge(t, i))); p_merge(t, i) }
            }
        };
    }
}

#[verifier::spinoff_prover]
#[verifier::rlimit(100)]
proof fn lemma_args_loop_ok(t: Seq<SpannedV>, n: int)
    requires
        n >= 0 ==> ok_args_loop(t, n - 1),
        ok_p_expr(t, n),
    ensures
        ok_args_loop(t, n),
{
    lemma_helpers_ok(t);
    assert forall|k: int, args: Seq<ExprV>, kn: Seq<Seq<char>>, kv: Seq<ExprV>| t.len() - k <= n implies pr_ok(t, #[trigger] args_loop(t, k, args, kn, kv)) && got_ge(args_loop(t, k, args, kn, kv), k) by {
        let _r = {
            if k < 0 || k > t.len() {
                stuck()
            } else if tk(t, k) == TokV::RParen {
                { assert(pr_ok(t, expect(t, k, TokV::RParen, "')'"@))); match expect(t, k, TokV::RParen, "')'"@) {
                    PR::Got(_, k2) => PR::Got((args, kn, kv), k2),
                    PR::Fail(m, a) => PR::Fail(m, a),
                } }
            } else if tk(t, k) is Ident && tk(t, k + 1) == TokV::Assign {
                let k2 = bump(t, bump(t, k));
                if !(k < k2) {
                    stuck()
                } else {
                    { assert(pr_ok(t, p_expr(t, k2))); match p_expr(t, k2) {
                        PR::Got(v, k3) => if k2 < k3 <= t.len() {
                            { assert(pr_ok(t, args_loop(t, eat(t, k3, TokV::Comma), args, kn.push(tk(t, k)->Ident_0), kv.push(v)))); args_loop(t, eat(t, k3, TokV::Comma), args, kn.push(tk(t, k)->Ident_0), kv.push(v)) }
                        } else {
                            stuck()
                        },
                        PR::Fail(m, a) => PR::Fail(m, a),
                    } }
                }
            } else {
                { assert(pr_ok(t, p_expr(t, k))); match p_expr(t, k) {
                    PR::Got(v, k3) => if k < k3 <= t.len() {
                        { assert(pr_ok(t, args_loop(t, eat(t, k3, TokV::Comma), args.push(v), kn, kv))); args_loop(t, eat(t, k3, TokV::Comma), args.push(v), kn, kv) }
                    } else {
                        stuck()
                    },
                    PR::Fail(m, a) => PR::Fail(m, a),
                } }
            }
        };
    }
}

#[verifier::spinoff_prover]
#[verifier::rlimit(100)]
proof fn lemma_list_loop_ok(t: Seq<SpannedV>, n: int)
    requires
        n >= 0 ==> ok_list_loop(t, n - 1),
        ok_p_expr(t, n),
    ensures
        ok_list_loop(t, n),
{
    lemma_helpers_ok(t);
    assert forall|k: int, xs: Seq<ExprV>| t.len() - k <= n implies pr_ok(t, #[trigger] list_loop(t, k, xs)) && got_ge(list_loop(t, k, xs), k) by {
        let _r = {
            if k < 0 || k > t.len() {
                stuck()
            } else if tk(t, k) == TokV::RBracket {
                { assert(pr_ok(t, expect(t, k, TokV::RBracket, "']'"@))); match expect(t, k, TokV::RBracket, "']'"@) {
                    PR::Got(_, k2) => PR::Got(ExprV::ListLit(xs), k2),
                    PR::Fail(m, a) => PR::Fail(m, a),
                } }
            } else {
                { assert(pr_ok(t, p_expr(t, k))); match p_expr(t, k) {
                    PR::Got(v, k2) => if k < k2 <= t.len() {
                        { assert(pr_ok(t, list_loop(t, eat(t, k2, TokV::Comma), xs.push(v)))); list_loop(t, eat(t, k2, TokV::Comma), xs.push(v)) }
                    } else {
                        stuck()
                    },
                    PR::Fail(m, a) => PR::Fail(m, a),
                } }
            }
        };
    }
}

#[verifier::spinoff_prover]
#[verifier::rlimit(100)]
proof fn lemma_record_loop_ok(t: Seq<SpannedV>, n: int)
    requires
        n >= 0 ==> ok_p_type(t, n - 1),
        n >= 0 ==> ok_record_loop(t, n - 1),
    ensures
        ok_record_loop(t, n),
{
    lemma_helpers_ok(t);
    assert forall|k: int, names: Seq<Seq<char>>, tys: Seq<TypeExprV>| t.len() - k <= n implies pr_ok(t, #[trigger] record_loop(t, k, names, tys)) && got_ge(record_loop(t, k, names, tys), k) by {
        let _r = {
            if k < 0 || k > t.len() {
                stuck()
            } else if tk(t, k) == TokV::RBrace {
                { assert(pr_ok(t, expect(t, k, TokV::RBrace, "'}' in record type"@))); match expect(t, k, TokV::RBrace, "'}' in record type"@) {
                    PR::Got(_, k2) => PR::Got(TypeExprV::Record(names, tys), k2),
                    PR::Fail(m, a) => PR::Fail(m, a),
                } }
            } else {
                { assert(pr_ok(t, ident(t, k))); match ident(t, k) {
                    PR::Got(name, k1) => { assert(pr_ok(t, expect(t, k1, TokV::Colon, "':' in record type"@))); match expect(t, k1, TokV::Colon, "':' in record type"@) {
                        PR::Got(_, k2) => if !(k < k2) {
                            stuck()
                        } else {
                            { assert(pr_ok(t, p_type(t, k2))); match p_type(t, k2) {
                                PR::Got(ty, k3) => if k < k3 <= t.len() {
                                    { assert(pr_ok(t, record_loop(t, eat(t, k3, TokV::Comma), names.push(name), tys.push(ty)))); record_loop(t, eat(t, k3, TokV::Comma), names.push(name), tys.push(ty)) }
                                } else {
                                    stuck()
                                },
                                PR::Fail(m, a) => PR::Fail(m, a),
                            } }
                        },
                        PR::Fail(m, a) => PR::Fail(m, a),
                    } },
                    PR::Fail(m, a) => PR::Fail(m, a),
                } }
            }
        };
    }
}

#[verifier::spinoff_prover]
#[verifier::rlimit(100)]
proof fn lemma_refine_args_ok(t: Seq<SpannedV>, n: int)
    requires
        n >= 0 ==> ok_refine_args(t, n - 1),
        ok_p_expr(t, n),
    ensures
        ok_refine_args(t, n),
{
    lemma_helpers_ok(t);
    assert forall|k: int, args: Seq<ExprV>| t.len() - k <= n implies pr_ok(t, #[trigger] refine_args(t, k, args)) && got_ge(refine_args(t, k, args), k) by {
        let _r = {
            if k < 0 || k > t.len() {
                stuck()
            } else if tk(t, k) == TokV::RParen {
                { assert(pr_ok(t, expect(t, k, TokV::RParen, "')'"@))); match expect(t, k, TokV::RParen, "')'"@) {
                    PR::Got(_, k2) => PR::Got(args, k2),
                    PR::Fail(m, a) => PR::Fail(m, a),
                } }
            } else {
                { assert(pr_ok(t, p_expr(t, k))); match p_expr(t, k) {
                    PR::Got(v, k2) => if k < k2 <= t.len() {
                        { assert(pr_ok(t, refine_args(t, eat(t, k2, TokV::Comma), args.push(v)))); refine_args(t, eat(t, k2, TokV::Comma), args.push(v)) }
                    } else {
                        stuck()
                    },
                    PR::Fail(m, a) => PR::Fail(m, a),
                } }
            }
        };
    }
}

#[verifier::spinoff_prover]
#[verifier::rlimit(100)]
proof fn lemma_p_type_ok(t: Seq<SpannedV>, n: int)
    requires
        n >= 0 ==> ok_p_type(t, n - 1),
        ok_record_loop(t, n),
        ok_refine_args(t, n),
    ensures
        ok_p_type(t, n),
{
    lemma_helpers_ok(t);
    assert forall|i: int| t.len() - i <= n implies pr_ok(t, #[trigger] p_type(t, i)) && got_ge(p_type(t, i), i) by {
        let _r = {
            if i < 0 || i > t.len() {
                stuck()
            } else {
                let k = bump(t, i);
                let base: PR<TypeExprV> = match tk(t, i) {
                    TokV::Ident(name) => PR::Got(TypeExprV::Named(name), k),
                    TokV::LBracket => if !(i < k) {
                        stuck()
                    } else {
                        { assert(pr_ok(t, p_type(t, k))); match p_type(t, k) {
                            PR::Got(inner, k2) => { assert(pr_ok(t, expect(t, k2, TokV::RBracket, "']' in list type"@))); match expect(t, k2, TokV::RBracket, "']' in list type"@) {
                                PR::Got(_, k3) => PR::Got(TypeExprV::List(Box::new(inner)), k3),
                                PR::Fail(m, a) => PR::Fail(m, a),
                            } },
                            PR::Fail(m, a) => PR::Fail(m, a),
                        } }
                    },
                    TokV::LBrace => if !(i < k) {
                        stuck()
                    } else {
                        { assert(pr_ok(t, record_loop(t, k, Seq::empty(), Seq::empty()))); record_loop(t, k, Seq::empty(), Seq::empty()) }
                    },
                    TokV::LParen => { assert(pr_ok(t, expect(t, k, TokV::RParen, "unit type '()'"@))); match expect(t, k, TokV::RParen, "unit type '()'"@) {
                        PR::Got(_, k2) => PR::Got(TypeExprV::Named("()"@), k2),
                        PR::Fail(m, a) => PR::Fail(m, a),
                    } },
                    _ => found(t, i, "expected type, found "@),
                };
                match base {
                    PR::Got(ty, k2) => if tk(t, k2) == TokV::At {
                        { assert(pr_ok(t, ident(t, bump(t, k2)))); match ident(t, bump(t, k2)) {
                            PR::Got(rname, k3) => { assert(pr_ok(t, expect(t, k3, TokV::LParen, "'(' after refinement name"@))); match expect(t, k3, TokV::LParen, "'(' after refinement name"@) {
                                PR::Got(_, k4) => { assert(pr_ok(t, refine_args(t, k4, Seq::empty()))); match refine_args(t, k4, Seq::empty()) {
                                    PR::Got(args, k5) => PR::Got(TypeExprV::Refine(Box::new(ty), rname, args), k5),
                                    PR::Fail(m, a) => PR::Fail(m, a),
                                } },
                                PR::Fail(m, a) => PR::Fail(m, a),
                            } },
                            PR::Fail(m, a) => PR::Fail(m, a),
                        } }
                    } else {
                        PR::Got(ty, k2)
                    },
                    PR::Fail(m, a) => PR::Fail(m, a),
                }
            }
        };
    }
}

#[verifier::spinoff_prover]
#[verifier::rlimit(100)]
proof fn lemma_let_tail_ok(t: Seq<SpannedV>, n: int)
    requires
        ok_p_expr(t, n),
        ok_p_type(t, n),
    ensures
        ok_let_tail(t, n),
{
    reveal(let_tail);
    lemma_helpers_ok(t);
    assert forall|i: int, start: nat, stream: bool| t.len() - i <= n implies pr_ok(t, #[trigger] let_tail(t, i, start, stream)) && got_ge(let_tail(t, i, start, stream), i) by {
        let _r = {
            { assert(pr_ok(t, ident(t, i))); match ident(t, i) {
                PR::Got(name, k1) => {
                    let ty: PR<Option<TypeExprV>> = if tk(t, k1) == TokV::Colon {
                        { assert(pr_ok(t, p_type(t, bump(t, k1)))); match p_type(t, bump(t, k1)) {
                            PR::Got(ty, k2) => PR::Got(Some(ty), k2),
                            PR::Fail(m, a) => PR::Fail(m, a),
                        } }
                    } else {
                        PR::Got(None, k1)
                    };
                    match ty {
                        PR::Got(ty, k2) => { assert(pr_ok(t, expect(
                            t,
                            k2,
                            TokV::Assign,
                            if stream {
                                "'=' in stream let binding"@
                            } else {
                                "'=' in let binding"@
                            },
                        ))); match expect(
                            t,
                            k2,
                            TokV::Assign,
                            if stream {
                                "'=' in stream let binding"@
                            } else {
                                "'=' in let binding"@
                            },
                        ) {
                            PR::Got(_, k3) => { assert(pr_ok(t, p_expr(t, k3))); match p_expr(t, k3) {
                                PR::Got(value, k4) => PR::Got(
                                    spanned(t, start, k4, StmtKindV::Let(name, ty, value, stream)),
                                    k4,
                                ),
                                PR::Fail(m, a) => PR::Fail(m, a),
                            } },
                            PR::Fail(m, a) => PR::Fail(m, a),
                        } },
                        PR::Fail(m, a) => PR::Fail(m, a),
                    }
                },
                PR::Fail(m, a) => PR::Fail(m, a),
            } }
        };
    }
}

#[verifier::spinoff_prover]
#[verifier::rlimit(100)]
proof fn lemma_p_stmt_ok(t: Seq<SpannedV>, n: int)
    requires
        ok_let_tail(t, n),
        ok_p_expr(t, n),
    ensures
        ok_p_stmt(t, n),
{
    reveal(p_stmt);
    lemma_helpers_ok(t);
    assert forall|i: int| t.len() - i <= n implies pr_ok(t, #[trigger] p_stmt(t, i)) && got_ge(p_stmt(t, i), i) by {
        let _r = {
            let start = at_pos(t, i);
            if tk(t, i) == TokV::Let {
                { assert(pr_ok(t, let_tail(t, bump(t, i), start, false))); let_tail(t, bump(t, i), start, false) }
            } else if is_word(t, i, "stream"@) && tk(t, i + 1) == TokV::Let {
                { assert(pr_ok(t, let_tail(t, bump(t, bump(t, i)), start, true))); let_tail(t, bump(t, bump(t, i)), start, true) }
            } else if tk(t, i) == TokV::Assert {
                { assert(pr_ok(t, p_expr(t, bump(t, i)))); match p_expr(t, bump(t, i)) {
                    PR::Got(e, k) => PR::Got(spanned(t, start, k, StmtKindV::Assert(e)), k),
                    PR::Fail(m, a) => PR::Fail(m, a),
                } }
            } else if state_write_ahead(t, i) {
                { assert(pr_ok(t, ident(t, bump(t, bump(t, i))))); match ident(t, bump(t, bump(t, i))) {
                    PR::Got(field, k1) => {
                        let op: PR<StateOp> = if tk(t, k1) == TokV::PlusEq {
                            PR::Got(StateOp::Add, bump(t, k1))
                        } else if tk(t, k1) == TokV::MinusEq {
                            PR::Got(StateOp::Sub, bump(t, k1))
                        } else {
                            { assert(pr_ok(t, expect(t, k1, TokV::Assign, "'=', '+=' or '-=' in state write"@))); match expect(t, k1, TokV::Assign, "'=', '+=' or '-=' in state write"@) {
                                PR::Got(_, k2) => PR::Got(StateOp::Assign, k2),
                                PR::Fail(m, a) => PR::Fail(m, a),
                            } }
                        };
                        match op {
                            PR::Got(op, k2) => { assert(pr_ok(t, p_expr(t, k2))); match p_expr(t, k2) {
                                PR::Got(value, k3) => PR::Got(
                                    spanned(t, start, k3, StmtKindV::StateWrite(field, op, value)),
                                    k3,
                                ),
                                PR::Fail(m, a) => PR::Fail(m, a),
                            } },
                            PR::Fail(m, a) => PR::Fail(m, a),
                        }
                    },
                    PR::Fail(m, a) => PR::Fail(m, a),
                } }
            } else {
                { assert(pr_ok(t, p_expr(t, i))); match p_expr(t, i) {
                    PR::Got(e, k) => PR::Got(spanned(t, start, k, StmtKindV::ExprStmt(e)), k),
                    PR::Fail(m, a) => PR::Fail(m, a),
                } }
            }
        };
    }
}

#[verifier::spinoff_prover]
#[verifier::rlimit(100)]
proof fn lemma_block_loop_ok(t: Seq<SpannedV>, n: int)
    requires
        n >= 0 ==> ok_block_loop(t, n - 1),
        ok_p_stmt(t, n),
    ensures
        ok_block_loop(t, n),
{
    lemma_helpers_ok(t);
    assert forall|k: int, ss: Seq<StmtV>| t.len() - k <= n implies pr_ok(t, #[trigger] block_loop(t, k, ss)) && got_ge(block_loop(t, k, ss), k) by {
        let _r = {
            if k < 0 || k > t.len() {
                stuck()
            } else if tk(t, k) == TokV::RBrace {
                { assert(pr_ok(t, expect(t, k, TokV::RBrace, "'}'"@))); match expect(t, k, TokV::RBrace, "'}'"@) {
                    PR::Got(_, k2) => PR::Got(ss, k2),
                    PR::Fail(m, a) => PR::Fail(m, a),
                } }
            } else if tk(t, k) == TokV::Eof {
                fail_at(t, k, "unexpected end of file inside block"@)
            } else {
                { assert(pr_ok(t, p_stmt(t, k))); match p_stmt(t, k) {
                    PR::Got(s, k2) => if k < k2 <= t.len() {
                        { assert(pr_ok(t, block_loop(t, k2, ss.push(s)))); block_loop(t, k2, ss.push(s)) }
                    } else {
                        stuck()
                    },
                    PR::Fail(m, a) => PR::Fail(m, a),
                } }
            }
        };
    }
}

#[verifier::spinoff_prover]
#[verifier::rlimit(100)]
proof fn lemma_p_block_ok(t: Seq<SpannedV>, n: int)
    requires
        ok_block_loop(t, n),
    ensures
        ok_p_block(t, n),
{
    reveal(p_block);
    lemma_helpers_ok(t);
    assert forall|i: int| t.len() - i <= n implies pr_ok(t, #[trigger] p_block(t, i)) && got_ge(p_block(t, i), i) by {
        let _r = {
            { assert(pr_ok(t, expect(t, i, TokV::LBrace, "'{'"@))); match expect(t, i, TokV::LBrace, "'{'"@) {
                PR::Got(_, k) => { assert(pr_ok(t, block_loop(t, k, Seq::empty()))); block_loop(t, k, Seq::empty()) },
                PR::Fail(m, a) => PR::Fail(m, a),
            } }
        };
    }
}

#[verifier::spinoff_prover]
#[verifier::rlimit(100)]
proof fn lemma_params_loop_ok(t: Seq<SpannedV>, n: int)
    requires
        n >= 0 ==> ok_params_loop(t, n - 1),
        ok_p_type(t, n),
    ensures
        ok_params_loop(t, n),
{
    lemma_helpers_ok(t);
    assert forall|k: int, ps: Seq<ParamV>| t.len() - k <= n implies pr_ok(t, #[trigger] params_loop(t, k, ps)) && got_ge(params_loop(t, k, ps), k) by {
        let _r = {
            if k < 0 || k > t.len() {
                stuck()
            } else if tk(t, k) == TokV::RParen {
                { assert(pr_ok(t, expect(t, k, TokV::RParen, "')'"@))); match expect(t, k, TokV::RParen, "')'"@) {
                    PR::Got(_, k2) => PR::Got(ps, k2),
                    PR::Fail(m, a) => PR::Fail(m, a),
                } }
            } else {
                { assert(pr_ok(t, ident(t, k))); match ident(t, k) {
                    PR::Got(name, k1) => { assert(pr_ok(t, expect(t, k1, TokV::Colon, "':' after parameter name"@))); match expect(t, k1, TokV::Colon, "':' after parameter name"@) {
                        PR::Got(_, k2) => { assert(pr_ok(t, p_type(t, k2))); match p_type(t, k2) {
                            PR::Got(ty, k3) => if k < k3 <= t.len() {
                                { assert(pr_ok(t, params_loop(t, eat(t, k3, TokV::Comma), ps.push(ParamV { name, ty })))); params_loop(t, eat(t, k3, TokV::Comma), ps.push(ParamV { name, ty })) }
                            } else {
                                stuck()
                            },
                            PR::Fail(m, a) => PR::Fail(m, a),
                        } },
                        PR::Fail(m, a) => PR::Fail(m, a),
                    } },
                    PR::Fail(m, a) => PR::Fail(m, a),
                } }
            }
        };
    }
}

#[verifier::spinoff_prover]
#[verifier::rlimit(100)]
proof fn lemma_p_params_ok(t: Seq<SpannedV>, n: int)
    requires
        ok_params_loop(t, n),
    ensures
        ok_p_params(t, n),
{
    reveal(p_params);
    lemma_helpers_ok(t);
    assert forall|i: int| t.len() - i <= n implies pr_ok(t, #[trigger] p_params(t, i)) && got_ge(p_params(t, i), i) by {
        let _r = {
            { assert(pr_ok(t, expect(t, i, TokV::LParen, "'('"@))); match expect(t, i, TokV::LParen, "'('"@) {
                PR::Got(_, k) => { assert(pr_ok(t, params_loop(t, k, Seq::empty()))); params_loop(t, k, Seq::empty()) },
                PR::Fail(m, a) => PR::Fail(m, a),
            } }
        };
    }
}

#[verifier::spinoff_prover]
#[verifier::rlimit(100)]
proof fn lemma_effects_loop_ok(t: Seq<SpannedV>, n: int)
    requires
        n >= 0 ==> ok_effects_loop(t, n - 1),
    ensures
        ok_effects_loop(t, n),
{
    lemma_helpers_ok(t);
    assert forall|k: int, es: Seq<Seq<char>>| t.len() - k <= n implies pr_ok(t, #[trigger] effects_loop(t, k, es)) && got_ge(effects_loop(t, k, es), k) by {
        let _r = {
            if k < 0 || k > t.len() {
                stuck()
            } else {
                { assert(pr_ok(t, ident(t, k))); match ident(t, k) {
                    PR::Got(e, k1) => if tk(t, k1) == TokV::Comma {
                        let k2 = bump(t, k1);
                        if k < k2 <= t.len() {
                            { assert(pr_ok(t, effects_loop(t, k2, es.push(e)))); effects_loop(t, k2, es.push(e)) }
                        } else {
                            stuck()
                        }
                    } else {
                        PR::Got(es.push(e), k1)
                    },
                    PR::Fail(m, a) => PR::Fail(m, a),
                } }
            }
        };
    }
}

#[verifier::spinoff_prover]
#[verifier::rlimit(100)]
proof fn lemma_p_effects_ok(t: Seq<SpannedV>, n: int)
    requires
        ok_effects_loop(t, n),
    ensures
        ok_p_effects(t, n),
{
    reveal(p_effects);
    lemma_helpers_ok(t);
    assert forall|i: int| t.len() - i <= n implies pr_ok(t, #[trigger] p_effects(t, i)) && got_ge(p_effects(t, i), i) by {
        let _r = {
            if tk(t, i) == TokV::Uses {
                { assert(pr_ok(t, effects_loop(t, bump(t, i), Seq::empty()))); effects_loop(t, bump(t, i), Seq::empty()) }
            } else {
                PR::Got(Seq::empty(), i)
            }
        };
    }
}

#[verifier::spinoff_prover]
#[verifier::rlimit(100)]
proof fn lemma_p_fn_ok(t: Seq<SpannedV>, n: int)
    requires
        ok_p_block(t, n),
        ok_p_effects(t, n),
        ok_p_params(t, n),
        ok_p_type(t, n),
    ensures
        ok_p_fn(t, n),
{
    reveal(p_fn);
    lemma_helpers_ok(t);
    assert forall|i: int| t.len() - i <= n implies pr_ok(t, #[trigger] p_fn(t, i)) && got_ge(p_fn(t, i), i) by {
        let _r = {
            { assert(pr_ok(t, ident(t, bump(t, i)))); match ident(t, bump(t, i)) {
                PR::Got(name, k1) => { assert(pr_ok(t, p_params(t, k1))); match p_params(t, k1) {
                    PR::Got(params, k2) => { assert(pr_ok(t, expect(t, k2, TokV::Arrow, "'->' before return type"@))); match expect(t, k2, TokV::Arrow, "'->' before return type"@) {
                        PR::Got(_, k3) => { assert(pr_ok(t, p_type(t, k3))); match p_type(t, k3) {
                            PR::Got(ret, k4) => { assert(pr_ok(t, p_effects(t, k4))); match p_effects(t, k4) {
                                PR::Got(effects, k5) => { assert(pr_ok(t, p_block(t, k5))); match p_block(t, k5) {
                                    PR::Got(body, k6) => PR::Got(ItemV::Fn(name, params, ret, effects, body), k6),
                                    PR::Fail(m, a) => PR::Fail(m, a),
                                } },
                                PR::Fail(m, a) => PR::Fail(m, a),
                            } },
                            PR::Fail(m, a) => PR::Fail(m, a),
                        } },
                        PR::Fail(m, a) => PR::Fail(m, a),
                    } },
                    PR::Fail(m, a) => PR::Fail(m, a),
                } },
                PR::Fail(m, a) => PR::Fail(m, a),
            } }
        };
    }
}

#[verifier::spinoff_prover]
#[verifier::rlimit(100)]
proof fn lemma_tool_field_ok(t: Seq<SpannedV>, n: int)
    requires
        ok_p_expr(t, n),
    ensures
        ok_tool_field(t, n),
{
    reveal(tool_field);
    lemma_helpers_ok(t);
    assert forall|k: int| t.len() - k <= n implies pr_ok(t, #[trigger] tool_field(t, k)) && got_ge(tool_field(t, k), k) by {
        let _r = {
            { assert(pr_ok(t, ident(t, k))); match ident(t, k) {
                PR::Got(name, k1) => { assert(pr_ok(t, expect(t, k1, TokV::Colon, "':' in tool field"@))); match expect(t, k1, TokV::Colon, "':' in tool field"@) {
                    PR::Got(_, k2) => { assert(pr_ok(t, p_expr(t, k2))); match p_expr(t, k2) {
                        PR::Got(v, k3) => PR::Got((name, v), k3),
                        PR::Fail(m, a) => PR::Fail(m, a),
                    } },
                    PR::Fail(m, a) => PR::Fail(m, a),
                } },
                PR::Fail(m, a) => PR::Fail(m, a),
            } }
        };
    }
}

#[verifier::spinoff_prover]
#[verifier::rlimit(100)]
proof fn lemma_tool_loop_ok(t: Seq<SpannedV>, n: int)
    requires
        n >= 0 ==> ok_tool_loop(t, n - 1),
        ok_tool_field(t, n),
    ensures
        ok_tool_loop(t, n),
{
    lemma_helpers_ok(t);
    assert forall|k: int, names: Seq<Seq<char>>, vals: Seq<ExprV>| t.len() - k <= n implies pr_ok(t, #[trigger] tool_loop(t, k, names, vals)) && got_ge(tool_loop(t, k, names, vals), k) by {
        let _r = {
            if k < 0 || k > t.len() {
                stuck()
            } else if tk(t, k) == TokV::RBrace {
                { assert(pr_ok(t, expect(t, k, TokV::RBrace, "'}'"@))); match expect(t, k, TokV::RBrace, "'}'"@) {
                    PR::Got(_, k2) => PR::Got((names, vals), k2),
                    PR::Fail(m, a) => PR::Fail(m, a),
                } }
            } else {
                { assert(pr_ok(t, tool_field(t, k))); match tool_field(t, k) {
                    PR::Got((name, v), k3) => if k < k3 <= t.len() {
                        { assert(pr_ok(t, tool_loop(t, eat(t, k3, TokV::Comma), names.push(name), vals.push(v)))); tool_loop(t, eat(t, k3, TokV::Comma), names.push(name), vals.push(v)) }
                    } else {
                        stuck()
                    },
                    PR::Fail(m, a) => PR::Fail(m, a),
                } }
            }
        };
    }
}

#[verifier::spinoff_prover]
#[verifier::rlimit(100)]
proof fn lemma_p_tool_ok(t: Seq<SpannedV>, n: int)
    requires
        ok_p_params(t, n),
        ok_p_type(t, n),
        ok_tool_loop(t, n),
    ensures
        ok_p_tool(t, n),
{
    reveal(p_tool);
    lemma_helpers_ok(t);
    assert forall|i: int| t.len() - i <= n implies pr_ok(t, #[trigger] p_tool(t, i)) && got_ge(p_tool(t, i), i) by {
        let _r = {
            { assert(pr_ok(t, ident(t, bump(t, i)))); match ident(t, bump(t, i)) {
                PR::Got(name, k1) => { assert(pr_ok(t, p_params(t, k1))); match p_params(t, k1) {
                    PR::Got(params, k2) => { assert(pr_ok(t, expect(t, k2, TokV::Arrow, "'->' before return type"@))); match expect(t, k2, TokV::Arrow, "'->' before return type"@) {
                        PR::Got(_, k3) => { assert(pr_ok(t, p_type(t, k3))); match p_type(t, k3) {
                            PR::Got(ret, k4) => { assert(pr_ok(t, expect(t, k4, TokV::LBrace, "'{' before tool body"@))); match expect(t, k4, TokV::LBrace, "'{' before tool body"@) {
                                PR::Got(_, k5) => { assert(pr_ok(t, tool_loop(t, k5, Seq::empty(), Seq::empty()))); match tool_loop(t, k5, Seq::empty(), Seq::empty()) {
                                    PR::Got((names, vals), k6) => PR::Got(ItemV::Tool(name, params, ret, names, vals), k6),
                                    PR::Fail(m, a) => PR::Fail(m, a),
                                } },
                                PR::Fail(m, a) => PR::Fail(m, a),
                            } },
                            PR::Fail(m, a) => PR::Fail(m, a),
                        } },
                        PR::Fail(m, a) => PR::Fail(m, a),
                    } },
                    PR::Fail(m, a) => PR::Fail(m, a),
                } },
                PR::Fail(m, a) => PR::Fail(m, a),
            } }
        };
    }
}

#[verifier::spinoff_prover]
#[verifier::rlimit(100)]
proof fn lemma_p_test_ok(t: Seq<SpannedV>, n: int)
    requires
        ok_p_block(t, n),
    ensures
        ok_p_test(t, n),
{
    reveal(p_test);
    lemma_helpers_ok(t);
    assert forall|i: int| t.len() - i <= n implies pr_ok(t, #[trigger] p_test(t, i)) && got_ge(p_test(t, i), i) by {
        let _r = {
            let k = bump(t, i);
            match tk(t, k) {
                TokV::Str(name) => { assert(pr_ok(t, p_block(t, bump(t, k)))); match p_block(t, bump(t, k)) {
                    PR::Got(body, k2) => PR::Got(ItemV::Test(name, body), k2),
                    PR::Fail(m, a) => PR::Fail(m, a),
                } },
                _ => found(t, k, "expected test name string, found "@),
            }
        };
    }
}

#[verifier::spinoff_prover]
#[verifier::rlimit(100)]
proof fn lemma_p_type_alias_ok(t: Seq<SpannedV>, n: int)
    requires
        ok_p_type(t, n),
    ensures
        ok_p_type_alias(t, n),
{
    reveal(p_type_alias);
    lemma_helpers_ok(t);
    assert forall|i: int| t.len() - i <= n implies pr_ok(t, #[trigger] p_type_alias(t, i)) && got_ge(p_type_alias(t, i), i) by {
        let _r = {
            { assert(pr_ok(t, ident(t, bump(t, i)))); match ident(t, bump(t, i)) {
                PR::Got(name, k1) => { assert(pr_ok(t, expect(t, k1, TokV::Assign, "'=' in type alias"@))); match expect(t, k1, TokV::Assign, "'=' in type alias"@) {
                    PR::Got(_, k2) => { assert(pr_ok(t, p_type(t, k2))); match p_type(t, k2) {
                        PR::Got(ty, k3) => PR::Got(ItemV::TypeAlias(name, ty), k3),
                        PR::Fail(m, a) => PR::Fail(m, a),
                    } },
                    PR::Fail(m, a) => PR::Fail(m, a),
                } },
                PR::Fail(m, a) => PR::Fail(m, a),
            } }
        };
    }
}

#[verifier::spinoff_prover]
#[verifier::rlimit(100)]
proof fn lemma_state_field_ok(t: Seq<SpannedV>, n: int)
    requires
        ok_p_expr(t, n),
        ok_p_type(t, n),
    ensures
        ok_state_field(t, n),
{
    reveal(state_field);
    lemma_helpers_ok(t);
    assert forall|k: int| t.len() - k <= n implies pr_ok(t, #[trigger] state_field(t, k)) && got_ge(state_field(t, k), k) by {
        let _r = {
            { assert(pr_ok(t, ident(t, k))); match ident(t, k) {
                PR::Got(name, k1) => { assert(pr_ok(t, expect(t, k1, TokV::Colon, "':' in state field"@))); match expect(t, k1, TokV::Colon, "':' in state field"@) {
                    PR::Got(_, k2) => { assert(pr_ok(t, p_type(t, k2))); match p_type(t, k2) {
                        PR::Got(ty, k3) => { assert(pr_ok(t, expect(t, k3, TokV::Assign, "'=' before state default"@))); match expect(t, k3, TokV::Assign, "'=' before state default"@) {
                            PR::Got(_, k4) => { assert(pr_ok(t, p_expr(t, k4))); match p_expr(t, k4) {
                                PR::Got(d, k5) => PR::Got((name, ty, d), k5),
                                PR::Fail(m, a) => PR::Fail(m, a),
                            } },
                            PR::Fail(m, a) => PR::Fail(m, a),
                        } },
                        PR::Fail(m, a) => PR::Fail(m, a),
                    } },
                    PR::Fail(m, a) => PR::Fail(m, a),
                } },
                PR::Fail(m, a) => PR::Fail(m, a),
            } }
        };
    }
}

#[verifier::spinoff_prover]
#[verifier::rlimit(100)]
proof fn lemma_state_loop_ok(t: Seq<SpannedV>, n: int)
    requires
        n >= 0 ==> ok_state_loop(t, n - 1),
        ok_state_field(t, n),
    ensures
        ok_state_loop(t, n),
{
    lemma_helpers_ok(t);
    assert forall|k: int, st: AgentState| t.len() - k <= n implies pr_ok(t, #[trigger] state_loop(t, k, st)) && got_ge(state_loop(t, k, st), k) by {
        let _r = {
            if k < 0 || k > t.len() {
                stuck()
            } else if tk(t, k) == TokV::RBrace {
                { assert(pr_ok(t, expect(t, k, TokV::RBrace, "'}' after state block"@))); match expect(t, k, TokV::RBrace, "'}' after state block"@) {
                    PR::Got(_, k2) => PR::Got(st, k2),
                    PR::Fail(m, a) => PR::Fail(m, a),
                } }
            } else {
                { assert(pr_ok(t, state_field(t, k))); match state_field(t, k) {
                    PR::Got((name, ty, d), k5) => if k < k5 <= t.len() {
                        { assert(pr_ok(t, state_loop(
                            t,
                            eat(t, k5, TokV::Comma),
                            AgentState {
                                names: st.names.push(name),
                                tys: st.tys.push(ty),
                                defaults: st.defaults.push(d),
                            },
                        ))); state_loop(
                            t,
                            eat(t, k5, TokV::Comma),
                            AgentState {
                                names: st.names.push(name),
                                tys: st.tys.push(ty),
                                defaults: st.defaults.push(d),
                            },
                        ) }
                    } else {
                        stuck()
                    },
                    PR::Fail(m, a) => PR::Fail(m, a),
                } }
            }
        };
    }
}

#[verifier::spinoff_prover]
#[verifier::rlimit(100)]
proof fn lemma_agent_loop_ok(t: Seq<SpannedV>, n: int)
    requires
        n >= 0 ==> ok_agent_loop(t, n - 1),
        ok_p_fn(t, n),
        ok_state_loop(t, n),
    ensures
        ok_agent_loop(t, n),
{
    lemma_helpers_ok(t);
    assert forall|k: int, st: AgentState, fns: Seq<ItemV>| t.len() - k <= n implies pr_ok(t, #[trigger] agent_loop(t, k, st, fns)) && got_ge(agent_loop(t, k, st, fns), k) by {
        let _r = {
            if k < 0 || k > t.len() {
                stuck()
            } else if tk(t, k) == TokV::RBrace {
                { assert(pr_ok(t, expect(t, k, TokV::RBrace, "'}' after agent body"@))); match expect(t, k, TokV::RBrace, "'}' after agent body"@) {
                    PR::Got(_, k2) => PR::Got((st, fns), k2),
                    PR::Fail(m, a) => PR::Fail(m, a),
                } }
            } else if tk(t, k) == TokV::Eof {
                fail_at(t, k, "unexpected end of file inside agent"@)
            } else if tk(t, k) == TokV::State {
                { assert(pr_ok(t, expect(t, bump(t, k), TokV::LBrace, "'{' before state block"@))); match expect(t, bump(t, k), TokV::LBrace, "'{' before state block"@) {
                    PR::Got(_, k1) => { assert(pr_ok(t, state_loop(t, k1, st))); match state_loop(t, k1, st) {
                        PR::Got(st2, k2) => if k < k2 <= t.len() {
                            { assert(pr_ok(t, agent_loop(t, k2, st2, fns))); agent_loop(t, k2, st2, fns) }
                        } else {
                            stuck()
                        },
                        PR::Fail(m, a) => PR::Fail(m, a),
                    } },
                    PR::Fail(m, a) => PR::Fail(m, a),
                } }
            } else if tk(t, k) == TokV::Fn {
                { assert(pr_ok(t, p_fn(t, k))); match p_fn(t, k) {
                    PR::Got(f, k2) => if k < k2 <= t.len() {
                        { assert(pr_ok(t, agent_loop(t, k2, st, fns.push(f)))); agent_loop(t, k2, st, fns.push(f)) }
                    } else {
                        stuck()
                    },
                    PR::Fail(m, a) => PR::Fail(m, a),
                } }
            } else {
                found(t, k, "expected `state` or `fn` inside agent, found "@)
            }
        };
    }
}

#[verifier::spinoff_prover]
#[verifier::rlimit(100)]
proof fn lemma_p_agent_ok(t: Seq<SpannedV>, n: int)
    requires
        ok_agent_loop(t, n),
    ensures
        ok_p_agent(t, n),
{
    reveal(p_agent);
    lemma_helpers_ok(t);
    assert forall|i: int| t.len() - i <= n implies pr_ok(t, #[trigger] p_agent(t, i)) && got_ge(p_agent(t, i), i) by {
        let _r = {
            { assert(pr_ok(t, ident(t, bump(t, i)))); match ident(t, bump(t, i)) {
                PR::Got(name, k1) => { assert(pr_ok(t, expect(t, k1, TokV::LBrace, "'{' before agent body"@))); match expect(t, k1, TokV::LBrace, "'{' before agent body"@) {
                    PR::Got(_, k2) => { assert(pr_ok(t, agent_loop(
                        t,
                        k2,
                        AgentState { names: Seq::empty(), tys: Seq::empty(), defaults: Seq::empty() },
                        Seq::empty(),
                    ))); match agent_loop(
                        t,
                        k2,
                        AgentState { names: Seq::empty(), tys: Seq::empty(), defaults: Seq::empty() },
                        Seq::empty(),
                    ) {
                        PR::Got((st, fns), k3) => PR::Got(
                            ItemV::Agent(name, st.names, st.tys, st.defaults, fns),
                            k3,
                        ),
                        PR::Fail(m, a) => PR::Fail(m, a),
                    } },
                    PR::Fail(m, a) => PR::Fail(m, a),
                } },
                PR::Fail(m, a) => PR::Fail(m, a),
            } }
        };
    }
}

#[verifier::spinoff_prover]
#[verifier::rlimit(100)]
proof fn lemma_p_item_ok(t: Seq<SpannedV>, n: int)
    requires
        ok_p_agent(t, n),
        ok_p_fn(t, n),
        ok_p_test(t, n),
        ok_p_tool(t, n),
        ok_p_type_alias(t, n),
    ensures
        ok_p_item(t, n),
{
    reveal(p_item);
    lemma_helpers_ok(t);
    assert forall|i: int| t.len() - i <= n implies pr_ok(t, #[trigger] p_item(t, i)) && got_ge(p_item(t, i), i) by {
        let _r = {
            match tk(t, i) {
                TokV::Type => { assert(pr_ok(t, p_type_alias(t, i))); p_type_alias(t, i) },
                TokV::Fn => { assert(pr_ok(t, p_fn(t, i))); p_fn(t, i) },
                TokV::Tool => { assert(pr_ok(t, p_tool(t, i))); p_tool(t, i) },
                TokV::Test => { assert(pr_ok(t, p_test(t, i))); p_test(t, i) },
                TokV::Agent => { assert(pr_ok(t, p_agent(t, i))); p_agent(t, i) },
                _ => found(t, i, "expected item (type/fn/tool/test), found "@),
            }
        };
    }
}

#[verifier::spinoff_prover]
#[verifier::rlimit(100)]
proof fn lemma_program_loop_ok(t: Seq<SpannedV>, n: int)
    requires
        n >= 0 ==> ok_program_loop(t, n - 1),
        ok_p_item(t, n),
    ensures
        ok_program_loop(t, n),
{
    lemma_helpers_ok(t);
    assert forall|k: int, items: Seq<ItemV>| t.len() - k <= n implies pr_ok(t, #[trigger] program_loop(t, k, items)) && got_ge(program_loop(t, k, items), k) by {
        let _r = {
            if k < 0 || k > t.len() {
                stuck()
            } else if tk(t, k) == TokV::Eof {
                PR::Got(items, k)
            } else {
                { assert(pr_ok(t, p_item(t, k))); match p_item(t, k) {
                    PR::Got(it, k2) => if k < k2 <= t.len() {
                        { assert(pr_ok(t, program_loop(t, k2, items.push(it)))); program_loop(t, k2, items.push(it)) }
                    } else {
                        stuck()
                    },
                    PR::Fail(m, a) => PR::Fail(m, a),
                } }
            }
        };
    }
}

#[verifier::spinoff_prover]
#[verifier::rlimit(100)]
proof fn lemma_all_ok(t: Seq<SpannedV>, n: int)
    requires
        n >= -1,
    ensures
        ok_lambda_params(t, n),
        ok_merge_loop(t, n),
        ok_or_loop(t, n),
        ok_and_loop(t, n),
        ok_rel_loop(t, n),
        ok_add_loop(t, n),
        ok_mul_loop(t, n),
        ok_p_call_args(t, n),
        ok_route_loop(t, n),
        ok_with_loop(t, n),
        ok_par_map_tail(t, n),
        ok_postfix_loop(t, n),
        ok_p_primary(t, n),
        ok_p_par(t, n),
        ok_p_postfix(t, n),
        ok_p_unary(t, n),
        ok_p_mul(t, n),
        ok_p_add(t, n),
        ok_p_rel(t, n),
        ok_p_and(t, n),
        ok_p_or(t, n),
        ok_p_merge(t, n),
        ok_p_expr(t, n),
        ok_args_loop(t, n),
        ok_list_loop(t, n),
        ok_record_loop(t, n),
        ok_refine_args(t, n),
        ok_p_type(t, n),
        ok_let_tail(t, n),
        ok_p_stmt(t, n),
        ok_block_loop(t, n),
        ok_p_block(t, n),
        ok_params_loop(t, n),
        ok_p_params(t, n),
        ok_effects_loop(t, n),
        ok_p_effects(t, n),
        ok_p_fn(t, n),
        ok_tool_field(t, n),
        ok_tool_loop(t, n),
        ok_p_tool(t, n),
        ok_p_test(t, n),
        ok_p_type_alias(t, n),
        ok_state_field(t, n),
        ok_state_loop(t, n),
        ok_agent_loop(t, n),
        ok_p_agent(t, n),
        ok_p_item(t, n),
        ok_program_loop(t, n),
    decreases n + 1,
{
    if n >= 0 {
        lemma_all_ok(t, n - 1);
    }
    lemma_lambda_params_ok(t, n);
    lemma_merge_loop_ok(t, n);
    lemma_or_loop_ok(t, n);
    lemma_and_loop_ok(t, n);
    lemma_rel_loop_ok(t, n);
    lemma_add_loop_ok(t, n);
    lemma_mul_loop_ok(t, n);
    lemma_p_call_args_ok(t, n);
    lemma_route_loop_ok(t, n);
    lemma_with_loop_ok(t, n);
    lemma_par_map_tail_ok(t, n);
    lemma_postfix_loop_ok(t, n);
    lemma_p_primary_ok(t, n);
    lemma_p_par_ok(t, n);
    lemma_p_postfix_ok(t, n);
    lemma_p_unary_ok(t, n);
    lemma_p_mul_ok(t, n);
    lemma_p_add_ok(t, n);
    lemma_p_rel_ok(t, n);
    lemma_p_and_ok(t, n);
    lemma_p_or_ok(t, n);
    lemma_p_merge_ok(t, n);
    lemma_p_expr_ok(t, n);
    lemma_args_loop_ok(t, n);
    lemma_list_loop_ok(t, n);
    lemma_record_loop_ok(t, n);
    lemma_refine_args_ok(t, n);
    lemma_p_type_ok(t, n);
    lemma_let_tail_ok(t, n);
    lemma_p_stmt_ok(t, n);
    lemma_block_loop_ok(t, n);
    lemma_p_block_ok(t, n);
    lemma_params_loop_ok(t, n);
    lemma_p_params_ok(t, n);
    lemma_effects_loop_ok(t, n);
    lemma_p_effects_ok(t, n);
    lemma_p_fn_ok(t, n);
    lemma_tool_field_ok(t, n);
    lemma_tool_loop_ok(t, n);
    lemma_p_tool_ok(t, n);
    lemma_p_test_ok(t, n);
    lemma_p_type_alias_ok(t, n);
    lemma_state_field_ok(t, n);
    lemma_state_loop_ok(t, n);
    lemma_agent_loop_ok(t, n);
    lemma_p_agent_ok(t, n);
    lemma_p_item_ok(t, n);
    lemma_program_loop_ok(t, n);
}

/// A syntax error is reported at the start of one of the tokens (or at 0).
pub proof fn law_syntax_errors_point_at_a_token(t: Seq<SpannedV>)
    ensures
        parse_v(t) matches Err(e) ==> at_ok(t, e.1),
{
    lemma_all_ok(t, t.len() as int);
}

/// For the tokens of a lexed text, a syntax error's offset lies within the
/// text.
pub proof fn law_syntax_errors_lie_in_the_text(src: Seq<char>, t: Seq<SpannedV>)
    requires
        crate::lexer::lex_v(src) == Ok::<Seq<SpannedV>, (Seq<char>, nat)>(t),
    ensures
        parse_v(t) matches Err(e) ==> e.1 <= crate::text::byte_len(src),
{
    law_syntax_errors_point_at_a_token(t);
    crate::lexer::law_spans_are_ordered(src, t);
    if parse_v(t) is Err {
        let a = parse_v(t)->Err_0.1;
        if a != 0 {
            let j = choose|j: int| 0 <= j < t.len() && #[trigger] t[j].start == a;
            assert(t[j].start <= t[j].end);
        }
    }
}

} // verus!
