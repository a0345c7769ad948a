//! Abstract syntax produced by the parser.

use vstd::prelude::*;
use crate::decimal::{debug_v, Num, NumV};
use crate::text::{int_str, push_i64, push_str, push_str_debug, str_debug_v};

verus! {

/// Binary (and unary `Not`) operators.
#[derive(Debug, Clone, Copy, PartialEq, Eq, Structural)]
pub enum BinOp {
    Add,
    Sub,
    Mul,
    Div,
    Mod,
    Eq,
    NotEq,
    Lt,
    LtEq,
    Gt,
    GtEq,
    And,
    Or,
    /// Unary only.
    Not,
}

/// A type as written: a name (`string`, `Url`), a list `[T]`, a record
/// `{k: T, ...}`, or a refinement `float @range(0, 1)`.
#[derive(Debug, PartialEq)]
pub enum TypeExpr {
    Named(String),
    List(Box<TypeExpr>),
    Record(Vec<(String, TypeExpr)>),
    Refine(Box<TypeExpr>, String, Vec<Expr>),
}

/// An expression.
#[derive(Debug, PartialEq)]
pub enum Expr {
    Int(i64),
    Float(Num),
    Str(String),
    Money(Num, String),
    Bool(bool),
    /// The literal `none`.
    NoneLit,
    Ident(String),
    ListLit(Vec<Expr>),
    /// `llm"""..."""` with the `{...}` interpolations found in its body.
    Prompt { body: String, interpolations: Vec<String> },
    /// A prompt with a `with { ... }` block; `repair` is set by
    /// `retry: N with repair`.
    LlmCall { prompt: Box<Expr>, options: Vec<(String, Expr)>, repair: bool },
    Call { func: Box<Expr>, args: Vec<Expr>, kwargs: Vec<(String, Expr)> },
    Field { obj: Box<Expr>, name: String },
    Binary { op: BinOp, l: Box<Expr>, r: Box<Expr> },
    /// `op` is `Sub` (negation) or `Not`.
    Unary { op: BinOp, x: Box<Expr> },
    ParMap { coll: Box<Expr>, kwargs: Vec<(String, Expr)>, params: Vec<String>, body: Box<Expr> },
    ParAll(Vec<Expr>),
    ParRace(Vec<Expr>),
    /// `l | merge r`.
    Merge { l: Box<Expr>, r: Box<Expr> },
    /// `route{ label: "model" when cond, ... label: "model" otherwise }`;
    /// `otherwise` has no condition.
    Route { arms: Vec<(String, String, Option<Expr>)> },
}

#[verifier::ext_equal]
pub enum ExprV {
    Int(int),
    Float(NumV),
    Str(Seq<char>),
    Money(NumV, Seq<char>),
    Bool(bool),
    NoneLit,
    Ident(Seq<char>),
    ListLit(Seq<ExprV>),
    Prompt(Seq<char>, Seq<Seq<char>>),
    LlmCall(Box<ExprV>, Seq<Seq<char>>, Seq<ExprV>, bool),
    Call(Box<ExprV>, Seq<ExprV>, Seq<Seq<char>>, Seq<ExprV>),
    Field(Box<ExprV>, Seq<char>),
    Binary(BinOp, Box<ExprV>, Box<ExprV>),
    Unary(BinOp, Box<ExprV>),
    ParMap(Box<ExprV>, Seq<Seq<char>>, Seq<ExprV>, Seq<Seq<char>>, Box<ExprV>),
    ParAll(Seq<ExprV>),
    ParRace(Seq<ExprV>),
    Merge(Box<ExprV>, Box<ExprV>),
    Route(Seq<Seq<char>>, Seq<Seq<char>>, Seq<Option<ExprV>>),
}

pub open spec fn strs_v(v: Seq<String>) -> Seq<Seq<char>> {
    Seq::new(v.len(), |i: int| v[i]@)
}

pub open spec fn names_v<T>(v: Seq<(String, T)>) -> Seq<Seq<char>> {
    Seq::new(v.len(), |i: int| v[i].0@)
}

/// The view of a `route` arm's condition.
pub open spec fn arm_cond_v(a: (String, String, Option<Expr>)) -> Option<ExprV>
    decreases a,
{
    match a.2 {
        Some(e) => Some(e.view()),
        None => None,
    }
}

impl View for Expr {
    type V = ExprV;

    open spec fn view(&self) -> ExprV
        decreases self,
    {
        match self {
            Expr::Int(n) => ExprV::Int(*n as int),
            Expr::Float(x) => ExprV::Float(x@),
            Expr::Str(s) => ExprV::Str(s@),
            Expr::Money(x, u) => ExprV::Money(x@, u@),
            Expr::Bool(b) => ExprV::Bool(*b),
            Expr::NoneLit => ExprV::NoneLit,
            Expr::Ident(s) => ExprV::Ident(s@),
            Expr::ListLit(xs) => ExprV::ListLit(
                Seq::new(xs@.len(), |i: int| if 0 <= i < xs@.len() { xs@[i].view() } else { ExprV::NoneLit }),
            ),
            Expr::Prompt { body, interpolations } => ExprV::Prompt(body@, strs_v(interpolations@)),
            Expr::LlmCall { prompt, options, repair } => ExprV::LlmCall(
                Box::new((**prompt).view()),
                names_v(options@),
                Seq::new(options@.len(), |i: int| if 0 <= i < options@.len() { options@[i].1.view() } else { ExprV::NoneLit }),
                *repair,
            ),
            Expr::Call { func, args, kwargs } => ExprV::Call(
                Box::new((**func).view()),
                Seq::new(args@.len(), |i: int| if 0 <= i < args@.len() { args@[i].view() } else { ExprV::NoneLit }),
                names_v(kwargs@),
                Seq::new(kwargs@.len(), |i: int| if 0 <= i < kwargs@.len() { kwargs@[i].1.view() } else { ExprV::NoneLit }),
            ),
            Expr::Field { obj, name } => ExprV::Field(Box::new((**obj).view()), name@),
            Expr::Binary { op, l, r } => ExprV::Binary(*op, Box::new((**l).view()), Box::new((**r).view())),
            Expr::Unary { op, x } => ExprV::Unary(*op, Box::new((**x).view())),
            Expr::ParMap { coll, kwargs, params, body } => ExprV::ParMap(
                Box::new((**coll).view()),
                names_v(kwargs@),
                Seq::new(kwargs@.len(), |i: int| if 0 <= i < kwargs@.len() { kwargs@[i].1.view() } else { ExprV::NoneLit }),
                strs_v(params@),
                Box::new((**body).view()),
            ),
            Expr::ParAll(xs) => ExprV::ParAll(
                Seq::new(xs@.len(), |i: int| if 0 <= i < xs@.len() { xs@[i].view() } else { ExprV::NoneLit }),
            ),
            Expr::ParRace(xs) => ExprV::ParRace(
                Seq::new(xs@.len(), |i: int| if 0 <= i < xs@.len() { xs@[i].view() } else { ExprV::NoneLit }),
            ),
            Expr::Merge { l, r } => ExprV::Merge(Box::new((**l).view()), Box::new((**r).view())),
            Expr::Route { arms } => ExprV::Route(
                Seq::new(arms@.len(), |i: int| arms@[i].0@),
                Seq::new(arms@.len(), |i: int| arms@[i].1@),
                Seq::new(
                    arms@.len(),
                    |i: int|
                        if 0 <= i < arms@.len() {
                            arm_cond_v(arms@[i])
                        } else {
                            None
                        },
                ),
            ),
        }
    }
}

#[verifier::ext_equal]
pub enum TypeExprV {
    Named(Seq<char>),
    List(Box<TypeExprV>),
    Record(Seq<Seq<char>>, Seq<TypeExprV>),
    Refine(Box<TypeExprV>, Seq<char>, Seq<ExprV>),
}

impl View for TypeExpr {
    type V = TypeExprV;

    open spec fn view(&self) -> TypeExprV
        decreases self,
    {
        match self {
            TypeExpr::Named(s) => TypeExprV::Named(s@),
            TypeExpr::List(t) => TypeExprV::List(Box::new((**t).view())),
            TypeExpr::Record(fs) => TypeExprV::Record(
                names_v(fs@),
                Seq::new(fs@.len(), |i: int| if 0 <= i < fs@.len() { fs@[i].1.view() } else { TypeExprV::Named(Seq::empty()) }),
            ),
            TypeExpr::Refine(t, n, args) => TypeExprV::Refine(
                Box::new((**t).view()),
                n@,
                Seq::new(args@.len(), |i: int| args@[i]@),
            ),
        }
    }
}

/// A parameter: name and type.
#[derive(Debug, PartialEq)]
pub struct Param {
    pub name: String,
    pub ty: TypeExpr,
}

#[verifier::ext_equal]
pub struct ParamV {
    pub name: Seq<char>,
    pub ty: TypeExprV,
}

impl View for Param {
    type V = ParamV;

    open spec fn view(&self) -> ParamV {
        ParamV { name: self.name@, ty: self.ty@ }
    }
}

/// The byte range of a statement in the source.
#[derive(Debug, Clone, Copy, PartialEq, Eq, Structural)]
pub struct Span {
    pub start: usize,
    pub end: usize,
}

/// How a state write combines with the old value: `=`, `+=` or `-=`.
#[derive(Debug, Clone, Copy, PartialEq, Eq, Structural)]
pub enum StateOp {
    Assign,
    Add,
    Sub,
}

/// A statement.
#[derive(Debug, PartialEq)]
pub enum StmtKind {
    /// `stream` is set for `stream let`.
    Let { name: String, ty: Option<TypeExpr>, value: Expr, stream: bool },
    /// `state.x = v` (or `+=`, `-=`) inside an agent.
    StateWrite { field: String, op: StateOp, value: Expr },
    Assert(Expr),
    ExprStmt(Expr),
}

#[verifier::ext_equal]
pub enum StmtKindV {
    Let(Seq<char>, Option<TypeExprV>, ExprV, bool),
    StateWrite(Seq<char>, StateOp, ExprV),
    Assert(ExprV),
    ExprStmt(ExprV),
}

impl View for StmtKind {
    type V = StmtKindV;

    open spec fn view(&self) -> StmtKindV {
        match self {
            StmtKind::Let { name, ty, value, stream } => StmtKindV::Let(
                name@,
                match ty {
                    Some(t) => Some(t@),
                    None => None,
                },
                value@,
                *stream,
            ),
            StmtKind::StateWrite { field, op, value } => StmtKindV::StateWrite(field@, *op, value@),
            StmtKind::Assert(e) => StmtKindV::Assert(e@),
            StmtKind::ExprStmt(e) => StmtKindV::ExprStmt(e@),
        }
    }
}

/// A statement with its span.
#[derive(Debug, PartialEq)]
pub struct Stmt {
    pub kind: StmtKind,
    pub span: Span,
}

#[verifier::ext_equal]
pub struct StmtV {
    pub kind: StmtKindV,
    pub span: Span,
}

impl View for Stmt {
    type V = StmtV;

    open spec fn view(&self) -> StmtV {
        StmtV { kind: self.kind@, span: self.span }
    }
}

/// A top-level item.
#[derive(Debug, PartialEq)]
pub enum Item {
    TypeAlias { name: String, ty: TypeExpr },
    Fn { name: String, params: Vec<Param>, ret: TypeExpr, effects: Vec<String>, body: Vec<Stmt> },
    Tool { name: String, params: Vec<Param>, ret: TypeExpr, fields: Vec<(String, Expr)> },
    Test { name: String, body: Vec<Stmt> },
    /// `agent Name { state { field: Ty = default, ... } fn ... }`.
    Agent { name: String, state: Vec<(String, TypeExpr, Expr)>, fns: Vec<Item> },
}

#[verifier::ext_equal]
pub enum ItemV {
    TypeAlias(Seq<char>, TypeExprV),
    Fn(Seq<char>, Seq<ParamV>, TypeExprV, Seq<Seq<char>>, Seq<StmtV>),
    Tool(Seq<char>, Seq<ParamV>, TypeExprV, Seq<Seq<char>>, Seq<ExprV>),
    Test(Seq<char>, Seq<StmtV>),
    Agent(Seq<char>, Seq<Seq<char>>, Seq<TypeExprV>, Seq<ExprV>, Seq<ItemV>),
}

pub open spec fn params_v(ps: Seq<Param>) -> Seq<ParamV> {
    Seq::new(ps.len(), |i: int| ps[i]@)
}

pub open spec fn stmts_v(ss: Seq<Stmt>) -> Seq<StmtV> {
    Seq::new(ss.len(), |i: int| ss[i]@)
}

impl View for Item {
    type V = ItemV;

    open spec fn view(&self) -> ItemV
        decreases self,
    {
        match self {
            Item::TypeAlias { name, ty } => ItemV::TypeAlias(name@, ty@),
            Item::Fn { name, params, ret, effects, body } => ItemV::Fn(
                name@,
                params_v(params@),
                ret@,
                strs_v(effects@),
                stmts_v(body@),
            ),
            Item::Tool { name, params, ret, fields } => ItemV::Tool(
                name@,
                params_v(params@),
                ret@,
                names_v(fields@),
                Seq::new(fields@.len(), |i: int| fields@[i].1@),
            ),
            Item::Test { name, body } => ItemV::Test(name@, stmts_v(body@)),
            Item::Agent { name, state, fns } => ItemV::Agent(
                name@,
                Seq::new(state@.len(), |i: int| state@[i].0@),
                Seq::new(state@.len(), |i: int| state@[i].1@),
                Seq::new(state@.len(), |i: int| state@[i].2@),
                Seq::new(fns@.len(), |i: int| if 0 <= i < fns@.len() { fns@[i].view() } else { ItemV::Test(Seq::empty(), Seq::empty()) }),
            ),
        }
    }
}

} // verus!


verus! {

/// The name of an operator, as `{:?}` writes it.
pub open spec fn op_name(op: BinOp) -> Seq<char> {
    match op {
        BinOp::Add => "Add"@,
        BinOp::Sub => "Sub"@,
        BinOp::Mul => "Mul"@,
        BinOp::Div => "Div"@,
        BinOp::Mod => "Mod"@,
        BinOp::Eq => "Eq"@,
        BinOp::NotEq => "NotEq"@,
        BinOp::Lt => "Lt"@,
        BinOp::LtEq => "LtEq"@,
        BinOp::Gt => "Gt"@,
        BinOp::GtEq => "GtEq"@,
        BinOp::And => "And"@,
        BinOp::Or => "Or"@,
        BinOp::Not => "Not"@,
    }
}

pub open spec fn bool_str(b: bool) -> Seq<char> {
    if b {
        "true"@
    } else {
        "false"@
    }
}

/// `s1, s2, ...` with each string quoted as `{:?}` writes it.
pub open spec fn strs_items(s: Seq<Seq<char>>) -> Seq<char>
    decreases s.len(),
{
    if s.len() == 0 {
        Seq::empty()
    } else if s.len() == 1 {
        str_debug_v(s[0])
    } else {
        strs_items(s.drop_last()) + ", "@ + str_debug_v(s.last())
    }
}

/// An expression as `{:?}` writes it (with floats written as `f64`'s
/// `{:?}` writes them).
pub open spec fn expr_debug(e: ExprV) -> Seq<char>
    decreases e,
{
    match e {
        ExprV::Int(n) => "Int("@ + int_str(n) + ")"@,
        ExprV::Float(x) => "Float("@ + debug_v(x) + ")"@,
        ExprV::Str(s) => "Str("@ + str_debug_v(s) + ")"@,
        ExprV::Money(x, u) => "Money("@ + debug_v(x) + ", "@ + str_debug_v(u) + ")"@,
        ExprV::Bool(b) => "Bool("@ + bool_str(b) + ")"@,
        ExprV::NoneLit => "None"@,
        ExprV::Ident(s) => "Ident("@ + str_debug_v(s) + ")"@,
        ExprV::ListLit(xs) => "ListLit(["@ + exprs_items(xs) + "])"@,
        ExprV::Prompt(body, is) => "Prompt { body: "@ + str_debug_v(body) + ", interpolations: ["@
            + strs_items(is) + "] }"@,
        ExprV::LlmCall(p, ks, vs, rep) => "LlmCall { prompt: "@ + expr_debug(*p) + ", options: ["@
            + pairs_items(ks, vs) + "], repair: "@ + bool_str(rep) + " }"@,
        ExprV::Call(f, args, kn, kv) => "Call { func: "@ + expr_debug(*f) + ", args: ["@
            + exprs_items(args) + "], kwargs: ["@ + pairs_items(kn, kv) + "] }"@,
        ExprV::Field(o, n) => "Field { obj: "@ + expr_debug(*o) + ", name: "@ + str_debug_v(n)
            + " }"@,
        ExprV::Binary(op, l, r) => "Binary { op: "@ + op_name(op) + ", l: "@ + expr_debug(*l)
            + ", r: "@ + expr_debug(*r) + " }"@,
        ExprV::Unary(op, x) => "Unary { op: "@ + op_name(op) + ", x: "@ + expr_debug(*x) + " }"@,
        ExprV::ParMap(c, kn, kv, ps, b) => "ParMap { coll: "@ + expr_debug(*c) + ", kwargs: ["@
            + pairs_items(kn, kv) + "], params: ["@ + strs_items(ps) + "], body: "@ + expr_debug(
            *b,
        ) + " }"@,
        ExprV::ParAll(xs) => "ParAll(["@ + exprs_items(xs) + "])"@,
        ExprV::ParRace(xs) => "ParRace(["@ + exprs_items(xs) + "])"@,
        ExprV::Merge(l, r) => "Merge { l: "@ + expr_debug(*l) + ", r: "@ + expr_debug(*r) + " }"@,
        ExprV::Route(ls, ms, cs) => "Route { arms: ["@ + arms_items(ls, ms, cs) + "] }"@,
    }
}

/// The expressions of a list, separated by `, `.
pub open spec fn exprs_items(xs: Seq<ExprV>) -> Seq<char>
    decreases xs,
{
    if xs.len() == 0 {
        Seq::empty()
    } else if xs.len() == 1 {
        expr_debug(xs[0])
    } else {
        exprs_items(xs.drop_last()) + ", "@ + expr_debug(xs.last())
    }
}

/// `(name, value)` pairs, separated by `, `.
pub open spec fn pairs_items(ks: Seq<Seq<char>>, vs: Seq<ExprV>) -> Seq<char>
    decreases vs,
{
    if vs.len() == 0 {
        Seq::empty()
    } else {
        let item = "("@ + str_debug_v(ks[vs.len() - 1]) + ", "@ + expr_debug(vs.last()) + ")"@;
        if vs.len() == 1 {
            item
        } else {
            pairs_items(ks, vs.drop_last()) + ", "@ + item
        }
    }
}

/// A route arm's condition: `Some(..)` or `None`.
pub open spec fn cond_debug(c: Option<ExprV>) -> Seq<char>
    decreases c,
{
    match c {
        Some(x) => "Some("@ + expr_debug(x) + ")"@,
        None => "None"@,
    }
}

/// `(label, model, cond)` arms, separated by `, `.
pub open spec fn arms_items(ls: Seq<Seq<char>>, ms: Seq<Seq<char>>, cs: Seq<Option<ExprV>>) -> Seq<char>
    decreases cs,
{
    if cs.len() == 0 {
        Seq::empty()
    } else {
        let n = cs.len() - 1;
        let item = "("@ + str_debug_v(ls[n]) + ", "@ + str_debug_v(ms[n]) + ", "@ + cond_debug(
            cs.last(),
        ) + ")"@;
        if cs.len() == 1 {
            item
        } else {
            arms_items(ls, ms, cs.drop_last()) + ", "@ + item
        }
    }
}

} // verus!

verus! {

pub open spec fn exprs_v(s: Seq<Expr>) -> Seq<ExprV> {
    Seq::new(s.len(), |i: int| s[i]@)
}

pub open spec fn kvals_v(s: Seq<(String, Expr)>) -> Seq<ExprV> {
    Seq::new(s.len(), |i: int| s[i].1@)
}

proof fn lemma_take_step<A>(s: Seq<A>, i: int)
    requires
        0 <= i < s.len(),
    ensures
        s.take(i + 1).drop_last() == s.take(i),
        s.take(i + 1).last() == s[i],
        s.take(i + 1).len() == i + 1,
{
    assert(s.take(i + 1).drop_last() =~= s.take(i));
}

fn push_op_name(out: &mut String, op: BinOp)
    ensures
        final(out)@ == old(out)@ + op_name(op),
{
    let s = match op {
        BinOp::Add => "Add",
        BinOp::Sub => "Sub",
        BinOp::Mul => "Mul",
        BinOp::Div => "Div",
        BinOp::Mod => "Mod",
        BinOp::Eq => "Eq",
        BinOp::NotEq => "NotEq",
        BinOp::Lt => "Lt",
        BinOp::LtEq => "LtEq",
        BinOp::Gt => "Gt",
        BinOp::GtEq => "GtEq",
        BinOp::And => "And",
        BinOp::Or => "Or",
        BinOp::Not => "Not",
    };
    push_str(out, s);
}

fn push_bool(out: &mut String, b: bool)
    ensures
        final(out)@ == old(out)@ + bool_str(b),
{
    if b {
        push_str(out, "true");
    } else {
        push_str(out, "false");
    }
}

fn push_strs_items(out: &mut String, s: &Vec<String>)
    ensures
        final(out)@ == old(out)@ + strs_items(strs_v(s@)),
{
    let ghost o = out@;
    let ghost v = strs_v(s@);
    let mut i: usize = 0;
    while i < s.len()
        invariant
            i <= s@.len() == v.len(),
            v == strs_v(s@),
            out@ == o + strs_items(v.take(i as int)),
        decreases s@.len() - i,
    {
        proof {
            lemma_take_step(v, i as int);
        }
        let ghost before = out@;
        if i > 0 {
            push_str(out, ", ");
        }
        push_str_debug(out, s[i].as_str());
        proof {
            if i > 0 {
                assert(out@ =~= before + ", "@ + str_debug_v(v[i as int]));
            } else {
                assert(v.take(0) =~= Seq::<Seq<char>>::empty());
                assert(out@ =~= before + str_debug_v(v[i as int]));
            }
        }
        i = i + 1;
    }
    assert(v.take(s@.len() as int) =~= v);
}

/// Appends `format!("{:?}", e)`, floats written as `f64`'s `{:?}` writes them.
#[verifier::spinoff_prover]
#[verifier::rlimit(100)]
pub fn push_expr_debug(out: &mut String, e: &Expr)
    ensures
        final(out)@ == old(out)@ + expr_debug(e@),
    decreases e,
{
    let ghost o = out@;
    match e {
        Expr::Int(n) => {
            push_str(out, "Int(");
            push_i64(out, *n);
            push_str(out, ")");
            assert(out@ =~= o + expr_debug(e@));
        },
        Expr::Float(x) => {
            push_str(out, "Float(");
            x.write_debug(out);
            push_str(out, ")");
            assert(out@ =~= o + expr_debug(e@));
        },
        Expr::Str(s) => {
            push_str(out, "Str(");
            push_str_debug(out, s.as_str());
            push_str(out, ")");
            assert(out@ =~= o + expr_debug(e@));
        },
        Expr::Money(x, u) => {
            push_str(out, "Money(");
            x.write_debug(out);
            push_str(out, ", ");
            push_str_debug(out, u.as_str());
            push_str(out, ")");
            assert(out@ =~= o + expr_debug(e@));
        },
        Expr::Bool(b) => {
            push_str(out, "Bool(");
            push_bool(out, *b);
            push_str(out, ")");
            assert(out@ =~= o + expr_debug(e@));
        },
        Expr::NoneLit => {
            push_str(out, "None");
            assert(out@ =~= o + expr_debug(e@));
        },
        Expr::Ident(s) => {
            push_str(out, "Ident(");
            push_str_debug(out, s.as_str());
            push_str(out, ")");
            assert(out@ =~= o + expr_debug(e@));
        },
        Expr::ListLit(xs) => {
            push_str(out, "ListLit([");
            push_exprs_items(out, xs);
            push_str(out, "])");
            proof {
                assert(e@->ListLit_0 =~= exprs_v(xs@));
            }
            assert(out@ =~= o + expr_debug(e@));
        },
        Expr::Prompt { body, interpolations } => {
            push_str(out, "Prompt { body: ");
            push_str_debug(out, body.as_str());
            push_str(out, ", interpolations: [");
            push_strs_items(out, interpolations);
            push_str(out, "] }");
            assert(out@ =~= o + expr_debug(e@));
        },
        Expr::LlmCall { prompt, options, repair } => {
            push_str(out, "LlmCall { prompt: ");
            push_expr_debug(out, &**prompt);
            push_str(out, ", options: [");
            push_pairs_items(out, options);
            push_str(out, "], repair: ");
            push_bool(out, *repair);
            push_str(out, " }");
            proof {
                assert(e@->LlmCall_2 =~= kvals_v(options@));
            }
            assert(out@ =~= o + expr_debug(e@));
        },
        Expr::Call { func, args, kwargs } => {
            push_str(out, "Call { func: ");
            push_expr_debug(out, &**func);
            push_str(out, ", args: [");
            push_exprs_items(out, args);
            push_str(out, "], kwargs: [");
            push_pairs_items(out, kwargs);
            push_str(out, "] }");
            proof {
                assert(e@->Call_1 =~= exprs_v(args@));
                assert(e@->Call_3 =~= kvals_v(kwargs@));
            }
            assert(out@ =~= o + expr_debug(e@));
        },
        Expr::Field { obj, name } => {
            push_str(out, "Field { obj: ");
            push_expr_debug(out, &**obj);
            push_str(out, ", name: ");
            push_str_debug(out, name.as_str());
            push_str(out, " }");
            assert(out@ =~= o + expr_debug(e@));
        },
        Expr::Binary { op, l, r } => {
            push_str(out, "Binary { op: ");
            push_op_name(out, *op);
            push_str(out, ", l: ");
            push_expr_debug(out, &**l);
            push_str(out, ", r: ");
            push_expr_debug(out, &**r);
            push_str(out, " }");
            assert(out@ =~= o + expr_debug(e@));
        },
        Expr::Unary { op, x } => {
            push_str(out, "Unary { op: ");
            push_op_name(out, *op);
            push_str(out, ", x: ");
            push_expr_debug(out, &**x);
            push_str(out, " }");
            assert(out@ =~= o + expr_debug(e@));
        },
        Expr::ParMap { coll, kwargs, params, body } => {
            push_str(out, "ParMap { coll: ");
            push_expr_debug(out, &**coll);
            push_str(out, ", kwargs: [");
            push_pairs_items(out, kwargs);
            push_str(out, "], params: [");
            push_strs_items(out, params);
            push_str(out, "], body: ");
            push_expr_debug(out, &**body);
            push_str(out, " }");
            proof {
                assert(e@->ParMap_2 =~= kvals_v(kwargs@));
            }
            assert(out@ =~= o + expr_debug(e@));
        },
        Expr::ParAll(xs) => {
            push_str(out, "ParAll([");
            push_exprs_items(out, xs);
            push_str(out, "])");
            proof {
                assert(e@->ParAll_0 =~= exprs_v(xs@));
            }
            assert(out@ =~= o + expr_debug(e@));
        },
        Expr::ParRace(xs) => {
            push_str(out, "ParRace([");
            push_exprs_items(out, xs);
            push_str(out, "])");
            proof {
                assert(e@->ParRace_0 =~= exprs_v(xs@));
            }
            assert(out@ =~= o + expr_debug(e@));
        },
        Expr::Merge { l, r } => {
            push_str(out, "Merge { l: ");
            push_expr_debug(out, &**l);
            push_str(out, ", r: ");
            push_expr_debug(out, &**r);
            push_str(out, " }");
            assert(out@ =~= o + expr_debug(e@));
        },
        Expr::Route { arms } => {
            push_str(out, "Route { arms: [");
            push_arms_items(out, arms);
            push_str(out, "] }");
            proof {
                assert(e@->Route_0 =~= labels_of(arms@));
                assert(e@->Route_1 =~= models_of(arms@));
                assert(e@->Route_2 =~= conds_of(arms@));
            }
            assert(out@ =~= o + expr_debug(e@));
        },
    }
}

/// Appends the expressions of `xs` as `{:?}` writes them, separated by `, `.
pub fn push_exprs_items(out: &mut String, xs: &Vec<Expr>)
    ensures
        final(out)@ == old(out)@ + exprs_items(exprs_v(xs@)),
    decreases xs,
{
    let ghost o = out@;
    let ghost v = exprs_v(xs@);
    let mut i: usize = 0;
    while i < xs.len()
        invariant
            i <= xs@.len() == v.len(),
            v == exprs_v(xs@),
            out@ == o + exprs_items(v.take(i as int)),
        decreases xs@.len() - i,
    {
        proof {
            lemma_take_step(v, i as int);
        }
        let ghost before = out@;
        if i > 0 {
            push_str(out, ", ");
        }
        push_expr_debug(out, &xs[i]);
        proof {
            if i > 0 {
                assert(out@ =~= before + ", "@ + expr_debug(v[i as int]));
            } else {
                assert(v.take(0) =~= Seq::<ExprV>::empty());
                assert(out@ =~= before + expr_debug(v[i as int]));
            }
        }
        i = i + 1;
    }
    assert(v.take(xs@.len() as int) =~= v);
}

/// Appends `(name, value)` pairs as `{:?}` writes them, separated by `, `.
pub fn push_pairs_items(out: &mut String, kv: &Vec<(String, Expr)>)
    ensures
        final(out)@ == old(out)@ + pairs_items(names_v(kv@), kvals_v(kv@)),
    decreases kv,
{
    let ghost o = out@;
    let ghost ks = names_v(kv@);
    let ghost v = kvals_v(kv@);
    let mut i: usize = 0;
    while i < kv.len()
        invariant
            i <= kv@.len() == v.len() == ks.len(),
            v == kvals_v(kv@),
            ks == names_v(kv@),
            out@ == o + pairs_items(ks, v.take(i as int)),
        decreases kv@.len() - i,
    {
        proof {
            lemma_take_step(v, i as int);
        }
        let ghost before = out@;
        if i > 0 {
            push_str(out, ", ");
        }
        push_str(out, "(");
        push_str_debug(out, kv[i].0.as_str());
        push_str(out, ", ");
        push_expr_debug(out, &kv[i].1);
        push_str(out, ")");
        proof {
            let item = "("@ + str_debug_v(ks[i as int]) + ", "@ + expr_debug(v[i as int]) + ")"@;
            if i > 0 {
                assert(out@ =~= before + ", "@ + item);
            } else {
                assert(v.take(0) =~= Seq::<ExprV>::empty());
                assert(out@ =~= before + item);
            }
        }
        i = i + 1;
    }
    assert(v.take(kv@.len() as int) =~= v);
}

pub open spec fn labels_of(a: Seq<(String, String, Option<Expr>)>) -> Seq<Seq<char>> {
    Seq::new(a.len(), |i: int| a[i].0@)
}

pub open spec fn models_of(a: Seq<(String, String, Option<Expr>)>) -> Seq<Seq<char>> {
    Seq::new(a.len(), |i: int| a[i].1@)
}

pub open spec fn conds_of(a: Seq<(String, String, Option<Expr>)>) -> Seq<Option<ExprV>> {
    Seq::new(a.len(), |i: int| arm_cond_v(a[i]))
}

/// Appends `(label, model, cond)` arms as `{:?}` writes them.
#[verifier::spinoff_prover]
#[verifier::rlimit(50)]
pub fn push_arms_items(out: &mut String, arms: &Vec<(String, String, Option<Expr>)>)
    ensures
        final(out)@ == old(out)@ + arms_items(labels_of(arms@), models_of(arms@), conds_of(arms@)),
    decreases arms,
{
    let ghost o = out@;
    let ghost ls = labels_of(arms@);
    let ghost ms = models_of(arms@);
    let ghost cs = conds_of(arms@);
    let mut i: usize = 0;
    while i < arms.len()
        invariant
            i <= arms@.len() == cs.len() == ls.len() == ms.len(),
            ls == labels_of(arms@),
            ms == models_of(arms@),
            cs == conds_of(arms@),
            out@ == o + arms_items(ls, ms, cs.take(i as int)),
        decreases arms@.len() - i,
    {
        proof {
            lemma_take_step(cs, i as int);
        }
        let ghost before = out@;
        if i > 0 {
            push_str(out, ", ");
        }
        push_str(out, "(");
        push_str_debug(out, arms[i].0.as_str());
        push_str(out, ", ");
        push_str_debug(out, arms[i].1.as_str());
        push_str(out, ", ");
        match &arms[i].2 {
            Some(c) => {
                push_str(out, "Some(");
                push_expr_debug(out, c);
                push_str(out, ")");
            },
            None => {
                push_str(out, "None");
            },
        }
        push_str(out, ")");
        proof {
            let item = "("@ + str_debug_v(ls[i as int]) + ", "@ + str_debug_v(ms[i as int]) + ", "@
                + cond_debug(cs[i as int]) + ")"@;
            if i > 0 {
                assert(out@ =~= before + ", "@ + item);
            } else {
                assert(cs.take(0) =~= Seq::<Option<ExprV>>::empty());
                assert(out@ =~= before + item);
            }
        }
        i = i + 1;
    }
    assert(cs.take(arms@.len() as int) =~= cs);
}

} // verus!

verus! {

/// `x` stands directly inside `e`: as its callee, prompt, operand,
/// element, option value, collection, body or route condition.
pub open spec fn is_part(x: ExprV, e: ExprV) -> bool {
    match e {
        ExprV::LlmCall(p, _, vs, _) => x == *p || vs.contains(x),
        ExprV::Call(f, args, _, kv) => x == *f || args.contains(x) || kv.contains(x),
        ExprV::ListLit(xs) => xs.contains(x),
        ExprV::ParAll(xs) => xs.contains(x),
        ExprV::ParRace(xs) => xs.contains(x),
        ExprV::Field(o, _) => x == *o,
        ExprV::Binary(_, l, r) => x == *l || x == *r,
        ExprV::Merge(l, r) => x == *l || x == *r,
        ExprV::Unary(_, y) => x == *y,
        ExprV::ParMap(c, _, kv, _, b) => x == *c || kv.contains(x) || x == *b,
        ExprV::Route(_, _, cs) => cs.contains(Some(x)),
        _ => false,
    }
}

/// `path` leads from `e` down to `x`, each step one level into the last.
pub open spec fn nested_in(x: ExprV, e: ExprV, path: Seq<ExprV>) -> bool {
    &&& path.len() >= 1
    &&& path[0] == e
    &&& path.last() == x
    &&& forall|i: int, j: int| 0 <= i && j == i + 1 && j < path.len() ==> #[trigger] is_part(path[j], path[i])
}

} // verus!
