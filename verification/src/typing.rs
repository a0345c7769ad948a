//! The typing rules as spec functions: how type expressions resolve, what
//! type each expression has, and which diagnostics a program gets. The
//! checker in `check` computes exactly these.

use vstd::prelude::*;
use crate::ast::{expr_debug, exprs_items, ExprV, ItemV, ParamV, StmtKindV, StmtV, TypeExprV, BinOp, Span, StateOp};
use crate::check::{assignable_v, elem_of_v, TyV};
use crate::json::find_key;
use crate::parser::find_from;
use crate::text::nat_str;

verus! {

/// A diagnostic: its code and message.
pub struct DiagV {
    pub code: Seq<char>,
    pub msg: Seq<char>,
}

pub open spec fn diag(code: Seq<char>, msg: Seq<char>) -> Seq<DiagV> {
    seq![DiagV { code, msg }]
}

/// A type as the checker writes it in messages.
pub open spec fn ty_str(t: TyV) -> Seq<char>
    decreases t,
{
    match t {
        TyV::Int => "int"@,
        TyV::Float => "float"@,
        TyV::Bool => "bool"@,
        TyV::Str => "string"@,
        TyV::None_ => "none"@,
        TyV::Unknown => "unknown"@,
        TyV::List(e) => "["@ + ty_str(*e) + "]"@,
        TyV::Record(ks, vs) => "{"@ + fields_str(ks, vs) + "}"@,
        TyV::Refine(b, n) => ty_str(*b) + " @"@ + n,
    }
}

/// `name: type` fields separated by `, `.
pub open spec fn fields_str(ks: Seq<Seq<char>>, vs: Seq<TyV>) -> Seq<char>
    decreases vs,
{
    if vs.len() == 0 {
        Seq::empty()
    } else {
        let item = ks[vs.len() - 1] + ": "@ + ty_str(vs.last());
        if vs.len() == 1 {
            item
        } else {
            fields_str(ks, vs.drop_last()) + ", "@ + item
        }
    }
}

/// The signature of a fn or tool: parameter types and return type.
pub struct SigV {
    pub params: Seq<TypeExprV>,
    pub ret: TypeExprV,
}

/// What the checker knows of a whole program: type aliases, fns (agent
/// fns included) and tools, in program order (a later one of the same
/// name hides an earlier one).
pub struct GlobalsV {
    pub aliases: Seq<(Seq<char>, TypeExprV)>,
    pub fns: Seq<(Seq<char>, SigV)>,
    pub tools: Seq<(Seq<char>, SigV)>,
}

pub open spec fn sig_v(params: Seq<ParamV>, ret: TypeExprV) -> SigV {
    SigV { params: Seq::new(params.len(), |i: int| params[i].ty), ret }
}

/// The signatures of the fns of an agent.
pub open spec fn agent_sigs(fns: Seq<ItemV>) -> Seq<(Seq<char>, SigV)>
    decreases fns.len(),
{
    if fns.len() == 0 {
        Seq::empty()
    } else {
        let rest = agent_sigs(fns.drop_last());
        match fns.last() {
            ItemV::Fn(n, ps, ret, _, _) => rest.push((n, sig_v(ps, ret))),
            _ => rest,
        }
    }
}

pub open spec fn globals_of(items: Seq<ItemV>) -> GlobalsV
    decreases items.len(),
{
    if items.len() == 0 {
        GlobalsV { aliases: Seq::empty(), fns: Seq::empty(), tools: Seq::empty() }
    } else {
        let g = globals_of(items.drop_last());
        match items.last() {
            ItemV::TypeAlias(n, ty) => GlobalsV { aliases: g.aliases.push((n, ty)), ..g },
            ItemV::Fn(n, ps, ret, _, _) => GlobalsV { fns: g.fns.push((n, sig_v(ps, ret))), ..g },
            ItemV::Tool(n, ps, ret, _, _) => GlobalsV {
                tools: g.tools.push((n, sig_v(ps, ret))),
                ..g
            },
            ItemV::Agent(_, _, _, _, fns) => GlobalsV { fns: g.fns + agent_sigs(fns), ..g },
            ItemV::Test(_, _) => g,
        }
    }
}

/// The value of the last entry named `k`.
pub open spec fn lookup<V>(s: Seq<(Seq<char>, V)>, k: Seq<char>) -> Option<V>
    decreases s.len(),
{
    if s.len() == 0 {
        None
    } else if s.last().0 == k {
        Some(s.last().1)
    } else {
        lookup(s.drop_last(), k)
    }
}

/// The names of `v` joined by ` → `.
pub open spec fn arrow_join(v: Seq<Seq<char>>) -> Seq<char>
    decreases v.len(),
{
    if v.len() == 0 {
        Seq::empty()
    } else if v.len() == 1 {
        v[0]
    } else {
        arrow_join(v.drop_last()) + " → "@ + v.last()
    }
}

/// An integer or float literal.
pub open spec fn is_numeric(e: ExprV) -> bool {
    e is Int || e is Float
}

/// The diagnostics of a refinement `@name(args)`.
pub open spec fn refinement_errs(name: Seq<char>, args: Seq<ExprV>) -> Seq<DiagV> {
    if name == "range"@ {
        if args.len() == 2 && is_numeric(args[0]) && is_numeric(args[1]) {
            Seq::empty()
        } else {
            diag(
                "E0202"@,
                "@range expects 2 numeric bounds, e.g. @range(0, 1) — got ["@ + exprs_items(args)
                    + "]"@,
            )
        }
    } else if name == "format"@ {
        let ok = args.len() == 1 && match args[0] {
            ExprV::Ident(f) => f == "url"@ || f == "email"@,
            ExprV::Str(f) => f == "url"@ || f == "email"@,
            _ => false,
        };
        if ok {
            Seq::empty()
        } else {
            diag(
                "E0202"@,
                "@format expects one of (url, email) — got ["@ + exprs_items(args) + "]"@,
            )
        }
    } else {
        diag("E0202"@, "unknown refinement '@"@ + name + "' (known: @range, @format)"@)
    }
}

/// A type name with its own meaning (not an alias).
pub open spec fn builtin(name: Seq<char>) -> Option<TyV> {
    if name == "int"@ {
        Some(TyV::Int)
    } else if name == "float"@ {
        Some(TyV::Float)
    } else if name == "bool"@ {
        Some(TyV::Bool)
    } else if name == "string"@ {
        Some(TyV::Str)
    } else if name == "none"@ || name == "()"@ {
        Some(TyV::None_)
    } else if name == "bytes"@ || name == "timestamp"@ {
        Some(TyV::Unknown)
    } else {
        None
    }
}

/// The type a type expression stands for, and its diagnostics, with the
/// aliases in `visiting` being expanded (a cycle through them is an error).
pub open spec fn resolve_v(g: GlobalsV, t: TypeExprV, visiting: Seq<Seq<char>>) -> (TyV, Seq<DiagV>)
    decreases g.aliases.len() - visiting.len(), t,
{
    match t {
        TypeExprV::Named(name) => match builtin(name) {
            Some(b) => (b, Seq::empty()),
            None => if visiting.contains(name) {
                (
                    TyV::Unknown,
                    diag(
                        "E0202"@,
                        "cyclic type alias '"@ + arrow_join(visiting) + " → "@ + name + "'"@,
                    ),
                )
            } else {
                match lookup(g.aliases, name) {
                    Some(body) => if visiting.len() < g.aliases.len() {
                        resolve_v(g, body, visiting.push(name))
                    } else {
                        (TyV::Unknown, Seq::empty())
                    },
                    None => (TyV::Unknown, diag("E0101"@, "unknown type '"@ + name + "'"@)),
                }
            },
        },
        TypeExprV::List(inner) => {
            let r = resolve_v(g, *inner, visiting);
            (TyV::List(Box::new(r.0)), r.1)
        },
        TypeExprV::Record(ks, ts) => {
            let r = resolve_all(g, ts, visiting);
            (TyV::Record(ks, r.0), r.1)
        },
        TypeExprV::Refine(base, name, args) => {
            let r = resolve_v(g, *base, visiting);
            (TyV::Refine(Box::new(r.0), name), refinement_errs(name, args) + r.1)
        },
    }
}

/// `resolve_v` of each of `ts`, diagnostics in order.
pub open spec fn resolve_all(g: GlobalsV, ts: Seq<TypeExprV>, visiting: Seq<Seq<char>>) -> (Seq<TyV>, Seq<DiagV>)
    decreases g.aliases.len() - visiting.len(), ts,
{
    if ts.len() == 0 {
        (Seq::empty(), Seq::empty())
    } else {
        let a = resolve_all(g, ts.drop_last(), visiting);
        let b = resolve_v(g, ts.last(), visiting);
        (a.0.push(b.0), a.1 + b.1)
    }
}

} // verus!

verus! {

/// The part of an interpolation before its first `.`.
pub open spec fn root_of(name: Seq<char>) -> Seq<char> {
    name.take(find_from(name, '.', 0))
}

/// The diagnostics of prompt interpolations whose root is not a local.
pub open spec fn interp_errs(names: Seq<Seq<char>>, locals: Seq<(Seq<char>, TyV)>) -> Seq<DiagV>
    decreases names.len(),
{
    if names.len() == 0 {
        Seq::empty()
    } else {
        let n = names.last();
        interp_errs(names.drop_last(), locals) + if lookup(locals, root_of(n)) is None {
            diag("E0101"@, "unknown identifier '"@ + n + "' in prompt interpolation"@)
        } else {
            Seq::empty()
        }
    }
}

/// The type a `schema:` option names.
pub open spec fn schema_ty_v(e: ExprV, g: GlobalsV) -> (TyV, Seq<DiagV>) {
    let bad = (
        TyV::Unknown,
        diag(
            "E0202"@,
            "schema must be a type (e.g. schema: Report or schema: [Finding]) — got "@ + expr_debug(
                e,
            ),
        ),
    );
    match e {
        ExprV::Ident(n) => resolve_v(g, TypeExprV::Named(n), Seq::empty()),
        ExprV::ListLit(xs) => if xs.len() == 1 && xs[0] is Ident {
            resolve_v(
                g,
                TypeExprV::List(Box::new(TypeExprV::Named(xs[0]->Ident_0))),
                Seq::empty(),
            )
        } else {
            bad
        },
        _ => bad,
    }
}

/// The signature of a fn, or else of a tool, named `name`.
pub open spec fn sig_lookup(g: GlobalsV, name: Seq<char>) -> Option<SigV> {
    match lookup(g.fns, name) {
        Some(s) => Some(s),
        None => lookup(g.tools, name),
    }
}

/// The diagnostics of the first `n` arguments against parameter types.
pub open spec fn arg_errs(name: Seq<char>, ats: Seq<TyV>, pts: Seq<TypeExprV>, g: GlobalsV, n: nat) -> Seq<DiagV>
    decreases n,
{
    if n == 0 {
        Seq::empty()
    } else {
        let i = n - 1;
        let want = resolve_v(g, pts[i], Seq::empty());
        arg_errs(name, ats, pts, g, (n - 1) as nat) + want.1 + if assignable_v(ats[i], want.0) {
            Seq::empty()
        } else {
            diag(
                "E0201"@,
                "argument to '"@ + name + "' must be "@ + ty_str(want.0) + ", got "@ + ty_str(ats[i]),
            )
        }
    }
}

/// The type of a call of `f` with arguments of types `ats`.
pub open spec fn call_ty(f: ExprV, ats: Seq<TyV>, g: GlobalsV) -> (TyV, Seq<DiagV>) {
    match f {
        ExprV::Ident(name) => if name == "len"@ {
            (TyV::Int, Seq::empty())
        } else if name == "zip"@ {
            let a = elem_of_v(if ats.len() > 0 { ats[0] } else { TyV::Unknown });
            let b = elem_of_v(if ats.len() > 1 { ats[1] } else { TyV::Unknown });
            (TyV::List(Box::new(TyV::Record(seq!["first"@, "second"@], seq![a, b]))), Seq::empty())
        } else if name == "replay"@ || name == "mcp"@ || name == "python"@ {
            (TyV::Unknown, Seq::empty())
        } else {
            match sig_lookup(g, name) {
                Some(sig) => {
                    let pe = if sig.params.len() != ats.len() {
                        diag(
                            "E0201"@,
                            "'"@ + name + "' takes "@ + nat_str(sig.params.len()) + " argument(s), got "@
                                + nat_str(ats.len()),
                        )
                    } else {
                        arg_errs(name, ats, sig.params, g, ats.len())
                    };
                    let r = resolve_v(g, sig.ret, Seq::empty());
                    (r.0, pe + r.1)
                },
                None => (TyV::Unknown, Seq::empty()),
            }
        },
        _ => (TyV::Unknown, Seq::empty()),
    }
}

/// The type of a field of a record type (the first of that name), or
/// `Unknown`.
pub open spec fn field_ty(t: TyV, name: Seq<char>) -> TyV {
    match t {
        TyV::Record(ks, vs) => match find_key(ks, name, 0) {
            Some(i) => vs[i],
            None => TyV::Unknown,
        },
        _ => TyV::Unknown,
    }
}

/// The type of `l op r`.
pub open spec fn bin_ty(op: BinOp, lt: TyV, rt: TyV) -> TyV {
    match op {
        BinOp::Eq | BinOp::NotEq | BinOp::Lt | BinOp::LtEq | BinOp::Gt | BinOp::GtEq | BinOp::And
        | BinOp::Or => TyV::Bool,
        _ => if lt is Float || rt is Float {
            TyV::Float
        } else if lt is Int && rt is Int {
            TyV::Int
        } else {
            TyV::Unknown
        },
    }
}

/// The type of `l | merge r`: two records, or two lists whose elements
/// agree.
pub open spec fn merge_ty(lt: TyV, rt: TyV) -> (TyV, Seq<DiagV>) {
    if lt is Record && rt is Record {
        (lt, Seq::empty())
    } else if lt is List && rt is List {
        (
            lt,
            if assignable_v(*rt->List_0, *lt->List_0) {
                Seq::empty()
            } else {
                diag("E0201"@, "merge list element mismatch: "@ + ty_str(lt) + " vs "@ + ty_str(rt))
            },
        )
    } else if lt is Unknown {
        (rt, Seq::empty())
    } else if rt is Unknown {
        (lt, Seq::empty())
    } else {
        (
            TyV::Unknown,
            diag(
                "E0201"@,
                "merge expects two records or two lists, got "@ + ty_str(lt) + " | merge "@ + ty_str(rt),
            ),
        )
    }
}

/// Each of `ps` bound to `t`.
pub open spec fn bind_all(locals: Seq<(Seq<char>, TyV)>, ps: Seq<Seq<char>>, t: TyV) -> Seq<(Seq<char>, TyV)>
    decreases ps.len(),
{
    if ps.len() == 0 {
        locals
    } else {
        bind_all(locals, ps.drop_last(), t).push((ps.last(), t))
    }
}

/// Each of `ps` that is not yet bound, bound to `Unknown`.
pub open spec fn bind_missing(locals: Seq<(Seq<char>, TyV)>, ps: Seq<Seq<char>>) -> Seq<(Seq<char>, TyV)>
    decreases ps.len(),
{
    if ps.len() == 0 {
        locals
    } else {
        let l = bind_missing(locals, ps.drop_last());
        if lookup(l, ps.last()) is None {
            l.push((ps.last(), TyV::Unknown))
        } else {
            l
        }
    }
}

/// The locals of a `par map` lambda over a collection of type `ct`: two
/// parameters take the `first` and `second` of a zipped pair, one takes
/// the element type.
pub open spec fn lambda_locals(locals: Seq<(Seq<char>, TyV)>, ps: Seq<Seq<char>>, ct: TyV) -> Seq<(Seq<char>, TyV)> {
    if ps.len() == 2 {
        let l1 = match ct {
            TyV::List(pair) => match *pair {
                TyV::Record(_, _) => locals.push((ps[0], field_ty(*pair, "first"@))).push(
                    (ps[1], field_ty(*pair, "second"@)),
                ),
                _ => locals,
            },
            _ => locals,
        };
        bind_missing(l1, ps)
    } else {
        bind_all(locals, ps, elem_of_v(ct))
    }
}

/// The type of an expression and its diagnostics, with `locals` in scope
/// (the last binding of a name counts).
pub open spec fn check_expr_v(e: ExprV, locals: Seq<(Seq<char>, TyV)>, g: GlobalsV) -> (TyV, Seq<DiagV>)
    decreases e,
{
    match e {
        ExprV::Int(_) => (TyV::Int, Seq::empty()),
        ExprV::Float(_) => (TyV::Float, Seq::empty()),
        ExprV::Money(_, unit) => (
            TyV::Float,
            if unit == "USD"@ {
                Seq::empty()
            } else {
                diag("E0501"@, "unknown budget unit '"@ + unit + "' (v0.1 supports USD only)"@)
            },
        ),
        ExprV::Str(_) => (TyV::Str, Seq::empty()),
        ExprV::Prompt(_, _) => (TyV::Str, Seq::empty()),
        ExprV::Bool(_) => (TyV::Bool, Seq::empty()),
        ExprV::NoneLit => (TyV::None_, Seq::empty()),
        ExprV::Ident(n) => (
            match lookup(locals, n) {
                Some(t) => t,
                None => TyV::Unknown,
            },
            Seq::empty(),
        ),
        ExprV::ListLit(xs) => {
            let r = check_all(xs, locals, g);
            (TyV::List(Box::new(if xs.len() > 0 { r.0[0] } else { TyV::Unknown })), r.1)
        },
        ExprV::LlmCall(p, ks, vs, _) => {
            let ie = match *p {
                ExprV::Prompt(_, is) => interp_errs(is, locals),
                _ => Seq::empty(),
            };
            let o = opts_check(ks, vs, locals, g);
            (
                match o.0 {
                    Some(t) => t,
                    None => TyV::Str,
                },
                ie + o.1,
            )
        },
        ExprV::Call(f, args, _, kv) => {
            let a = check_all(args, locals, g);
            let k = check_all(kv, locals, g);
            let c = call_ty(*f, a.0, g);
            (c.0, a.1 + k.1 + c.1)
        },
        ExprV::Field(o, n) => {
            let r = check_expr_v(*o, locals, g);
            (field_ty(r.0, n), r.1)
        },
        ExprV::Binary(op, l, r) => {
            let a = check_expr_v(*l, locals, g);
            let b = check_expr_v(*r, locals, g);
            (bin_ty(op, a.0, b.0), a.1 + b.1)
        },
        ExprV::Unary(op, x) => {
            let a = check_expr_v(*x, locals, g);
            (if op == BinOp::Not { TyV::Bool } else { a.0 }, a.1)
        },
        ExprV::ParMap(c, _, kv, ps, b) => {
            let a = check_expr_v(*c, locals, g);
            let k = check_all(kv, locals, g);
            let r = check_expr_v(*b, lambda_locals(locals, ps, a.0), g);
            (TyV::List(Box::new(r.0)), a.1 + k.1 + r.1)
        },
        ExprV::ParAll(xs) => {
            let r = check_all(xs, locals, g);
            (TyV::List(Box::new(if xs.len() > 0 { r.0[0] } else { TyV::Unknown })), r.1)
        },
        ExprV::ParRace(xs) => {
            let r = check_all(xs, locals, g);
            (if xs.len() > 0 { r.0[0] } else { TyV::Unknown }, r.1)
        },
        ExprV::Merge(l, r) => {
            let a = check_expr_v(*l, locals, g);
            let b = check_expr_v(*r, locals, g);
            let m = merge_ty(a.0, b.0);
            (m.0, a.1 + b.1 + m.1)
        },
        ExprV::Route(ls, _, cs) => {
            let r = route_check(ls, cs, locals, g);
            (
                TyV::Str,
                r.1 + if r.0 {
                    Seq::empty()
                } else {
                    diag(
                        "E0702"@,
                        "route block needs an `otherwise` arm — no model is chosen when every `when` is false (design §4.4)"@,
                    )
                },
            )
        },
    }
}

/// `check_expr_v` of each of `xs`: their types, diagnostics in order.
pub open spec fn check_all(xs: Seq<ExprV>, locals: Seq<(Seq<char>, TyV)>, g: GlobalsV) -> (Seq<TyV>, Seq<DiagV>)
    decreases xs,
{
    if xs.len() == 0 {
        (Seq::empty(), Seq::empty())
    } else {
        let a = check_all(xs.drop_last(), locals, g);
        let b = check_expr_v(xs.last(), locals, g);
        (a.0.push(b.0), a.1 + b.1)
    }
}

/// The options of an LLM call: the type its `schema` (the last one)
/// names, and the diagnostics of every option.
pub open spec fn opts_check(ks: Seq<Seq<char>>, vs: Seq<ExprV>, locals: Seq<(Seq<char>, TyV)>, g: GlobalsV) -> (Option<TyV>, Seq<DiagV>)
    decreases vs,
{
    if vs.len() == 0 {
        (None, Seq::empty())
    } else {
        let a = opts_check(ks, vs.drop_last(), locals, g);
        if ks[vs.len() - 1] == "schema"@ {
            let s = schema_ty_v(vs.last(), g);
            (Some(s.0), a.1 + s.1)
        } else {
            (a.0, a.1 + check_expr_v(vs.last(), locals, g).1)
        }
    }
}

/// The arms of a route block: whether one is `otherwise`, and the
/// diagnostics of the `when` conditions.
pub open spec fn route_check(ls: Seq<Seq<char>>, cs: Seq<Option<ExprV>>, locals: Seq<(Seq<char>, TyV)>, g: GlobalsV) -> (bool, Seq<DiagV>)
    decreases cs,
{
    if cs.len() == 0 {
        (false, Seq::empty())
    } else {
        let a = route_check(ls, cs.drop_last(), locals, g);
        match cs.last() {
            Some(c) => {
                let r = check_expr_v(c, locals, g);
                (
                    a.0,
                    a.1 + r.1 + if assignable_v(r.0, TyV::Bool) {
                        Seq::empty()
                    } else {
                        diag(
                            "E0201"@,
                            "route arm '"@ + ls[cs.len() - 1] + "' has a non-bool when condition ("@
                                + ty_str(r.0) + ")"@,
                        )
                    },
                )
            },
            None => (true, a.1),
        }
    }
}

} // verus!

verus! {

/// The parameters of a fn bound to their resolved types, with the
/// diagnostics of resolving them.
pub open spec fn params_locals(ps: Seq<ParamV>, g: GlobalsV) -> (Seq<(Seq<char>, TyV)>, Seq<DiagV>)
    decreases ps.len(),
{
    if ps.len() == 0 {
        (Seq::empty(), Seq::empty())
    } else {
        let a = params_locals(ps.drop_last(), g);
        let r = resolve_v(g, ps.last().ty, Seq::empty());
        (a.0.push((ps.last().name, r.0)), a.1 + r.1)
    }
}

/// Where a fn body is checked: its locals, the type of its last
/// expression statement, and the diagnostics so far.
pub struct BodyV {
    pub locals: Seq<(Seq<char>, TyV)>,
    pub last: TyV,
    pub errs: Seq<DiagV>,
}

pub open spec fn outside_agent(field: Seq<char>) -> Seq<DiagV> {
    diag(
        "E0701"@,
        "state write 'state."@ + field
            + "' outside an agent block — state exists only inside `agent` (design §7)"@,
    )
}

/// One statement of a fn body; `ctx` is the agent's state fields (names
/// and types) when the fn is inside an agent.
pub open spec fn stmt_step(st: BodyV, s: StmtV, ctx: Option<(Seq<Seq<char>>, Seq<TypeExprV>)>, g: GlobalsV) -> BodyV {
    match s.kind {
        StmtKindV::Let(n, ty, value, _) => {
            let v = check_expr_v(value, st.locals, g);
            match ty {
                Some(ann) => {
                    let a = resolve_v(g, ann, Seq::empty());
                    BodyV {
                        locals: st.locals.push((n, a.0)),
                        last: st.last,
                        errs: st.errs + v.1 + a.1 + if assignable_v(v.0, a.0) {
                            Seq::empty()
                        } else {
                            diag(
                                "E0201"@,
                                "let '"@ + n + "' is annotated "@ + ty_str(a.0) + " but the value is "@
                                    + ty_str(v.0),
                            )
                        },
                    }
                },
                None => BodyV { locals: st.locals.push((n, v.0)), last: st.last, errs: st.errs + v.1 },
            }
        },
        StmtKindV::StateWrite(field, op, value) => {
            let v = check_expr_v(value, st.locals, g);
            let w: Seq<DiagV> = match ctx {
                None => outside_agent(field),
                Some(c) => match find_key(c.0, field, 0) {
                    None => diag(
                        "E0701"@,
                        "agent state has no field '"@ + field
                            + "' — declare it in the state block"@,
                    ),
                    Some(i) => if op == StateOp::Assign {
                        let want = resolve_v(g, c.1[i], Seq::empty());
                        want.1 + if assignable_v(v.0, want.0) {
                            Seq::empty()
                        } else {
                            diag(
                                "E0201"@,
                                "state field '"@ + field + "' is "@ + ty_str(want.0)
                                    + " but the value is "@ + ty_str(v.0),
                            )
                        }
                    } else {
                        Seq::empty()
                    },
                },
            };
            BodyV { locals: st.locals, last: st.last, errs: st.errs + v.1 + w }
        },
        StmtKindV::Assert(e) => BodyV {
            locals: st.locals,
            last: st.last,
            errs: st.errs + check_expr_v(e, st.locals, g).1,
        },
        StmtKindV::ExprStmt(e) => {
            let v = check_expr_v(e, st.locals, g);
            BodyV { locals: st.locals, last: v.0, errs: st.errs + v.1 }
        },
    }
}

pub open spec fn body_fold(body: Seq<StmtV>, st: BodyV, ctx: Option<(Seq<Seq<char>>, Seq<TypeExprV>)>, g: GlobalsV) -> BodyV
    decreases body.len(),
{
    if body.len() == 0 {
        st
    } else {
        stmt_step(body_fold(body.drop_last(), st, ctx, g), body.last(), ctx, g)
    }
}

/// The diagnostics of a fn.
pub open spec fn fn_errs(
    name: Seq<char>,
    ps: Seq<ParamV>,
    ret: TypeExprV,
    body: Seq<StmtV>,
    ctx: Option<(Seq<Seq<char>>, Seq<TypeExprV>)>,
    g: GlobalsV,
) -> Seq<DiagV> {
    let p = params_locals(ps, g);
    let start = match ctx {
        Some(c) => {
            let r = resolve_all(g, c.1, Seq::empty());
            BodyV {
                locals: p.0.push(("state"@, TyV::Record(c.0, r.0))),
                last: TyV::None_,
                errs: p.1 + r.1,
            }
        },
        None => BodyV { locals: p.0, last: TyV::None_, errs: p.1 },
    };
    let end = body_fold(body, start, ctx, g);
    let want = resolve_v(g, ret, Seq::empty());
    end.errs + want.1 + if assignable_v(end.last, want.0) {
        Seq::empty()
    } else {
        diag(
            "E0201"@,
            "fn '"@ + name + "' declares -> "@ + ty_str(want.0) + " but its body yields "@ + ty_str(
                end.last,
            ),
        )
    }
}

/// One statement of a test block (annotations are not checked there, and
/// a state write is always an error).
pub open spec fn test_step(st: BodyV, s: StmtV, g: GlobalsV) -> BodyV {
    match s.kind {
        StmtKindV::Let(n, _, value, _) => {
            let v = check_expr_v(value, st.locals, g);
            BodyV { locals: st.locals.push((n, v.0)), last: st.last, errs: st.errs + v.1 }
        },
        StmtKindV::StateWrite(field, _, _) => BodyV {
            locals: st.locals,
            last: st.last,
            errs: st.errs + outside_agent(field),
        },
        StmtKindV::Assert(e) => BodyV {
            locals: st.locals,
            last: st.last,
            errs: st.errs + check_expr_v(e, st.locals, g).1,
        },
        StmtKindV::ExprStmt(e) => BodyV {
            locals: st.locals,
            last: st.last,
            errs: st.errs + check_expr_v(e, st.locals, g).1,
        },
    }
}

pub open spec fn test_fold(body: Seq<StmtV>, g: GlobalsV) -> BodyV
    decreases body.len(),
{
    if body.len() == 0 {
        BodyV { locals: Seq::empty(), last: TyV::None_, errs: Seq::empty() }
    } else {
        test_step(test_fold(body.drop_last(), g), body.last(), g)
    }
}

/// The diagnostics of the fns of an agent with state fields `ctx`.
pub open spec fn agent_fns_errs(fns: Seq<ItemV>, ctx: (Seq<Seq<char>>, Seq<TypeExprV>), g: GlobalsV) -> Seq<DiagV>
    decreases fns.len(),
{
    if fns.len() == 0 {
        Seq::empty()
    } else {
        agent_fns_errs(fns.drop_last(), ctx, g) + match fns.last() {
            ItemV::Fn(n, ps, ret, _, body) => fn_errs(n, ps, ret, body, Some(ctx), g),
            _ => Seq::empty(),
        }
    }
}

/// The diagnostics of one item (effects aside).
pub open spec fn item_errs(it: ItemV, g: GlobalsV) -> Seq<DiagV> {
    match it {
        ItemV::Fn(n, ps, ret, _, body) => fn_errs(n, ps, ret, body, None, g),
        ItemV::Agent(_, names, tys, _, fns) => resolve_all(g, tys, Seq::empty()).1 + agent_fns_errs(
            fns,
            (names, tys),
            g,
        ),
        ItemV::Tool(_, ps, ret, _, vals) => {
            let p = params_locals(ps, g);
            p.1 + resolve_v(g, ret, Seq::empty()).1 + check_all(vals, p.0, g).1
        },
        ItemV::Test(_, body) => test_fold(body, g).errs,
        ItemV::TypeAlias(_, _) => Seq::empty(),
    }
}

pub open spec fn items_errs(items: Seq<ItemV>, g: GlobalsV) -> Seq<DiagV>
    decreases items.len(),
{
    if items.len() == 0 {
        Seq::empty()
    } else {
        items_errs(items.drop_last(), g) + item_errs(items.last(), g)
    }
}

/// The distinct alias names, in the order they first appear.
pub open spec fn alias_order(aliases: Seq<(Seq<char>, TypeExprV)>) -> Seq<Seq<char>>
    decreases aliases.len(),
{
    if aliases.len() == 0 {
        Seq::empty()
    } else {
        let a = alias_order(aliases.drop_last());
        if a.contains(aliases.last().0) {
            a
        } else {
            a.push(aliases.last().0)
        }
    }
}

/// The diagnostics of resolving each alias body once.
pub open spec fn alias_errs(names: Seq<Seq<char>>, g: GlobalsV) -> Seq<DiagV>
    decreases names.len(),
{
    if names.len() == 0 {
        Seq::empty()
    } else {
        alias_errs(names.drop_last(), g) + match lookup(g.aliases, names.last()) {
            Some(body) => resolve_v(g, body, seq![names.last()]).1,
            None => Seq::empty(),
        }
    }
}

} // verus!

verus! {

/// Which of the effects `LLM`, `Tool` and `IO` a piece of code has.
pub struct EffV {
    pub llm: bool,
    pub tool: bool,
    pub io: bool,
}

pub open spec fn no_eff() -> EffV {
    EffV { llm: false, tool: false, io: false }
}

pub open spec fn eff_or(a: EffV, b: EffV) -> EffV {
    EffV { llm: a.llm || b.llm, tool: a.tool || b.tool, io: a.io || b.io }
}

/// Effects and called fn names of two pieces of code together.
pub open spec fn both(a: (EffV, Seq<Seq<char>>), b: (EffV, Seq<Seq<char>>)) -> (EffV, Seq<Seq<char>>) {
    (eff_or(a.0, b.0), a.1 + b.1)
}

/// The effects an expression has by itself (an LLM call; `replay` and
/// `python` are IO; `mcp` and tools are Tool), and the user fns it calls.
pub open spec fn direct_v(e: ExprV, g: GlobalsV) -> (EffV, Seq<Seq<char>>)
    decreases e,
{
    match e {
        ExprV::LlmCall(_, _, vs, _) => both(
            (EffV { llm: true, tool: false, io: false }, Seq::empty()),
            direct_all(vs, g),
        ),
        ExprV::Call(f, args, _, kv) => {
            let head: (EffV, Seq<Seq<char>>) = match *f {
                ExprV::Ident(name) => if name == "replay"@ || name == "python"@ {
                    (EffV { llm: false, tool: false, io: true }, Seq::empty())
                } else if name == "mcp"@ {
                    (EffV { llm: false, tool: true, io: false }, Seq::empty())
                } else if name == "len"@ || name == "zip"@ {
                    (no_eff(), Seq::empty())
                } else if lookup(g.tools, name) is Some {
                    (EffV { llm: false, tool: true, io: false }, Seq::empty())
                } else if lookup(g.fns, name) is Some {
                    (no_eff(), seq![name])
                } else {
                    (no_eff(), Seq::empty())
                },
                _ => direct_v(*f, g),
            };
            both(both(head, direct_all(args, g)), direct_all(kv, g))
        },
        ExprV::ListLit(xs) => direct_all(xs, g),
        ExprV::ParAll(xs) => direct_all(xs, g),
        ExprV::ParRace(xs) => direct_all(xs, g),
        ExprV::Field(o, _) => direct_v(*o, g),
        ExprV::Binary(_, l, r) => both(direct_v(*l, g), direct_v(*r, g)),
        ExprV::Merge(l, r) => both(direct_v(*l, g), direct_v(*r, g)),
        ExprV::Route(_, _, cs) => direct_conds(cs, g),
        ExprV::Unary(_, x) => direct_v(*x, g),
        ExprV::ParMap(c, _, kv, _, b) => both(both(direct_v(*c, g), direct_all(kv, g)), direct_v(*b, g)),
        _ => (no_eff(), Seq::empty()),
    }
}

pub open spec fn direct_all(xs: Seq<ExprV>, g: GlobalsV) -> (EffV, Seq<Seq<char>>)
    decreases xs,
{
    if xs.len() == 0 {
        (no_eff(), Seq::empty())
    } else {
        both(direct_all(xs.drop_last(), g), direct_v(xs.last(), g))
    }
}

pub open spec fn direct_conds(cs: Seq<Option<ExprV>>, g: GlobalsV) -> (EffV, Seq<Seq<char>>)
    decreases cs,
{
    if cs.len() == 0 {
        (no_eff(), Seq::empty())
    } else {
        both(
            direct_conds(cs.drop_last(), g),
            match cs.last() {
                Some(c) => direct_v(c, g),
                None => (no_eff(), Seq::empty()),
            },
        )
    }
}

/// The direct effects and calls of a fn body.
pub open spec fn body_direct(body: Seq<StmtV>, g: GlobalsV) -> (EffV, Seq<Seq<char>>)
    decreases body.len(),
{
    if body.len() == 0 {
        (no_eff(), Seq::empty())
    } else {
        both(
            body_direct(body.drop_last(), g),
            match body.last().kind {
                StmtKindV::Let(_, _, v, _) => direct_v(v, g),
                StmtKindV::StateWrite(_, _, v) => direct_v(v, g),
                StmtKindV::Assert(e) => direct_v(e, g),
                StmtKindV::ExprStmt(e) => direct_v(e, g),
            },
        )
    }
}

/// The fns among `items`.
pub open spec fn fns_only(items: Seq<ItemV>) -> Seq<ItemV>
    decreases items.len(),
{
    if items.len() == 0 {
        Seq::empty()
    } else if items.last() is Fn {
        fns_only(items.drop_last()).push(items.last())
    } else {
        fns_only(items.drop_last())
    }
}

/// The fns of a program, those inside agents included, in order.
pub open spec fn fn_items_v(items: Seq<ItemV>) -> Seq<ItemV>
    decreases items.len(),
{
    if items.len() == 0 {
        Seq::empty()
    } else {
        let a = fn_items_v(items.drop_last());
        match items.last() {
            ItemV::Fn(_, _, _, _, _) => a.push(items.last()),
            ItemV::Agent(_, _, _, _, fns) => a + fns_only(fns),
            _ => a,
        }
    }
}

/// Each fn's name with its direct effects and calls.
pub open spec fn fn_defs(fns: Seq<ItemV>, g: GlobalsV) -> Seq<(Seq<char>, (EffV, Seq<Seq<char>>))>
    decreases fns.len(),
{
    if fns.len() == 0 {
        Seq::empty()
    } else {
        let a = fn_defs(fns.drop_last(), g);
        match fns.last() {
            ItemV::Fn(n, _, _, _, body) => a.push((n, body_direct(body, g))),
            _ => a,
        }
    }
}

/// `p` is a chain of calls: each name in it but the last is a fn whose
/// body calls the next.
pub open spec fn is_path(defs: Seq<(Seq<char>, (EffV, Seq<Seq<char>>))>, p: Seq<Seq<char>>) -> bool {
    &&& p.len() > 0
    &&& forall|i: int|
        0 <= i < p.len() - 1 ==> #[trigger] lookup(defs, p[i]) is Some && (lookup(defs, p[i])->0).1.contains(
            p[i + 1],
        )
}

/// The direct effects of a fn (none for a name that is no fn).
pub open spec fn eff_of(defs: Seq<(Seq<char>, (EffV, Seq<Seq<char>>))>, h: Seq<char>) -> EffV {
    match lookup(defs, h) {
        Some(d) => d.0,
        None => no_eff(),
    }
}

/// The effects of a fn: those of every fn it reaches through chains of
/// calls, itself included.
pub open spec fn inferred(defs: Seq<(Seq<char>, (EffV, Seq<Seq<char>>))>, f: Seq<char>) -> EffV {
    EffV {
        llm: exists|p: Seq<Seq<char>>| #[trigger] is_path(defs, p) && p[0] == f && eff_of(defs, p.last()).llm,
        tool: exists|p: Seq<Seq<char>>| #[trigger] is_path(defs, p) && p[0] == f && eff_of(defs, p.last()).tool,
        io: exists|p: Seq<Seq<char>>| #[trigger] is_path(defs, p) && p[0] == f && eff_of(defs, p.last()).io,
    }
}

/// `v` joined by `, `.
pub open spec fn comma_join(v: Seq<Seq<char>>) -> Seq<char>
    decreases v.len(),
{
    if v.len() == 0 {
        Seq::empty()
    } else if v.len() == 1 {
        v[0]
    } else {
        comma_join(v.drop_last()) + ", "@ + v.last()
    }
}

/// The declared effects that are not known effects.
pub open spec fn unknown_effs(name: Seq<char>, effects: Seq<Seq<char>>) -> Seq<DiagV>
    decreases effects.len(),
{
    if effects.len() == 0 {
        Seq::empty()
    } else {
        let d = effects.last();
        unknown_effs(name, effects.drop_last()) + if d == "LLM"@ || d == "Tool"@ || d == "IO"@ {
            Seq::empty()
        } else {
            diag(
                "E0101"@,
                "unknown effect '"@ + d + "' in fn '"@ + name + "' (known: LLM, Tool, IO)"@,
            )
        }
    }
}

/// The effects in `want` that `declared` lacks, in sorted order.
pub open spec fn missing_effs(want: EffV, declared: Seq<Seq<char>>) -> Seq<Seq<char>> {
    (if want.io && !declared.contains("IO"@) {
        seq!["IO"@]
    } else {
        Seq::empty()
    }) + (if want.llm && !declared.contains("LLM"@) {
        seq!["LLM"@]
    } else {
        Seq::empty()
    }) + (if want.tool && !declared.contains("Tool"@) {
        seq!["Tool"@]
    } else {
        Seq::empty()
    })
}

/// The effect diagnostics of one fn.
pub open spec fn fn_effect_errs(
    name: Seq<char>,
    declared: Seq<Seq<char>>,
    defs: Seq<(Seq<char>, (EffV, Seq<Seq<char>>))>,
) -> Seq<DiagV> {
    let missing = missing_effs(inferred(defs, name), declared);
    let list = comma_join(missing);
    unknown_effs(name, declared) + if missing.len() == 0 {
        Seq::empty()
    } else if declared.len() == 0 {
        diag(
            "E0301"@,
            "fn '"@ + name + "' uses "@ + list + " but has no `uses` clause — add `uses "@ + list
                + "` to its signature"@,
        )
    } else {
        diag(
            "E0302"@,
            "fn '"@ + name + "' declares `uses "@ + comma_join(declared) + "` but its body also uses "@
                + list + " — annotation too narrow"@,
        )
    }
}

pub open spec fn effect_errs(fns: Seq<ItemV>, defs: Seq<(Seq<char>, (EffV, Seq<Seq<char>>))>) -> Seq<DiagV>
    decreases fns.len(),
{
    if fns.len() == 0 {
        Seq::empty()
    } else {
        effect_errs(fns.drop_last(), defs) + match fns.last() {
            ItemV::Fn(n, _, _, effects, _) => fn_effect_errs(n, effects, defs),
            _ => Seq::empty(),
        }
    }
}

/// Every diagnostic of a program: alias bodies, then items in order, then
/// effects fn by fn.
pub open spec fn check_v(items: Seq<ItemV>) -> Seq<DiagV> {
    let g = globals_of(items);
    let fns = fn_items_v(items);
    alias_errs(alias_order(g.aliases), g) + items_errs(items, g) + effect_errs(fns, fn_defs(fns, g))
}

} // verus!

verus! {

pub proof fn lemma_check_all_len(xs: Seq<ExprV>, locals: Seq<(Seq<char>, TyV)>, g: GlobalsV)
    ensures
        check_all(xs, locals, g).0.len() == xs.len(),
    decreases xs.len(),
{
    if xs.len() > 0 {
        lemma_check_all_len(xs.drop_last(), locals, g);
    }
}

} // verus!

verus! {

/// The position of the last entry named `k`.
pub open spec fn last_idx<V>(s: Seq<(Seq<char>, V)>, k: Seq<char>) -> Option<int>
    decreases s.len(),
{
    if s.len() == 0 {
        None
    } else if s.last().0 == k {
        Some(s.len() - 1)
    } else {
        last_idx(s.drop_last(), k)
    }
}

pub proof fn lemma_last_idx<V>(s: Seq<(Seq<char>, V)>, k: Seq<char>)
    ensures
        match last_idx(s, k) {
            Some(q) => 0 <= q < s.len() && s[q].0 == k && lookup(s, k) == Some(s[q].1) && forall|r: int|
                q < r < s.len() ==> s[r].0 != k,
            None => lookup(s, k) is None && forall|r: int| 0 <= r < s.len() ==> s[r].0 != k,
        },
    decreases s.len(),
{
    if s.len() > 0 && s.last().0 != k {
        lemma_last_idx(s.drop_last(), k);
        assert forall|r: int| 0 <= r < s.len() - 1 implies s[r] == s.drop_last()[r] by {}
    }
}

/// `a` has no effect that `b` lacks.
pub open spec fn eff_le(a: EffV, b: EffV) -> bool {
    (a.llm ==> b.llm) && (a.tool ==> b.tool) && (a.io ==> b.io)
}

} // verus!

verus! {

/// How many of the three effects `e` lacks.
pub open spec fn eff_unset(e: EffV) -> nat {
    (if e.llm { 0nat } else { 1nat }) + (if e.tool { 0nat } else { 1nat }) + (if e.io { 0nat } else { 1nat })
}

pub open spec fn unset(s: Seq<EffV>) -> nat
    decreases s.len(),
{
    if s.len() == 0 {
        0
    } else {
        unset(s.drop_last()) + eff_unset(s.last())
    }
}

pub proof fn lemma_unset_update(s: Seq<EffV>, p: int, x: EffV)
    requires
        0 <= p < s.len(),
    ensures
        unset(s.update(p, x)) + eff_unset(s[p]) == unset(s) + eff_unset(x),
    decreases s.len(),
{
    if p == s.len() - 1 {
        assert(s.update(p, x).drop_last() =~= s.drop_last());
    } else {
        assert(s.update(p, x).drop_last() =~= s.drop_last().update(p, x));
        lemma_unset_update(s.drop_last(), p, x);
    }
}

/// A chain of calls from a fn that `f` calls is, after `f`, one from `f`.
pub proof fn lemma_path_step(defs: Seq<(Seq<char>, (EffV, Seq<Seq<char>>))>, f: Seq<char>, j: int, p: Seq<Seq<char>>)
    requires
        lookup(defs, f) is Some,
        0 <= j < (lookup(defs, f)->0).1.len(),
        is_path(defs, p),
        p[0] == (lookup(defs, f)->0).1[j],
    ensures
        is_path(defs, seq![f] + p),
        (seq![f] + p)[0] == f,
        (seq![f] + p).last() == p.last(),
{
    let q = seq![f] + p;
    assert((lookup(defs, f)->0).1.contains(p[0]));
    assert forall|i: int| 0 <= i < q.len() - 1 implies #[trigger] lookup(defs, q[i]) is Some && (lookup(
        defs,
        q[i],
    )->0).1.contains(q[i + 1]) by {
        if i > 0 {
            assert(q[i] == p[i - 1]);
            assert(q[i + 1] == p[i]);
            assert(lookup(defs, p[i - 1]) is Some);
        }
    }
}

/// A fn's effects include those of each fn it calls.
pub proof fn law_effects_propagate_through_calls(defs: Seq<(Seq<char>, (EffV, Seq<Seq<char>>))>, f: Seq<char>, j: int)
    requires
        lookup(defs, f) is Some,
        0 <= j < (lookup(defs, f)->0).1.len(),
    ensures
        eff_le(inferred(defs, (lookup(defs, f)->0).1[j]), inferred(defs, f)),
{
    let c = (lookup(defs, f)->0).1[j];
    if inferred(defs, c).llm {
        let p = choose|p: Seq<Seq<char>>| #[trigger] is_path(defs, p) && p[0] == c && eff_of(defs, p.last()).llm;
        lemma_path_step(defs, f, j, p);
        assert(is_path(defs, seq![f] + p));
    }
    if inferred(defs, c).tool {
        let p = choose|p: Seq<Seq<char>>| #[trigger] is_path(defs, p) && p[0] == c && eff_of(defs, p.last()).tool;
        lemma_path_step(defs, f, j, p);
        assert(is_path(defs, seq![f] + p));
    }
    if inferred(defs, c).io {
        let p = choose|p: Seq<Seq<char>>| #[trigger] is_path(defs, p) && p[0] == c && eff_of(defs, p.last()).io;
        lemma_path_step(defs, f, j, p);
        assert(is_path(defs, seq![f] + p));
    }
}

/// The last definition of each name is `canonical`.
pub open spec fn canonical(defs: Seq<(Seq<char>, (EffV, Seq<Seq<char>>))>, p: int) -> bool {
    0 <= p < defs.len() && last_idx(defs, defs[p].0) == Some(p)
}

/// Effects assigned to the fns that hold their direct effects and take
/// in those of every fn they call cover the end of every chain of calls.
pub proof fn lemma_complete(defs: Seq<(Seq<char>, (EffV, Seq<Seq<char>>))>, effs: Seq<EffV>, p: Seq<Seq<char>>, q0: int)
    requires
        defs.len() == effs.len(),
        forall|r: int| #[trigger] canonical(defs, r) ==> eff_le((defs[r].1).0, effs[r]),
        forall|r: int, j: int|
            #![trigger canonical(defs, r), (defs[r].1).1[j]]
            canonical(defs, r) && 0 <= j < (defs[r].1).1.len() ==> match last_idx(defs, (defs[r].1).1[j]) {
                Some(q) => eff_le(effs[q], effs[r]),
                None => true,
            },
        is_path(defs, p),
        last_idx(defs, p[0]) == Some(q0),
    ensures
        eff_le(eff_of(defs, p.last()), effs[q0]),
    decreases p.len(),
{
    lemma_last_idx(defs, p[0]);
    assert(defs[q0].0 == p[0]);
    assert(canonical(defs, q0));
    if p.len() > 1 {
        let c = p[1];
        assert(lookup(defs, p[0]) is Some);
        let d = lookup(defs, p[0])->0;
        assert(d == defs[q0].1);
        assert(d.1.contains(c));
        let j = choose|j: int| 0 <= j < d.1.len() && d.1[j] == c;
        assert((defs[q0].1).1[j] == c);
        lemma_last_idx(defs, c);
        let rest = p.drop_first();
        assert forall|i: int| 0 <= i < rest.len() - 1 implies #[trigger] lookup(defs, rest[i]) is Some && (
        lookup(defs, rest[i])->0).1.contains(rest[i + 1]) by {
            assert(rest[i] == p[i + 1]);
            assert(rest[i + 1] == p[i + 2]);
            assert(lookup(defs, p[i + 1]) is Some);
        }
        match last_idx(defs, c) {
            Some(q1) => {
                assert(eff_le(effs[q1], effs[q0]));
                lemma_complete(defs, effs, rest, q1);
                assert(rest.last() == p.last());
            },
            None => {
                if p.len() > 2 {
                    assert(lookup(defs, p[1]) is Some);
                }
                assert(p.last() == c);
            },
        }
    }
}

} // verus!

verus! {

/// A name that is no fn has no effects.
pub proof fn lemma_inferred_none(defs: Seq<(Seq<char>, (EffV, Seq<Seq<char>>))>, f: Seq<char>)
    requires
        lookup(defs, f) is None,
    ensures
        inferred(defs, f) == no_eff(),
{
    assert forall|p: Seq<Seq<char>>| #[trigger] is_path(defs, p) && p[0] == f implies p.len() == 1 by {
        if p.len() > 1 {
            assert(lookup(defs, p[0]) is Some);
        }
    }
}

} // verus!

verus! {

/// The program's effect diagnostics (E0301, E0302 and unknown effect
/// names), fn by fn.
pub open spec fn effect_diags(items: Seq<ItemV>) -> Seq<DiagV> {
    let fns = fn_items_v(items);
    effect_errs(fns, fn_defs(fns, globals_of(items)))
}

/// A fn has at least the effects its own body has.
pub proof fn law_direct_effects_are_inferred(defs: Seq<(Seq<char>, (EffV, Seq<Seq<char>>))>, f: Seq<char>)
    ensures
        eff_le(eff_of(defs, f), inferred(defs, f)),
{
    let p = seq![f];
    assert(is_path(defs, p));
    assert(p.last() == f);
}

/// `test` blocks are exempt from the effect rules: adding one to a program
/// leaves its effect diagnostics as they were.
pub proof fn law_tests_are_exempt_from_effects(items: Seq<ItemV>, name: Seq<char>, body: Seq<StmtV>)
    ensures
        effect_diags(items.push(ItemV::Test(name, body))) == effect_diags(items),
{
    let t = items.push(ItemV::Test(name, body));
    assert(t.drop_last() =~= items);
    assert(globals_of(t) == globals_of(items));
    assert(fn_items_v(t) == fn_items_v(items));
}

} // verus!

verus! {

/// Some diagnostic of `ds` has code `c`.
pub open spec fn has_code(ds: Seq<DiagV>, c: Seq<char>) -> bool {
    exists|i: int| 0 <= i < ds.len() && #[trigger] ds[i].code == c
}

/// The effect set is not empty.
pub open spec fn any_eff(e: EffV) -> bool {
    e.llm || e.tool || e.io
}

/// Every effect of `e` is among the declared names.
pub open spec fn covered(e: EffV, declared: Seq<Seq<char>>) -> bool {
    &&& e.llm ==> declared.contains("LLM"@)
    &&& e.tool ==> declared.contains("Tool"@)
    &&& e.io ==> declared.contains("IO"@)
}

proof fn lemma_unknown_effs_codes(name: Seq<char>, effects: Seq<Seq<char>>)
    ensures
        forall|i: int| 0 <= i < unknown_effs(name, effects).len() ==> #[trigger] unknown_effs(name, effects)[i].code
            == "E0101"@,
    decreases effects.len(),
{
    if effects.len() > 0 {
        lemma_unknown_effs_codes(name, effects.drop_last());
        let a = unknown_effs(name, effects.drop_last());
        let d = effects.last();
        let b: Seq<DiagV> = if d == "LLM"@ || d == "Tool"@ || d == "IO"@ {
            Seq::empty()
        } else {
            diag("E0101"@, "unknown effect '"@ + d + "' in fn '"@ + name + "' (known: LLM, Tool, IO)"@)
        };
        assert forall|i: int| 0 <= i < (a + b).len() implies #[trigger] (a + b)[i].code == "E0101"@ by {
            if i >= a.len() {
                assert((a + b)[i] == b[i - a.len()]);
            }
        }
    }
}

proof fn lemma_has_code_add(a: Seq<DiagV>, b: Seq<DiagV>, c: Seq<char>)
    ensures
        has_code(a + b, c) == (has_code(a, c) || has_code(b, c)),
{
    if has_code(a + b, c) {
        let i = choose|i: int| 0 <= i < (a + b).len() && #[trigger] (a + b)[i].code == c;
        if i < a.len() {
            assert(a[i] == (a + b)[i]);
        } else {
            assert(b[i - a.len()] == (a + b)[i]);
        }
    }
    if has_code(a, c) {
        let i = choose|i: int| 0 <= i < a.len() && #[trigger] a[i].code == c;
        assert((a + b)[i] == a[i]);
    }
    if has_code(b, c) {
        let i = choose|i: int| 0 <= i < b.len() && #[trigger] b[i].code == c;
        assert((a + b)[a.len() + i] == b[i]);
    }
}

/// A fn gets E0301 exactly when it declares no `uses` clause but has some
/// effect, and E0302 exactly when it declares one that leaves out an effect
/// it has (its own or one of a fn it reaches through calls).
pub proof fn law_effect_errors_of_a_fn(
    name: Seq<char>,
    declared: Seq<Seq<char>>,
    defs: Seq<(Seq<char>, (EffV, Seq<Seq<char>>))>,
)
    ensures
        has_code(fn_effect_errs(name, declared, defs), "E0301"@) <==> declared.len() == 0 && any_eff(
            inferred(defs, name),
        ),
        has_code(fn_effect_errs(name, declared, defs), "E0302"@) <==> declared.len() > 0 && !covered(
            inferred(defs, name),
            declared,
        ),
{
    reveal_strlit("E0101");
    reveal_strlit("E0301");
    reveal_strlit("E0302");
    reveal_strlit("LLM");
    reveal_strlit("Tool");
    reveal_strlit("IO");
    let want = inferred(defs, name);
    let missing = missing_effs(want, declared);
    let list = comma_join(missing);
    let u = unknown_effs(name, declared);
    let all = fn_effect_errs(name, declared, defs);
    lemma_unknown_effs_codes(name, declared);
    assert(!has_code(u, "E0301"@)) by {
        if has_code(u, "E0301"@) {
            let i = choose|i: int| 0 <= i < u.len() && #[trigger] u[i].code == "E0301"@;
            assert(u[i].code == "E0101"@);
            assert("E0101"@[2] != "E0301"@[2]);
        }
    }
    assert(!has_code(u, "E0302"@)) by {
        if has_code(u, "E0302"@) {
            let i = choose|i: int| 0 <= i < u.len() && #[trigger] u[i].code == "E0302"@;
            assert(u[i].code == "E0101"@);
            assert("E0101"@[2] != "E0302"@[2]);
        }
    }
    assert((missing.len() == 0) == covered(want, declared));
    if declared.len() == 0 {
        assert(!declared.contains("LLM"@) && !declared.contains("Tool"@) && !declared.contains("IO"@));
    }
    if missing.len() == 0 {
        let tail: Seq<DiagV> = Seq::empty();
        assert(all == u + tail);
        lemma_has_code_add(u, tail, "E0301"@);
        lemma_has_code_add(u, tail, "E0302"@);
    } else if declared.len() == 0 {
        let tail = diag(
            "E0301"@,
            "fn '"@ + name + "' uses "@ + list + " but has no `uses` clause — add `uses "@ + list
                + "` to its signature"@,
        );
        assert(all == u + tail);
        lemma_has_code_add(u, tail, "E0301"@);
        lemma_has_code_add(u, tail, "E0302"@);
        assert(tail[0].code == "E0301"@);
        assert(has_code(tail, "E0301"@));
        assert("E0301"@[4] != "E0302"@[4]);
        assert(!has_code(tail, "E0302"@));
    } else {
        let tail = diag(
            "E0302"@,
            "fn '"@ + name + "' declares `uses "@ + comma_join(declared) + "` but its body also uses "@
                + list + " — annotation too narrow"@,
        );
        assert(all == u + tail);
        lemma_has_code_add(u, tail, "E0301"@);
        lemma_has_code_add(u, tail, "E0302"@);
        assert(tail[0].code == "E0302"@);
        assert(has_code(tail, "E0302"@));
        assert("E0301"@[4] != "E0302"@[4]);
        assert(!has_code(tail, "E0301"@));
    }
}

/// The program-wide effect diagnostics are those of its fns, fn by fn.
pub proof fn law_effect_errors_are_per_fn(fns: Seq<ItemV>, defs: Seq<(Seq<char>, (EffV, Seq<Seq<char>>))>, c: Seq<char>)
    ensures
        has_code(effect_errs(fns, defs), c) <==> exists|k: int|
            0 <= k < fns.len() && (#[trigger] fns[k] matches ItemV::Fn(n, _, _, effs, _) && has_code(
                fn_effect_errs(n, effs, defs),
                c,
            )),
    decreases fns.len(),
{
    if fns.len() > 0 {
        let f = fns.drop_last();
        law_effect_errors_are_per_fn(f, defs, c);
        let last: Seq<DiagV> = match fns.last() {
            ItemV::Fn(n, _, _, effects, _) => fn_effect_errs(n, effects, defs),
            _ => Seq::empty(),
        };
        lemma_has_code_add(effect_errs(f, defs), last, c);
        if exists|k: int| 0 <= k < fns.len() && (#[trigger] fns[k] matches ItemV::Fn(n, _, _, effs, _) && has_code(
            fn_effect_errs(n, effs, defs),
            c,
        )) {
            let k = choose|k: int| 0 <= k < fns.len() && (#[trigger] fns[k] matches ItemV::Fn(n, _, _, effs, _) && has_code(
                fn_effect_errs(n, effs, defs),
                c,
            ));
            if k < f.len() {
                assert(f[k] == fns[k]);
            }
        }
        if exists|k: int| 0 <= k < f.len() && (#[trigger] f[k] matches ItemV::Fn(n, _, _, effs, _) && has_code(
            fn_effect_errs(n, effs, defs),
            c,
        )) {
            let k = choose|k: int| 0 <= k < f.len() && (#[trigger] f[k] matches ItemV::Fn(n, _, _, effs, _) && has_code(
                fn_effect_errs(n, effs, defs),
                c,
            ));
            assert(fns[k] == f[k]);
        }
        if has_code(last, c) {
            assert(fns[fns.len() - 1] == fns.last());
        }
    }
}

} // verus!

verus! {

/// No diagnostic of `ds` is an effect error (E0301 or E0302).
pub open spec fn clean(ds: Seq<DiagV>) -> bool {
    forall|i: int| 0 <= i < ds.len() ==> (#[trigger] ds[i]).code != "E0301"@ && ds[i].code != "E0302"@
}

proof fn lemma_type_codes()
    ensures
        "E0101"@ != "E0301"@ && "E0101"@ != "E0302"@,
        "E0201"@ != "E0301"@ && "E0201"@ != "E0302"@,
        "E0202"@ != "E0301"@ && "E0202"@ != "E0302"@,
        "E0501"@ != "E0301"@ && "E0501"@ != "E0302"@,
        "E0701"@ != "E0301"@ && "E0701"@ != "E0302"@,
        "E0702"@ != "E0301"@ && "E0702"@ != "E0302"@,
{
    reveal_strlit("E0101");
    reveal_strlit("E0201");
    reveal_strlit("E0202");
    reveal_strlit("E0501");
    reveal_strlit("E0701");
    reveal_strlit("E0702");
    reveal_strlit("E0301");
    reveal_strlit("E0302");
    assert("E0101"@[2] != "E0301"@[2]);
    assert("E0201"@[2] != "E0301"@[2]);
    assert("E0202"@[2] != "E0301"@[2]);
    assert("E0501"@[2] != "E0301"@[2]);
    assert("E0701"@[2] != "E0301"@[2]);
    assert("E0702"@[2] != "E0301"@[2]);
    assert("E0101"@[2] != "E0302"@[2]);
    assert("E0201"@[2] != "E0302"@[2]);
    assert("E0202"@[2] != "E0302"@[2]);
    assert("E0501"@[2] != "E0302"@[2]);
    assert("E0701"@[2] != "E0302"@[2]);
    assert("E0702"@[2] != "E0302"@[2]);
}

proof fn lemma_clean_add(a: Seq<DiagV>, b: Seq<DiagV>)
    requires
        clean(a),
        clean(b),
    ensures
        clean(a + b),
{
    assert forall|i: int| 0 <= i < (a + b).len() implies (#[trigger] (a + b)[i]).code != "E0301"@ && (a
        + b)[i].code != "E0302"@ by {
        if i < a.len() {
            assert((a + b)[i] == a[i]);
        } else {
            assert((a + b)[i] == b[i - a.len()]);
        }
    }
}

proof fn lemma_clean_refinement(name: Seq<char>, args: Seq<ExprV>)
    ensures
        clean(refinement_errs(name, args)),
{
    lemma_type_codes();
}

proof fn lemma_clean_resolve(g: GlobalsV, t: TypeExprV, visiting: Seq<Seq<char>>)
    ensures
        clean(resolve_v(g, t, visiting).1),
    decreases g.aliases.len() - visiting.len(), t,
{
    lemma_type_codes();
    match t {
        TypeExprV::Named(name) => {
            if builtin(name) is None && !visiting.contains(name) {
                match lookup(g.aliases, name) {
                    Some(body) => if visiting.len() < g.aliases.len() {
                        lemma_clean_resolve(g, body, visiting.push(name));
                    },
                    None => {},
                }
            }
        },
        TypeExprV::List(inner) => lemma_clean_resolve(g, *inner, visiting),
        TypeExprV::Record(ks, ts) => lemma_clean_resolve_all(g, ts, visiting),
        TypeExprV::Refine(base, name, args) => {
            lemma_clean_resolve(g, *base, visiting);
            lemma_clean_refinement(name, args);
            lemma_clean_add(refinement_errs(name, args), resolve_v(g, *base, visiting).1);
        },
    }
}

proof fn lemma_clean_resolve_all(g: GlobalsV, ts: Seq<TypeExprV>, visiting: Seq<Seq<char>>)
    ensures
        clean(resolve_all(g, ts, visiting).1),
    decreases g.aliases.len() - visiting.len(), ts,
{
    if ts.len() > 0 {
        lemma_clean_resolve_all(g, ts.drop_last(), visiting);
        lemma_clean_resolve(g, ts.last(), visiting);
        lemma_clean_add(resolve_all(g, ts.drop_last(), visiting).1, resolve_v(g, ts.last(), visiting).1);
    }
}

proof fn lemma_clean_interp(names: Seq<Seq<char>>, locals: Seq<(Seq<char>, TyV)>)
    ensures
        clean(interp_errs(names, locals)),
    decreases names.len(),
{
    lemma_type_codes();
    if names.len() > 0 {
        lemma_clean_interp(names.drop_last(), locals);
        let n = names.last();
        let b: Seq<DiagV> = if lookup(locals, root_of(n)) is None {
            diag("E0101"@, "unknown identifier '"@ + n + "' in prompt interpolation"@)
        } else {
            Seq::empty()
        };
        lemma_clean_add(interp_errs(names.drop_last(), locals), b);
    }
}

proof fn lemma_clean_schema(e: ExprV, g: GlobalsV)
    ensures
        clean(schema_ty_v(e, g).1),
{
    lemma_type_codes();
    match e {
        ExprV::Ident(n) => lemma_clean_resolve(g, TypeExprV::Named(n), Seq::empty()),
        ExprV::ListLit(xs) => if xs.len() == 1 && xs[0] is Ident {
            lemma_clean_resolve(g, TypeExprV::List(Box::new(TypeExprV::Named(xs[0]->Ident_0))), Seq::empty());
        },
        _ => {},
    }
}

proof fn lemma_clean_args(name: Seq<char>, ats: Seq<TyV>, pts: Seq<TypeExprV>, g: GlobalsV, n: nat)
    ensures
        clean(arg_errs(name, ats, pts, g, n)),
    decreases n,
{
    lemma_type_codes();
    if n > 0 {
        let i = n - 1;
        lemma_clean_args(name, ats, pts, g, (n - 1) as nat);
        lemma_clean_resolve(g, pts[i], Seq::empty());
        let want = resolve_v(g, pts[i], Seq::empty());
        let c: Seq<DiagV> = if assignable_v(ats[i], want.0) {
            Seq::empty()
        } else {
            diag("E0201"@, "argument to '"@ + name + "' must be "@ + ty_str(want.0) + ", got "@ + ty_str(ats[i]))
        };
        lemma_clean_add(arg_errs(name, ats, pts, g, (n - 1) as nat), want.1);
        lemma_clean_add(arg_errs(name, ats, pts, g, (n - 1) as nat) + want.1, c);
    }
}

proof fn lemma_clean_call(f: ExprV, ats: Seq<TyV>, g: GlobalsV)
    ensures
        clean(call_ty(f, ats, g).1),
{
    lemma_type_codes();
    match f {
        ExprV::Ident(name) => {
            match sig_lookup(g, name) {
                Some(sig) => {
                    lemma_clean_args(name, ats, sig.params, g, ats.len());
                    lemma_clean_resolve(g, sig.ret, Seq::empty());
                    let pe: Seq<DiagV> = if sig.params.len() != ats.len() {
                        diag(
                            "E0201"@,
                            "'"@ + name + "' takes "@ + nat_str(sig.params.len()) + " argument(s), got "@
                                + nat_str(ats.len()),
                        )
                    } else {
                        arg_errs(name, ats, sig.params, g, ats.len())
                    };
                    lemma_clean_add(pe, resolve_v(g, sig.ret, Seq::empty()).1);
                },
                None => {},
            }
        },
        _ => {},
    }
}

proof fn lemma_clean_merge(lt: TyV, rt: TyV)
    ensures
        clean(merge_ty(lt, rt).1),
{
    lemma_type_codes();
}

} // verus!

verus! {

proof fn lemma_clean_expr(e: ExprV, locals: Seq<(Seq<char>, TyV)>, g: GlobalsV)
    ensures
        clean(check_expr_v(e, locals, g).1),
    decreases e,
{
    lemma_type_codes();
    match e {
        ExprV::ListLit(xs) => lemma_clean_all(xs, locals, g),
        ExprV::LlmCall(p, ks, vs, _) => {
            let ie = match *p {
                ExprV::Prompt(_, is) => {
                    lemma_clean_interp(is, locals);
                    interp_errs(is, locals)
                },
                _ => Seq::empty(),
            };
            lemma_clean_opts(ks, vs, locals, g);
            lemma_clean_add(ie, opts_check(ks, vs, locals, g).1);
        },
        ExprV::Call(f, args, _, kv) => {
            lemma_clean_all(args, locals, g);
            lemma_clean_all(kv, locals, g);
            let a = check_all(args, locals, g);
            let k = check_all(kv, locals, g);
            lemma_clean_call(*f, a.0, g);
            lemma_clean_add(a.1, k.1);
            lemma_clean_add(a.1 + k.1, call_ty(*f, a.0, g).1);
        },
        ExprV::Field(o, n) => lemma_clean_expr(*o, locals, g),
        ExprV::Binary(op, l, r) => {
            lemma_clean_expr(*l, locals, g);
            lemma_clean_expr(*r, locals, g);
            lemma_clean_add(check_expr_v(*l, locals, g).1, check_expr_v(*r, locals, g).1);
        },
        ExprV::Unary(op, x) => lemma_clean_expr(*x, locals, g),
        ExprV::ParMap(c, _, kv, ps, b) => {
            lemma_clean_expr(*c, locals, g);
            lemma_clean_all(kv, locals, g);
            let a = check_expr_v(*c, locals, g);
            let k = check_all(kv, locals, g);
            lemma_clean_expr(*b, lambda_locals(locals, ps, a.0), g);
            lemma_clean_add(a.1, k.1);
            lemma_clean_add(a.1 + k.1, check_expr_v(*b, lambda_locals(locals, ps, a.0), g).1);
        },
        ExprV::ParAll(xs) => lemma_clean_all(xs, locals, g),
        ExprV::ParRace(xs) => lemma_clean_all(xs, locals, g),
        ExprV::Merge(l, r) => {
            lemma_clean_expr(*l, locals, g);
            lemma_clean_expr(*r, locals, g);
            let a = check_expr_v(*l, locals, g);
            let b = check_expr_v(*r, locals, g);
            lemma_clean_merge(a.0, b.0);
            lemma_clean_add(a.1, b.1);
            lemma_clean_add(a.1 + b.1, merge_ty(a.0, b.0).1);
        },
        ExprV::Route(ls, _, cs) => {
            lemma_clean_route(ls, cs, locals, g);
            let r = route_check(ls, cs, locals, g);
            let tail: Seq<DiagV> = if r.0 {
                Seq::empty()
            } else {
                diag(
                    "E0702"@,
                    "route block needs an `otherwise` arm — no model is chosen when every `when` is false (design §4.4)"@,
                )
            };
            lemma_clean_add(r.1, tail);
        },
        _ => {},
    }
}

proof fn lemma_clean_all(xs: Seq<ExprV>, locals: Seq<(Seq<char>, TyV)>, g: GlobalsV)
    ensures
        clean(check_all(xs, locals, g).1),
    decreases xs,
{
    if xs.len() > 0 {
        lemma_clean_all(xs.drop_last(), locals, g);
        lemma_clean_expr(xs.last(), locals, g);
        lemma_clean_add(check_all(xs.drop_last(), locals, g).1, check_expr_v(xs.last(), locals, g).1);
    }
}

proof fn lemma_clean_opts(ks: Seq<Seq<char>>, vs: Seq<ExprV>, locals: Seq<(Seq<char>, TyV)>, g: GlobalsV)
    ensures
        clean(opts_check(ks, vs, locals, g).1),
    decreases vs,
{
    if vs.len() > 0 {
        lemma_clean_opts(ks, vs.drop_last(), locals, g);
        let a = opts_check(ks, vs.drop_last(), locals, g);
        if ks[vs.len() - 1] == "schema"@ {
            lemma_clean_schema(vs.last(), g);
            lemma_clean_add(a.1, schema_ty_v(vs.last(), g).1);
        } else {
            lemma_clean_expr(vs.last(), locals, g);
            lemma_clean_add(a.1, check_expr_v(vs.last(), locals, g).1);
        }
    }
}

proof fn lemma_clean_route(ls: Seq<Seq<char>>, cs: Seq<Option<ExprV>>, locals: Seq<(Seq<char>, TyV)>, g: GlobalsV)
    ensures
        clean(route_check(ls, cs, locals, g).1),
    decreases cs,
{
    lemma_type_codes();
    if cs.len() > 0 {
        lemma_clean_route(ls, cs.drop_last(), locals, g);
        let a = route_check(ls, cs.drop_last(), locals, g);
        match cs.last() {
            Some(c) => {
                lemma_clean_expr(c, locals, g);
                let r = check_expr_v(c, locals, g);
                let tail: Seq<DiagV> = if assignable_v(r.0, TyV::Bool) {
                    Seq::empty()
                } else {
                    diag(
                        "E0201"@,
                        "route arm '"@ + ls[cs.len() - 1] + "' has a non-bool when condition ("@ + ty_str(r.0)
                            + ")"@,
                    )
                };
                lemma_clean_add(a.1, r.1);
                lemma_clean_add(a.1 + r.1, tail);
            },
            None => {},
        }
    }
}

} // verus!

verus! {

proof fn lemma_clean_params(ps: Seq<ParamV>, g: GlobalsV)
    ensures
        clean(params_locals(ps, g).1),
    decreases ps.len(),
{
    if ps.len() > 0 {
        lemma_clean_params(ps.drop_last(), g);
        lemma_clean_resolve(g, ps.last().ty, Seq::empty());
        lemma_clean_add(params_locals(ps.drop_last(), g).1, resolve_v(g, ps.last().ty, Seq::empty()).1);
    }
}

proof fn lemma_clean_stmt(st: BodyV, s: StmtV, ctx: Option<(Seq<Seq<char>>, Seq<TypeExprV>)>, g: GlobalsV)
    requires
        clean(st.errs),
    ensures
        clean(stmt_step(st, s, ctx, g).errs),
{
    lemma_type_codes();
    match s.kind {
        StmtKindV::Let(n, ty, value, _) => {
            lemma_clean_expr(value, st.locals, g);
            let v = check_expr_v(value, st.locals, g);
            lemma_clean_add(st.errs, v.1);
            match ty {
                Some(ann) => {
                    lemma_clean_resolve(g, ann, Seq::empty());
                    let a = resolve_v(g, ann, Seq::empty());
                    let tail: Seq<DiagV> = if assignable_v(v.0, a.0) {
                        Seq::empty()
                    } else {
                        diag(
                            "E0201"@,
                            "let '"@ + n + "' is annotated "@ + ty_str(a.0) + " but the value is "@ + ty_str(v.0),
                        )
                    };
                    lemma_clean_add(st.errs + v.1, a.1);
                    lemma_clean_add(st.errs + v.1 + a.1, tail);
                },
                None => {},
            }
        },
        StmtKindV::StateWrite(field, op, value) => {
            lemma_clean_expr(value, st.locals, g);
            let v = check_expr_v(value, st.locals, g);
            let w: Seq<DiagV> = match ctx {
                None => outside_agent(field),
                Some(c) => match find_key(c.0, field, 0) {
                    None => diag(
                        "E0701"@,
                        "agent state has no field '"@ + field + "' — declare it in the state block"@,
                    ),
                    Some(i) => if op == StateOp::Assign {
                        lemma_clean_resolve(g, c.1[i], Seq::empty());
                        let want = resolve_v(g, c.1[i], Seq::empty());
                        let tail: Seq<DiagV> = if assignable_v(v.0, want.0) {
                            Seq::empty()
                        } else {
                            diag(
                                "E0201"@,
                                "state field '"@ + field + "' is "@ + ty_str(want.0) + " but the value is "@
                                    + ty_str(v.0),
                            )
                        };
                        lemma_clean_add(want.1, tail);
                        want.1 + tail
                    } else {
                        Seq::empty()
                    },
                },
            };
            assert(clean(w));
            lemma_clean_add(st.errs, v.1);
            lemma_clean_add(st.errs + v.1, w);
        },
        StmtKindV::Assert(e) => {
            lemma_clean_expr(e, st.locals, g);
            lemma_clean_add(st.errs, check_expr_v(e, st.locals, g).1);
        },
        StmtKindV::ExprStmt(e) => {
            lemma_clean_expr(e, st.locals, g);
            lemma_clean_add(st.errs, check_expr_v(e, st.locals, g).1);
        },
    }
}

proof fn lemma_clean_body(body: Seq<StmtV>, st: BodyV, ctx: Option<(Seq<Seq<char>>, Seq<TypeExprV>)>, g: GlobalsV)
    requires
        clean(st.errs),
    ensures
        clean(body_fold(body, st, ctx, g).errs),
    decreases body.len(),
{
    if body.len() > 0 {
        lemma_clean_body(body.drop_last(), st, ctx, g);
        lemma_clean_stmt(body_fold(body.drop_last(), st, ctx, g), body.last(), ctx, g);
    }
}

proof fn lemma_clean_fn(
    name: Seq<char>,
    ps: Seq<ParamV>,
    ret: TypeExprV,
    body: Seq<StmtV>,
    ctx: Option<(Seq<Seq<char>>, Seq<TypeExprV>)>,
    g: GlobalsV,
)
    ensures
        clean(fn_errs(name, ps, ret, body, ctx, g)),
{
    lemma_type_codes();
    lemma_clean_params(ps, g);
    let p = params_locals(ps, g);
    let start = match ctx {
        Some(c) => {
            lemma_clean_resolve_all(g, c.1, Seq::empty());
            let r = resolve_all(g, c.1, Seq::empty());
            lemma_clean_add(p.1, r.1);
            BodyV { locals: p.0.push(("state"@, TyV::Record(c.0, r.0))), last: TyV::None_, errs: p.1 + r.1 }
        },
        None => BodyV { locals: p.0, last: TyV::None_, errs: p.1 },
    };
    lemma_clean_body(body, start, ctx, g);
    let end = body_fold(body, start, ctx, g);
    lemma_clean_resolve(g, ret, Seq::empty());
    let want = resolve_v(g, ret, Seq::empty());
    let tail: Seq<DiagV> = if assignable_v(end.last, want.0) {
        Seq::empty()
    } else {
        diag(
            "E0201"@,
            "fn '"@ + name + "' declares -> "@ + ty_str(want.0) + " but its body yields "@ + ty_str(end.last),
        )
    };
    lemma_clean_add(end.errs, want.1);
    lemma_clean_add(end.errs + want.1, tail);
}

proof fn lemma_clean_test(body: Seq<StmtV>, g: GlobalsV)
    ensures
        clean(test_fold(body, g).errs),
    decreases body.len(),
{
    lemma_type_codes();
    if body.len() > 0 {
        lemma_clean_test(body.drop_last(), g);
        let st = test_fold(body.drop_last(), g);
        match body.last().kind {
            StmtKindV::Let(n, _, value, _) => {
                lemma_clean_expr(value, st.locals, g);
                lemma_clean_add(st.errs, check_expr_v(value, st.locals, g).1);
            },
            StmtKindV::StateWrite(field, _, _) => {
                lemma_clean_add(st.errs, outside_agent(field));
            },
            StmtKindV::Assert(e) => {
                lemma_clean_expr(e, st.locals, g);
                lemma_clean_add(st.errs, check_expr_v(e, st.locals, g).1);
            },
            StmtKindV::ExprStmt(e) => {
                lemma_clean_expr(e, st.locals, g);
                lemma_clean_add(st.errs, check_expr_v(e, st.locals, g).1);
            },
        }
    }
}

proof fn lemma_clean_agent_fns(fns: Seq<ItemV>, ctx: (Seq<Seq<char>>, Seq<TypeExprV>), g: GlobalsV)
    ensures
        clean(agent_fns_errs(fns, ctx, g)),
    decreases fns.len(),
{
    if fns.len() > 0 {
        lemma_clean_agent_fns(fns.drop_last(), ctx, g);
        let b: Seq<DiagV> = match fns.last() {
            ItemV::Fn(n, ps, ret, _, body) => {
                lemma_clean_fn(n, ps, ret, body, Some(ctx), g);
                fn_errs(n, ps, ret, body, Some(ctx), g)
            },
            _ => Seq::empty(),
        };
        lemma_clean_add(agent_fns_errs(fns.drop_last(), ctx, g), b);
    }
}

proof fn lemma_clean_item(it: ItemV, g: GlobalsV)
    ensures
        clean(item_errs(it, g)),
{
    match it {
        ItemV::Fn(n, ps, ret, _, body) => lemma_clean_fn(n, ps, ret, body, None, g),
        ItemV::Agent(_, names, tys, _, fns) => {
            lemma_clean_resolve_all(g, tys, Seq::empty());
            lemma_clean_agent_fns(fns, (names, tys), g);
            lemma_clean_add(resolve_all(g, tys, Seq::empty()).1, agent_fns_errs(fns, (names, tys), g));
        },
        ItemV::Tool(_, ps, ret, _, vals) => {
            lemma_clean_params(ps, g);
            let p = params_locals(ps, g);
            lemma_clean_resolve(g, ret, Seq::empty());
            lemma_clean_all(vals, p.0, g);
            lemma_clean_add(p.1, resolve_v(g, ret, Seq::empty()).1);
            lemma_clean_add(p.1 + resolve_v(g, ret, Seq::empty()).1, check_all(vals, p.0, g).1);
        },
        ItemV::Test(_, body) => lemma_clean_test(body, g),
        ItemV::TypeAlias(_, _) => {},
    }
}

proof fn lemma_clean_items(items: Seq<ItemV>, g: GlobalsV)
    ensures
        clean(items_errs(items, g)),
    decreases items.len(),
{
    if items.len() > 0 {
        lemma_clean_items(items.drop_last(), g);
        lemma_clean_item(items.last(), g);
        lemma_clean_add(items_errs(items.drop_last(), g), item_errs(items.last(), g));
    }
}

proof fn lemma_clean_aliases(names: Seq<Seq<char>>, g: GlobalsV)
    ensures
        clean(alias_errs(names, g)),
    decreases names.len(),
{
    if names.len() > 0 {
        lemma_clean_aliases(names.drop_last(), g);
        let b: Seq<DiagV> = match lookup(g.aliases, names.last()) {
            Some(body) => {
                lemma_clean_resolve(g, body, seq![names.last()]);
                resolve_v(g, body, seq![names.last()]).1
            },
            None => Seq::empty(),
        };
        lemma_clean_add(alias_errs(names.drop_last(), g), b);
    }
}

/// The effect errors of a whole program: `check` reports an E0301 exactly
/// when some fn (top-level or in an agent; test blocks are no fns) declares
/// no `uses` clause but has an effect, its own or one reached through calls;
/// and an E0302 exactly when some fn declares a `uses` clause that leaves
/// out an effect it has. No other check gives either code.
pub proof fn law_check_reports_effect_errors(items: Seq<ItemV>)
    ensures
        ({
            let fns = fn_items_v(items);
            let defs = fn_defs(fns, globals_of(items));
            &&& has_code(check_v(items), "E0301"@) <==> exists|k: int|
                0 <= k < fns.len() && (#[trigger] fns[k] matches ItemV::Fn(n, _, _, effs, _) && effs.len() == 0
                    && any_eff(inferred(defs, n)))
            &&& has_code(check_v(items), "E0302"@) <==> exists|k: int|
                0 <= k < fns.len() && (#[trigger] fns[k] matches ItemV::Fn(n, _, _, effs, _) && effs.len() > 0
                    && !covered(inferred(defs, n), effs))
        }),
{
    let g = globals_of(items);
    let fns = fn_items_v(items);
    let defs = fn_defs(fns, g);
    let pre = alias_errs(alias_order(g.aliases), g) + items_errs(items, g);
    lemma_clean_aliases(alias_order(g.aliases), g);
    lemma_clean_items(items, g);
    lemma_clean_add(alias_errs(alias_order(g.aliases), g), items_errs(items, g));
    assert(check_v(items) == pre + effect_errs(fns, defs));
    lemma_has_code_add(pre, effect_errs(fns, defs), "E0301"@);
    lemma_has_code_add(pre, effect_errs(fns, defs), "E0302"@);
    if has_code(pre, "E0301"@) {
        let i = choose|i: int| 0 <= i < pre.len() && #[trigger] pre[i].code == "E0301"@;
    }
    if has_code(pre, "E0302"@) {
        let i = choose|i: int| 0 <= i < pre.len() && #[trigger] pre[i].code == "E0302"@;
    }
    law_effect_errors_are_per_fn(fns, defs, "E0301"@);
    law_effect_errors_are_per_fn(fns, defs, "E0302"@);
    assert forall|k: int| 0 <= k < fns.len() implies ((#[trigger] fns[k] matches ItemV::Fn(n, _, _, effs, _)
        && has_code(fn_effect_errs(n, effs, defs), "E0301"@)) <==> (fns[k] matches ItemV::Fn(n, _, _, effs, _)
        && effs.len() == 0 && any_eff(inferred(defs, n)))) && ((fns[k] matches ItemV::Fn(n, _, _, effs, _)
        && has_code(fn_effect_errs(n, effs, defs), "E0302"@)) <==> (fns[k] matches ItemV::Fn(n, _, _, effs, _)
        && effs.len() > 0 && !covered(inferred(defs, n), effs))) by {
        match fns[k] {
            ItemV::Fn(n, _, _, effs, _) => law_effect_errors_of_a_fn(n, effs, defs),
            _ => {},
        }
    }
}

} // verus!

verus! {

/// `+ - * / %`.
pub open spec fn is_arith(op: BinOp) -> bool {
    op == BinOp::Add || op == BinOp::Sub || op == BinOp::Mul || op == BinOp::Div || op == BinOp::Mod
}

/// Arithmetic is float when either operand is float, int only when both
/// operands are int, and otherwise of unknown type; comparisons and `and`,
/// `or` are bool. The diagnostics are those of the operands, in order.
pub proof fn law_arithmetic_types(op: BinOp, l: ExprV, r: ExprV, locals: Seq<(Seq<char>, TyV)>, g: GlobalsV)
    ensures
        ({
            let lt = check_expr_v(l, locals, g).0;
            let rt = check_expr_v(r, locals, g).0;
            let res = check_expr_v(ExprV::Binary(op, Box::new(l), Box::new(r)), locals, g);
            &&& is_arith(op) && (lt == TyV::Float || rt == TyV::Float) ==> res.0 == TyV::Float
            &&& is_arith(op) && lt == TyV::Int && rt == TyV::Int ==> res.0 == TyV::Int
            &&& is_arith(op) ==> (res.0 == TyV::Int ==> lt == TyV::Int && rt == TyV::Int)
            &&& is_arith(op) ==> (res.0 == TyV::Float || res.0 == TyV::Int || res.0 == TyV::Unknown)
            &&& is_arith(op) && lt != TyV::Float && rt != TyV::Float && !(lt == TyV::Int && rt == TyV::Int)
                ==> res.0 == TyV::Unknown
            &&& !is_arith(op) && op != BinOp::Not ==> res.0 == TyV::Bool
            &&& res.1 == check_expr_v(l, locals, g).1 + check_expr_v(r, locals, g).1
        }),
{
}

/// A float is not assignable where an int is wanted (an int is where a
/// float is).
pub proof fn law_float_does_not_narrow_to_int()
    ensures
        !assignable_v(TyV::Float, TyV::Int),
        assignable_v(TyV::Int, TyV::Float),
{
}

/// A fn body yields the type of its last statement when that is an
/// expression statement, checked with the locals the statements before it
/// bound.
pub proof fn law_body_yields_its_last_expression(
    body: Seq<StmtV>,
    e: ExprV,
    span: Span,
    st: BodyV,
    ctx: Option<(Seq<Seq<char>>, Seq<TypeExprV>)>,
    g: GlobalsV,
)
    ensures
        ({
            let before = body_fold(body, st, ctx, g);
            let after = body_fold(body.push(StmtV { kind: StmtKindV::ExprStmt(e), span }), st, ctx, g);
            &&& after.last == check_expr_v(e, before.locals, g).0
            &&& after.locals == before.locals
            &&& after.errs == before.errs + check_expr_v(e, before.locals, g).1
        }),
{
    let b2 = body.push(StmtV { kind: StmtKindV::ExprStmt(e), span });
    assert(b2.drop_last() =~= body);
}

/// A fn whose body yields a type that is not assignable to its declared
/// return type is reported with an E0201 that names both types.
pub proof fn law_return_mismatch_is_reported(
    name: Seq<char>,
    ps: Seq<ParamV>,
    ret: TypeExprV,
    body: Seq<StmtV>,
    ctx: Option<(Seq<Seq<char>>, Seq<TypeExprV>)>,
    g: GlobalsV,
)
    ensures
        ({
            let p = params_locals(ps, g);
            let start = match ctx {
                Some(c) => BodyV {
                    locals: p.0.push(("state"@, TyV::Record(c.0, resolve_all(g, c.1, Seq::empty()).0))),
                    last: TyV::None_,
                    errs: p.1 + resolve_all(g, c.1, Seq::empty()).1,
                },
                None => BodyV { locals: p.0, last: TyV::None_, errs: p.1 },
            };
            let yields = body_fold(body, start, ctx, g).last;
            let want = resolve_v(g, ret, Seq::empty()).0;
            let errs = fn_errs(name, ps, ret, body, ctx, g);
            !assignable_v(yields, want) ==> errs.len() > 0 && errs.last() == (DiagV {
                code: "E0201"@,
                msg: "fn '"@ + name + "' declares -> "@ + ty_str(want) + " but its body yields "@ + ty_str(
                    yields,
                ),
            })
        }),
{
}

} // verus!
