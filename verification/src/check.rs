//! Type-checker core: resolved types and the assignability relation.

use vstd::prelude::*;
use crate::json::{find_key, lemma_find_key};
use crate::text::{chars_of, push_chars, push_str, push_usize, str_eq, string_of};
use crate::typing::{
    agent_sigs, arrow_join, bin_ty, bind_all, bind_missing, builtin, diag, field_ty, fields_str,
    globals_of, is_numeric, lambda_locals, lookup, merge_ty, refinement_errs, resolve_all, resolve_v,
    sig_v, ty_str, DiagV, GlobalsV, SigV, schema_ty_v, call_ty, arg_errs, interp_errs, root_of,
    check_expr_v, check_all, opts_check, route_check, lemma_check_all_len, params_locals, BodyV,
    body_fold, stmt_step, fn_errs, test_fold, test_step, item_errs, agent_fns_errs, alias_errs,
    alias_order, direct_v, direct_all, direct_conds, eff_or, no_eff, EffV, canonical, eff_le, eff_of,
    inferred, is_path, last_idx, lemma_complete, law_effects_propagate_through_calls, lemma_last_idx, lemma_unset_update,
    unset, fn_items_v, fns_only, fn_defs, body_direct, comma_join, unknown_effs, missing_effs, effect_errs,
    check_v, items_errs, lemma_inferred_none,
};
use crate::parser::{find_from, lemma_find_from};
use crate::ast::{stmts_v, ParamV, Stmt, StmtKind, StmtV, StateOp, conds_of, exprs_v, kvals_v, labels_of, names_v, params_v, push_expr_debug, ExprV, push_exprs_items, strs_v, BinOp, Expr, Item, ItemV, Param, TypeExpr, TypeExprV};

verus! {

/// A diagnostic: its `E` code and message.
#[derive(Debug, Clone, PartialEq)]
pub struct CheckError {
    pub code: &'static str,
    pub msg: String,
}

/// A resolved type. `Unknown` is the dynamic escape hatch: assignable to
/// and from everything.
#[derive(Debug)]
pub enum Ty {
    Int,
    Float,
    Bool,
    Str,
    None_,
    Unknown,
    List(Box<Ty>),
    Record(Vec<(String, Ty)>),
    Refine(Box<Ty>, String),
}

/// The mathematical value of a `Ty`; a record is its field names and
/// field types, in order.
pub enum TyV {
    Int,
    Float,
    Bool,
    Str,
    None_,
    Unknown,
    List(Box<TyV>),
    Record(Seq<Seq<char>>, Seq<TyV>),
    Refine(Box<TyV>, Seq<char>),
}

impl View for Ty {
    type V = TyV;

    open spec fn view(&self) -> TyV
        decreases self,
    {
        match self {
            Ty::Int => TyV::Int,
            Ty::Float => TyV::Float,
            Ty::Bool => TyV::Bool,
            Ty::Str => TyV::Str,
            Ty::None_ => TyV::None_,
            Ty::Unknown => TyV::Unknown,
            Ty::List(t) => TyV::List(Box::new((**t).view())),
            Ty::Record(fs) => TyV::Record(
                Seq::new(fs@.len(), |i: int| fs@[i].0@),
                Seq::new(
                    fs@.len(),
                    |i: int|
                        if 0 <= i < fs@.len() {
                            fs@[i].1.view()
                        } else {
                            TyV::Unknown
                        },
                ),
            ),
            Ty::Refine(t, n) => TyV::Refine(Box::new((**t).view()), n@),
        }
    }
}

/// Whether a value of type `src` may be used where `dst` is expected.
pub open spec fn assignable_v(src: TyV, dst: TyV) -> bool
    decreases src, dst, 0nat,
{
    if src is Unknown || dst is Unknown {
        true
    } else if src == dst {
        true
    } else {
        match (src, dst) {
            (TyV::Int, TyV::Float) => true,
            (TyV::List(a), TyV::List(b)) => assignable_v(*a, *b),
            (TyV::Record(ak, av), TyV::Record(bk, bv)) => av.len() == bv.len() && fields_ok(
                ak,
                av,
                bk,
                bv,
                bv.len(),
            ),
            (TyV::Refine(a, _), _) => assignable_v(*a, dst),
            (_, TyV::Refine(b, _)) => assignable_v(src, *b),
            _ => false,
        }
    }
}

/// Each of the first `n` fields of record `bk`/`bv` has a field of the same
/// name in `ak`/`av` (the first one) whose type is assignable to it.
pub open spec fn fields_ok(
    ak: Seq<Seq<char>>,
    av: Seq<TyV>,
    bk: Seq<Seq<char>>,
    bv: Seq<TyV>,
    n: nat,
) -> bool
    decreases av, bv, n,
{
    if n == 0 || n > bv.len() || n > bk.len() {
        n == 0
    } else {
        fields_ok(ak, av, bk, bv, (n - 1) as nat) && match find_key(ak, bk[n - 1], 0) {
            Some(i) => {
                proof {
                    lemma_find_key(ak, bk[n - 1], 0);
                }
                if i < av.len() {
                    assignable_v(av[i], bv[n - 1])
                } else {
                    false
                }
            },
            None => false,
        }
    }
}

/// The element type of a list type; `Unknown` for other types.
pub open spec fn elem_of_v(t: TyV) -> TyV {
    match t {
        TyV::List(e) => *e,
        _ => TyV::Unknown,
    }
}

impl Ty {
    /// A copy of this type.
    #[verifier::loop_isolation(false)]
    pub fn copy(&self) -> (r: Ty)
        ensures
            r@ == self@,
        decreases self,
    {
        match self {
            Ty::Int => Ty::Int,
            Ty::Float => Ty::Float,
            Ty::Bool => Ty::Bool,
            Ty::Str => Ty::Str,
            Ty::None_ => Ty::None_,
            Ty::Unknown => Ty::Unknown,
            Ty::List(t) => Ty::List(Box::new((**t).copy())),
            Ty::Refine(t, n) => Ty::Refine(Box::new((**t).copy()), string_of(n.as_str())),
            Ty::Record(fs) => {
                let ghost ks = self@->Record_0;
                let ghost vs = self@->Record_1;
                let mut out: Vec<(String, Ty)> = Vec::new();
                let mut i: usize = 0;
                while i < fs.len()
                    invariant
                        i <= fs@.len() == ks.len() == vs.len(),
                        self@ == TyV::Record(ks, vs),
                        forall|j: int| 0 <= j < fs@.len() ==> ks[j] == (#[trigger] fs@[j]).0@,
                        forall|j: int| 0 <= j < fs@.len() ==> vs[j] == (#[trigger] fs@[j]).1@,
                        out@.len() == i,
                        forall|j: int| 0 <= j < i ==> ks[j] == (#[trigger] out@[j]).0@,
                        forall|j: int| 0 <= j < i ==> vs[j] == (#[trigger] out@[j]).1@,
                    decreases fs@.len() - i,
                {
                    let k = string_of(fs[i].0.as_str());
                    let t = fs[i].1.copy();
                    out.push((k, t));
                    i = i + 1;
                }
                let r = Ty::Record(out);
                proof {
                    assert(r@->Record_0 =~= ks);
                    assert(r@->Record_1 =~= vs);
                }
                r
            },
        }
    }
}

} // verus!

verus! {

proof fn lemma_fields_ok(
    ak: Seq<Seq<char>>,
    av: Seq<TyV>,
    bk: Seq<Seq<char>>,
    bv: Seq<TyV>,
    n: nat,
    j: nat,
)
    requires
        fields_ok(ak, av, bk, bv, n),
        j <= n,
    ensures
        fields_ok(ak, av, bk, bv, j),
    decreases n,
{
    if j < n {
        lemma_fields_ok(ak, av, bk, bv, (n - 1) as nat, j);
    }
}

/// Structural equality of types.
#[verifier::loop_isolation(false)]
pub fn ty_equal(a: &Ty, b: &Ty) -> (r: bool)
    ensures
        r == (a@ == b@),
    decreases a,
{
    match (a, b) {
        (Ty::Int, Ty::Int) => true,
        (Ty::Float, Ty::Float) => true,
        (Ty::Bool, Ty::Bool) => true,
        (Ty::Str, Ty::Str) => true,
        (Ty::None_, Ty::None_) => true,
        (Ty::Unknown, Ty::Unknown) => true,
        (Ty::List(x), Ty::List(y)) => ty_equal(&**x, &**y),
        (Ty::Refine(x, n), Ty::Refine(y, m)) => ty_equal(&**x, &**y) && str_eq(n.as_str(), m.as_str()),
        (Ty::Record(xs), Ty::Record(ys)) => {
            let ghost kx = a@->Record_0;
            let ghost vx = a@->Record_1;
            let ghost ky = b@->Record_0;
            let ghost vy = b@->Record_1;
            if xs.len() != ys.len() {
                assert(vx.len() != vy.len());
                return false;
            }
            let mut i: usize = 0;
            while i < xs.len()
                invariant
                    i <= xs@.len() == ys@.len(),
                    kx.len() == vx.len() == xs@.len(),
                    ky.len() == vy.len() == ys@.len(),
                    forall|j: int| 0 <= j < xs@.len() ==> kx[j] == (#[trigger] xs@[j]).0@,
                    forall|j: int| 0 <= j < xs@.len() ==> vx[j] == (#[trigger] xs@[j]).1@,
                    forall|j: int| 0 <= j < ys@.len() ==> ky[j] == (#[trigger] ys@[j]).0@,
                    forall|j: int| 0 <= j < ys@.len() ==> vy[j] == (#[trigger] ys@[j]).1@,
                    forall|j: int| 0 <= j < i ==> kx[j] == ky[j] && vx[j] == vy[j],
                decreases xs@.len() - i,
            {
                if !str_eq(xs[i].0.as_str(), ys[i].0.as_str()) {
                    assert(kx[i as int] != ky[i as int]);
                    return false;
                }
                if !ty_equal(&xs[i].1, &ys[i].1) {
                    assert(vx[i as int] != vy[i as int]);
                    return false;
                }
                i = i + 1;
            }
            assert(kx =~= ky);
            assert(vx =~= vy);
            true
        },
        _ => false,
    }
}

/// Whether a value of type `src` may be used where `dst` is expected:
/// `Unknown` on either side, equal types, `int` widening to `float`, lists
/// element-wise, records field by field (by name, same field count), and
/// refinements by their base type.
#[verifier::loop_isolation(false)]
pub fn assignable(src: &Ty, dst: &Ty) -> (r: bool)
    ensures
        r == assignable_v(src@, dst@),
    decreases src, dst,
{
    if matches!(src, Ty::Unknown) || matches!(dst, Ty::Unknown) {
        return true;
    }
    if ty_equal(src, dst) {
        return true;
    }
    match (src, dst) {
        (Ty::Int, Ty::Float) => true,
        (Ty::List(a), Ty::List(b)) => assignable(&**a, &**b),
        (Ty::Record(a), Ty::Record(b)) => {
            let ghost ak = src@->Record_0;
            let ghost av = src@->Record_1;
            let ghost bk = dst@->Record_0;
            let ghost bv = dst@->Record_1;
            if a.len() != b.len() {
                return false;
            }
            let mut j: usize = 0;
            while j < b.len()
                invariant
                    j <= b@.len() == bk.len() == bv.len(),
                    a@.len() == ak.len() == av.len(),
                    forall|q: int| 0 <= q < a@.len() ==> ak[q] == (#[trigger] a@[q]).0@,
                    forall|q: int| 0 <= q < a@.len() ==> av[q] == (#[trigger] a@[q]).1@,
                    forall|q: int| 0 <= q < b@.len() ==> bk[q] == (#[trigger] b@[q]).0@,
                    forall|q: int| 0 <= q < b@.len() ==> bv[q] == (#[trigger] b@[q]).1@,
                    fields_ok(ak, av, bk, bv, j as nat),
                decreases b@.len() - j,
            {
                let key = b[j].0.as_str();
                let mut i: usize = 0;
                proof {
                    lemma_find_key(ak, key@, 0);
                }
                while i < a.len() && !str_eq(a[i].0.as_str(), key)
                    invariant
                        i <= a@.len(),
                        find_key(ak, key@, i as int) == find_key(ak, key@, 0),
                    decreases a@.len() - i,
                {
                    i = i + 1;
                }
                if i >= a.len() {
                    proof {
                        if fields_ok(ak, av, bk, bv, bv.len()) {
                            lemma_fields_ok(ak, av, bk, bv, bv.len(), (j + 1) as nat);
                        }
                    }
                    return false;
                }
                if !assignable(&a[i].1, &b[j].1) {
                    proof {
                        if fields_ok(ak, av, bk, bv, bv.len()) {
                            lemma_fields_ok(ak, av, bk, bv, bv.len(), (j + 1) as nat);
                        }
                    }
                    return false;
                }
                j = j + 1;
            }
            true
        },
        (Ty::Refine(a, _), _) => assignable(&**a, dst),
        (_, Ty::Refine(b, _)) => assignable(src, &**b),
        _ => false,
    }
}

/// The element type of a list type; `Unknown` for other types.
pub fn elem_of(t: &Ty) -> (r: Ty)
    ensures
        r@ == elem_of_v(t@),
{
    match t {
        Ty::List(e) => (**e).copy(),
        _ => Ty::Unknown,
    }
}

} // verus!

verus! {

/// `Unknown` is the dynamic escape hatch: it is assignable to and from
/// every type.
pub proof fn law_unknown_is_dynamic(t: TyV)
    ensures
        assignable_v(TyV::Unknown, t),
        assignable_v(t, TyV::Unknown),
{
}

/// Every type is assignable to itself.
pub proof fn law_assignable_reflexive(t: TyV)
    ensures
        assignable_v(t, t),
{
}

/// `int` widens to `float`, but `float` does not narrow to `int`.
pub proof fn law_int_widens_to_float()
    ensures
        assignable_v(TyV::Int, TyV::Float),
        !assignable_v(TyV::Float, TyV::Int),
{
}

/// A refinement is assignable wherever its base type is.
pub proof fn law_refinement_follows_base(b: TyV, name: Seq<char>, t: TyV)
    requires
        assignable_v(b, t),
    ensures
        assignable_v(TyV::Refine(Box::new(b), name), t),
{
}

} // verus!

verus! {

/// The diagnostics of a list of errors.
pub open spec fn diags_v(e: Seq<CheckError>) -> Seq<DiagV> {
    Seq::new(e.len(), |i: int| DiagV { code: e[i].code@, msg: e[i].msg@ })
}

proof fn lemma_diags_push(e: Seq<CheckError>, x: CheckError)
    ensures
        diags_v(e.push(x)) == diags_v(e) + seq![DiagV { code: x.code@, msg: x.msg@ }],
{
    assert(diags_v(e.push(x)) =~= diags_v(e) + seq![DiagV { code: x.code@, msg: x.msg@ }]);
}

/// Adds a diagnostic.
fn report(errs: &mut Vec<CheckError>, code: &'static str, msg: String)
    ensures
        diags_v(final(errs)@) == diags_v(old(errs)@) + diag(code@, msg@),
{
    let ghost e = errs@;
    let x = CheckError { code, msg };
    proof {
        lemma_diags_push(e, x);
    }
    errs.push(x);
}

/// Appends a type as the checker writes it in messages.
#[verifier::loop_isolation(false)]
fn push_ty(out: &mut String, t: &Ty)
    ensures
        final(out)@ == old(out)@ + ty_str(t@),
    decreases t,
{
    let ghost o = out@;
    match t {
        Ty::Int => push_str(out, "int"),
        Ty::Float => push_str(out, "float"),
        Ty::Bool => push_str(out, "bool"),
        Ty::Str => push_str(out, "string"),
        Ty::None_ => push_str(out, "none"),
        Ty::Unknown => push_str(out, "unknown"),
        Ty::List(e) => {
            push_str(out, "[");
            push_ty(out, &**e);
            push_str(out, "]");
            assert(out@ =~= o + ty_str(t@));
        },
        Ty::Refine(b, n) => {
            push_ty(out, &**b);
            push_str(out, " @");
            push_str(out, n.as_str());
            assert(out@ =~= o + ty_str(t@));
        },
        Ty::Record(fs) => {
            let ghost ks = t@->Record_0;
            let ghost vs = t@->Record_1;
            push_str(out, "{");
            let mut i: usize = 0;
            while i < fs.len()
                invariant
                    i <= fs@.len() == ks.len() == vs.len(),
                    t@ == TyV::Record(ks, vs),
                    forall|j: int| 0 <= j < fs@.len() ==> ks[j] == (#[trigger] fs@[j]).0@,
                    forall|j: int| 0 <= j < fs@.len() ==> vs[j] == (#[trigger] fs@[j]).1@,
                    out@ == o + "{"@ + fields_str(ks, vs.take(i as int)),
                decreases fs@.len() - i,
            {
                let ghost before = out@;
                if i > 0 {
                    push_str(out, ", ");
                }
                push_str(out, fs[i].0.as_str());
                push_str(out, ": ");
                push_ty(out, &fs[i].1);
                proof {
                    assert(vs.take(i + 1).drop_last() =~= vs.take(i as int));
                    let item = ks[i as int] + ": "@ + ty_str(vs[i as int]);
                    if i > 0 {
                        assert(out@ =~= before + ", "@ + item);
                    } else {
                        assert(out@ =~= before + item);
                    }
                }
                i = i + 1;
            }
            push_str(out, "}");
            assert(vs.take(fs@.len() as int) =~= vs);
            assert(out@ =~= o + ty_str(t@));
        },
    }
}

/// A type as a string.
fn ty_string(t: &Ty) -> (r: String)
    ensures
        r@ == ty_str(t@),
{
    let mut s = String::new();
    proof {
        assert(s@ =~= Seq::<char>::empty());
    }
    push_ty(&mut s, t);
    proof {
        assert(s@ =~= ty_str(t@));
    }
    s
}

/// What the checker knows of a program: its type aliases, fns (agent fns
/// included) and tools, in program order.
struct Globals<'a> {
    aliases: Vec<(&'a String, &'a TypeExpr)>,
    fns: Vec<(&'a String, &'a Vec<Param>, &'a TypeExpr)>,
    tools: Vec<(&'a String, &'a Vec<Param>, &'a TypeExpr)>,
}

spec fn sigs_v(s: Seq<(&String, &Vec<Param>, &TypeExpr)>) -> Seq<(Seq<char>, SigV)> {
    Seq::new(s.len(), |i: int| (s[i].0@, sig_v(params_v(s[i].1@), s[i].2@)))
}

impl<'a> Globals<'a> {
    spec fn view(&self) -> GlobalsV {
        GlobalsV {
            aliases: Seq::new(self.aliases@.len(), |i: int| (self.aliases@[i].0@, self.aliases@[i].1@)),
            fns: sigs_v(self.fns@),
            tools: sigs_v(self.tools@),
        }
    }
}

/// The items of a program as values.
pub open spec fn items_v(items: Seq<Item>) -> Seq<ItemV> {
    Seq::new(items.len(), |i: int| items[i]@)
}

} // verus!

verus! {

/// The program's aliases, fns and tools.
fn build_globals<'a>(items: &'a [Item]) -> (g: Globals<'a>)
    ensures
        g@ == globals_of(items_v(items@)),
{
    let ghost iv = items_v(items@);
    let mut g = Globals { aliases: Vec::new(), fns: Vec::new(), tools: Vec::new() };
    proof {
        assert(g@.aliases =~= Seq::<(Seq<char>, TypeExprV)>::empty());
        assert(g@.fns =~= Seq::<(Seq<char>, SigV)>::empty());
        assert(g@.tools =~= Seq::<(Seq<char>, SigV)>::empty());
        assert(iv.take(0) =~= Seq::<ItemV>::empty());
    }
    let mut i: usize = 0;
    while i < items.len()
        invariant
            i <= items@.len() == iv.len(),
            iv == items_v(items@),
            g@ == globals_of(iv.take(i as int)),
        decreases items@.len() - i,
    {
        proof {
            assert(iv.take(i + 1).drop_last() =~= iv.take(i as int));
        }
        let ghost prev = g@;
        match &items[i] {
            Item::TypeAlias { name, ty } => {
                g.aliases.push((name, ty));
                proof {
                    assert(g@.aliases =~= prev.aliases.push((name@, ty@)));
                    assert(g@.fns =~= prev.fns);
                    assert(g@.tools =~= prev.tools);
                }
            },
            Item::Fn { name, params, ret, .. } => {
                g.fns.push((name, params, ret));
                proof {
                    assert(g@.fns =~= prev.fns.push((name@, sig_v(params_v(params@), ret@))));
                    assert(g@.aliases =~= prev.aliases);
                    assert(g@.tools =~= prev.tools);
                }
            },
            Item::Tool { name, params, ret, .. } => {
                g.tools.push((name, params, ret));
                proof {
                    assert(g@.tools =~= prev.tools.push((name@, sig_v(params_v(params@), ret@))));
                    assert(g@.aliases =~= prev.aliases);
                    assert(g@.fns =~= prev.fns);
                }
            },
            Item::Agent { fns, .. } => {
                let ghost fv = iv[i as int]->Agent_4;
                assert(fv =~= Seq::new(fns@.len(), |j: int| fns@[j]@));
                let mut j: usize = 0;
                proof {
                    assert(fv.take(0) =~= Seq::<ItemV>::empty());
                    assert(prev.fns + agent_sigs(fv.take(0)) =~= prev.fns);
                }
                while j < fns.len()
                    invariant
                        j <= fns@.len() == fv.len(),
                        fv == Seq::new(fns@.len(), |q: int| fns@[q]@),
                        g@.aliases == prev.aliases,
                        g@.tools == prev.tools,
                        g@.fns == prev.fns + agent_sigs(fv.take(j as int)),
                    decreases fns@.len() - j,
                {
                    proof {
                        assert(fv.take(j + 1).drop_last() =~= fv.take(j as int));
                    }
                    let ghost before = g@;
                    match &fns[j] {
                        Item::Fn { name, params, ret, .. } => {
                            g.fns.push((name, params, ret));
                            proof {
                                assert(g@.fns =~= before.fns.push((name@, sig_v(params_v(params@), ret@))));
                                assert(g@.aliases =~= before.aliases);
                                assert(g@.tools =~= before.tools);
                            }
                        },
                        _ => {},
                    }
                    j = j + 1;
                }
                proof {
                    assert(fv.take(fns@.len() as int) =~= fv);
                }
            },
            Item::Test { .. } => {},
        }
        i = i + 1;
    }
    proof {
        assert(iv.take(items@.len() as int) =~= iv);
    }
    g
}

/// The body of the alias named `name` (the last one of that name).
fn find_alias<'a>(g: &Globals<'a>, name: &str) -> (r: Option<&'a TypeExpr>)
    ensures
        match r {
            Some(t) => lookup(g@.aliases, name@) == Some(t@),
            None => lookup(g@.aliases, name@) is None,
        },
{
    let ghost a = g@.aliases;
    let mut i = g.aliases.len();
    proof {
        assert(a.take(i as int) =~= a);
    }
    while i > 0
        invariant
            i <= g.aliases@.len() == a.len(),
            a == g@.aliases,
            lookup(a, name@) == lookup(a.take(i as int), name@),
        decreases i,
    {
        proof {
            assert(a.take(i as int).drop_last() =~= a.take(i - 1));
        }
        if str_eq(g.aliases[i - 1].0.as_str(), name) {
            return Some(g.aliases[i - 1].1);
        }
        i = i - 1;
    }
    None
}

/// The signature named `name` in `sigs` (the last one of that name).
fn find_sig<'a>(sigs: &Vec<(&'a String, &'a Vec<Param>, &'a TypeExpr)>, name: &str) -> (r: Option<
    (&'a Vec<Param>, &'a TypeExpr),
>)
    ensures
        match r {
            Some(s) => lookup(sigs_v(sigs@), name@) == Some(sig_v(params_v(s.0@), s.1@)),
            None => lookup(sigs_v(sigs@), name@) is None,
        },
{
    let ghost a = sigs_v(sigs@);
    let mut i = sigs.len();
    proof {
        assert(a.take(i as int) =~= a);
    }
    while i > 0
        invariant
            i <= sigs@.len() == a.len(),
            a == sigs_v(sigs@),
            lookup(a, name@) == lookup(a.take(i as int), name@),
        decreases i,
    {
        proof {
            assert(a.take(i as int).drop_last() =~= a.take(i - 1));
        }
        if str_eq(sigs[i - 1].0.as_str(), name) {
            return Some((sigs[i - 1].1, sigs[i - 1].2));
        }
        i = i - 1;
    }
    None
}

/// Appends the names of `v` joined by ` → `.
fn push_arrow_join(out: &mut String, v: &Vec<String>)
    ensures
        final(out)@ == old(out)@ + arrow_join(strs_v(v@)),
{
    let ghost o = out@;
    let ghost s = strs_v(v@);
    let mut i: usize = 0;
    proof {
        assert(s.take(0) =~= Seq::<Seq<char>>::empty());
    }
    while i < v.len()
        invariant
            i <= v@.len() == s.len(),
            s == strs_v(v@),
            out@ == o + arrow_join(s.take(i as int)),
        decreases v@.len() - i,
    {
        proof {
            assert(s.take(i + 1).drop_last() =~= s.take(i as int));
        }
        let ghost before = out@;
        if i > 0 {
            push_str(out, " → ");
        }
        push_str(out, v[i].as_str());
        proof {
            if i > 0 {
                assert(out@ =~= before + " → "@ + s[i as int]);
            } else {
                assert(out@ =~= before + s[i as int]);
            }
        }
        i = i + 1;
    }
    assert(s.take(v@.len() as int) =~= s);
}

/// An integer or float literal.
fn numeric(e: &Expr) -> (r: bool)
    ensures
        r == is_numeric(e@),
{
    match e {
        Expr::Int(_) => true,
        Expr::Float(_) => true,
        _ => false,
    }
}

/// Reports a malformed or unknown refinement `@name(args)`.
fn validate_refinement(name: &str, args: &Vec<Expr>, errs: &mut Vec<CheckError>)
    ensures
        diags_v(final(errs)@) == diags_v(old(errs)@) + refinement_errs(name@, exprs_v(args@)),
{
    if str_eq(name, "range") {
        if args.len() == 2 && numeric(&args[0]) && numeric(&args[1]) {
            assert(diags_v(errs@) =~= diags_v(errs@) + Seq::<DiagV>::empty());
            return;
        }
        let mut msg = string_of("@range expects 2 numeric bounds, e.g. @range(0, 1) — got [");
        push_exprs_items(&mut msg, args);
        push_str(&mut msg, "]");
        report(errs, "E0202", msg);
    } else if str_eq(name, "format") {
        let ok = args.len() == 1 && match &args[0] {
            Expr::Ident(f) => str_eq(f.as_str(), "url") || str_eq(f.as_str(), "email"),
            Expr::Str(f) => str_eq(f.as_str(), "url") || str_eq(f.as_str(), "email"),
            _ => false,
        };
        if ok {
            assert(diags_v(errs@) =~= diags_v(errs@) + Seq::<DiagV>::empty());
            return;
        }
        let mut msg = string_of("@format expects one of (url, email) — got [");
        push_exprs_items(&mut msg, args);
        push_str(&mut msg, "]");
        report(errs, "E0202", msg);
    } else {
        let mut msg = string_of("unknown refinement '@");
        push_str(&mut msg, name);
        push_str(&mut msg, "' (known: @range, @format)");
        report(errs, "E0202", msg);
    }
}

/// A copy of a list of strings.
fn copy_strs(v: &Vec<String>) -> (r: Vec<String>)
    ensures
        strs_v(r@) == strs_v(v@),
{
    let mut r: Vec<String> = Vec::new();
    let mut i: usize = 0;
    while i < v.len()
        invariant
            i <= v@.len(),
            r@.len() == i,
            forall|j: int| 0 <= j < i ==> (#[trigger] r@[j])@ == v@[j]@,
        decreases v@.len() - i,
    {
        r.push(string_of(v[i].as_str()));
        i = i + 1;
    }
    assert(strs_v(r@) =~= strs_v(v@));
    r
}

/// The type a type expression stands for, reporting unknown names,
/// malformed refinements and alias cycles; `visiting` holds the aliases
/// being expanded.
#[verifier::loop_isolation(false)]
fn resolve(t: &TypeExpr, g: &Globals, visiting: &Vec<String>, errs: &mut Vec<CheckError>) -> (r: Ty)
    ensures
        r@ == resolve_v(g@, t@, strs_v(visiting@)).0,
        diags_v(final(errs)@) == diags_v(old(errs)@) + resolve_v(g@, t@, strs_v(visiting@)).1,
    decreases g@.aliases.len() - visiting@.len(), t,
{
    let ghost vs = strs_v(visiting@);
    let ghost e0 = diags_v(errs@);
    match t {
        TypeExpr::Named(name) => {
            let n = name.as_str();
            if str_eq(n, "int") {
                assert(diags_v(errs@) =~= e0 + Seq::<DiagV>::empty());
                return Ty::Int;
            }
            if str_eq(n, "float") {
                assert(diags_v(errs@) =~= e0 + Seq::<DiagV>::empty());
                return Ty::Float;
            }
            if str_eq(n, "bool") {
                assert(diags_v(errs@) =~= e0 + Seq::<DiagV>::empty());
                return Ty::Bool;
            }
            if str_eq(n, "string") {
                assert(diags_v(errs@) =~= e0 + Seq::<DiagV>::empty());
                return Ty::Str;
            }
            if str_eq(n, "none") || str_eq(n, "()") {
                assert(diags_v(errs@) =~= e0 + Seq::<DiagV>::empty());
                return Ty::None_;
            }
            if str_eq(n, "bytes") || str_eq(n, "timestamp") {
                assert(diags_v(errs@) =~= e0 + Seq::<DiagV>::empty());
                return Ty::Unknown;
            }
            assert(builtin(name@) is None);
            let ghost ev = errs@;
            let mut k: usize = 0;
            let mut cyclic = false;
            while k < visiting.len()
                invariant
                    k <= visiting@.len() == vs.len(),
                    vs == strs_v(visiting@),
                    cyclic ==> vs.contains(name@),
                    !cyclic ==> forall|j: int| 0 <= j < k ==> vs[j] != name@,
                decreases visiting@.len() - k,
            {
                if str_eq(visiting[k].as_str(), n) {
                    assert(vs[k as int] == name@);
                    cyclic = true;
                    break;
                }
                k = k + 1;
            }
            if cyclic {
                let mut msg = string_of("cyclic type alias '");
                push_arrow_join(&mut msg, visiting);
                push_str(&mut msg, " → ");
                push_str(&mut msg, n);
                push_str(&mut msg, "'");
                assert(msg@ =~= "cyclic type alias '"@ + arrow_join(vs) + " → "@ + name@ + "'"@);
                report(errs, "E0202", msg);
                return Ty::Unknown;
            }
            assert(!vs.contains(name@));
            match find_alias(g, n) {
                Some(body) => {
                    if visiting.len() < g.aliases.len() {
                        let mut v2 = copy_strs(visiting);
                        v2.push(string_of(n));
                        proof {
                            assert(strs_v(v2@) =~= vs.push(name@));
                        }
                        resolve(body, g, &v2, errs)
                    } else {
                        assert(diags_v(errs@) =~= e0 + Seq::<DiagV>::empty());
                        Ty::Unknown
                    }
                },
                None => {
                    let mut msg = string_of("unknown type '");
                    push_str(&mut msg, n);
                    push_str(&mut msg, "'");
                    report(errs, "E0101", msg);
                    Ty::Unknown
                },
            }
        },
        TypeExpr::List(inner) => {
            let r = resolve(&**inner, g, visiting, errs);
            Ty::List(Box::new(r))
        },
        TypeExpr::Refine(base, name, args) => {
            validate_refinement(name.as_str(), args, errs);
            proof {
                assert(t@->Refine_2 =~= exprs_v(args@));
            }
            let r = resolve(&**base, g, visiting, errs);
            let out = Ty::Refine(Box::new(r), string_of(name.as_str()));
            proof {
                assert(diags_v(errs@) =~= e0 + resolve_v(g@, t@, vs).1);
            }
            out
        },
        TypeExpr::Record(fields) => {
            let ghost ks = t@->Record_0;
            let ghost ts = t@->Record_1;
            let mut out: Vec<(String, Ty)> = Vec::new();
            let mut i: usize = 0;
            proof {
                assert(ts.take(0) =~= Seq::<TypeExprV>::empty());
                assert(diags_v(errs@) =~= e0 + resolve_all(g@, ts.take(0), vs).1);
            }
            while i < fields.len()
                invariant
                    i <= fields@.len() == ks.len() == ts.len(),
                    forall|j: int| 0 <= j < fields@.len() ==> ks[j] == (#[trigger] fields@[j]).0@,
                    forall|j: int| 0 <= j < fields@.len() ==> ts[j] == (#[trigger] fields@[j]).1@,
                    out@.len() == i,
                    forall|j: int| 0 <= j < i ==> ks[j] == (#[trigger] out@[j]).0@,
                    forall|j: int|
                        0 <= j < i ==> resolve_all(g@, ts.take(i as int), vs).0[j] == (#[trigger] out@[j]).1@,
                    resolve_all(g@, ts.take(i as int), vs).0.len() == i,
                    diags_v(errs@) == e0 + resolve_all(g@, ts.take(i as int), vs).1,
                decreases fields@.len() - i,
            {
                proof {
                    assert(ts.take(i + 1).drop_last() =~= ts.take(i as int));
                }
                let ghost e1 = diags_v(errs@);
                let ty = resolve(&fields[i].1, g, visiting, errs);
                out.push((string_of(fields[i].0.as_str()), ty));
                proof {
                    assert(diags_v(errs@) =~= e0 + resolve_all(g@, ts.take(i + 1), vs).1);
                }
                i = i + 1;
            }
            let r = Ty::Record(out);
            proof {
                assert(ts.take(fields@.len() as int) =~= ts);
                assert(r@->Record_0 =~= ks);
                assert(r@->Record_1 =~= resolve_all(g@, ts, vs).0);
            }
            r
        },
    }
}

} // verus!

verus! {

/// The locals in scope: each name with its type; the last binding of a
/// name counts.
pub open spec fn locals_v(l: Seq<(String, Ty)>) -> Seq<(Seq<char>, TyV)> {
    Seq::new(l.len(), |i: int| (l[i].0@, l[i].1@))
}

pub open spec fn tys_v(s: Seq<Ty>) -> Seq<TyV> {
    Seq::new(s.len(), |i: int| s[i]@)
}

/// The type of the local named `name` (its last binding).
fn find_local<'a>(locals: &'a Vec<(String, Ty)>, name: &str) -> (r: Option<&'a Ty>)
    ensures
        match r {
            Some(t) => lookup(locals_v(locals@), name@) == Some(t@),
            None => lookup(locals_v(locals@), name@) is None,
        },
{
    let ghost a = locals_v(locals@);
    let mut i = locals.len();
    proof {
        assert(a.take(i as int) =~= a);
    }
    while i > 0
        invariant
            i <= locals@.len() == a.len(),
            a == locals_v(locals@),
            lookup(a, name@) == lookup(a.take(i as int), name@),
        decreases i,
    {
        proof {
            assert(a.take(i as int).drop_last() =~= a.take(i - 1));
        }
        if str_eq(locals[i - 1].0.as_str(), name) {
            return Some(&locals[i - 1].1);
        }
        i = i - 1;
    }
    None
}

/// A copy of the locals.
fn copy_locals(l: &Vec<(String, Ty)>) -> (r: Vec<(String, Ty)>)
    ensures
        locals_v(r@) == locals_v(l@),
{
    let mut r: Vec<(String, Ty)> = Vec::new();
    let mut i: usize = 0;
    while i < l.len()
        invariant
            i <= l@.len(),
            r@.len() == i,
            forall|j: int| 0 <= j < i ==> (#[trigger] r@[j]).0@ == l@[j].0@ && r@[j].1@ == l@[j].1@,
        decreases l@.len() - i,
    {
        r.push((string_of(l[i].0.as_str()), l[i].1.copy()));
        i = i + 1;
    }
    assert(locals_v(r@) =~= locals_v(l@));
    r
}

/// Binds `name` to `t`.
fn bind(l: &mut Vec<(String, Ty)>, name: &str, t: Ty)
    ensures
        locals_v(final(l)@) == locals_v(old(l)@).push((name@, t@)),
{
    let ghost a = locals_v(l@);
    l.push((string_of(name), t));
    assert(locals_v(l@) =~= a.push((name@, t@)));
}

/// The type of the first field named `name` of a record type, or `Unknown`.
fn field_type(t: &Ty, name: &str) -> (r: Ty)
    ensures
        r@ == field_ty(t@, name@),
{
    match t {
        Ty::Record(fs) => {
            let ghost ks = t@->Record_0;
            let ghost vs = t@->Record_1;
            proof {
                lemma_find_key(ks, name@, 0);
            }
            let mut i: usize = 0;
            while i < fs.len()
                invariant
                    i <= fs@.len() == ks.len() == vs.len(),
                    t@ == TyV::Record(ks, vs),
                    forall|j: int| 0 <= j < fs@.len() ==> ks[j] == (#[trigger] fs@[j]).0@,
                    forall|j: int| 0 <= j < fs@.len() ==> vs[j] == (#[trigger] fs@[j]).1@,
                    find_key(ks, name@, i as int) == find_key(ks, name@, 0),
                decreases fs@.len() - i,
            {
                if str_eq(fs[i].0.as_str(), name) {
                    return fs[i].1.copy();
                }
                i = i + 1;
            }
            Ty::Unknown
        },
        _ => Ty::Unknown,
    }
}

/// The type of `l op r`.
fn bin_type(op: BinOp, lt: &Ty, rt: &Ty) -> (r: Ty)
    ensures
        r@ == bin_ty(op, lt@, rt@),
{
    match op {
        BinOp::Eq | BinOp::NotEq | BinOp::Lt | BinOp::LtEq | BinOp::Gt | BinOp::GtEq | BinOp::And
        | BinOp::Or => Ty::Bool,
        _ => {
            if matches!(lt, Ty::Float) || matches!(rt, Ty::Float) {
                Ty::Float
            } else if matches!(lt, Ty::Int) && matches!(rt, Ty::Int) {
                Ty::Int
            } else {
                Ty::Unknown
            }
        },
    }
}

/// The type of `l | merge r`, reporting operands that do not merge.
fn merge_type(lt: Ty, rt: Ty, errs: &mut Vec<CheckError>) -> (r: Ty)
    ensures
        r@ == merge_ty(lt@, rt@).0,
        diags_v(final(errs)@) == diags_v(old(errs)@) + merge_ty(lt@, rt@).1,
{
    let ghost e0 = diags_v(errs@);
    if matches!(lt, Ty::Record(_)) && matches!(rt, Ty::Record(_)) {
        assert(diags_v(errs@) =~= e0 + Seq::<DiagV>::empty());
        return lt;
    }
    match (&lt, &rt) {
        (Ty::List(a), Ty::List(b)) => {
            if !assignable(&**b, &**a) {
                let mut msg = string_of("merge list element mismatch: ");
                push_ty(&mut msg, &lt);
                push_str(&mut msg, " vs ");
                push_ty(&mut msg, &rt);
                report(errs, "E0201", msg);
            } else {
                assert(diags_v(errs@) =~= e0 + Seq::<DiagV>::empty());
            }
            return lt;
        },
        _ => {},
    }
    if matches!(lt, Ty::Unknown) {
        assert(diags_v(errs@) =~= e0 + Seq::<DiagV>::empty());
        return rt;
    }
    if matches!(rt, Ty::Unknown) {
        assert(diags_v(errs@) =~= e0 + Seq::<DiagV>::empty());
        return lt;
    }
    let mut msg = string_of("merge expects two records or two lists, got ");
    push_ty(&mut msg, &lt);
    push_str(&mut msg, " | merge ");
    push_ty(&mut msg, &rt);
    report(errs, "E0201", msg);
    Ty::Unknown
}

/// The locals of a `par map` lambda with parameters `ps` over a
/// collection of type `ct`.
fn lambda_scope(locals: &Vec<(String, Ty)>, ps: &Vec<String>, ct: &Ty) -> (r: Vec<(String, Ty)>)
    ensures
        locals_v(r@) == lambda_locals(locals_v(locals@), strs_v(ps@), ct@),
{
    let ghost pv = strs_v(ps@);
    let mut inner = copy_locals(locals);
    if ps.len() == 2 {
        match ct {
            Ty::List(pair) => match &**pair {
                Ty::Record(_) => {
                    bind(&mut inner, ps[0].as_str(), field_type(&**pair, "first"));
                    bind(&mut inner, ps[1].as_str(), field_type(&**pair, "second"));
                },
                _ => {},
            },
            _ => {},
        }
        let ghost l1 = locals_v(inner@);
        let mut i: usize = 0;
        proof {
            assert(pv.take(0) =~= Seq::<Seq<char>>::empty());
        }
        while i < ps.len()
            invariant
                i <= ps@.len() == pv.len() == 2,
                pv == strs_v(ps@),
                locals_v(inner@) == bind_missing(l1, pv.take(i as int)),
            decreases ps@.len() - i,
        {
            proof {
                assert(pv.take(i + 1).drop_last() =~= pv.take(i as int));
            }
            if find_local(&inner, ps[i].as_str()).is_none() {
                bind(&mut inner, ps[i].as_str(), Ty::Unknown);
            }
            i = i + 1;
        }
        proof {
            assert(pv.take(2) =~= pv);
        }
        inner
    } else {
        let ghost l0 = locals_v(inner@);
        let mut i: usize = 0;
        proof {
            assert(pv.take(0) =~= Seq::<Seq<char>>::empty());
        }
        while i < ps.len()
            invariant
                i <= ps@.len() == pv.len(),
                pv == strs_v(ps@),
                locals_v(inner@) == bind_all(l0, pv.take(i as int), elem_of_v(ct@)),
            decreases ps@.len() - i,
        {
            proof {
                assert(pv.take(i + 1).drop_last() =~= pv.take(i as int));
            }
            bind(&mut inner, ps[i].as_str(), elem_of(ct));
            i = i + 1;
        }
        proof {
            assert(pv.take(ps@.len() as int) =~= pv);
        }
        inner
    }
}

} // verus!

verus! {

/// The type a `schema:` option names, reporting one that names no type.
fn schema_type(e: &Expr, g: &Globals, errs: &mut Vec<CheckError>) -> (r: Ty)
    ensures
        r@ == schema_ty_v(e@, g@).0,
        diags_v(final(errs)@) == diags_v(old(errs)@) + schema_ty_v(e@, g@).1,
{
    let none: Vec<String> = Vec::new();
    proof {
        assert(strs_v(none@) =~= Seq::<Seq<char>>::empty());
    }
    match e {
        Expr::Ident(n) => {
            let t = TypeExpr::Named(string_of(n.as_str()));
            return resolve(&t, g, &none, errs);
        },
        Expr::ListLit(xs) => {
            if xs.len() == 1 {
                match &xs[0] {
                    Expr::Ident(n) => {
                        let inner = TypeExpr::Named(string_of(n.as_str()));
                        assert(inner@ == TypeExprV::Named(n@));
                        let t = TypeExpr::List(Box::new(inner));
                        assert(t@ == TypeExprV::List(Box::new(TypeExprV::Named(n@))));
                        proof {
                            assert(e@->ListLit_0.len() == 1);
                            assert(e@->ListLit_0[0] == xs@[0]@);
                            assert(e@->ListLit_0[0] == ExprV::Ident(n@));
                        }
                        return resolve(&t, g, &none, errs);
                    },
                    _ => {},
                }
            }
        },
        _ => {},
    }
    let mut msg = string_of("schema must be a type (e.g. schema: Report or schema: [Finding]) — got ");
    push_expr_debug(&mut msg, e);
    report(errs, "E0202", msg);
    Ty::Unknown
}

/// The type of a call of `f` with arguments of types `ats`, reporting
/// wrong arity and argument types.
fn call_type(f: &Expr, ats: &Vec<Ty>, g: &Globals, errs: &mut Vec<CheckError>) -> (r: Ty)
    ensures
        r@ == call_ty(f@, tys_v(ats@), g@).0,
        diags_v(final(errs)@) == diags_v(old(errs)@) + call_ty(f@, tys_v(ats@), g@).1,
{
    let ghost e0 = diags_v(errs@);
    let ghost av = tys_v(ats@);
    let name = match f {
        Expr::Ident(n) => n.as_str(),
        _ => {
            assert(diags_v(errs@) =~= e0 + Seq::<DiagV>::empty());
            return Ty::Unknown;
        },
    };
    if str_eq(name, "len") {
        assert(diags_v(errs@) =~= e0 + Seq::<DiagV>::empty());
        return Ty::Int;
    }
    if str_eq(name, "zip") {
        let unknown = Ty::Unknown;
        let a = elem_of(if ats.len() > 0 { &ats[0] } else { &unknown });
        let b = elem_of(if ats.len() > 1 { &ats[1] } else { &unknown });
        let ghost x = a@;
        let ghost y = b@;
        let mut fs: Vec<(String, Ty)> = Vec::new();
        fs.push((string_of("first"), a));
        fs.push((string_of("second"), b));
        let rec = Ty::Record(fs);
        proof {
            assert(rec@->Record_0 =~= seq!["first"@, "second"@]);
            assert(rec@->Record_1 =~= seq![x, y]);
        }
        let r = Ty::List(Box::new(rec));
        proof {
            assert(diags_v(errs@) =~= e0 + Seq::<DiagV>::empty());
        }
        return r;
    }
    if str_eq(name, "replay") || str_eq(name, "mcp") || str_eq(name, "python") {
        assert(diags_v(errs@) =~= e0 + Seq::<DiagV>::empty());
        return Ty::Unknown;
    }
    let sig = match find_sig(&g.fns, name) {
        Some(s) => Some(s),
        None => find_sig(&g.tools, name),
    };
    let (params, ret) = match sig {
        Some(s) => s,
        None => {
            assert(diags_v(errs@) =~= e0 + Seq::<DiagV>::empty());
            return Ty::Unknown;
        },
    };
    let ghost pts = sig_v(params_v(params@), ret@).params;
    let none: Vec<String> = Vec::new();
    proof {
        assert(strs_v(none@) =~= Seq::<Seq<char>>::empty());
    }
    if params.len() != ats.len() {
        let mut msg = string_of("'");
        push_str(&mut msg, name);
        push_str(&mut msg, "' takes ");
        push_usize(&mut msg, params.len());
        push_str(&mut msg, " argument(s), got ");
        push_usize(&mut msg, ats.len());
        report(errs, "E0201", msg);
    } else {
        let mut i: usize = 0;
        while i < params.len()
            invariant
                i <= params@.len() == ats@.len() == av.len() == pts.len(),
                av == tys_v(ats@),
                pts == sig_v(params_v(params@), ret@).params,
                strs_v(none@) == Seq::<Seq<char>>::empty(),
                diags_v(errs@) == e0 + arg_errs(name@, av, pts, g@, i as nat),
            decreases params@.len() - i,
        {
            let ghost e1 = diags_v(errs@);
            let want = resolve(&params[i].ty, g, &none, errs);
            if !assignable(&ats[i], &want) {
                let mut msg = string_of("argument to '");
                push_str(&mut msg, name);
                push_str(&mut msg, "' must be ");
                push_ty(&mut msg, &want);
                push_str(&mut msg, ", got ");
                push_ty(&mut msg, &ats[i]);
                report(errs, "E0201", msg);
            } else {
                assert(diags_v(errs@) =~= diags_v(errs@) + Seq::<DiagV>::empty());
            }
            proof {
                assert(diags_v(errs@) =~= e0 + arg_errs(name@, av, pts, g@, (i + 1) as nat));
            }
            i = i + 1;
        }
    }
    let ghost e2 = diags_v(errs@);
    let r = resolve(ret, g, &none, errs);
    proof {
        assert(diags_v(errs@) =~= e0 + call_ty(f@, av, g@).1);
    }
    r
}

/// Reports each prompt interpolation whose root is not a local.
fn check_interps(names: &Vec<String>, locals: &Vec<(String, Ty)>, errs: &mut Vec<CheckError>)
    ensures
        diags_v(final(errs)@) == diags_v(old(errs)@) + interp_errs(strs_v(names@), locals_v(locals@)),
{
    let ghost e0 = diags_v(errs@);
    let ghost nv = strs_v(names@);
    let mut i: usize = 0;
    proof {
        assert(nv.take(0) =~= Seq::<Seq<char>>::empty());
        assert(diags_v(errs@) =~= e0 + Seq::<DiagV>::empty());
    }
    while i < names.len()
        invariant
            i <= names@.len() == nv.len(),
            nv == strs_v(names@),
            diags_v(errs@) == e0 + interp_errs(nv.take(i as int), locals_v(locals@)),
        decreases names@.len() - i,
    {
        proof {
            assert(nv.take(i + 1).drop_last() =~= nv.take(i as int));
        }
        let cs = chars_of(names[i].as_str());
        let mut k: usize = 0;
        proof {
            lemma_find_from(cs@, '.', 0);
        }
        while k < cs.len() && cs[k] != '.'
            invariant
                k <= cs@.len(),
                find_from(cs@, '.', k as int) == find_from(cs@, '.', 0),
            decreases cs@.len() - k,
        {
            k = k + 1;
        }
        let mut root = String::new();
        proof {
            assert(root@ =~= Seq::<char>::empty());
        }
        push_chars(&mut root, &cs, 0, k);
        proof {
            assert(root@ =~= root_of(nv[i as int]));
        }
        if find_local(locals, root.as_str()).is_none() {
            let mut msg = string_of("unknown identifier '");
            push_str(&mut msg, names[i].as_str());
            push_str(&mut msg, "' in prompt interpolation");
            report(errs, "E0101", msg);
        } else {
            assert(diags_v(errs@) =~= diags_v(errs@) + Seq::<DiagV>::empty());
        }
        proof {
            assert(diags_v(errs@) =~= e0 + interp_errs(nv.take(i + 1), locals_v(locals@)));
        }
        i = i + 1;
    }
    proof {
        assert(nv.take(names@.len() as int) =~= nv);
    }
}

} // verus!

verus! {

/// The type of an expression with `locals` in scope, reporting what is
/// wrong in it.
#[verifier::spinoff_prover]
#[verifier::rlimit(100)]
fn check_expr(e: &Expr, locals: &Vec<(String, Ty)>, g: &Globals, errs: &mut Vec<CheckError>) -> (r: Ty)
    ensures
        r@ == check_expr_v(e@, locals_v(locals@), g@).0,
        diags_v(final(errs)@) == diags_v(old(errs)@) + check_expr_v(e@, locals_v(locals@), g@).1,
    decreases e,
{
    let ghost e0 = diags_v(errs@);
    let ghost lv = locals_v(locals@);
    match e {
        Expr::Int(_) => {
            assert(diags_v(errs@) =~= e0 + Seq::<DiagV>::empty());
            Ty::Int
        },
        Expr::Float(_) => {
            assert(diags_v(errs@) =~= e0 + Seq::<DiagV>::empty());
            Ty::Float
        },
        Expr::Money(_, unit) => {
            if !str_eq(unit.as_str(), "USD") {
                let mut msg = string_of("unknown budget unit '");
                push_str(&mut msg, unit.as_str());
                push_str(&mut msg, "' (v0.1 supports USD only)");
                report(errs, "E0501", msg);
            } else {
                assert(diags_v(errs@) =~= e0 + Seq::<DiagV>::empty());
            }
            Ty::Float
        },
        Expr::Str(_) | Expr::Prompt { .. } => {
            assert(diags_v(errs@) =~= e0 + Seq::<DiagV>::empty());
            Ty::Str
        },
        Expr::Bool(_) => {
            assert(diags_v(errs@) =~= e0 + Seq::<DiagV>::empty());
            Ty::Bool
        },
        Expr::NoneLit => {
            assert(diags_v(errs@) =~= e0 + Seq::<DiagV>::empty());
            Ty::None_
        },
        Expr::Ident(n) => {
            assert(diags_v(errs@) =~= e0 + Seq::<DiagV>::empty());
            let res = match find_local(locals, n.as_str()) {
                Some(t) => t.copy(),
                None => Ty::Unknown,
            };
            assert(res@ == check_expr_v(e@, lv, g@).0);
            res
        },
        Expr::ListLit(xs) => {
            proof {
                assert(e@->ListLit_0 =~= exprs_v(xs@));
                lemma_check_all_len(exprs_v(xs@), lv, g@);
            }
            let ts = check_list(xs, locals, g, errs);
            let first = if ts.len() > 0 {
                ts[0].copy()
            } else {
                Ty::Unknown
            };
            let ghost fv = first@;
            let res = Ty::List(Box::new(first));
            assert(res@ == TyV::List(Box::new(fv)));
            assert(res@ == check_expr_v(e@, lv, g@).0);
            res
        },
        Expr::ParAll(xs) => {
            proof {
                assert(e@->ParAll_0 =~= exprs_v(xs@));
                lemma_check_all_len(exprs_v(xs@), lv, g@);
            }
            let ts = check_list(xs, locals, g, errs);
            let first = if ts.len() > 0 {
                ts[0].copy()
            } else {
                Ty::Unknown
            };
            let ghost fv = first@;
            let res = Ty::List(Box::new(first));
            assert(res@ == TyV::List(Box::new(fv)));
            assert(res@ == check_expr_v(e@, lv, g@).0);
            res
        },
        Expr::ParRace(xs) => {
            proof {
                assert(e@->ParRace_0 =~= exprs_v(xs@));
                lemma_check_all_len(exprs_v(xs@), lv, g@);
            }
            let ts = check_list(xs, locals, g, errs);
            let res = if ts.len() > 0 {
                ts[0].copy()
            } else {
                Ty::Unknown
            };
            assert(res@ == check_expr_v(e@, lv, g@).0);
            res
        },
        Expr::LlmCall { prompt, options, .. } => {
            let ghost ie: Seq<DiagV>;
            match &**prompt {
                Expr::Prompt { body, interpolations } => {
                    assert((**prompt)@ == ExprV::Prompt(body@, strs_v(interpolations@)));
                    check_interps(interpolations, locals, errs);
                    proof {
                        ie = interp_errs(strs_v(interpolations@), lv);
                    }
                },
                _ => {
                    assert(!((**prompt)@ is Prompt));
                    assert(diags_v(errs@) =~= e0 + Seq::<DiagV>::empty());
                    proof {
                        ie = Seq::empty();
                    }
                },
            }
            assert(diags_v(errs@) == e0 + ie);
            proof {
                assert(e@->LlmCall_1 =~= names_v(options@));
                assert(e@->LlmCall_2 =~= kvals_v(options@));
            }
            let ghost e1 = diags_v(errs@);
            let s = check_opts(options, locals, g, errs);
            proof {
                assert(diags_v(errs@) =~= e0 + check_expr_v(e@, lv, g@).1);
            }
            let res = match s {
                Some(t) => t,
                None => Ty::Str,
            };
            assert(res@ == check_expr_v(e@, lv, g@).0);
            res
        },
        Expr::Call { func, args, kwargs } => {
            proof {
                assert(e@->Call_1 =~= exprs_v(args@));
                assert(e@->Call_3 =~= kvals_v(kwargs@));
            }
            let ats = check_list(args, locals, g, errs);
            let ghost e1 = diags_v(errs@);
            check_kvals(kwargs, locals, g, errs);
            let ghost e2 = diags_v(errs@);
            let r = call_type(&**func, &ats, g, errs);
            proof {
                assert(diags_v(errs@) =~= e0 + check_expr_v(e@, lv, g@).1);
            }
            assert(r@ == check_expr_v(e@, lv, g@).0);
            r
        },
        Expr::Field { obj, name } => {
            let t = check_expr(&**obj, locals, g, errs);
            let res = field_type(&t, name.as_str());
            assert(res@ == check_expr_v(e@, lv, g@).0);
            res
        },
        Expr::Binary { op, l, r } => {
            let lt = check_expr(&**l, locals, g, errs);
            let ghost e1 = diags_v(errs@);
            let rt = check_expr(&**r, locals, g, errs);
            proof {
                assert(diags_v(errs@) =~= e0 + check_expr_v(e@, lv, g@).1);
            }
            let res = bin_type(*op, &lt, &rt);
            assert(res@ == check_expr_v(e@, lv, g@).0);
            res
        },
        Expr::Unary { op, x } => {
            let t = check_expr(&**x, locals, g, errs);
            let res = match op {
                BinOp::Not => Ty::Bool,
                _ => t,
            };
            assert(res@ == check_expr_v(e@, lv, g@).0);
            res
        },
        Expr::ParMap { coll, kwargs, params, body } => {
            proof {
                assert(e@->ParMap_2 =~= kvals_v(kwargs@));
            }
            let ct = check_expr(&**coll, locals, g, errs);
            let ghost e1 = diags_v(errs@);
            check_kvals(kwargs, locals, g, errs);
            let ghost e2 = diags_v(errs@);
            let inner = lambda_scope(locals, params, &ct);
            let bt = check_expr(&**body, &inner, g, errs);
            proof {
                assert(diags_v(errs@) =~= e0 + check_expr_v(e@, lv, g@).1);
            }
            let res = Ty::List(Box::new(bt));
            assert(res@ == check_expr_v(e@, lv, g@).0);
            res
        },
        Expr::Merge { l, r } => {
            let lt = check_expr(&**l, locals, g, errs);
            let ghost e1 = diags_v(errs@);
            let rt = check_expr(&**r, locals, g, errs);
            let ghost e2 = diags_v(errs@);
            let m = merge_type(lt, rt, errs);
            proof {
                assert(diags_v(errs@) =~= e0 + check_expr_v(e@, lv, g@).1);
            }
            assert(m@ == check_expr_v(e@, lv, g@).0);
            m
        },
        Expr::Route { arms } => {
            proof {
                assert(e@->Route_0 =~= labels_of(arms@));
                assert(e@->Route_2 =~= conds_of(arms@));
            }
            let has_otherwise = check_arms(arms, locals, g, errs);
            if !has_otherwise {
                report(
                    errs,
                    "E0702",
                    string_of(
                        "route block needs an `otherwise` arm — no model is chosen when every `when` is false (design §4.4)",
                    ),
                );
            } else {
                assert(diags_v(errs@) =~= diags_v(errs@) + Seq::<DiagV>::empty());
            }
            proof {
                assert(diags_v(errs@) =~= e0 + check_expr_v(e@, lv, g@).1);
            }
            Ty::Str
        },
    }
}

/// The types of `xs`, in order.
#[verifier::spinoff_prover]
fn check_list(xs: &Vec<Expr>, locals: &Vec<(String, Ty)>, g: &Globals, errs: &mut Vec<CheckError>) -> (r: Vec<Ty>)
    ensures
        tys_v(r@) == check_all(exprs_v(xs@), locals_v(locals@), g@).0,
        diags_v(final(errs)@) == diags_v(old(errs)@) + check_all(exprs_v(xs@), locals_v(locals@), g@).1,
    decreases xs,
{
    let ghost e0 = diags_v(errs@);
    let ghost xv = exprs_v(xs@);
    let ghost lv = locals_v(locals@);
    let mut out: Vec<Ty> = Vec::new();
    let mut i: usize = 0;
    proof {
        assert(xv.take(0) =~= Seq::<ExprV>::empty());
        assert(tys_v(out@) =~= Seq::<TyV>::empty());
        assert(diags_v(errs@) =~= e0 + Seq::<DiagV>::empty());
    }
    while i < xs.len()
        invariant
            i <= xs@.len() == xv.len(),
            xv == exprs_v(xs@),
            lv == locals_v(locals@),
            tys_v(out@) == check_all(xv.take(i as int), lv, g@).0,
            diags_v(errs@) == e0 + check_all(xv.take(i as int), lv, g@).1,
        decreases xs@.len() - i,
    {
        proof {
            assert(xv.take(i + 1).drop_last() =~= xv.take(i as int));
        }
        let ghost before = tys_v(out@);
        let t = check_expr(&xs[i], locals, g, errs);
        out.push(t);
        proof {
            assert(tys_v(out@) =~= before.push(t@));
            assert(diags_v(errs@) =~= e0 + check_all(xv.take(i + 1), lv, g@).1);
        }
        i = i + 1;
    }
    proof {
        assert(xv.take(xs@.len() as int) =~= xv);
    }
    out
}

/// Checks the values of `name = value` pairs.
#[verifier::spinoff_prover]
fn check_kvals(kv: &Vec<(String, Expr)>, locals: &Vec<(String, Ty)>, g: &Globals, errs: &mut Vec<CheckError>)
    ensures
        diags_v(final(errs)@) == diags_v(old(errs)@) + check_all(kvals_v(kv@), locals_v(locals@), g@).1,
    decreases kv,
{
    let ghost e0 = diags_v(errs@);
    let ghost xv = kvals_v(kv@);
    let ghost lv = locals_v(locals@);
    let mut i: usize = 0;
    proof {
        assert(xv.take(0) =~= Seq::<ExprV>::empty());
        assert(diags_v(errs@) =~= e0 + Seq::<DiagV>::empty());
    }
    while i < kv.len()
        invariant
            i <= kv@.len() == xv.len(),
            xv == kvals_v(kv@),
            lv == locals_v(locals@),
            diags_v(errs@) == e0 + check_all(xv.take(i as int), lv, g@).1,
        decreases kv@.len() - i,
    {
        proof {
            assert(xv.take(i + 1).drop_last() =~= xv.take(i as int));
        }
        check_expr(&kv[i].1, locals, g, errs);
        proof {
            assert(diags_v(errs@) =~= e0 + check_all(xv.take(i + 1), lv, g@).1);
        }
        i = i + 1;
    }
    proof {
        assert(xv.take(kv@.len() as int) =~= xv);
    }
}

/// Checks the options of an LLM call; the type its (last) `schema` names.
#[verifier::spinoff_prover]
fn check_opts(kv: &Vec<(String, Expr)>, locals: &Vec<(String, Ty)>, g: &Globals, errs: &mut Vec<CheckError>) -> (r: Option<Ty>)
    ensures
        match r {
            Some(t) => opts_check(names_v(kv@), kvals_v(kv@), locals_v(locals@), g@).0 == Some(t@),
            None => opts_check(names_v(kv@), kvals_v(kv@), locals_v(locals@), g@).0 is None,
        },
        diags_v(final(errs)@) == diags_v(old(errs)@) + opts_check(names_v(kv@), kvals_v(kv@), locals_v(locals@), g@).1,
    decreases kv,
{
    let ghost e0 = diags_v(errs@);
    let ghost ks = names_v(kv@);
    let ghost xv = kvals_v(kv@);
    let ghost lv = locals_v(locals@);
    let mut schema: Option<Ty> = None;
    let mut i: usize = 0;
    proof {
        assert(xv.take(0) =~= Seq::<ExprV>::empty());
        assert(diags_v(errs@) =~= e0 + Seq::<DiagV>::empty());
    }
    while i < kv.len()
        invariant
            i <= kv@.len() == xv.len() == ks.len(),
            xv == kvals_v(kv@),
            ks == names_v(kv@),
            lv == locals_v(locals@),
            match schema {
                Some(t) => opts_check(ks, xv.take(i as int), lv, g@).0 == Some(t@),
                None => opts_check(ks, xv.take(i as int), lv, g@).0 is None,
            },
            diags_v(errs@) == e0 + opts_check(ks, xv.take(i as int), lv, g@).1,
        decreases kv@.len() - i,
    {
        proof {
            assert(xv.take(i + 1).drop_last() =~= xv.take(i as int));
        }
        if str_eq(kv[i].0.as_str(), "schema") {
            schema = Some(schema_type(&kv[i].1, g, errs));
        } else {
            check_expr(&kv[i].1, locals, g, errs);
        }
        proof {
            assert(diags_v(errs@) =~= e0 + opts_check(ks, xv.take(i + 1), lv, g@).1);
        }
        i = i + 1;
    }
    proof {
        assert(xv.take(kv@.len() as int) =~= xv);
    }
    schema
}

/// Checks the `when` conditions of route arms; whether one arm is
/// `otherwise`.
#[verifier::spinoff_prover]
fn check_arms(arms: &Vec<(String, String, Option<Expr>)>, locals: &Vec<(String, Ty)>, g: &Globals, errs: &mut Vec<CheckError>) -> (r: bool)
    ensures
        r == route_check(labels_of(arms@), conds_of(arms@), locals_v(locals@), g@).0,
        diags_v(final(errs)@) == diags_v(old(errs)@) + route_check(labels_of(arms@), conds_of(arms@), locals_v(locals@), g@).1,
    decreases arms,
{
    let ghost e0 = diags_v(errs@);
    let ghost ls = labels_of(arms@);
    let ghost cs = conds_of(arms@);
    let ghost lv = locals_v(locals@);
    let mut has: bool = false;
    let mut i: usize = 0;
    proof {
        assert(cs.take(0) =~= Seq::<Option<ExprV>>::empty());
        assert(diags_v(errs@) =~= e0 + Seq::<DiagV>::empty());
    }
    while i < arms.len()
        invariant
            i <= arms@.len() == cs.len() == ls.len(),
            ls == labels_of(arms@),
            cs == conds_of(arms@),
            lv == locals_v(locals@),
            has == route_check(ls, cs.take(i as int), lv, g@).0,
            diags_v(errs@) == e0 + route_check(ls, cs.take(i as int), lv, g@).1,
        decreases arms@.len() - i,
    {
        proof {
            assert(cs.take(i + 1).drop_last() =~= cs.take(i as int));
        }
        match &arms[i].2 {
            Some(c) => {
                let ghost e1 = diags_v(errs@);
                let ct = check_expr(c, locals, g, errs);
                if !assignable(&ct, &Ty::Bool) {
                    let mut msg = string_of("route arm '");
                    push_str(&mut msg, arms[i].0.as_str());
                    push_str(&mut msg, "' has a non-bool when condition (");
                    push_ty(&mut msg, &ct);
                    push_str(&mut msg, ")");
                    report(errs, "E0201", msg);
                } else {
                    assert(diags_v(errs@) =~= diags_v(errs@) + Seq::<DiagV>::empty());
                }
            },
            None => {
                has = true;
            },
        }
        proof {
            assert(diags_v(errs@) =~= e0 + route_check(ls, cs.take(i + 1), lv, g@).1);
        }
        i = i + 1;
    }
    proof {
        assert(cs.take(arms@.len() as int) =~= cs);
    }
    has
}

} // verus!

verus! {

/// The state fields of an agent as names and types.
pub open spec fn ctx_v(ctx: Option<&Vec<(String, TypeExpr, Expr)>>) -> Option<(Seq<Seq<char>>, Seq<TypeExprV>)> {
    match ctx {
        Some(st) => Some(
            (Seq::new(st@.len(), |i: int| st@[i].0@), Seq::new(st@.len(), |i: int| st@[i].1@)),
        ),
        None => None,
    }
}

/// The parameters bound to their resolved types.
fn param_scope(params: &Vec<Param>, g: &Globals, errs: &mut Vec<CheckError>) -> (r: Vec<(String, Ty)>)
    ensures
        locals_v(r@) == params_locals(params_v(params@), g@).0,
        diags_v(final(errs)@) == diags_v(old(errs)@) + params_locals(params_v(params@), g@).1,
{
    let ghost e0 = diags_v(errs@);
    let ghost pv = params_v(params@);
    let none: Vec<String> = Vec::new();
    let mut locals: Vec<(String, Ty)> = Vec::new();
    let mut i: usize = 0;
    proof {
        assert(strs_v(none@) =~= Seq::<Seq<char>>::empty());
        assert(pv.take(0) =~= Seq::<ParamV>::empty());
        assert(locals_v(locals@) =~= Seq::<(Seq<char>, TyV)>::empty());
        assert(diags_v(errs@) =~= e0 + Seq::<DiagV>::empty());
    }
    while i < params.len()
        invariant
            i <= params@.len() == pv.len(),
            pv == params_v(params@),
            strs_v(none@) == Seq::<Seq<char>>::empty(),
            locals_v(locals@) == params_locals(pv.take(i as int), g@).0,
            diags_v(errs@) == e0 + params_locals(pv.take(i as int), g@).1,
        decreases params@.len() - i,
    {
        proof {
            assert(pv.take(i + 1).drop_last() =~= pv.take(i as int));
        }
        let t = resolve(&params[i].ty, g, &none, errs);
        bind(&mut locals, params[i].name.as_str(), t);
        proof {
            assert(diags_v(errs@) =~= e0 + params_locals(pv.take(i + 1), g@).1);
        }
        i = i + 1;
    }
    proof {
        assert(pv.take(params@.len() as int) =~= pv);
    }
    locals
}

/// Checks one fn body: parameters and (inside an agent, `ctx`) the
/// `state` record are in scope; state writes must hit declared fields;
/// the last expression statement must fit the return type.
#[verifier::spinoff_prover]
#[verifier::rlimit(100)]
fn check_fn_body(
    name: &str,
    params: &Vec<Param>,
    ret: &TypeExpr,
    body: &Vec<Stmt>,
    ctx: Option<&Vec<(String, TypeExpr, Expr)>>,
    g: &Globals,
    errs: &mut Vec<CheckError>,
)
    ensures
        diags_v(final(errs)@) == diags_v(old(errs)@) + fn_errs(
            name@,
            params_v(params@),
            ret@,
            stmts_v(body@),
            ctx_v(ctx),
            g@,
        ),
{
    let ghost e0 = diags_v(errs@);
    let ghost cv = ctx_v(ctx);
    let none: Vec<String> = Vec::new();
    proof {
        assert(strs_v(none@) =~= Seq::<Seq<char>>::empty());
    }
    let mut locals = param_scope(params, g, errs);
    let ghost p = params_locals(params_v(params@), g@);
    let ghost start: BodyV;
    match ctx {
        Some(fields) => {
            let ghost tys = cv.unwrap().1;
            let mut rec: Vec<(String, Ty)> = Vec::new();
            let mut i: usize = 0;
            let ghost e1 = diags_v(errs@);
            proof {
                assert(tys.take(0) =~= Seq::<TypeExprV>::empty());
                assert(diags_v(errs@) =~= e1 + Seq::<DiagV>::empty());
            }
            while i < fields.len()
                invariant
                    i <= fields@.len() == tys.len(),
                    tys == cv.unwrap().1,
                    cv == ctx_v(ctx),
                    ctx == Some(fields),
                    strs_v(none@) == Seq::<Seq<char>>::empty(),
                    rec@.len() == i,
                    forall|j: int| 0 <= j < i ==> (#[trigger] rec@[j]).0@ == fields@[j].0@,
                    forall|j: int| 0 <= j < i ==> resolve_all(g@, tys.take(i as int), Seq::empty()).0[j] == (#[trigger] rec@[j]).1@,
                    resolve_all(g@, tys.take(i as int), Seq::empty()).0.len() == i,
                    diags_v(errs@) == e1 + resolve_all(g@, tys.take(i as int), Seq::empty()).1,
                decreases fields@.len() - i,
            {
                proof {
                    assert(tys.take(i + 1).drop_last() =~= tys.take(i as int));
                }
                let t = resolve(&fields[i].1, g, &none, errs);
                rec.push((string_of(fields[i].0.as_str()), t));
                proof {
                    assert(diags_v(errs@) =~= e1 + resolve_all(g@, tys.take(i + 1), Seq::empty()).1);
                }
                i = i + 1;
            }
            let r = Ty::Record(rec);
            proof {
                assert(tys.take(fields@.len() as int) =~= tys);
                assert(r@->Record_0 =~= cv.unwrap().0);
                assert(r@->Record_1 =~= resolve_all(g@, tys, Seq::empty()).0);
            }
            bind(&mut locals, "state", r);
            proof {
                start = BodyV {
                    locals: locals_v(locals@),
                    last: TyV::None_,
                    errs: p.1 + resolve_all(g@, tys, Seq::empty()).1,
                };
                assert(diags_v(errs@) =~= e0 + start.errs);
            }
        },
        None => {
            proof {
                start = BodyV { locals: locals_v(locals@), last: TyV::None_, errs: p.1 };
            }
        },
    }
    let ghost bv = stmts_v(body@);
    let mut last = Ty::None_;
    let mut i: usize = 0;
    proof {
        assert(bv.take(0) =~= Seq::<StmtV>::empty());
    }
    while i < body.len()
        invariant
            i <= body@.len() == bv.len(),
            bv == stmts_v(body@),
            cv == ctx_v(ctx),
            strs_v(none@) == Seq::<Seq<char>>::empty(),
            body_fold(bv.take(i as int), start, cv, g@).locals == locals_v(locals@),
            body_fold(bv.take(i as int), start, cv, g@).last == last@,
            diags_v(errs@) == e0 + body_fold(bv.take(i as int), start, cv, g@).errs,
        decreases body@.len() - i,
    {
        proof {
            assert(bv.take(i + 1).drop_last() =~= bv.take(i as int));
        }
        let ghost st = body_fold(bv.take(i as int), start, cv, g@);
        let ghost d0 = diags_v(errs@);
        match &body[i].kind {
            StmtKind::Let { name: n, ty, value, .. } => {
                let vt = check_expr(value, &locals, g, errs);
                let bound = match ty {
                    Some(ann) => {
                        let ghost d1 = diags_v(errs@);
                        let at = resolve(ann, g, &none, errs);
                        if !assignable(&vt, &at) {
                            let mut msg = string_of("let '");
                            push_str(&mut msg, n.as_str());
                            push_str(&mut msg, "' is annotated ");
                            push_ty(&mut msg, &at);
                            push_str(&mut msg, " but the value is ");
                            push_ty(&mut msg, &vt);
                            report(errs, "E0201", msg);
                        } else {
                            assert(diags_v(errs@) =~= diags_v(errs@) + Seq::<DiagV>::empty());
                        }
                        at
                    },
                    None => vt,
                };
                bind(&mut locals, n.as_str(), bound);
            },
            StmtKind::StateWrite { field, op, value } => {
                let vt = check_expr(value, &locals, g, errs);
                let ghost d1 = diags_v(errs@);
                match ctx {
                    None => {
                        let mut msg = string_of("state write 'state.");
                        push_str(&mut msg, field.as_str());
                        push_str(
                            &mut msg,
                            "' outside an agent block — state exists only inside `agent` (design §7)",
                        );
                        report(errs, "E0701", msg);
                    },
                    Some(fields) => {
                        let ghost names = cv.unwrap().0;
                        proof {
                            lemma_find_key(names, field@, 0);
                        }
                        let mut k: usize = 0;
                        while k < fields.len() && !str_eq(fields[k].0.as_str(), field.as_str())
                            invariant
                                k <= fields@.len() == names.len(),
                                names == cv.unwrap().0,
                                cv == ctx_v(ctx),
                                ctx == Some(fields),
                                find_key(names, field@, k as int) == find_key(names, field@, 0),
                            decreases fields@.len() - k,
                        {
                            k = k + 1;
                        }
                        if k >= fields.len() {
                            let mut msg = string_of("agent state has no field '");
                            push_str(&mut msg, field.as_str());
                            push_str(&mut msg, "' — declare it in the state block");
                            report(errs, "E0701", msg);
                        } else {
                            match op {
                                StateOp::Assign => {
                                    let ghost d2 = diags_v(errs@);
                                    let want = resolve(&fields[k].1, g, &none, errs);
                                    if !assignable(&vt, &want) {
                                        let mut msg = string_of("state field '");
                                        push_str(&mut msg, field.as_str());
                                        push_str(&mut msg, "' is ");
                                        push_ty(&mut msg, &want);
                                        push_str(&mut msg, " but the value is ");
                                        push_ty(&mut msg, &vt);
                                        report(errs, "E0201", msg);
                                    } else {
                                        assert(diags_v(errs@) =~= diags_v(errs@) + Seq::<DiagV>::empty());
                                    }
                                },
                                _ => {
                                    assert(diags_v(errs@) =~= diags_v(errs@) + Seq::<DiagV>::empty());
                                },
                            }
                        }
                    },
                }
            },
            StmtKind::Assert(e) => {
                check_expr(e, &locals, g, errs);
            },
            StmtKind::ExprStmt(e) => {
                last = check_expr(e, &locals, g, errs);
            },
        }
        proof {
            let st2 = stmt_step(st, bv[i as int], cv, g@);
            assert(bv[i as int] == body@[i as int]@);
            assert(diags_v(errs@) =~= e0 + st2.errs);
        }
        i = i + 1;
    }
    proof {
        assert(bv.take(body@.len() as int) =~= bv);
    }
    let ghost d3 = diags_v(errs@);
    let want = resolve(ret, g, &none, errs);
    if !assignable(&last, &want) {
        let mut msg = string_of("fn '");
        push_str(&mut msg, name);
        push_str(&mut msg, "' declares -> ");
        push_ty(&mut msg, &want);
        push_str(&mut msg, " but its body yields ");
        push_ty(&mut msg, &last);
        report(errs, "E0201", msg);
    } else {
        assert(diags_v(errs@) =~= diags_v(errs@) + Seq::<DiagV>::empty());
    }
    proof {
        assert(diags_v(errs@) =~= e0 + fn_errs(name@, params_v(params@), ret@, bv, cv, g@));
    }
}

} // verus!

verus! {

/// Checks a test block: locals bound by `let` (annotations unchecked);
/// a state write there is an error.
#[verifier::spinoff_prover]
fn check_test(body: &Vec<Stmt>, g: &Globals, errs: &mut Vec<CheckError>)
    ensures
        diags_v(final(errs)@) == diags_v(old(errs)@) + test_fold(stmts_v(body@), g@).errs,
{
    let ghost e0 = diags_v(errs@);
    let ghost bv = stmts_v(body@);
    let mut locals: Vec<(String, Ty)> = Vec::new();
    let mut i: usize = 0;
    proof {
        assert(bv.take(0) =~= Seq::<StmtV>::empty());
        assert(locals_v(locals@) =~= Seq::<(Seq<char>, TyV)>::empty());
        assert(diags_v(errs@) =~= e0 + Seq::<DiagV>::empty());
    }
    while i < body.len()
        invariant
            i <= body@.len() == bv.len(),
            bv == stmts_v(body@),
            test_fold(bv.take(i as int), g@).locals == locals_v(locals@),
            diags_v(errs@) == e0 + test_fold(bv.take(i as int), g@).errs,
        decreases body@.len() - i,
    {
        proof {
            assert(bv.take(i + 1).drop_last() =~= bv.take(i as int));
        }
        let ghost st = test_fold(bv.take(i as int), g@);
        match &body[i].kind {
            StmtKind::Let { name: n, value, .. } => {
                let vt = check_expr(value, &locals, g, errs);
                bind(&mut locals, n.as_str(), vt);
            },
            StmtKind::StateWrite { field, .. } => {
                let mut msg = string_of("state write 'state.");
                push_str(&mut msg, field.as_str());
                push_str(
                    &mut msg,
                    "' outside an agent block — state exists only inside `agent` (design §7)",
                );
                report(errs, "E0701", msg);
            },
            StmtKind::Assert(e) => {
                check_expr(e, &locals, g, errs);
            },
            StmtKind::ExprStmt(e) => {
                check_expr(e, &locals, g, errs);
            },
        }
        proof {
            assert(bv[i as int] == body@[i as int]@);
            assert(diags_v(errs@) =~= e0 + test_step(st, bv[i as int], g@).errs);
        }
        i = i + 1;
    }
    proof {
        assert(bv.take(body@.len() as int) =~= bv);
    }
}

/// Checks one item (effects aside).
#[verifier::spinoff_prover]
#[verifier::rlimit(50)]
fn check_item(it: &Item, g: &Globals, errs: &mut Vec<CheckError>)
    ensures
        diags_v(final(errs)@) == diags_v(old(errs)@) + item_errs(it@, g@),
{
    let ghost e0 = diags_v(errs@);
    let none: Vec<String> = Vec::new();
    proof {
        assert(strs_v(none@) =~= Seq::<Seq<char>>::empty());
    }
    match it {
        Item::Fn { name, params, ret, body, .. } => {
            check_fn_body(name.as_str(), params, ret, body, None, g, errs);
        },
        Item::Agent { state, fns, .. } => {
            let ghost tys = it@->Agent_2;
            let mut i: usize = 0;
            proof {
                assert(tys.take(0) =~= Seq::<TypeExprV>::empty());
                assert(diags_v(errs@) =~= e0 + Seq::<DiagV>::empty());
            }
            while i < state.len()
                invariant
                    i <= state@.len() == tys.len(),
                    tys == it@->Agent_2,
                    it@ == ItemV::Agent(it@->Agent_0, it@->Agent_1, it@->Agent_2, it@->Agent_3, it@->Agent_4),
                    forall|j: int| 0 <= j < state@.len() ==> tys[j] == (#[trigger] state@[j]).1@,
                    strs_v(none@) == Seq::<Seq<char>>::empty(),
                    diags_v(errs@) == e0 + resolve_all(g@, tys.take(i as int), Seq::empty()).1,
                decreases state@.len() - i,
            {
                proof {
                    assert(tys.take(i + 1).drop_last() =~= tys.take(i as int));
                }
                resolve(&state[i].1, g, &none, errs);
                proof {
                    assert(diags_v(errs@) =~= e0 + resolve_all(g@, tys.take(i + 1), Seq::empty()).1);
                }
                i = i + 1;
            }
            proof {
                assert(tys.take(state@.len() as int) =~= tys);
            }
            let ghost e1 = diags_v(errs@);
            let ghost fv = it@->Agent_4;
            let ghost cx = (it@->Agent_1, it@->Agent_2);
            assert(ctx_v(Some(state)) == Some(cx));
            let mut j: usize = 0;
            proof {
                assert(fv.take(0) =~= Seq::<ItemV>::empty());
                assert(diags_v(errs@) =~= e1 + Seq::<DiagV>::empty());
            }
            while j < fns.len()
                invariant
                    j <= fns@.len() == fv.len(),
                    fv == it@->Agent_4,
                    forall|q: int| 0 <= q < fns@.len() ==> fv[q] == (#[trigger] fns@[q])@,
                    ctx_v(Some(state)) == Some(cx),
                    diags_v(errs@) == e1 + agent_fns_errs(fv.take(j as int), cx, g@),
                decreases fns@.len() - j,
            {
                proof {
                    assert(fv.take(j + 1).drop_last() =~= fv.take(j as int));
                }
                match &fns[j] {
                    Item::Fn { name, params, ret, body, .. } => {
                        check_fn_body(name.as_str(), params, ret, body, Some(state), g, errs);
                    },
                    _ => {
                        assert(diags_v(errs@) =~= diags_v(errs@) + Seq::<DiagV>::empty());
                    },
                }
                proof {
                    assert(diags_v(errs@) =~= e1 + agent_fns_errs(fv.take(j + 1), cx, g@));
                }
                j = j + 1;
            }
            proof {
                assert(fv.take(fns@.len() as int) =~= fv);
                assert(diags_v(errs@) =~= e0 + item_errs(it@, g@));
            }
        },
        Item::Tool { params, ret, fields, .. } => {
            let locals = param_scope(params, g, errs);
            let ghost e1 = diags_v(errs@);
            resolve(ret, g, &none, errs);
            let ghost e2 = diags_v(errs@);
            proof {
                assert(it@->Tool_4 =~= kvals_v(fields@));
            }
            check_kvals(fields, &locals, g, errs);
            proof {
                assert(diags_v(errs@) =~= e0 + item_errs(it@, g@));
            }
        },
        Item::Test { body, .. } => {
            check_test(body, g, errs);
        },
        Item::TypeAlias { .. } => {
            assert(diags_v(errs@) =~= e0 + Seq::<DiagV>::empty());
        },
    }
}

/// Resolves each alias body once (in the order the names first appear),
/// so that broken but unused types are reported too.
#[verifier::spinoff_prover]
fn check_aliases(g: &Globals, errs: &mut Vec<CheckError>)
    ensures
        diags_v(final(errs)@) == diags_v(old(errs)@) + alias_errs(alias_order(g@.aliases), g@),
{
    let ghost e0 = diags_v(errs@);
    let ghost a = g@.aliases;
    // the distinct names, in the order they first appear
    let mut names: Vec<String> = Vec::new();
    let mut i: usize = 0;
    proof {
        assert(a.take(0) =~= Seq::<(Seq<char>, TypeExprV)>::empty());
        assert(strs_v(names@) =~= Seq::<Seq<char>>::empty());
    }
    while i < g.aliases.len()
        invariant
            i <= g.aliases@.len() == a.len(),
            a == g@.aliases,
            strs_v(names@) == alias_order(a.take(i as int)),
        decreases g.aliases@.len() - i,
    {
        proof {
            assert(a.take(i + 1).drop_last() =~= a.take(i as int));
        }
        let ghost nv = strs_v(names@);
        let mut k: usize = 0;
        while k < names.len() && !str_eq(names[k].as_str(), g.aliases[i].0.as_str())
            invariant
                k <= names@.len() == nv.len(),
                i < g.aliases@.len() == a.len(),
                a == g@.aliases,
                nv == strs_v(names@),
                forall|q: int| 0 <= q < k ==> nv[q] != a[i as int].0,
            decreases names@.len() - k,
        {
            k = k + 1;
        }
        if k >= names.len() {
            assert(!nv.contains(a[i as int].0));
            names.push(string_of(g.aliases[i].0.as_str()));
            assert(strs_v(names@) =~= nv.push(a[i as int].0));
        } else {
            assert(nv[k as int] == a[i as int].0);
            assert(nv.contains(a[i as int].0));
        }
        i = i + 1;
    }
    proof {
        assert(a.take(a.len() as int) =~= a);
    }
    let ghost order = strs_v(names@);
    let mut j: usize = 0;
    proof {
        assert(order.take(0) =~= Seq::<Seq<char>>::empty());
        assert(diags_v(errs@) =~= e0 + Seq::<DiagV>::empty());
    }
    while j < names.len()
        invariant
            j <= names@.len() == order.len(),
            order == strs_v(names@),
            diags_v(errs@) == e0 + alias_errs(order.take(j as int), g@),
        decreases names@.len() - j,
    {
        proof {
            assert(order.take(j + 1).drop_last() =~= order.take(j as int));
        }
        match find_alias(g, names[j].as_str()) {
            Some(body) => {
                let mut vis: Vec<String> = Vec::new();
                vis.push(string_of(names[j].as_str()));
                proof {
                    assert(strs_v(vis@) =~= seq![order[j as int]]);
                }
                resolve(body, g, &vis, errs);
            },
            None => {
                assert(diags_v(errs@) =~= diags_v(errs@) + Seq::<DiagV>::empty());
            },
        }
        proof {
            assert(diags_v(errs@) =~= e0 + alias_errs(order.take(j + 1), g@));
        }
        j = j + 1;
    }
    proof {
        assert(order.take(names@.len() as int) =~= order);
    }
}

} // verus!

verus! {

/// Which of the effects `LLM`, `Tool` and `IO` a piece of code has.
#[derive(Clone, Copy)]
struct Eff {
    llm: bool,
    tool: bool,
    io: bool,
}

impl Eff {
    spec fn view(&self) -> EffV {
        EffV { llm: self.llm, tool: self.tool, io: self.io }
    }
}

/// Adds the direct effects of `e` to `acc` and the user fns it calls to
/// `calls`.
#[verifier::spinoff_prover]
#[verifier::rlimit(50)]
fn effects_of(e: &Expr, g: &Globals, acc: &mut Eff, calls: &mut Vec<String>)
    ensures
        final(acc)@ == eff_or(old(acc)@, direct_v(e@, g@).0),
        strs_v(final(calls)@) == strs_v(old(calls)@) + direct_v(e@, g@).1,
    decreases e,
{
    let ghost a0 = acc@;
    let ghost c0 = strs_v(calls@);
    match e {
        Expr::LlmCall { options, .. } => {
            acc.llm = true;
            proof {
                assert(e@->LlmCall_2 =~= kvals_v(options@));
            }
            effects_kv(options, g, acc, calls);
            assert(strs_v(calls@) =~= c0 + direct_v(e@, g@).1);
        },
        Expr::Call { func, args, kwargs } => {
            let ghost h: (EffV, Seq<Seq<char>>);
            match &**func {
                Expr::Ident(name) => {
                    assert((**func)@ == ExprV::Ident(name@));
                    let n = name.as_str();
                    if str_eq(n, "replay") || str_eq(n, "python") {
                        acc.io = true;
                        proof { h = (EffV { llm: false, tool: false, io: true }, Seq::empty()); }
                    } else if str_eq(n, "mcp") {
                        acc.tool = true;
                        proof { h = (EffV { llm: false, tool: true, io: false }, Seq::empty()); }
                    } else if str_eq(n, "len") || str_eq(n, "zip") {
                        proof { h = (no_eff(), Seq::empty()); }
                    } else if find_sig(&g.tools, n).is_some() {
                        acc.tool = true;
                        proof { h = (EffV { llm: false, tool: true, io: false }, Seq::empty()); }
                    } else if find_sig(&g.fns, n).is_some() {
                        let ghost cb = strs_v(calls@);
                        calls.push(string_of(n));
                        proof {
                            assert(strs_v(calls@) =~= cb.push(name@));
                            h = (no_eff(), seq![name@]);
                        }
                    } else {
                        proof { h = (no_eff(), Seq::empty()); }
                    }
                },
                _ => {
                    effects_of(&**func, g, acc, calls);
                    proof { h = direct_v((**func)@, g@); }
                },
            }
            proof {
                assert(acc@ == eff_or(a0, h.0));
                assert(strs_v(calls@) =~= c0 + h.1);
                assert(e@->Call_1 =~= exprs_v(args@));
                assert(e@->Call_3 =~= kvals_v(kwargs@));
            }
            let ghost c1 = strs_v(calls@);
            effects_all(args, g, acc, calls);
            let ghost c2 = strs_v(calls@);
            effects_kv(kwargs, g, acc, calls);
            assert(strs_v(calls@) =~= c0 + direct_v(e@, g@).1);
        },
        Expr::ListLit(xs) => {
            proof {
                assert(e@->ListLit_0 =~= exprs_v(xs@));
            }
            effects_all(xs, g, acc, calls);
        },
        Expr::ParAll(xs) => {
            proof {
                assert(e@->ParAll_0 =~= exprs_v(xs@));
            }
            effects_all(xs, g, acc, calls);
        },
        Expr::ParRace(xs) => {
            proof {
                assert(e@->ParRace_0 =~= exprs_v(xs@));
            }
            effects_all(xs, g, acc, calls);
        },
        Expr::Field { obj, .. } => {
            effects_of(&**obj, g, acc, calls);
        },
        Expr::Binary { l, r, .. } => {
            effects_of(&**l, g, acc, calls);
            let ghost c1 = strs_v(calls@);
            effects_of(&**r, g, acc, calls);
            assert(strs_v(calls@) =~= c0 + direct_v(e@, g@).1);
        },
        Expr::Merge { l, r } => {
            effects_of(&**l, g, acc, calls);
            let ghost c1 = strs_v(calls@);
            effects_of(&**r, g, acc, calls);
            assert(strs_v(calls@) =~= c0 + direct_v(e@, g@).1);
        },
        Expr::Route { arms } => {
            proof {
                assert(e@->Route_2 =~= conds_of(arms@));
            }
            effects_arms(arms, g, acc, calls);
        },
        Expr::Unary { x, .. } => {
            effects_of(&**x, g, acc, calls);
        },
        Expr::ParMap { coll, kwargs, body, .. } => {
            proof {
                assert(e@->ParMap_2 =~= kvals_v(kwargs@));
            }
            effects_of(&**coll, g, acc, calls);
            let ghost c1 = strs_v(calls@);
            effects_kv(kwargs, g, acc, calls);
            let ghost c2 = strs_v(calls@);
            effects_of(&**body, g, acc, calls);
            assert(strs_v(calls@) =~= c0 + direct_v(e@, g@).1);
        },
        _ => {
            assert(strs_v(calls@) =~= c0 + Seq::<Seq<char>>::empty());
        },
    }
}

#[verifier::spinoff_prover]
fn effects_all(xs: &Vec<Expr>, g: &Globals, acc: &mut Eff, calls: &mut Vec<String>)
    ensures
        final(acc)@ == eff_or(old(acc)@, direct_all(exprs_v(xs@), g@).0),
        strs_v(final(calls)@) == strs_v(old(calls)@) + direct_all(exprs_v(xs@), g@).1,
    decreases xs,
{
    let ghost a0 = acc@;
    let ghost c0 = strs_v(calls@);
    let ghost xv = exprs_v(xs@);
    let mut i: usize = 0;
    proof {
        assert(xv.take(0) =~= Seq::<ExprV>::empty());
        assert(strs_v(calls@) =~= c0 + Seq::<Seq<char>>::empty());
    }
    while i < xs.len()
        invariant
            i <= xs@.len() == xv.len(),
            xv == exprs_v(xs@),
            acc@ == eff_or(a0, direct_all(xv.take(i as int), g@).0),
            strs_v(calls@) == c0 + direct_all(xv.take(i as int), g@).1,
        decreases xs@.len() - i,
    {
        proof {
            assert(xv.take(i + 1).drop_last() =~= xv.take(i as int));
        }
        effects_of(&xs[i], g, acc, calls);
        proof {
            assert(strs_v(calls@) =~= c0 + direct_all(xv.take(i + 1), g@).1);
        }
        i = i + 1;
    }
    proof {
        assert(xv.take(xs@.len() as int) =~= xv);
    }
}

#[verifier::spinoff_prover]
fn effects_kv(kv: &Vec<(String, Expr)>, g: &Globals, acc: &mut Eff, calls: &mut Vec<String>)
    ensures
        final(acc)@ == eff_or(old(acc)@, direct_all(kvals_v(kv@), g@).0),
        strs_v(final(calls)@) == strs_v(old(calls)@) + direct_all(kvals_v(kv@), g@).1,
    decreases kv,
{
    let ghost a0 = acc@;
    let ghost c0 = strs_v(calls@);
    let ghost xv = kvals_v(kv@);
    let mut i: usize = 0;
    proof {
        assert(xv.take(0) =~= Seq::<ExprV>::empty());
        assert(strs_v(calls@) =~= c0 + Seq::<Seq<char>>::empty());
    }
    while i < kv.len()
        invariant
            i <= kv@.len() == xv.len(),
            xv == kvals_v(kv@),
            acc@ == eff_or(a0, direct_all(xv.take(i as int), g@).0),
            strs_v(calls@) == c0 + direct_all(xv.take(i as int), g@).1,
        decreases kv@.len() - i,
    {
        proof {
            assert(xv.take(i + 1).drop_last() =~= xv.take(i as int));
        }
        effects_of(&kv[i].1, g, acc, calls);
        proof {
            assert(strs_v(calls@) =~= c0 + direct_all(xv.take(i + 1), g@).1);
        }
        i = i + 1;
    }
    proof {
        assert(xv.take(kv@.len() as int) =~= xv);
    }
}

#[verifier::spinoff_prover]
fn effects_arms(arms: &Vec<(String, String, Option<Expr>)>, g: &Globals, acc: &mut Eff, calls: &mut Vec<String>)
    ensures
        final(acc)@ == eff_or(old(acc)@, direct_conds(conds_of(arms@), g@).0),
        strs_v(final(calls)@) == strs_v(old(calls)@) + direct_conds(conds_of(arms@), g@).1,
    decreases arms,
{
    let ghost a0 = acc@;
    let ghost c0 = strs_v(calls@);
    let ghost cs = conds_of(arms@);
    let mut i: usize = 0;
    proof {
        assert(cs.take(0) =~= Seq::<Option<ExprV>>::empty());
        assert(strs_v(calls@) =~= c0 + Seq::<Seq<char>>::empty());
    }
    while i < arms.len()
        invariant
            i <= arms@.len() == cs.len(),
            cs == conds_of(arms@),
            acc@ == eff_or(a0, direct_conds(cs.take(i as int), g@).0),
            strs_v(calls@) == c0 + direct_conds(cs.take(i as int), g@).1,
        decreases arms@.len() - i,
    {
        proof {
            assert(cs.take(i + 1).drop_last() =~= cs.take(i as int));
        }
        match &arms[i].2 {
            Some(c) => {
                effects_of(c, g, acc, calls);
            },
            None => {
                assert(strs_v(calls@) =~= strs_v(calls@) + Seq::<Seq<char>>::empty());
            },
        }
        proof {
            assert(strs_v(calls@) =~= c0 + direct_conds(cs.take(i + 1), g@).1);
        }
        i = i + 1;
    }
    proof {
        assert(cs.take(arms@.len() as int) =~= cs);
    }
}

} // verus!

verus! {

/// Each fn's name, direct effects and called fns.
spec fn defs_v(d: Seq<(String, Eff, Vec<String>)>) -> Seq<(Seq<char>, (EffV, Seq<Seq<char>>))> {
    Seq::new(d.len(), |i: int| (d[i].0@, (d[i].1@, strs_v(d[i].2@))))
}

spec fn effs_v(e: Seq<Eff>) -> Seq<EffV> {
    Seq::new(e.len(), |i: int| e[i]@)
}

/// The position of the last definition named `name`.
fn last_def(defs: &Vec<(String, Eff, Vec<String>)>, name: &str) -> (r: Option<usize>)
    ensures
        match r {
            Some(q) => last_idx(defs_v(defs@), name@) == Some(q as int),
            None => last_idx(defs_v(defs@), name@) is None,
        },
{
    let ghost a = defs_v(defs@);
    let mut i = defs.len();
    proof {
        assert(a.take(i as int) =~= a);
    }
    while i > 0
        invariant
            i <= defs@.len() == a.len(),
            a == defs_v(defs@),
            forall|r: int| i <= r < a.len() ==> a[r].0 != name@,
            last_idx(a, name@) == last_idx(a.take(i as int), name@),
        decreases i,
    {
        proof {
            assert(a.take(i as int).drop_last() =~= a.take(i - 1));
        }
        if str_eq(defs[i - 1].0.as_str(), name) {
            return Some(i - 1);
        }
        i = i - 1;
    }
    None
}

/// The effects of each fn, its callees' included (for the last definition
/// of each name).
#[verifier::spinoff_prover]
#[verifier::rlimit(100)]
fn infer_effects(defs: &Vec<(String, Eff, Vec<String>)>) -> (r: Vec<Eff>)
    ensures
        r@.len() == defs@.len(),
        forall|p: int| #[trigger] canonical(defs_v(defs@), p) ==> r@[p]@ == inferred(defs_v(defs@), defs_v(defs@)[p].0),
{
    let ghost d = defs_v(defs@);
    let n = defs.len();
    let mut eff: Vec<Eff> = Vec::new();
    let mut i: usize = 0;
    while i < n
        invariant
            i <= n == defs@.len() == d.len(),
            d == defs_v(defs@),
            eff@.len() == i,
            forall|p: int| 0 <= p < i ==> (#[trigger] eff@[p])@ == (d[p].1).0,
        decreases n - i,
    {
        eff.push(defs[i].1);
        i = i + 1;
    }
    proof {
        assert forall|p: int| #[trigger] canonical(d, p) implies eff_le((d[p].1).0, eff@[p]@) && eff_le(
            eff@[p]@,
            inferred(d, d[p].0),
        ) by {
            lemma_last_idx(d, d[p].0);
            let path = seq![d[p].0];
            assert(is_path(d, path));
        }
    }
    loop
        invariant
            n == defs@.len() == d.len(),
            d == defs_v(defs@),
            eff@.len() == n,
            forall|p: int| #[trigger] canonical(d, p) ==> eff_le((d[p].1).0, eff@[p]@) && eff_le(
                eff@[p]@,
                inferred(d, d[p].0),
            ),
        decreases unset(effs_v(eff@)),
    {
        let ghost start = effs_v(eff@);
        let mut changed = false;
        let mut p: usize = 0;
        while p < n
            invariant
                p <= n == defs@.len() == d.len(),
                d == defs_v(defs@),
                eff@.len() == n,
                forall|r: int| #[trigger] canonical(d, r) ==> eff_le((d[r].1).0, eff@[r]@) && eff_le(
                    eff@[r]@,
                    inferred(d, d[r].0),
                ),
                unset(effs_v(eff@)) <= unset(start),
                changed ==> unset(effs_v(eff@)) < unset(start),
                !changed ==> effs_v(eff@) == start,
                !changed ==> forall|r: int, j: int|
                    #![trigger canonical(d, r), (d[r].1).1[j]]
                    0 <= r < p && canonical(d, r) && 0 <= j < (d[r].1).1.len() ==> match last_idx(d, (d[r].1).1[j]) {
                        Some(q) => eff_le(start[q], start[r]),
                        None => true,
                    },
            decreases n - p,
        {
            let canon = match last_def(defs, defs[p].0.as_str()) {
                Some(q) => q == p,
                None => false,
            };
            if canon {
                assert(canonical(d, p as int));
                let calls = &defs[p].2;
                assert(strs_v(calls@) == (d[p as int].1).1);
                let mut j: usize = 0;
                while j < calls.len()
                    invariant
                        p < n == defs@.len() == d.len(),
                        d == defs_v(defs@),
                        calls == &defs@[p as int].2,
                        strs_v(calls@) == (d[p as int].1).1,
                        canonical(d, p as int),
                        eff@.len() == n,
                        forall|r: int| #[trigger] canonical(d, r) ==> eff_le((d[r].1).0, eff@[r]@) && eff_le(
                            eff@[r]@,
                            inferred(d, d[r].0),
                        ),
                        unset(effs_v(eff@)) <= unset(start),
                        changed ==> unset(effs_v(eff@)) < unset(start),
                        !changed ==> effs_v(eff@) == start,
                        !changed ==> forall|r: int, jj: int|
                            #![trigger canonical(d, r), (d[r].1).1[jj]]
                            0 <= r < p && canonical(d, r) && 0 <= jj < (d[r].1).1.len() ==> match last_idx(d, (d[r].1).1[jj]) {
                                Some(q) => eff_le(start[q], start[r]),
                                None => true,
                            },
                        !changed ==> forall|jj: int|
                            0 <= jj < j ==> match last_idx(d, #[trigger] (d[p as int].1).1[jj]) {
                                Some(q) => eff_le(start[q], start[p as int]),
                                None => true,
                            },
                    decreases calls@.len() - j,
                {
                    match last_def(defs, calls[j].as_str()) {
                        Some(q) => {
                            proof {
                                lemma_last_idx(d, (d[p as int].1).1[j as int]);
                            }
                            let cur = eff[p];
                            let other = eff[q];
                            let new = Eff {
                                llm: cur.llm || other.llm,
                                tool: cur.tool || other.tool,
                                io: cur.io || other.io,
                            };
                            proof {
                                lemma_last_idx(d, (d[p as int].1).1[j as int]);
                                assert(canonical(d, q as int));
                                lemma_last_idx(d, d[p as int].0);
                                law_effects_propagate_through_calls(d, d[p as int].0, j as int);
                            }
                            if new.llm != cur.llm || new.tool != cur.tool || new.io != cur.io {
                                let ghost before = effs_v(eff@);
                                proof {
                                    lemma_unset_update(before, p as int, new@);
                                }
                                eff.set(p, new);
                                proof {
                                    assert(effs_v(eff@) =~= before.update(p as int, new@));
                                }
                                changed = true;
                            }
                        },
                        None => {},
                    }
                    j = j + 1;
                }
            }
            p = p + 1;
        }
        if !changed {
            proof {
                let es = effs_v(eff@);
                assert forall|r: int| #[trigger] canonical(d, r) implies eff_le((d[r].1).0, es[r]) by {}
                assert forall|r: int| #[trigger] canonical(d, r) implies eff_le(inferred(d, d[r].0), es[r]) by {
                    let f = d[r].0;
                    lemma_last_idx(d, f);
                    if inferred(d, f).llm {
                        let path = choose|path: Seq<Seq<char>>| #[trigger] is_path(d, path) && path[0] == f && eff_of(d, path.last()).llm;
                        lemma_complete(d, es, path, r);
                    }
                    if inferred(d, f).tool {
                        let path = choose|path: Seq<Seq<char>>| #[trigger] is_path(d, path) && path[0] == f && eff_of(d, path.last()).tool;
                        lemma_complete(d, es, path, r);
                    }
                    if inferred(d, f).io {
                        let path = choose|path: Seq<Seq<char>>| #[trigger] is_path(d, path) && path[0] == f && eff_of(d, path.last()).io;
                        lemma_complete(d, es, path, r);
                    }
                }
            }
            return eff;
        }
    }
}

} // verus!

verus! {

spec fn refs_v(s: Seq<&Item>) -> Seq<ItemV> {
    Seq::new(s.len(), |i: int| s[i]@)
}

/// The fns of a program, those inside agents included, in order.
fn fn_items_x<'a>(items: &'a [Item]) -> (r: Vec<&'a Item>)
    ensures
        refs_v(r@) == fn_items_v(items_v(items@)),
{
    let ghost iv = items_v(items@);
    let mut out: Vec<&'a Item> = Vec::new();
    let mut i: usize = 0;
    proof {
        assert(iv.take(0) =~= Seq::<ItemV>::empty());
        assert(refs_v(out@) =~= Seq::<ItemV>::empty());
    }
    while i < items.len()
        invariant
            i <= items@.len() == iv.len(),
            iv == items_v(items@),
            refs_v(out@) == fn_items_v(iv.take(i as int)),
        decreases items@.len() - i,
    {
        proof {
            assert(iv.take(i + 1).drop_last() =~= iv.take(i as int));
        }
        let ghost before = refs_v(out@);
        match &items[i] {
            Item::Fn { .. } => {
                out.push(&items[i]);
                proof {
                    assert(refs_v(out@) =~= before.push(iv[i as int]));
                }
            },
            Item::Agent { fns, .. } => {
                let ghost fv = iv[i as int]->Agent_4;
                assert(fv =~= Seq::new(fns@.len(), |q: int| fns@[q]@));
                let mut j: usize = 0;
                proof {
                    assert(fv.take(0) =~= Seq::<ItemV>::empty());
                    assert(before + fns_only(fv.take(0)) =~= before);
                }
                while j < fns.len()
                    invariant
                        j <= fns@.len() == fv.len(),
                        fv == Seq::new(fns@.len(), |q: int| fns@[q]@),
                        refs_v(out@) == before + fns_only(fv.take(j as int)),
                    decreases fns@.len() - j,
                {
                    proof {
                        assert(fv.take(j + 1).drop_last() =~= fv.take(j as int));
                    }
                    let ghost b2 = refs_v(out@);
                    match &fns[j] {
                        Item::Fn { .. } => {
                            out.push(&fns[j]);
                            proof {
                                assert(refs_v(out@) =~= b2.push(fv[j as int]));
                                assert(before + fns_only(fv.take(j + 1)) =~= (before + fns_only(fv.take(j as int))).push(fv[j as int]));
                            }
                        },
                        _ => {},
                    }
                    j = j + 1;
                }
                proof {
                    assert(fv.take(fns@.len() as int) =~= fv);
                }
            },
            _ => {},
        }
        i = i + 1;
    }
    proof {
        assert(iv.take(items@.len() as int) =~= iv);
    }
    out
}

/// The direct effects and calls of a fn body.
fn body_effects(body: &Vec<Stmt>, g: &Globals) -> (r: (Eff, Vec<String>))
    ensures
        (r.0@, strs_v(r.1@)) == body_direct(stmts_v(body@), g@),
{
    let ghost bv = stmts_v(body@);
    let mut acc = Eff { llm: false, tool: false, io: false };
    let mut calls: Vec<String> = Vec::new();
    let mut i: usize = 0;
    proof {
        assert(bv.take(0) =~= Seq::<StmtV>::empty());
        assert(strs_v(calls@) =~= Seq::<Seq<char>>::empty());
    }
    while i < body.len()
        invariant
            i <= body@.len() == bv.len(),
            bv == stmts_v(body@),
            (acc@, strs_v(calls@)) == body_direct(bv.take(i as int), g@),
        decreases body@.len() - i,
    {
        proof {
            assert(bv.take(i + 1).drop_last() =~= bv.take(i as int));
            assert(bv[i as int] == body@[i as int]@);
        }
        let ghost c0 = strs_v(calls@);
        match &body[i].kind {
            StmtKind::Let { value, .. } => effects_of(value, g, &mut acc, &mut calls),
            StmtKind::StateWrite { value, .. } => effects_of(value, g, &mut acc, &mut calls),
            StmtKind::Assert(e) => effects_of(e, g, &mut acc, &mut calls),
            StmtKind::ExprStmt(e) => effects_of(e, g, &mut acc, &mut calls),
        }
        i = i + 1;
    }
    proof {
        assert(bv.take(body@.len() as int) =~= bv);
    }
    (acc, calls)
}

/// `v` holds the string `s`.
fn contains_str(v: &Vec<String>, s: &str) -> (r: bool)
    ensures
        r == strs_v(v@).contains(s@),
{
    let mut i: usize = 0;
    while i < v.len()
        invariant
            i <= v@.len(),
            forall|j: int| 0 <= j < i ==> v@[j]@ != s@,
        decreases v@.len() - i,
    {
        if str_eq(v[i].as_str(), s) {
            assert(strs_v(v@)[i as int] == s@);
            return true;
        }
        i = i + 1;
    }
    false
}

/// Appends `v` joined by `, `.
pub(crate) fn push_comma_join(out: &mut String, v: &Vec<String>)
    ensures
        final(out)@ == old(out)@ + comma_join(strs_v(v@)),
{
    let ghost o = out@;
    let ghost s = strs_v(v@);
    let mut i: usize = 0;
    proof {
        assert(s.take(0) =~= Seq::<Seq<char>>::empty());
    }
    while i < v.len()
        invariant
            i <= v@.len() == s.len(),
            s == strs_v(v@),
            out@ == o + comma_join(s.take(i as int)),
        decreases v@.len() - i,
    {
        proof {
            assert(s.take(i + 1).drop_last() =~= s.take(i as int));
        }
        let ghost before = out@;
        if i > 0 {
            push_str(out, ", ");
        }
        push_str(out, v[i].as_str());
        proof {
            if i > 0 {
                assert(out@ =~= before + ", "@ + s[i as int]);
            } else {
                assert(out@ =~= before + s[i as int]);
            }
        }
        i = i + 1;
    }
    assert(s.take(v@.len() as int) =~= s);
}

/// Reports the effect diagnostics of one fn whose effects are `want`.
#[verifier::spinoff_prover]
fn fn_effects_check(name: &str, declared: &Vec<String>, want: Eff, errs: &mut Vec<CheckError>)
    ensures
        diags_v(final(errs)@) == diags_v(old(errs)@) + unknown_effs(name@, strs_v(declared@)) + if missing_effs(want@, strs_v(declared@)).len() == 0 {
            Seq::<DiagV>::empty()
        } else if declared@.len() == 0 {
            diag(
                "E0301"@,
                "fn '"@ + name@ + "' uses "@ + comma_join(missing_effs(want@, strs_v(declared@))) + " but has no `uses` clause — add `uses "@ + comma_join(missing_effs(want@, strs_v(declared@)))
                    + "` to its signature"@,
            )
        } else {
            diag(
                "E0302"@,
                "fn '"@ + name@ + "' declares `uses "@ + comma_join(strs_v(declared@)) + "` but its body also uses "@
                    + comma_join(missing_effs(want@, strs_v(declared@))) + " — annotation too narrow"@,
            )
        },
{
    let ghost e0 = diags_v(errs@);
    let ghost dv = strs_v(declared@);
    let mut i: usize = 0;
    proof {
        assert(dv.take(0) =~= Seq::<Seq<char>>::empty());
        assert(diags_v(errs@) =~= e0 + Seq::<DiagV>::empty());
    }
    while i < declared.len()
        invariant
            i <= declared@.len() == dv.len(),
            dv == strs_v(declared@),
            diags_v(errs@) == e0 + unknown_effs(name@, dv.take(i as int)),
        decreases declared@.len() - i,
    {
        proof {
            assert(dv.take(i + 1).drop_last() =~= dv.take(i as int));
        }
        let d = declared[i].as_str();
        if !(str_eq(d, "LLM") || str_eq(d, "Tool") || str_eq(d, "IO")) {
            let mut msg = string_of("unknown effect '");
            push_str(&mut msg, d);
            push_str(&mut msg, "' in fn '");
            push_str(&mut msg, name);
            push_str(&mut msg, "' (known: LLM, Tool, IO)");
            report(errs, "E0101", msg);
        } else {
            assert(diags_v(errs@) =~= diags_v(errs@) + Seq::<DiagV>::empty());
        }
        proof {
            assert(diags_v(errs@) =~= e0 + unknown_effs(name@, dv.take(i + 1)));
        }
        i = i + 1;
    }
    proof {
        assert(dv.take(declared@.len() as int) =~= dv);
    }
    let mut missing: Vec<String> = Vec::new();
    if want.io && !contains_str(declared, "IO") {
        missing.push(string_of("IO"));
    }
    if want.llm && !contains_str(declared, "LLM") {
        missing.push(string_of("LLM"));
    }
    if want.tool && !contains_str(declared, "Tool") {
        missing.push(string_of("Tool"));
    }
    proof {
        assert(strs_v(missing@) =~= missing_effs(want@, dv));
    }
    let ghost e1 = diags_v(errs@);
    if missing.len() == 0 {
        assert(diags_v(errs@) =~= e1 + Seq::<DiagV>::empty());
        return;
    }
    if declared.len() == 0 {
        let mut msg = string_of("fn '");
        push_str(&mut msg, name);
        push_str(&mut msg, "' uses ");
        push_comma_join(&mut msg, &missing);
        push_str(&mut msg, " but has no `uses` clause — add `uses ");
        push_comma_join(&mut msg, &missing);
        push_str(&mut msg, "` to its signature");
        report(errs, "E0301", msg);
    } else {
        let mut msg = string_of("fn '");
        push_str(&mut msg, name);
        push_str(&mut msg, "' declares `uses ");
        push_comma_join(&mut msg, declared);
        push_str(&mut msg, "` but its body also uses ");
        push_comma_join(&mut msg, &missing);
        push_str(&mut msg, " — annotation too narrow");
        report(errs, "E0302", msg);
    }
}

/// Reports the effect diagnostics of every fn: effects propagate through
/// calls of user fns, and each fn must declare every effect it has.
#[verifier::spinoff_prover]
fn check_effects(items: &[Item], g: &Globals, errs: &mut Vec<CheckError>)
    ensures
        diags_v(final(errs)@) == diags_v(old(errs)@) + effect_errs(
            fn_items_v(items_v(items@)),
            fn_defs(fn_items_v(items_v(items@)), g@),
        ),
{
    let ghost e0 = diags_v(errs@);
    let fitems = fn_items_x(items);
    let ghost fv = refs_v(fitems@);
    let mut defs: Vec<(String, Eff, Vec<String>)> = Vec::new();
    let mut i: usize = 0;
    proof {
        assert(fv.take(0) =~= Seq::<ItemV>::empty());
        assert(defs_v(defs@) =~= Seq::<(Seq<char>, (EffV, Seq<Seq<char>>))>::empty());
    }
    while i < fitems.len()
        invariant
            i <= fitems@.len() == fv.len(),
            fv == refs_v(fitems@),
            defs_v(defs@) == fn_defs(fv.take(i as int), g@),
        decreases fitems@.len() - i,
    {
        proof {
            assert(fv.take(i + 1).drop_last() =~= fv.take(i as int));
        }
        let ghost before = defs_v(defs@);
        match fitems[i] {
            Item::Fn { name, body, .. } => {
                let (eff, calls) = body_effects(body, g);
                defs.push((string_of(name.as_str()), eff, calls));
                proof {
                    assert(defs_v(defs@) =~= before.push((name@, body_direct(stmts_v(body@), g@))));
                }
            },
            _ => {},
        }
        i = i + 1;
    }
    proof {
        assert(fv.take(fitems@.len() as int) =~= fv);
    }
    let ghost dv = defs_v(defs@);
    let eff = infer_effects(&defs);
    let mut k: usize = 0;
    proof {
        assert(diags_v(errs@) =~= e0 + Seq::<DiagV>::empty());
    }
    while k < fitems.len()
        invariant
            k <= fitems@.len() == fv.len(),
            fv == refs_v(fitems@),
            dv == defs_v(defs@),
            dv == fn_defs(fv, g@),
            eff@.len() == dv.len(),
            forall|p: int| #[trigger] canonical(dv, p) ==> eff@[p]@ == inferred(dv, dv[p].0),
            diags_v(errs@) == e0 + effect_errs(fv.take(k as int), dv),
        decreases fitems@.len() - k,
    {
        proof {
            assert(fv.take(k + 1).drop_last() =~= fv.take(k as int));
        }
        match fitems[k] {
            Item::Fn { name, effects, .. } => {
                let want = match last_def(&defs, name.as_str()) {
                    Some(q) => {
                        proof {
                            lemma_last_idx(dv, name@);
                            assert(canonical(dv, q as int));
                        }
                        eff[q]
                    },
                    None => {
                        proof {
                            lemma_last_idx(dv, name@);
                            lemma_inferred_none(dv, name@);
                        }
                        Eff { llm: false, tool: false, io: false }
                    },
                };
                assert(want@ == inferred(dv, name@));
                let ghost e1 = diags_v(errs@);
                fn_effects_check(name.as_str(), effects, want, errs);
                proof {
                    assert(diags_v(errs@) =~= e0 + effect_errs(fv.take(k + 1), dv));
                }
            },
            _ => {
                assert(diags_v(errs@) =~= e0 + effect_errs(fv.take(k + 1), dv));
            },
        }
        k = k + 1;
    }
    proof {
        assert(fv.take(fitems@.len() as int) =~= fv);
    }
}

/// Checks a whole program; every diagnostic, in a fixed order: alias
/// bodies, then each item, then effects fn by fn.
pub fn check(items: &[Item]) -> (r: Vec<CheckError>)
    ensures
        diags_v(r@) == check_v(items_v(items@)),
{
    let g = build_globals(items);
    let mut errs: Vec<CheckError> = Vec::new();
    let ghost iv = items_v(items@);
    proof {
        assert(diags_v(errs@) =~= Seq::<DiagV>::empty());
    }
    check_aliases(&g, &mut errs);
    let ghost e1 = diags_v(errs@);
    let mut i: usize = 0;
    proof {
        assert(iv.take(0) =~= Seq::<ItemV>::empty());
        assert(diags_v(errs@) =~= e1 + Seq::<DiagV>::empty());
    }
    while i < items.len()
        invariant
            i <= items@.len() == iv.len(),
            iv == items_v(items@),
            g@ == globals_of(iv),
            diags_v(errs@) == e1 + items_errs(iv.take(i as int), g@),
        decreases items@.len() - i,
    {
        proof {
            assert(iv.take(i + 1).drop_last() =~= iv.take(i as int));
        }
        check_item(&items[i], &g, &mut errs);
        proof {
            assert(diags_v(errs@) =~= e1 + items_errs(iv.take(i + 1), g@));
        }
        i = i + 1;
    }
    proof {
        assert(iv.take(items@.len() as int) =~= iv);
    }
    let ghost e2 = diags_v(errs@);
    check_effects(items, &g, &mut errs);
    proof {
        assert(diags_v(errs@) =~= check_v(iv));
    }
    errs
}

} // verus!
