//! Static cost report: llm call sites counted under flat fake pricing of
//! $0.001 per call, with the `retry: N with repair` worst case and the
//! sites inside `par map` bodies marked as depending on the collection's
//! size.

use vstd::prelude::*;
use crate::ast::{conds_of, is_part, nested_in, exprs_v, kvals_v, names_v, stmts_v, Expr, ExprV, Item, ItemV, Stmt, StmtKind, StmtKindV, StmtV};
use crate::check::items_v;
use crate::json::{find_key, lemma_find_key};
use crate::text::{digit_char, nat_str, push_char, push_str, push_usize, str_eq, string_of};

verus! {

/// Call-site counts: sites, worst-case calls (with repair retries), and
/// whether some site runs once per element of a `par map`.
#[derive(Debug, Default)]
pub struct Count {
    pub sites: usize,
    pub max_calls: usize,
    pub dynamic: bool,
}

/// Counts as numbers.
pub struct CountV {
    pub sites: nat,
    pub max_calls: nat,
    pub dynamic: bool,
}

pub open spec fn count_v(c: Count) -> CountV {
    CountV { sites: c.sites as nat, max_calls: c.max_calls as nat, dynamic: c.dynamic }
}

pub open spec fn czero() -> CountV {
    CountV { sites: 0, max_calls: 0, dynamic: false }
}

/// Two counts together.
pub open spec fn cadd(a: CountV, b: CountV) -> CountV {
    CountV {
        sites: a.sites + b.sites,
        max_calls: a.max_calls + b.max_calls,
        dynamic: a.dynamic || b.dynamic,
    }
}

/// Both numbers of a count fit in a `usize`.
pub open spec fn fits(c: CountV) -> bool {
    c.sites <= usize::MAX && c.max_calls <= usize::MAX
}

impl Count {
    /// Adds `other` into `self`.
    pub fn add(&mut self, other: &Count)
        requires
            old(self).sites + other.sites <= usize::MAX,
            old(self).max_calls + other.max_calls <= usize::MAX,
        ensures
            count_v(*final(self)) == cadd(count_v(*old(self)), count_v(*other)),
    {
        self.sites = self.sites + other.sites;
        self.max_calls = self.max_calls + other.max_calls;
        self.dynamic = self.dynamic || other.dynamic;
    }
}

/// The extra calls of an llm call: with `with repair`, the value of its
/// first `retry` option when that is an integer literal, else none.
pub open spec fn retry_v(names: Seq<Seq<char>>, vals: Seq<ExprV>, repair: bool) -> nat {
    if !repair {
        0
    } else {
        match find_key(names, "retry"@, 0) {
            Some(i) => match vals[i] {
                ExprV::Int(n) => (n as usize) as nat,
                _ => 0,
            },
            None => 0,
        }
    }
}

/// The llm call sites of an expression; those reached inside a `par map`
/// body (or when `in_par`) make the count dynamic.
pub open spec fn count_e(e: ExprV, in_par: bool) -> CountV
    decreases e,
{
    match e {
        ExprV::LlmCall(p, ks, vs, rep) => cadd(
            cadd(
                CountV { sites: 1, max_calls: 1 + retry_v(ks, vs, rep), dynamic: in_par },
                count_e(*p, in_par),
            ),
            count_all(vs, in_par),
        ),
        ExprV::Call(f, args, _, kv) => cadd(
            cadd(count_e(*f, in_par), count_all(args, in_par)),
            count_all(kv, in_par),
        ),
        ExprV::ListLit(xs) => count_all(xs, in_par),
        ExprV::ParAll(xs) => count_all(xs, in_par),
        ExprV::ParRace(xs) => count_all(xs, in_par),
        ExprV::Field(o, _) => count_e(*o, in_par),
        ExprV::Binary(_, l, r) => cadd(count_e(*l, in_par), count_e(*r, in_par)),
        ExprV::Merge(l, r) => cadd(count_e(*l, in_par), count_e(*r, in_par)),
        ExprV::Unary(_, x) => count_e(*x, in_par),
        ExprV::ParMap(c, _, kv, _, b) => cadd(
            cadd(count_e(*c, in_par), count_all(kv, in_par)),
            count_e(*b, true),
        ),
        ExprV::Route(_, _, cs) => count_conds(cs, in_par),
        _ => czero(),
    }
}

pub open spec fn count_all(xs: Seq<ExprV>, in_par: bool) -> CountV
    decreases xs,
{
    if xs.len() == 0 {
        czero()
    } else {
        cadd(count_all(xs.drop_last(), in_par), count_e(xs.last(), in_par))
    }
}

pub open spec fn count_conds(cs: Seq<Option<ExprV>>, in_par: bool) -> CountV
    decreases cs,
{
    if cs.len() == 0 {
        czero()
    } else {
        cadd(
            count_conds(cs.drop_last(), in_par),
            match cs.last() {
                Some(c) => count_e(c, in_par),
                None => czero(),
            },
        )
    }
}

/// Names that a call does not count as a call of a fn.
pub open spec fn builtin_name(n: Seq<char>) -> bool {
    n == "len"@ || n == "zip"@ || n == "replay"@ || n == "mcp"@ || n == "python"@
}

/// The calls of an expression on a plain name (builtins aside), each
/// marked as made inside a `par map` body or not.
pub open spec fn edges_e(e: ExprV, in_par: bool) -> Seq<(Seq<char>, bool)>
    decreases e,
{
    match e {
        ExprV::LlmCall(p, _, vs, _) => edges_e(*p, in_par) + edges_all(vs, in_par),
        ExprV::Call(f, args, _, kv) => {
            let head: Seq<(Seq<char>, bool)> = match *f {
                ExprV::Ident(n) => if builtin_name(n) {
                    Seq::empty()
                } else {
                    seq![(n, in_par)]
                },
                _ => Seq::empty(),
            };
            head + edges_e(*f, in_par) + edges_all(args, in_par) + edges_all(kv, in_par)
        },
        ExprV::ListLit(xs) => edges_all(xs, in_par),
        ExprV::ParAll(xs) => edges_all(xs, in_par),
        ExprV::ParRace(xs) => edges_all(xs, in_par),
        ExprV::Field(o, _) => edges_e(*o, in_par),
        ExprV::Binary(_, l, r) => edges_e(*l, in_par) + edges_e(*r, in_par),
        ExprV::Merge(l, r) => edges_e(*l, in_par) + edges_e(*r, in_par),
        ExprV::Unary(_, x) => edges_e(*x, in_par),
        ExprV::ParMap(c, _, kv, _, b) => edges_e(*c, in_par) + edges_all(kv, in_par) + edges_e(
            *b,
            true,
        ),
        ExprV::Route(_, _, cs) => edges_conds(cs, in_par),
        _ => Seq::empty(),
    }
}

pub open spec fn edges_all(xs: Seq<ExprV>, in_par: bool) -> Seq<(Seq<char>, bool)>
    decreases xs,
{
    if xs.len() == 0 {
        Seq::empty()
    } else {
        edges_all(xs.drop_last(), in_par) + edges_e(xs.last(), in_par)
    }
}

pub open spec fn edges_conds(cs: Seq<Option<ExprV>>, in_par: bool) -> Seq<(Seq<char>, bool)>
    decreases cs,
{
    if cs.len() == 0 {
        Seq::empty()
    } else {
        edges_conds(cs.drop_last(), in_par) + match cs.last() {
            Some(c) => edges_e(c, in_par),
            None => Seq::empty(),
        }
    }
}

/// Adds `n` calls to a running count, unless that overflows.
fn bump(c: &mut Count, sites: usize, calls: usize, dynamic: bool) -> (ok: bool)
    ensures
        ok <==> fits(cadd(count_v(*old(c)), CountV { sites: sites as nat, max_calls: calls as nat, dynamic })),
        ok ==> count_v(*final(c)) == cadd(count_v(*old(c)), CountV { sites: sites as nat, max_calls: calls as nat, dynamic }),
{
    match c.sites.checked_add(sites) {
        Some(s) => match c.max_calls.checked_add(calls) {
            Some(m) => {
                c.sites = s;
                c.max_calls = m;
                c.dynamic = c.dynamic || dynamic;
                true
            },
            None => false,
        },
        None => false,
    }
}

/// The extra calls that an llm call's repair loop may make.
fn retry_x(options: &Vec<(String, Expr)>, repair: bool) -> (r: usize)
    ensures
        r as nat == retry_v(names_v(options@), kvals_v(options@), repair),
{
    if !repair {
        return 0;
    }
    let ghost ks = names_v(options@);
    let mut i: usize = 0;
    while i < options.len()
        invariant
            i <= options@.len() == ks.len(),
            ks == names_v(options@),
            find_key(ks, "retry"@, i as int) == find_key(ks, "retry"@, 0),
            repair,
        decreases options@.len() - i,
    {
        if str_eq(options[i].0.as_str(), "retry") {
            proof {
                assert(ks[i as int] == "retry"@);
                assert(kvals_v(options@)[i as int] == options@[i as int].1@);
            }
            return match &options[i].1 {
                Expr::Int(n) => {
                    assert(options@[i as int].1@ == ExprV::Int(*n as int));
                    #[verifier::truncate]
                    (*n as usize)
                },
                _ => 0,
            };
        }
        i = i + 1;
    }
    0
}

/// Adds the llm call sites of `e` to `c`; false when a count overflows.
#[verifier::spinoff_prover]
#[verifier::rlimit(50)]
fn count_expr(e: &Expr, in_par: bool, c: &mut Count) -> (ok: bool)
    ensures
        ok <==> fits(cadd(count_v(*old(c)), count_e(e@, in_par))),
        ok ==> count_v(*final(c)) == cadd(count_v(*old(c)), count_e(e@, in_par)),
    decreases e,
{
    let ghost c0 = count_v(*c);
    match e {
        Expr::LlmCall { prompt, options, repair } => {
            proof {
                assert(e@->LlmCall_2 =~= kvals_v(options@));
            }
            let retry = retry_x(options, *repair);
            if retry == usize::MAX {
                return false;
            }
            if !bump(c, 1, 1 + retry, in_par) {
                return false;
            }
            let ghost c1 = count_v(*c);
            if !count_expr(&**prompt, in_par, c) {
                return false;
            }
            count_kv(options, in_par, c)
        },
        Expr::Call { func, args, kwargs } => {
            proof {
                assert(e@->Call_1 =~= exprs_v(args@));
                assert(e@->Call_3 =~= kvals_v(kwargs@));
            }
            if !count_expr(&**func, in_par, c) {
                return false;
            }
            if !count_list(args, in_par, c) {
                return false;
            }
            count_kv(kwargs, in_par, c)
        },
        Expr::ListLit(xs) => {
            proof {
                assert(e@->ListLit_0 =~= exprs_v(xs@));
            }
            count_list(xs, in_par, c)
        },
        Expr::ParAll(xs) => {
            proof {
                assert(e@->ParAll_0 =~= exprs_v(xs@));
            }
            count_list(xs, in_par, c)
        },
        Expr::ParRace(xs) => {
            proof {
                assert(e@->ParRace_0 =~= exprs_v(xs@));
            }
            count_list(xs, in_par, c)
        },
        Expr::Field { obj, .. } => count_expr(&**obj, in_par, c),
        Expr::Binary { l, r, .. } => {
            if !count_expr(&**l, in_par, c) {
                return false;
            }
            count_expr(&**r, in_par, c)
        },
        Expr::Merge { l, r } => {
            if !count_expr(&**l, in_par, c) {
                return false;
            }
            count_expr(&**r, in_par, c)
        },
        Expr::Unary { x, .. } => count_expr(&**x, in_par, c),
        Expr::ParMap { coll, kwargs, body, .. } => {
            proof {
                assert(e@->ParMap_2 =~= kvals_v(kwargs@));
            }
            if !count_expr(&**coll, in_par, c) {
                return false;
            }
            if !count_kv(kwargs, in_par, c) {
                return false;
            }
            count_expr(&**body, true, c)
        },
        Expr::Route { arms } => {
            proof {
                assert(e@->Route_2 =~= conds_of(arms@));
            }
            count_arms(arms, in_par, c)
        },
        _ => true,
    }
}

fn count_list(xs: &Vec<Expr>, in_par: bool, c: &mut Count) -> (ok: bool)
    ensures
        ok <==> fits(cadd(count_v(*old(c)), count_all(exprs_v(xs@), in_par))),
        ok ==> count_v(*final(c)) == cadd(count_v(*old(c)), count_all(exprs_v(xs@), in_par)),
    decreases xs,
{
    let ghost c0 = count_v(*c);
    let ghost xv = exprs_v(xs@);
    let mut i: usize = 0;
    proof {
        assert(xv.take(0) =~= Seq::<ExprV>::empty());
    }
    while i < xs.len()
        invariant
            i <= xs@.len() == xv.len(),
            xv == exprs_v(xs@),
            c0 == count_v(*old(c)),
            count_v(*c) == cadd(c0, count_all(xv.take(i as int), in_par)),
        decreases xs@.len() - i,
    {
        proof {
            assert(xv.take(i + 1).drop_last() =~= xv.take(i as int));
            lemma_count_all_prefix(xv, i + 1, in_par);
        }
        let ghost cur = count_v(*c);
        if !count_expr(&xs[i], in_par, c) {
            proof {
                assert(xv.take(i + 1).last() == xv[i as int]);
                assert(xv[i as int] == xs@[i as int]@);
                assert(count_all(xv.take(i + 1), in_par) == cadd(count_all(xv.take(i as int), in_par), count_e(xv[i as int], in_par)));
                assert(!fits(cadd(cur, count_e(xv[i as int], in_par))));
                assert(!fits(cadd(c0, count_all(xv.take(i + 1), in_par))));
            }
            return false;
        }
        i = i + 1;
    }
    proof {
        assert(xv.take(xs@.len() as int) =~= xv);
    }
    true
}

fn count_kv(kv: &Vec<(String, Expr)>, in_par: bool, c: &mut Count) -> (ok: bool)
    ensures
        ok <==> fits(cadd(count_v(*old(c)), count_all(kvals_v(kv@), in_par))),
        ok ==> count_v(*final(c)) == cadd(count_v(*old(c)), count_all(kvals_v(kv@), in_par)),
    decreases kv,
{
    let ghost c0 = count_v(*c);
    let ghost xv = kvals_v(kv@);
    let mut i: usize = 0;
    proof {
        assert(xv.take(0) =~= Seq::<ExprV>::empty());
    }
    while i < kv.len()
        invariant
            i <= kv@.len() == xv.len(),
            xv == kvals_v(kv@),
            c0 == count_v(*old(c)),
            count_v(*c) == cadd(c0, count_all(xv.take(i as int), in_par)),
        decreases kv@.len() - i,
    {
        proof {
            assert(xv.take(i + 1).drop_last() =~= xv.take(i as int));
            lemma_count_all_prefix(xv, i + 1, in_par);
        }
        if !count_expr(&kv[i].1, in_par, c) {
            proof {
                assert(xv.take(i + 1).last() == xv[i as int]);
            }
            return false;
        }
        i = i + 1;
    }
    proof {
        assert(xv.take(kv@.len() as int) =~= xv);
    }
    true
}

fn count_arms(arms: &Vec<(String, String, Option<Expr>)>, in_par: bool, c: &mut Count) -> (ok: bool)
    ensures
        ok <==> fits(cadd(count_v(*old(c)), count_conds(conds_of(arms@), in_par))),
        ok ==> count_v(*final(c)) == cadd(count_v(*old(c)), count_conds(conds_of(arms@), in_par)),
    decreases arms,
{
    let ghost c0 = count_v(*c);
    let ghost cs = conds_of(arms@);
    let mut i: usize = 0;
    proof {
        assert(cs.take(0) =~= Seq::<Option<ExprV>>::empty());
    }
    while i < arms.len()
        invariant
            i <= arms@.len() == cs.len(),
            cs == conds_of(arms@),
            c0 == count_v(*old(c)),
            count_v(*c) == cadd(c0, count_conds(cs.take(i as int), in_par)),
        decreases arms@.len() - i,
    {
        proof {
            assert(cs.take(i + 1).drop_last() =~= cs.take(i as int));
            lemma_count_conds_prefix(cs, i + 1, in_par);
        }
        match &arms[i].2 {
            Some(x) => {
                if !count_expr(x, in_par, c) {
                    proof {
                        assert(cs.take(i + 1).last() == cs[i as int]);
                        assert(cs[i as int] == Some(x@));
                    }
                    return false;
                }
            },
            None => {},
        }
        i = i + 1;
    }
    proof {
        assert(cs.take(arms@.len() as int) =~= cs);
    }
    true
}

/// A prefix of a list counts no more than the whole list.
proof fn lemma_count_all_prefix(xs: Seq<ExprV>, k: int, in_par: bool)
    requires
        0 <= k <= xs.len(),
    ensures
        count_all(xs.take(k), in_par).sites <= count_all(xs, in_par).sites,
        count_all(xs.take(k), in_par).max_calls <= count_all(xs, in_par).max_calls,
    decreases xs.len(),
{
    if k < xs.len() {
        assert(xs.drop_last().take(k) =~= xs.take(k));
        lemma_count_all_prefix(xs.drop_last(), k, in_par);
    } else {
        assert(xs.take(k) =~= xs);
    }
}

proof fn lemma_count_conds_prefix(cs: Seq<Option<ExprV>>, k: int, in_par: bool)
    requires
        0 <= k <= cs.len(),
    ensures
        count_conds(cs.take(k), in_par).sites <= count_conds(cs, in_par).sites,
        count_conds(cs.take(k), in_par).max_calls <= count_conds(cs, in_par).max_calls,
    decreases cs.len(),
{
    if k < cs.len() {
        assert(cs.drop_last().take(k) =~= cs.take(k));
        lemma_count_conds_prefix(cs.drop_last(), k, in_par);
    } else {
        assert(cs.take(k) =~= cs);
    }
}

} // verus!

verus! {

/// `n` calls at $0.001 written with three decimals: `n / 1000`, a point,
/// and `n % 1000` in three digits.
pub open spec fn milli(n: nat) -> Seq<char> {
    let f = n % 1000;
    nat_str(n / 1000) + seq![
        '.',
        digit_char((f / 100) as u8),
        digit_char(((f / 10) % 10) as u8),
        digit_char((f % 10) as u8),
    ]
}

fn push_milli(out: &mut String, n: usize)
    ensures
        final(out)@ == old(out)@ + milli(n as nat),
{
    push_usize(out, n / 1000);
    let f = n % 1000;
    push_char(out, '.');
    push_char(out, ((f / 100) as u8 + 48) as char);
    push_char(out, (((f / 10) % 10) as u8 + 48) as char);
    push_char(out, ((f % 10) as u8 + 48) as char);
    assert(out@ =~= old(out)@ + milli(n as nat));
}

/// The first part of a fn's report line: its own sites and costs.
pub open spec fn head_v(name: Seq<char>, c: CountV) -> Seq<char> {
    "  "@ + name + ": "@ + nat_str(c.sites) + " llm call site(s), min $"@ + milli(c.sites)
        + ", max $"@ + milli(c.max_calls) + if c.dynamic {
        "  (× collection size inside par map — runtime-dependent)"@
    } else {
        ""@
    }
}

/// The costs through the fns it calls, when those add anything.
pub open spec fn callees_v(c: CountV, t: CountV) -> Seq<char> {
    if t.sites != c.sites || t.max_calls != c.max_calls {
        "  (incl. callees: min $"@ + milli(t.sites) + ", max $"@ + milli(t.max_calls) + (if t.dynamic
            && !c.dynamic {
            ", × collection size via par map"@
        } else {
            ""@
        }) + ")"@
    } else {
        Seq::empty()
    }
}

/// The report line of one fn: its direct count `c` and, where it differs,
/// its transitive count `t`.
pub open spec fn line_v(name: Seq<char>, c: CountV, t: CountV) -> Seq<char> {
    head_v(name, c) + callees_v(c, t) + "\n"@
}

/// Appends the report line of one fn.
#[verifier::spinoff_prover]
#[verifier::rlimit(50)]
pub fn line(out: &mut String, name: &str, c: &Count, t: &Count)
    ensures
        final(out)@ == old(out)@ + line_v(name@, count_v(*c), count_v(*t)),
{
    let note = if c.dynamic {
        "  (× collection size inside par map — runtime-dependent)"
    } else {
        ""
    };
    push_str(out, "  ");
    push_str(out, name);
    push_str(out, ": ");
    push_usize(out, c.sites);
    push_str(out, " llm call site(s), min $");
    push_milli(out, c.sites);
    push_str(out, ", max $");
    push_milli(out, c.max_calls);
    push_str(out, note);
    let ghost o = out@;
    assert(o =~= old(out)@ + head_v(name@, count_v(*c)));
    if t.sites != c.sites || t.max_calls != c.max_calls {
        let pdyn = if t.dynamic && !c.dynamic {
            ", × collection size via par map"
        } else {
            ""
        };
        push_str(out, "  (incl. callees: min $");
        push_milli(out, t.sites);
        push_str(out, ", max $");
        push_milli(out, t.max_calls);
        push_str(out, pdyn);
        push_str(out, ")");
        assert(out@ =~= o + callees_v(count_v(*c), count_v(*t)));
    } else {
        assert(out@ =~= o + callees_v(count_v(*c), count_v(*t)));
    }
    push_str(out, "\n");
    assert(out@ =~= old(out)@ + line_v(name@, count_v(*c), count_v(*t)));
}

} // verus!

verus! {

/// How many of the first `n` graph keys are not yet seen.
pub open spec fn unseen(gk: Seq<Seq<char>>, seen: Set<Seq<char>>, n: nat) -> nat
    decreases n,
{
    if n == 0 || n > gk.len() {
        0
    } else {
        unseen(gk, seen, (n - 1) as nat) + if seen.contains(gk[n - 1]) {
            0nat
        } else {
            1nat
        }
    }
}

pub proof fn lemma_unseen_insert(gk: Seq<Seq<char>>, seen: Set<Seq<char>>, x: Seq<char>, n: nat)
    requires
        n <= gk.len(),
    ensures
        unseen(gk, seen.insert(x), n) <= unseen(gk, seen, n),
        !seen.contains(x) && (exists|i: int| 0 <= i < n && gk[i] == x) ==> unseen(
            gk,
            seen.insert(x),
            n,
        ) < unseen(gk, seen, n),
    decreases n,
{
    if n > 0 {
        lemma_unseen_insert(gk, seen, x, (n - 1) as nat);
        if !seen.contains(x) && (exists|i: int| 0 <= i < n && gk[i] == x) {
            if gk[n - 1] != x {
                let i = choose|i: int| 0 <= i < n && gk[i] == x;
                assert(0 <= i < n - 1);
            }
        }
    }
}

/// The edges of a graph node, each marked as crossed inside `par map`
/// when the path to the node already was.
pub open spec fn mark(es: Seq<(Seq<char>, bool)>, via_par: bool) -> Seq<(Seq<char>, bool)> {
    Seq::new(es.len(), |k: int| (es[k].0, via_par || es[k].1))
}

/// The depth-first walk of `transitive`: pop a name; if not seen yet, mark
/// it seen, add its direct count (dynamic when reached inside `par map`)
/// and push its callees.
pub open spec fn dfs(
    dk: Seq<Seq<char>>,
    dc: Seq<CountV>,
    gk: Seq<Seq<char>>,
    ge: Seq<Seq<(Seq<char>, bool)>>,
    stack: Seq<(Seq<char>, bool)>,
    seen: Set<Seq<char>>,
    t: CountV,
) -> CountV
    decreases unseen(gk, seen, gk.len()), stack.len(),
{
    if stack.len() == 0 {
        t
    } else {
        let (name, vp) = stack.last();
        let rest = stack.drop_last();
        if seen.contains(name) {
            dfs(dk, dc, gk, ge, rest, seen, t)
        } else {
            let t2 = match crate::json::find_key(dk, name, 0) {
                Some(i) => CountV {
                    sites: t.sites + dc[i].sites,
                    max_calls: t.max_calls + dc[i].max_calls,
                    dynamic: t.dynamic || dc[i].dynamic || vp,
                },
                None => t,
            };
            proof {
                lemma_unseen_insert(gk, seen, name, gk.len());
                crate::json::lemma_find_key(gk, name, 0);
            }
            match crate::json::find_key(gk, name, 0) {
                Some(i) => if i < ge.len() {
                    dfs(dk, dc, gk, ge, rest + mark(ge[i], vp), seen.insert(name), t2)
                } else {
                    t2
                },
                None => dfs(dk, dc, gk, ge, rest, seen.insert(name), t2),
            }
        }
    }
}

pub proof fn lemma_dfs_grows(
    dk: Seq<Seq<char>>,
    dc: Seq<CountV>,
    gk: Seq<Seq<char>>,
    ge: Seq<Seq<(Seq<char>, bool)>>,
    stack: Seq<(Seq<char>, bool)>,
    seen: Set<Seq<char>>,
    t: CountV,
)
    ensures
        t.sites <= dfs(dk, dc, gk, ge, stack, seen, t).sites,
        t.max_calls <= dfs(dk, dc, gk, ge, stack, seen, t).max_calls,
    decreases unseen(gk, seen, gk.len()), stack.len(),
{
    if stack.len() > 0 {
        let (name, vp) = stack.last();
        let rest = stack.drop_last();
        if seen.contains(name) {
            lemma_dfs_grows(dk, dc, gk, ge, rest, seen, t);
        } else {
            let t2 = match crate::json::find_key(dk, name, 0) {
                Some(i) => CountV {
                    sites: t.sites + dc[i].sites,
                    max_calls: t.max_calls + dc[i].max_calls,
                    dynamic: t.dynamic || dc[i].dynamic || vp,
                },
                None => t,
            };
            lemma_unseen_insert(gk, seen, name, gk.len());
            crate::json::lemma_find_key(gk, name, 0);
            match crate::json::find_key(gk, name, 0) {
                Some(i) => if i < ge.len() {
                    lemma_dfs_grows(dk, dc, gk, ge, rest + mark(ge[i], vp), seen.insert(name), t2);
                },
                None => {
                    lemma_dfs_grows(dk, dc, gk, ge, rest, seen.insert(name), t2);
                },
            }
        }
    }
}

/// The counts of a map from fn names to counts.
pub open spec fn count_views(direct: Seq<(String, Count)>) -> Seq<CountV> {
    Seq::new(
        direct.len(),
        |i: int|
            CountV {
                sites: direct[i].1.sites as nat,
                max_calls: direct[i].1.max_calls as nat,
                dynamic: direct[i].1.dynamic,
            },
    )
}

pub open spec fn name_views<T>(m: Seq<(String, T)>) -> Seq<Seq<char>> {
    Seq::new(m.len(), |i: int| m[i].0@)
}

pub open spec fn edge_views(es: Seq<(String, bool)>) -> Seq<(Seq<char>, bool)> {
    Seq::new(es.len(), |k: int| (es[k].0@, es[k].1))
}

pub open spec fn graph_edges(graph: Seq<(String, Vec<(String, bool)>)>) -> Seq<
    Seq<(Seq<char>, bool)>,
> {
    Seq::new(graph.len(), |i: int| edge_views(graph[i].1@))
}

/// Direct count plus every llm site reachable through the call graph, each
/// fn counted once; an edge crossed inside a `par map` body makes the count
/// collection-size-dependent.
pub open spec fn transitive_v(
    start: Seq<char>,
    direct: Seq<(String, Count)>,
    graph: Seq<(String, Vec<(String, bool)>)>,
) -> CountV {
    dfs(
        name_views(direct),
        count_views(direct),
        name_views(graph),
        graph_edges(graph),
        seq![(start, false)],
        Set::empty(),
        CountV { sites: 0, max_calls: 0, dynamic: false },
    )
}

} // verus!

verus! {

/// The index of the first entry named `name`.
fn find_name<T>(m: &Vec<(String, T)>, name: &str) -> (r: Option<usize>)
    ensures
        match r {
            Some(i) => crate::json::find_key(name_views(m@), name@, 0) == Some(i as int),
            None => crate::json::find_key(name_views(m@), name@, 0) is None,
        },
{
    let mut i: usize = 0;
    while i < m.len()
        invariant
            i <= m@.len(),
            crate::json::find_key(name_views(m@), name@, i as int) == crate::json::find_key(
                name_views(m@),
                name@,
                0,
            ),
        decreases m@.len() - i,
    {
        if crate::text::str_eq(m[i].0.as_str(), name) {
            return Some(i);
        }
        i = i + 1;
    }
    None
}

fn contains_name(v: &Vec<String>, x: &str) -> (r: bool)
    ensures
        r == exists|i: int| 0 <= i < v@.len() && v@[i]@ == x@,
{
    let mut i: usize = 0;
    while i < v.len()
        invariant
            i <= v@.len(),
            forall|j: int| 0 <= j < i ==> v@[j]@ != x@,
        decreases v@.len() - i,
    {
        if crate::text::str_eq(v[i].as_str(), x) {
            return true;
        }
        i = i + 1;
    }
    false
}

/// Direct count plus every llm site reachable from `start` through the
/// call graph (cycle-safe; each fn counted once). An edge crossed inside a
/// `par map` body makes the count collection-size-dependent. `None` when
/// a count does not fit in a `usize`.
pub fn transitive(
    start: &str,
    direct: &Vec<(String, Count)>,
    graph: &Vec<(String, Vec<(String, bool)>)>,
) -> (r: Option<Count>)
    ensures
        r is Some <==> fits(transitive_v(start@, direct@, graph@)),
        r matches Some(t) ==> count_v(t) == transitive_v(start@, direct@, graph@),
{
    let ghost dk = name_views(direct@);
    let ghost dc = count_views(direct@);
    let ghost gk = name_views(graph@);
    let ghost ge = graph_edges(graph@);
    let ghost fin = transitive_v(start@, direct@, graph@);
    let mut t = Count { sites: 0, max_calls: 0, dynamic: false };
    let mut seen: Vec<String> = Vec::new();
    let ghost mut seen_set: Set<Seq<char>> = Set::empty();
    let mut stack: Vec<(String, bool)> = Vec::new();
    stack.push((crate::text::string_of(start), false));
    proof {
        assert(edge_views(stack@) =~= seq![(start@, false)]);
    }
    while stack.len() > 0
        invariant
            dk == name_views(direct@),
            dc == count_views(direct@),
            gk == name_views(graph@),
            ge == graph_edges(graph@),
            fin == transitive_v(start@, direct@, graph@),
            forall|x: Seq<char>|
                seen_set.contains(x) <==> exists|i: int| 0 <= i < seen@.len() && seen@[i]@ == x,
            dfs(dk, dc, gk, ge, edge_views(stack@), seen_set, count_v(t)) == fin,
        decreases unseen(gk, seen_set, gk.len()), stack@.len(),
    {
        let ghost sv = edge_views(stack@);
        let (name, vp) = stack.pop().unwrap();
        proof {
            assert(sv.last() == (name@, vp));
            assert(edge_views(stack@) =~= sv.drop_last());
        }
        if !contains_name(&seen, name.as_str()) {
            proof {
                lemma_unseen_insert(gk, seen_set, name@, gk.len());
                crate::json::lemma_find_key(gk, name@, 0);
                crate::json::lemma_find_key(dk, name@, 0);
            }
            let ghost t0 = count_v(t);
            match find_name(direct, name.as_str()) {
                Some(i) => {
                    let ghost t2 = CountV {
                        sites: t0.sites + dc[i as int].sites,
                        max_calls: t0.max_calls + dc[i as int].max_calls,
                        dynamic: t0.dynamic || dc[i as int].dynamic || vp,
                    };
                    proof {
                        let rest = sv.drop_last();
                        match crate::json::find_key(gk, name@, 0) {
                            Some(g) => if g < ge.len() {
                                lemma_dfs_grows(dk, dc, gk, ge, rest + mark(ge[g], vp), seen_set.insert(name@), t2);
                            },
                            None => {
                                lemma_dfs_grows(dk, dc, gk, ge, rest, seen_set.insert(name@), t2);
                            },
                        }
                    }
                    let c = &direct[i].1;
                    if !bump(&mut t, c.sites, c.max_calls, c.dynamic || vp) {
                        return None;
                    }
                },
                None => {},
            }
            let ghost tnew = count_v(t);
            let nm = name.clone();
            let ghost seen0 = seen@;
            let ghost set0 = seen_set;
            seen.push(nm);
            proof {
                seen_set = set0.insert(name@);
                assert forall|x: Seq<char>| seen_set.contains(x) <==> exists|i: int|
                    0 <= i < seen@.len() && seen@[i]@ == x by {
                    if seen_set.contains(x) {
                        if x == name@ {
                            assert(seen@[seen@.len() - 1]@ == x);
                        } else {
                            assert(set0.contains(x));
                            let i = choose|i: int| 0 <= i < seen0.len() && seen0[i]@ == x;
                            assert(seen@[i] == seen0[i]);
                        }
                    }
                    if exists|i: int| 0 <= i < seen@.len() && seen@[i]@ == x {
                        let i = choose|i: int| 0 <= i < seen@.len() && seen@[i]@ == x;
                        if i < seen@.len() - 1 {
                            assert(seen@[i] == seen0[i]);
                            assert(set0.contains(x));
                        }
                    }
                }
            }
            match find_name(graph, name.as_str()) {
                Some(g) => {
                    let es = &graph[g].1;
                    let ghost base = edge_views(stack@);
                    let mut k: usize = 0;
                    while k < es.len()
                        invariant
                            k <= es@.len(),
                            edge_views(stack@) == base + mark(edge_views(es@), vp).take(k as int),
                        decreases es@.len() - k,
                    {
                        let callee = es[k].0.clone();
                        let par = es[k].1;
                        let ghost prev = stack@;
                        stack.push((callee, vp || par));
                        proof {
                            assert(edge_views(stack@) =~= edge_views(prev).push((es@[k as int].0@, vp || par)));
                            assert(mark(edge_views(es@), vp).take(k + 1) =~= mark(edge_views(es@), vp).take(
                                k as int,
                            ).push((es@[k as int].0@, vp || par)));
                        }
                        k = k + 1;
                        proof {
                            assert(edge_views(stack@) =~= base + mark(edge_views(es@), vp).take(
                                k as int,
                            ));
                        }
                    }
                    proof {
                        assert(mark(edge_views(es@), vp).take(k as int) =~= mark(ge[g as int], vp));
                    }
                },
                None => {},
            }
        }
    }
    Some(t)
}

} // verus!

verus! {

/// The transitive count includes the fn's own direct count.
pub proof fn law_transitive_includes_direct(
    start: Seq<char>,
    direct: Seq<(String, Count)>,
    graph: Seq<(String, Vec<(String, bool)>)>,
    i: int,
)
    requires
        crate::json::find_key(name_views(direct), start, 0) == Some(i),
    ensures
        transitive_v(start, direct, graph).sites >= direct[i].1.sites,
        transitive_v(start, direct, graph).max_calls >= direct[i].1.max_calls,
{
    let dk = name_views(direct);
    let dc = count_views(direct);
    let gk = name_views(graph);
    let ge = graph_edges(graph);
    let stack = seq![(start, false)];
    let t0 = CountV { sites: 0, max_calls: 0, dynamic: false };
    let t2 = CountV {
        sites: t0.sites + dc[i].sites,
        max_calls: t0.max_calls + dc[i].max_calls,
        dynamic: t0.dynamic || dc[i].dynamic || false,
    };
    let rest = stack.drop_last();
    assert(!Set::<Seq<char>>::empty().contains(start));
    crate::json::lemma_find_key(dk, start, 0);
    crate::json::lemma_find_key(gk, start, 0);
    match crate::json::find_key(gk, start, 0) {
        Some(g) => if g < ge.len() {
            lemma_dfs_grows(dk, dc, gk, ge, rest + mark(ge[g], false), Set::empty().insert(start), t2);
        },
        None => {
            lemma_dfs_grows(dk, dc, gk, ge, rest, Set::empty().insert(start), t2);
        },
    }
}

/// A fn that calls no other fn costs, transitively, exactly its direct
/// count.
pub proof fn law_leaf_transitive_is_direct(
    start: Seq<char>,
    direct: Seq<(String, Count)>,
    graph: Seq<(String, Vec<(String, bool)>)>,
    i: int,
)
    requires
        crate::json::find_key(name_views(direct), start, 0) == Some(i),
        crate::json::find_key(name_views(graph), start, 0) is None,
    ensures
        transitive_v(start, direct, graph) == count_v(direct[i].1),
{
    let dk = name_views(direct);
    let dc = count_views(direct);
    let gk = name_views(graph);
    let ge = graph_edges(graph);
    let stack = seq![(start, false)];
    let rest = stack.drop_last();
    assert(rest =~= Seq::<(Seq<char>, bool)>::empty());
    assert(!Set::<Seq<char>>::empty().contains(start));
    crate::json::lemma_find_key(dk, start, 0);
    let t2 = CountV {
        sites: 0 + dc[i].sites,
        max_calls: 0 + dc[i].max_calls,
        dynamic: false || dc[i].dynamic || false,
    };
    assert(dfs(dk, dc, gk, ge, rest, Set::empty().insert(start), t2) == t2);
    assert(t2 == count_v(direct[i].1));
}

} // verus!

verus! {

/// Appends the calls of `e` on plain names (builtins aside), each marked as
/// made inside a `par map` body or not.
#[verifier::spinoff_prover]
#[verifier::rlimit(50)]
fn collect_calls(e: &Expr, in_par: bool, out: &mut Vec<(String, bool)>)
    ensures
        edge_views(final(out)@) == edge_views(old(out)@) + edges_e(e@, in_par),
    decreases e,
{
    let ghost o0 = edge_views(out@);
    match e {
        Expr::LlmCall { prompt, options, .. } => {
            proof {
                assert(e@->LlmCall_2 =~= kvals_v(options@));
            }
            collect_calls(&**prompt, in_par, out);
            collect_kv(options, in_par, out);
            assert(edge_views(out@) =~= o0 + edges_e(e@, in_par));
        },
        Expr::Call { func, args, kwargs } => {
            let ghost h: Seq<(Seq<char>, bool)>;
            match &**func {
                Expr::Ident(n) => {
                    assert((**func)@ == ExprV::Ident(n@));
                    let s = n.as_str();
                    if str_eq(s, "len") || str_eq(s, "zip") || str_eq(s, "replay") || str_eq(s, "mcp")
                        || str_eq(s, "python") {
                        proof {
                            h = Seq::empty();
                        }
                    } else {
                        let ghost b = edge_views(out@);
                        out.push((n.clone(), in_par));
                        proof {
                            assert(edge_views(out@) =~= b.push((n@, in_par)));
                            h = seq![(n@, in_par)];
                        }
                    }
                },
                _ => {
                    proof {
                        h = Seq::empty();
                    }
                },
            }
            proof {
                assert(edge_views(out@) =~= o0 + h);
                assert(e@->Call_1 =~= exprs_v(args@));
                assert(e@->Call_3 =~= kvals_v(kwargs@));
            }
            collect_calls(&**func, in_par, out);
            collect_list(args, in_par, out);
            collect_kv(kwargs, in_par, out);
            assert(edge_views(out@) =~= o0 + edges_e(e@, in_par));
        },
        Expr::ListLit(xs) => {
            proof {
                assert(e@->ListLit_0 =~= exprs_v(xs@));
            }
            collect_list(xs, in_par, out);
        },
        Expr::ParAll(xs) => {
            proof {
                assert(e@->ParAll_0 =~= exprs_v(xs@));
            }
            collect_list(xs, in_par, out);
        },
        Expr::ParRace(xs) => {
            proof {
                assert(e@->ParRace_0 =~= exprs_v(xs@));
            }
            collect_list(xs, in_par, out);
        },
        Expr::Field { obj, .. } => {
            collect_calls(&**obj, in_par, out);
        },
        Expr::Binary { l, r, .. } => {
            collect_calls(&**l, in_par, out);
            collect_calls(&**r, in_par, out);
            assert(edge_views(out@) =~= o0 + edges_e(e@, in_par));
        },
        Expr::Merge { l, r } => {
            collect_calls(&**l, in_par, out);
            collect_calls(&**r, in_par, out);
            assert(edge_views(out@) =~= o0 + edges_e(e@, in_par));
        },
        Expr::Unary { x, .. } => {
            collect_calls(&**x, in_par, out);
        },
        Expr::ParMap { coll, kwargs, body, .. } => {
            proof {
                assert(e@->ParMap_2 =~= kvals_v(kwargs@));
            }
            collect_calls(&**coll, in_par, out);
            collect_kv(kwargs, in_par, out);
            collect_calls(&**body, true, out);
            assert(edge_views(out@) =~= o0 + edges_e(e@, in_par));
        },
        Expr::Route { arms } => {
            proof {
                assert(e@->Route_2 =~= conds_of(arms@));
            }
            collect_arms(arms, in_par, out);
        },
        _ => {
            assert(edge_views(out@) =~= o0 + edges_e(e@, in_par));
        },
    }
}

fn collect_list(xs: &Vec<Expr>, in_par: bool, out: &mut Vec<(String, bool)>)
    ensures
        edge_views(final(out)@) == edge_views(old(out)@) + edges_all(exprs_v(xs@), in_par),
    decreases xs,
{
    let ghost o0 = edge_views(out@);
    let ghost xv = exprs_v(xs@);
    let mut i: usize = 0;
    proof {
        assert(xv.take(0) =~= Seq::<ExprV>::empty());
        assert(edge_views(out@) =~= o0 + Seq::<(Seq<char>, bool)>::empty());
    }
    while i < xs.len()
        invariant
            i <= xs@.len() == xv.len(),
            xv == exprs_v(xs@),
            o0 == edge_views(old(out)@),
            edge_views(out@) == o0 + edges_all(xv.take(i as int), in_par),
        decreases xs@.len() - i,
    {
        proof {
            assert(xv.take(i + 1).drop_last() =~= xv.take(i as int));
        }
        collect_calls(&xs[i], in_par, out);
        proof {
            assert(edge_views(out@) =~= o0 + edges_all(xv.take(i + 1), in_par));
        }
        i = i + 1;
    }
    proof {
        assert(xv.take(xs@.len() as int) =~= xv);
    }
}

fn collect_kv(kv: &Vec<(String, Expr)>, in_par: bool, out: &mut Vec<(String, bool)>)
    ensures
        edge_views(final(out)@) == edge_views(old(out)@) + edges_all(kvals_v(kv@), in_par),
    decreases kv,
{
    let ghost o0 = edge_views(out@);
    let ghost xv = kvals_v(kv@);
    let mut i: usize = 0;
    proof {
        assert(xv.take(0) =~= Seq::<ExprV>::empty());
        assert(edge_views(out@) =~= o0 + Seq::<(Seq<char>, bool)>::empty());
    }
    while i < kv.len()
        invariant
            i <= kv@.len() == xv.len(),
            xv == kvals_v(kv@),
            o0 == edge_views(old(out)@),
            edge_views(out@) == o0 + edges_all(xv.take(i as int), in_par),
        decreases kv@.len() - i,
    {
        proof {
            assert(xv.take(i + 1).drop_last() =~= xv.take(i as int));
        }
        collect_calls(&kv[i].1, in_par, out);
        proof {
            assert(edge_views(out@) =~= o0 + edges_all(xv.take(i + 1), in_par));
        }
        i = i + 1;
    }
    proof {
        assert(xv.take(kv@.len() as int) =~= xv);
    }
}

fn collect_arms(arms: &Vec<(String, String, Option<Expr>)>, in_par: bool, out: &mut Vec<(String, bool)>)
    ensures
        edge_views(final(out)@) == edge_views(old(out)@) + edges_conds(conds_of(arms@), in_par),
    decreases arms,
{
    let ghost o0 = edge_views(out@);
    let ghost cs = conds_of(arms@);
    let mut i: usize = 0;
    proof {
        assert(cs.take(0) =~= Seq::<Option<ExprV>>::empty());
        assert(edge_views(out@) =~= o0 + Seq::<(Seq<char>, bool)>::empty());
    }
    while i < arms.len()
        invariant
            i <= arms@.len() == cs.len(),
            cs == conds_of(arms@),
            o0 == edge_views(old(out)@),
            edge_views(out@) == o0 + edges_conds(cs.take(i as int), in_par),
        decreases arms@.len() - i,
    {
        proof {
            assert(cs.take(i + 1).drop_last() =~= cs.take(i as int));
        }
        let ghost before = edge_views(out@);
        match &arms[i].2 {
            Some(x) => {
                collect_calls(x, in_par, out);
            },
            None => {
                assert(edge_views(out@) =~= before + Seq::<(Seq<char>, bool)>::empty());
            },
        }
        proof {
            assert(edge_views(out@) =~= o0 + edges_conds(cs.take(i + 1), in_par));
        }
        i = i + 1;
    }
    proof {
        assert(cs.take(arms@.len() as int) =~= cs);
    }
}

} // verus!

verus! {

/// The expression a statement evaluates.
pub open spec fn stmt_expr(k: StmtKindV) -> ExprV {
    match k {
        StmtKindV::Let(_, _, v, _) => v,
        StmtKindV::StateWrite(_, _, v) => v,
        StmtKindV::Assert(e) => e,
        StmtKindV::ExprStmt(e) => e,
    }
}

/// The llm call sites of a fn body.
pub open spec fn body_count(body: Seq<StmtV>) -> CountV
    decreases body.len(),
{
    if body.len() == 0 {
        czero()
    } else {
        cadd(body_count(body.drop_last()), count_e(stmt_expr(body.last().kind), false))
    }
}

/// The calls of a fn body on plain names.
pub open spec fn body_edges(body: Seq<StmtV>) -> Seq<(Seq<char>, bool)>
    decreases body.len(),
{
    if body.len() == 0 {
        Seq::empty()
    } else {
        body_edges(body.drop_last()) + edges_e(stmt_expr(body.last().kind), false)
    }
}

proof fn lemma_body_count_prefix(body: Seq<StmtV>, k: int)
    requires
        0 <= k <= body.len(),
    ensures
        body_count(body.take(k)).sites <= body_count(body).sites,
        body_count(body.take(k)).max_calls <= body_count(body).max_calls,
    decreases body.len(),
{
    if k < body.len() {
        assert(body.drop_last().take(k) =~= body.take(k));
        lemma_body_count_prefix(body.drop_last(), k);
    } else {
        assert(body.take(k) =~= body);
    }
}

pub(crate) fn stmt_value(s: &Stmt) -> (e: &Expr)
    ensures
        e@ == stmt_expr(s@.kind),
{
    match &s.kind {
        StmtKind::Let { value, .. } => value,
        StmtKind::StateWrite { value, .. } => value,
        StmtKind::Assert(e) => e,
        StmtKind::ExprStmt(e) => e,
    }
}

/// Adds the llm call sites of a fn body to `c`; false on overflow.
fn count_body(body: &Vec<Stmt>, c: &mut Count) -> (ok: bool)
    ensures
        ok <==> fits(cadd(count_v(*old(c)), body_count(stmts_v(body@)))),
        ok ==> count_v(*final(c)) == cadd(count_v(*old(c)), body_count(stmts_v(body@))),
{
    let ghost c0 = count_v(*c);
    let ghost bv = stmts_v(body@);
    let mut i: usize = 0;
    proof {
        assert(bv.take(0) =~= Seq::<StmtV>::empty());
    }
    while i < body.len()
        invariant
            i <= body@.len() == bv.len(),
            bv == stmts_v(body@),
            c0 == count_v(*old(c)),
            count_v(*c) == cadd(c0, body_count(bv.take(i as int))),
        decreases body@.len() - i,
    {
        proof {
            assert(bv.take(i + 1).drop_last() =~= bv.take(i as int));
            assert(bv.take(i + 1).last() == bv[i as int]);
            lemma_body_count_prefix(bv, i + 1);
        }
        if !count_expr(stmt_value(&body[i]), false, c) {
            return false;
        }
        i = i + 1;
    }
    proof {
        assert(bv.take(body@.len() as int) =~= bv);
    }
    true
}

/// Appends the calls of a fn body on plain names.
fn collect_body(body: &Vec<Stmt>, out: &mut Vec<(String, bool)>)
    ensures
        edge_views(final(out)@) == edge_views(old(out)@) + body_edges(stmts_v(body@)),
{
    let ghost o0 = edge_views(out@);
    let ghost bv = stmts_v(body@);
    let mut i: usize = 0;
    proof {
        assert(bv.take(0) =~= Seq::<StmtV>::empty());
        assert(edge_views(out@) =~= o0 + Seq::<(Seq<char>, bool)>::empty());
    }
    while i < body.len()
        invariant
            i <= body@.len() == bv.len(),
            bv == stmts_v(body@),
            o0 == edge_views(old(out)@),
            edge_views(out@) == o0 + body_edges(bv.take(i as int)),
        decreases body@.len() - i,
    {
        proof {
            assert(bv.take(i + 1).drop_last() =~= bv.take(i as int));
            assert(bv.take(i + 1).last() == bv[i as int]);
        }
        collect_calls(stmt_value(&body[i]), false, out);
        proof {
            assert(edge_views(out@) =~= o0 + body_edges(bv.take(i + 1)));
        }
        i = i + 1;
    }
    proof {
        assert(bv.take(body@.len() as int) =~= bv);
    }
}

} // verus!

verus! {

/// The fns of an agent: its name and the fn's name joined by a dot, the
/// fn's own name, and its body.
pub open spec fn agent_entries(agent: Seq<char>, fns: Seq<ItemV>) -> Seq<
    (Seq<char>, Seq<char>, Seq<StmtV>),
>
    decreases fns.len(),
{
    if fns.len() == 0 {
        Seq::empty()
    } else {
        let a = agent_entries(agent, fns.drop_last());
        match fns.last() {
            ItemV::Fn(n, _, _, _, body) => a.push((agent + "."@ + n, n, body)),
            _ => a,
        }
    }
}

/// Every fn of a program, in order, as (name shown, plain name, body);
/// the fns of an agent are shown as `agent.fn`.
pub open spec fn fn_entries(items: Seq<ItemV>) -> Seq<(Seq<char>, Seq<char>, Seq<StmtV>)>
    decreases items.len(),
{
    if items.len() == 0 {
        Seq::empty()
    } else {
        let a = fn_entries(items.drop_last());
        match items.last() {
            ItemV::Fn(n, _, _, _, body) => a.push((n, n, body)),
            ItemV::Agent(n, _, _, _, fns) => a + agent_entries(n, fns),
            _ => a,
        }
    }
}

/// The names keyed after the first `n` fns, each once, in the order first
/// seen.
pub open spec fn dkeys(es: Seq<(Seq<char>, Seq<char>, Seq<StmtV>)>, n: nat) -> Seq<Seq<char>>
    decreases n,
{
    if n == 0 || n > es.len() {
        Seq::empty()
    } else {
        let ks = dkeys(es, (n - 1) as nat);
        if find_key(ks, es[n - 1].1, 0) is Some {
            ks
        } else {
            ks.push(es[n - 1].1)
        }
    }
}

/// The direct count kept for each key: that of the last fn of that name.
pub open spec fn dvals(es: Seq<(Seq<char>, Seq<char>, Seq<StmtV>)>, n: nat) -> Seq<CountV>
    decreases n,
{
    if n == 0 || n > es.len() {
        Seq::empty()
    } else {
        let vs = dvals(es, (n - 1) as nat);
        let c = body_count(es[n - 1].2);
        match find_key(dkeys(es, (n - 1) as nat), es[n - 1].1, 0) {
            Some(i) => vs.update(i, c),
            None => vs.push(c),
        }
    }
}

/// The calls kept for each key: those of the last fn of that name.
pub open spec fn gvals(es: Seq<(Seq<char>, Seq<char>, Seq<StmtV>)>, n: nat) -> Seq<
    Seq<(Seq<char>, bool)>,
>
    decreases n,
{
    if n == 0 || n > es.len() {
        Seq::empty()
    } else {
        let vs = gvals(es, (n - 1) as nat);
        let g = body_edges(es[n - 1].2);
        match find_key(dkeys(es, (n - 1) as nat), es[n - 1].1, 0) {
            Some(i) => vs.update(i, g),
            None => vs.push(g),
        }
    }
}

/// The direct count kept under the name `p`.
pub open spec fn direct_of(es: Seq<(Seq<char>, Seq<char>, Seq<StmtV>)>, p: Seq<char>) -> CountV {
    match find_key(dkeys(es, es.len()), p, 0) {
        Some(i) => dvals(es, es.len())[i],
        None => czero(),
    }
}

/// The count of `p` through the call graph.
pub open spec fn trans_of(es: Seq<(Seq<char>, Seq<char>, Seq<StmtV>)>, p: Seq<char>) -> CountV {
    let n = es.len();
    dfs(
        dkeys(es, n),
        dvals(es, n),
        dkeys(es, n),
        gvals(es, n),
        seq![(p, false)],
        Set::empty(),
        czero(),
    )
}

/// The report lines of the first `n` fns.
pub open spec fn lines_v(es: Seq<(Seq<char>, Seq<char>, Seq<StmtV>)>, n: nat) -> Seq<char>
    decreases n,
{
    if n == 0 || n > es.len() {
        Seq::empty()
    } else {
        lines_v(es, (n - 1) as nat) + line_v(
            es[n - 1].0,
            direct_of(es, es[n - 1].1),
            trans_of(es, es[n - 1].1),
        )
    }
}

/// The sum of the direct counts of the first `n` fns, each looked up by
/// its plain name.
pub open spec fn total_v(es: Seq<(Seq<char>, Seq<char>, Seq<StmtV>)>, n: nat) -> CountV
    decreases n,
{
    if n == 0 || n > es.len() {
        czero()
    } else {
        cadd(total_v(es, (n - 1) as nat), direct_of(es, es[n - 1].1))
    }
}

/// The cost report of a program: a header, one line per fn, and a total
/// line that sums the direct counts only.
pub open spec fn report_v(items: Seq<ItemV>) -> Seq<char> {
    let es = fn_entries(items);
    let tot = total_v(es, es.len());
    "cost report (fake pricing, $0.001 per call)\n"@ + lines_v(es, es.len()) + line_v(
        "total"@,
        tot,
        tot,
    )
}

/// Every count the report adds up fits in a `usize`.
pub open spec fn fits_report(items: Seq<ItemV>) -> bool {
    let es = fn_entries(items);
    &&& forall|j: int| #![trigger es[j]] 0 <= j < es.len() ==> fits(body_count(es[j].2))
    &&& forall|j: int| #![trigger es[j]] 0 <= j < es.len() ==> fits(trans_of(es, es[j].1))
    &&& fits(total_v(es, es.len()))
}

pub proof fn lemma_find_key_exists(ks: Seq<Seq<char>>, x: Seq<char>, i: int)
    requires
        0 <= i,
    ensures
        (find_key(ks, x, i) is Some) == (exists|j: int| i <= j < ks.len() && ks[j] == x),
    decreases ks.len() - i,
{
    if i < ks.len() && ks[i] != x {
        lemma_find_key_exists(ks, x, i + 1);
        if exists|j: int| i <= j < ks.len() && ks[j] == x {
            let j = choose|j: int| i <= j < ks.len() && ks[j] == x;
            assert(i + 1 <= j);
        }
    }
}

proof fn lemma_maps(es: Seq<(Seq<char>, Seq<char>, Seq<StmtV>)>, n: nat)
    requires
        n <= es.len(),
    ensures
        dkeys(es, n).len() == dvals(es, n).len(),
        dkeys(es, n).len() == gvals(es, n).len(),
        forall|j: int| 0 <= j < n ==> find_key(dkeys(es, n), #[trigger] es[j].1, 0) is Some,
    decreases n,
{
    if n > 0 {
        let m = (n - 1) as nat;
        lemma_maps(es, m);
        let ks = dkeys(es, m);
        lemma_find_key(ks, es[m as int].1, 0);
        assert forall|j: int| 0 <= j < n implies find_key(dkeys(es, n), #[trigger] es[j].1, 0) is Some by {
            let x = es[j].1;
            if j < m {
                lemma_find_key_exists(ks, x, 0);
                let w = choose|w: int| 0 <= w < ks.len() && ks[w] == x;
                lemma_find_key_exists(dkeys(es, n), x, 0);
                assert(dkeys(es, n)[w] == x);
            } else {
                lemma_find_key_exists(ks, x, 0);
                lemma_find_key_exists(dkeys(es, n), x, 0);
                if find_key(ks, x, 0) is None {
                    assert(dkeys(es, n)[ks.len() as int] == x);
                } else {
                    let w = choose|w: int| 0 <= w < ks.len() && ks[w] == x;
                    assert(dkeys(es, n)[w] == x);
                }
            }
        }
    }
}

proof fn lemma_total_mono(es: Seq<(Seq<char>, Seq<char>, Seq<StmtV>)>, k: nat, n: nat)
    requires
        k <= n <= es.len(),
    ensures
        total_v(es, k).sites <= total_v(es, n).sites,
        total_v(es, k).max_calls <= total_v(es, n).max_calls,
    decreases n,
{
    if k < n {
        lemma_total_mono(es, k, (n - 1) as nat);
    }
}

} // verus!

verus! {

pub open spec fn entries_v(es: Seq<(String, String, &Vec<Stmt>)>) -> Seq<
    (Seq<char>, Seq<char>, Seq<StmtV>),
> {
    Seq::new(es.len(), |i: int| (es[i].0@, es[i].1@, stmts_v(es[i].2@)))
}

/// Every fn of a program with the name it is shown under, its plain name
/// and its body.
fn fn_entries_x<'a>(items: &'a [Item]) -> (r: Vec<(String, String, &'a Vec<Stmt>)>)
    ensures
        entries_v(r@) == fn_entries(items_v(items@)),
{
    let ghost iv = items_v(items@);
    let mut out: Vec<(String, String, &'a Vec<Stmt>)> = Vec::new();
    let mut i: usize = 0;
    proof {
        assert(iv.take(0) =~= Seq::<ItemV>::empty());
        assert(entries_v(out@) =~= Seq::<(Seq<char>, Seq<char>, Seq<StmtV>)>::empty());
    }
    while i < items.len()
        invariant
            i <= items@.len() == iv.len(),
            iv == items_v(items@),
            entries_v(out@) == fn_entries(iv.take(i as int)),
        decreases items@.len() - i,
    {
        proof {
            assert(iv.take(i + 1).drop_last() =~= iv.take(i as int));
        }
        let ghost before = entries_v(out@);
        match &items[i] {
            Item::Fn { name, body, .. } => {
                out.push((name.clone(), name.clone(), body));
                proof {
                    assert(entries_v(out@) =~= before.push((name@, name@, stmts_v(body@))));
                }
            },
            Item::Agent { name, fns, .. } => {
                let ghost fv = iv[i as int]->Agent_4;
                assert(fv =~= Seq::new(fns@.len(), |q: int| fns@[q]@));
                let mut j: usize = 0;
                proof {
                    assert(fv.take(0) =~= Seq::<ItemV>::empty());
                    assert(before + agent_entries(name@, fv.take(0)) =~= before);
                }
                while j < fns.len()
                    invariant
                        j <= fns@.len() == fv.len(),
                        fv == Seq::new(fns@.len(), |q: int| fns@[q]@),
                        entries_v(out@) == before + agent_entries(name@, fv.take(j as int)),
                    decreases fns@.len() - j,
                {
                    proof {
                        assert(fv.take(j + 1).drop_last() =~= fv.take(j as int));
                    }
                    let ghost b2 = entries_v(out@);
                    match &fns[j] {
                        Item::Fn { name: f, body, .. } => {
                            let mut shown = name.clone();
                            push_str(&mut shown, ".");
                            push_str(&mut shown, f.as_str());
                            out.push((shown, f.clone(), body));
                            proof {
                                assert(fv[j as int] == fns@[j as int]@);
                                assert(entries_v(out@) =~= b2.push((name@ + "."@ + f@, f@, stmts_v(body@))));
                                assert(before + agent_entries(name@, fv.take(j + 1)) =~= (before
                                    + agent_entries(name@, fv.take(j as int))).push(
                                    (name@ + "."@ + f@, f@, stmts_v(body@)),
                                ));
                            }
                        },
                        _ => {
                            assert(fv[j as int] == fns@[j as int]@);
                        },
                    }
                    j = j + 1;
                }
                proof {
                    assert(fv.take(fns@.len() as int) =~= fv);
                }
            },
            _ => {},
        }
        proof {
            assert(entries_v(out@) == fn_entries(iv.take(i + 1)));
        }
        i = i + 1;
    }
    proof {
        assert(iv.take(items@.len() as int) =~= iv);
    }
    out
}

} // verus!

verus! {

/// The cost report, or `None` when one of its counts does not fit in a
/// `usize`.
#[verifier::spinoff_prover]
#[verifier::rlimit(50)]
fn try_report(items: &[Item]) -> (r: Option<String>)
    ensures
        r is Some <==> fits_report(items_v(items@)),
        r matches Some(s) ==> s@ == report_v(items_v(items@)),
{
    let es = fn_entries_x(items);
    let ghost ev = fn_entries(items_v(items@));
    let mut direct: Vec<(String, Count)> = Vec::new();
    let mut graph: Vec<(String, Vec<(String, bool)>)> = Vec::new();
    let mut k: usize = 0;
    proof {
        assert(name_views(direct@) =~= dkeys(ev, 0));
        assert(count_views(direct@) =~= dvals(ev, 0));
        assert(name_views(graph@) =~= dkeys(ev, 0));
        assert(graph_edges(graph@) =~= gvals(ev, 0));
    }
    while k < es.len()
        invariant
            entries_v(es@) == ev,
            ev == fn_entries(items_v(items@)),
            k <= es@.len() == ev.len(),
            name_views(direct@) == dkeys(ev, k as nat),
            count_views(direct@) == dvals(ev, k as nat),
            name_views(graph@) == dkeys(ev, k as nat),
            graph_edges(graph@) == gvals(ev, k as nat),
            forall|j: int| 0 <= j < k ==> fits(body_count(#[trigger] ev[j].2)),
        decreases es@.len() - k,
    {
        proof {
            lemma_maps(ev, k as nat);
            assert(ev[k as int] == (es@[k as int].0@, es@[k as int].1@, stmts_v(es@[k as int].2@)));
        }
        let mut c = Count { sites: 0, max_calls: 0, dynamic: false };
        if !count_body(es[k].2, &mut c) {
            proof {
                assert(cadd(czero(), body_count(ev[k as int].2)) == body_count(ev[k as int].2));
                assert(!fits(body_count(ev[k as int].2)));
            }
            return None;
        }
        let mut edges: Vec<(String, bool)> = Vec::new();
        collect_body(es[k].2, &mut edges);
        proof {
            assert(edge_views(edges@) =~= body_edges(ev[k as int].2));
            assert(count_v(c) == body_count(ev[k as int].2));
        }
        let plain = &es[k].1;
        let ghost ks = dkeys(ev, k as nat);
        match find_name(&direct, plain.as_str()) {
            Some(i) => {
                proof {
                    lemma_find_key(ks, plain@, 0);
                    assert(name_views(graph@).len() == graph@.len());
                    assert(name_views(direct@).len() == direct@.len());
                }
                direct.set(i, (plain.clone(), c));
                graph.set(i, (plain.clone(), edges));
                proof {
                    assert(dkeys(ev, (k + 1) as nat) == ks);
                    assert(name_views(direct@) =~= dkeys(ev, (k + 1) as nat));
                    assert(count_views(direct@) =~= dvals(ev, (k + 1) as nat));
                    assert(name_views(graph@) =~= dkeys(ev, (k + 1) as nat));
                    assert(graph_edges(graph@) =~= gvals(ev, (k + 1) as nat));
                }
            },
            None => {
                direct.push((plain.clone(), c));
                graph.push((plain.clone(), edges));
                proof {
                    assert(dkeys(ev, (k + 1) as nat) == ks.push(plain@));
                    assert(name_views(direct@) =~= dkeys(ev, (k + 1) as nat));
                    assert(count_views(direct@) =~= dvals(ev, (k + 1) as nat));
                    assert(name_views(graph@) =~= dkeys(ev, (k + 1) as nat));
                    assert(graph_edges(graph@) =~= gvals(ev, (k + 1) as nat));
                }
            },
        }
        k = k + 1;
    }
    let mut out = string_of("cost report (fake pricing, $0.001 per call)\n");
    let mut total = Count { sites: 0, max_calls: 0, dynamic: false };
    let mut k: usize = 0;
    proof {
        lemma_maps(ev, ev.len());
        assert(out@ =~= "cost report (fake pricing, $0.001 per call)\n"@ + lines_v(ev, 0));
    }
    while k < es.len()
        invariant
            entries_v(es@) == ev,
            ev == fn_entries(items_v(items@)),
            k <= es@.len() == ev.len(),
            name_views(direct@) == dkeys(ev, ev.len()),
            count_views(direct@) == dvals(ev, ev.len()),
            name_views(graph@) == dkeys(ev, ev.len()),
            graph_edges(graph@) == gvals(ev, ev.len()),
            dkeys(ev, ev.len()).len() == dvals(ev, ev.len()).len(),
            forall|j: int| 0 <= j < ev.len() ==> find_key(dkeys(ev, ev.len()), #[trigger] ev[j].1, 0) is Some,
            forall|j: int| 0 <= j < ev.len() ==> fits(body_count(#[trigger] ev[j].2)),
            forall|j: int| 0 <= j < k ==> fits(trans_of(ev, #[trigger] ev[j].1)),
            out@ == "cost report (fake pricing, $0.001 per call)\n"@ + lines_v(ev, k as nat),
            count_v(total) == total_v(ev, k as nat),
        decreases es@.len() - k,
    {
        proof {
            assert(ev[k as int] == (es@[k as int].0@, es@[k as int].1@, stmts_v(es@[k as int].2@)));
            assert(find_key(dkeys(ev, ev.len()), ev[k as int].1, 0) is Some);
            lemma_find_key(dkeys(ev, ev.len()), ev[k as int].1, 0);
        }
        let plain = es[k].1.as_str();
        let i = find_name(&direct, plain).unwrap();
        let c = &direct[i].1;
        proof {
            assert(count_v(*c) == dvals(ev, ev.len())[i as int]);
            assert(count_v(*c) == direct_of(ev, ev[k as int].1));
        }
        let t = match transitive(plain, &direct, &graph) {
            Some(t) => t,
            None => {
                proof {
                    assert(!fits(trans_of(ev, ev[k as int].1)));
                }
                return None;
            },
        };
        line(&mut out, es[k].0.as_str(), c, &t);
        let ghost tot0 = count_v(total);
        if !bump(&mut total, c.sites, c.max_calls, c.dynamic) {
            proof {
                assert(!fits(total_v(ev, (k + 1) as nat)));
                lemma_total_mono(ev, (k + 1) as nat, ev.len());
            }
            return None;
        }
        proof {
            assert(out@ =~= "cost report (fake pricing, $0.001 per call)\n"@ + lines_v(ev, (k + 1) as nat));
        }
        k = k + 1;
    }
    let ghost before = out@;
    line(&mut out, "total", &total, &total);
    proof {
        assert(out@ =~= report_v(items_v(items@)));
    }
    Some(out)
}

/// `nudgec cost` output: a header, one line per fn (its direct llm call
/// sites and costs, plus the costs through the fns it calls where those
/// add anything), and a total line that sums the direct counts only.
pub fn report(items: &[Item]) -> (r: String)
    requires
        fits_report(items_v(items@)),
    ensures
        r@ == report_v(items_v(items@)),
{
    try_report(items).unwrap()
}

/// Whether every count of the cost report fits in a `usize`.
pub fn report_fits(items: &[Item]) -> (b: bool)
    ensures
        b == fits_report(items_v(items@)),
{
    try_report(items).is_some()
}

} // verus!

verus! {

/// Index `i` holds the first entry of its name.
pub open spec fn first_of(dk: Seq<Seq<char>>, i: int) -> bool {
    find_key(dk, dk[i], 0) == Some(i)
}

/// The direct counts, summed over the first `n` entries that are the first
/// of their name and whose name is not in `seen`.
pub open spec fn unseen_total(dk: Seq<Seq<char>>, dc: Seq<CountV>, seen: Set<Seq<char>>, n: nat) -> CountV
    decreases n,
{
    if n == 0 {
        czero()
    } else {
        let rest = unseen_total(dk, dc, seen, (n - 1) as nat);
        if first_of(dk, n - 1) && !seen.contains(dk[n - 1]) {
            cadd(rest, dc[n - 1])
        } else {
            rest
        }
    }
}

/// The direct counts of all entries, summed.
pub open spec fn total_of(dc: Seq<CountV>) -> CountV
    decreases dc.len(),
{
    if dc.len() == 0 {
        czero()
    } else {
        cadd(total_of(dc.drop_last()), dc.last())
    }
}

proof fn lemma_total_insert(dk: Seq<Seq<char>>, dc: Seq<CountV>, seen: Set<Seq<char>>, x: Seq<char>, n: nat)
    requires
        !seen.contains(x),
        n <= dk.len(),
    ensures
        ({
            let a = unseen_total(dk, dc, seen, n);
            let b = unseen_total(dk, dc, seen.insert(x), n);
            match find_key(dk, x, 0) {
                Some(i) => if i < n {
                    a.sites == b.sites + dc[i].sites && a.max_calls == b.max_calls + dc[i].max_calls
                } else {
                    a.sites == b.sites && a.max_calls == b.max_calls
                },
                None => a.sites == b.sites && a.max_calls == b.max_calls,
            }
        }),
    decreases n,
{
    lemma_find_key(dk, x, 0);
    if n > 0 {
        lemma_total_insert(dk, dc, seen, x, (n - 1) as nat);
        let j = n - 1;
        if dk[j] == x && first_of(dk, j) {
            assert(find_key(dk, x, 0) == Some(j));
        }
        if find_key(dk, x, 0) == Some(j) {
            assert(first_of(dk, j));
        }
    }
}

proof fn lemma_unseen_le_total(dk: Seq<Seq<char>>, dc: Seq<CountV>, seen: Set<Seq<char>>, n: nat)
    requires
        n <= dc.len(),
    ensures
        unseen_total(dk, dc, seen, n).sites <= total_of(dc.take(n as int)).sites,
        unseen_total(dk, dc, seen, n).max_calls <= total_of(dc.take(n as int)).max_calls,
    decreases n,
{
    if n > 0 {
        lemma_unseen_le_total(dk, dc, seen, (n - 1) as nat);
        assert(dc.take(n as int).drop_last() =~= dc.take(n - 1));
    }
}

proof fn lemma_dfs_bounded(
    dk: Seq<Seq<char>>,
    dc: Seq<CountV>,
    gk: Seq<Seq<char>>,
    ge: Seq<Seq<(Seq<char>, bool)>>,
    stack: Seq<(Seq<char>, bool)>,
    seen: Set<Seq<char>>,
    t: CountV,
)
    requires
        dk.len() == dc.len(),
    ensures
        dfs(dk, dc, gk, ge, stack, seen, t).sites <= t.sites + unseen_total(dk, dc, seen, dk.len()).sites,
        dfs(dk, dc, gk, ge, stack, seen, t).max_calls <= t.max_calls + unseen_total(
            dk,
            dc,
            seen,
            dk.len(),
        ).max_calls,
    decreases unseen(gk, seen, gk.len()), stack.len(),
{
    if stack.len() > 0 {
        let (name, vp) = stack.last();
        let rest = stack.drop_last();
        if seen.contains(name) {
            lemma_dfs_bounded(dk, dc, gk, ge, rest, seen, t);
        } else {
            let t2 = match find_key(dk, name, 0) {
                Some(i) => CountV {
                    sites: t.sites + dc[i].sites,
                    max_calls: t.max_calls + dc[i].max_calls,
                    dynamic: t.dynamic || dc[i].dynamic || vp,
                },
                None => t,
            };
            lemma_unseen_insert(gk, seen, name, gk.len());
            lemma_find_key(gk, name, 0);
            lemma_find_key(dk, name, 0);
            lemma_unseen_insert_total(dk, dc, seen, name);
            match find_key(gk, name, 0) {
                Some(i) => if i < ge.len() {
                    lemma_dfs_bounded(dk, dc, gk, ge, rest + mark(ge[i], vp), seen.insert(name), t2);
                },
                None => {
                    lemma_dfs_bounded(dk, dc, gk, ge, rest, seen.insert(name), t2);
                },
            }
        }
    }
}

proof fn lemma_unseen_insert_total(dk: Seq<Seq<char>>, dc: Seq<CountV>, seen: Set<Seq<char>>, x: Seq<char>)
    requires
        !seen.contains(x),
        dk.len() == dc.len(),
    ensures
        ({
            let a = unseen_total(dk, dc, seen, dk.len());
            let b = unseen_total(dk, dc, seen.insert(x), dk.len());
            match find_key(dk, x, 0) {
                Some(i) => a.sites == b.sites + dc[i].sites && a.max_calls == b.max_calls + dc[i].max_calls,
                None => a.sites == b.sites && a.max_calls == b.max_calls,
            }
        }),
{
    lemma_find_key(dk, x, 0);
    lemma_total_insert(dk, dc, seen, x, dk.len());
}

/// The walk through the call graph counts each fn at most once: a fn's
/// count through the fns it calls is at most the sum of all direct counts.
pub proof fn law_transitive_counts_each_fn_once(
    start: Seq<char>,
    direct: Seq<(String, Count)>,
    graph: Seq<(String, Vec<(String, bool)>)>,
)
    ensures
        transitive_v(start, direct, graph).sites <= total_of(count_views(direct)).sites,
        transitive_v(start, direct, graph).max_calls <= total_of(count_views(direct)).max_calls,
{
    let dk = name_views(direct);
    let dc = count_views(direct);
    lemma_dfs_bounded(dk, dc, name_views(graph), graph_edges(graph), seq![(start, false)], Set::empty(), czero());
    lemma_unseen_le_total(dk, dc, Set::empty(), dc.len());
    assert(dc.take(dc.len() as int) =~= dc);
}

} // verus!

verus! {

/// Every llm call is a site, whose calls are at least one and its retries.
pub proof fn law_llm_call_is_a_site(p: ExprV, ks: Seq<Seq<char>>, vs: Seq<ExprV>, rep: bool, in_par: bool)
    ensures
        count_e(ExprV::LlmCall(Box::new(p), ks, vs, rep), in_par).sites >= 1,
        count_e(ExprV::LlmCall(Box::new(p), ks, vs, rep), in_par).max_calls >= 1 + retry_v(ks, vs, rep),
{
}

/// The llm calls inside an argument of a call, positional or keyword, count
/// toward the call: one more argument adds its sites and calls.
pub proof fn law_call_arguments_are_counted(
    f: ExprV,
    args: Seq<ExprV>,
    kn: Seq<Seq<char>>,
    kv: Seq<ExprV>,
    e: ExprV,
    in_par: bool,
)
    ensures
        ({
            let base = count_e(ExprV::Call(Box::new(f), args, kn, kv), in_par);
            let x = count_e(e, in_par);
            let with_arg = count_e(ExprV::Call(Box::new(f), args.push(e), kn, kv), in_par);
            let with_kw = count_e(ExprV::Call(Box::new(f), args, kn.push("k"@), kv.push(e)), in_par);
            &&& with_arg.sites == base.sites + x.sites
            &&& with_arg.max_calls == base.max_calls + x.max_calls
            &&& with_kw.sites == base.sites + x.sites
            &&& with_kw.max_calls == base.max_calls + x.max_calls
        }),
{
    assert(args.push(e).drop_last() =~= args);
    assert(kv.push(e).drop_last() =~= kv);
    assert(count_all(args.push(e), in_par) == cadd(count_all(args, in_par), count_e(e, in_par)));
    assert(count_all(kv.push(e), in_par) == cadd(count_all(kv, in_par), count_e(e, in_par)));
}

/// The callee expression of a call counts too: a call's sites are at least
/// those of its callee and of each argument.
pub proof fn law_call_parts_are_counted(f: ExprV, args: Seq<ExprV>, kn: Seq<Seq<char>>, kv: Seq<ExprV>, i: int, in_par: bool)
    requires
        0 <= i < args.len(),
    ensures
        count_e(ExprV::Call(Box::new(f), args, kn, kv), in_par).sites >= count_e(f, in_par).sites,
        count_e(ExprV::Call(Box::new(f), args, kn, kv), in_par).sites >= count_e(args[i], in_par).sites,
{
    lemma_count_all_ge(args, i, in_par);
}

proof fn lemma_count_all_ge(xs: Seq<ExprV>, i: int, in_par: bool)
    requires
        0 <= i < xs.len(),
    ensures
        count_all(xs, in_par).sites >= count_e(xs[i], in_par).sites,
    decreases xs.len(),
{
    if i < xs.len() - 1 {
        lemma_count_all_ge(xs.drop_last(), i, in_par);
        assert(xs.drop_last()[i] == xs[i]);
    }
}

} // verus!

verus! {

proof fn lemma_count_in_par(e: ExprV, a: bool, b: bool)
    ensures
        count_e(e, a).sites == count_e(e, b).sites,
        count_e(e, a).max_calls == count_e(e, b).max_calls,
    decreases e,
{
    match e {
        ExprV::LlmCall(p, _, vs, _) => {
            lemma_count_in_par(*p, a, b);
            lemma_count_all_in_par(vs, a, b);
        },
        ExprV::Call(f, args, _, kv) => {
            lemma_count_in_par(*f, a, b);
            lemma_count_all_in_par(args, a, b);
            lemma_count_all_in_par(kv, a, b);
        },
        ExprV::ListLit(xs) => lemma_count_all_in_par(xs, a, b),
        ExprV::ParAll(xs) => lemma_count_all_in_par(xs, a, b),
        ExprV::ParRace(xs) => lemma_count_all_in_par(xs, a, b),
        ExprV::Field(o, _) => lemma_count_in_par(*o, a, b),
        ExprV::Binary(_, l, r) => {
            lemma_count_in_par(*l, a, b);
            lemma_count_in_par(*r, a, b);
        },
        ExprV::Merge(l, r) => {
            lemma_count_in_par(*l, a, b);
            lemma_count_in_par(*r, a, b);
        },
        ExprV::Unary(_, x) => lemma_count_in_par(*x, a, b),
        ExprV::ParMap(c, _, kv, _, _) => {
            lemma_count_in_par(*c, a, b);
            lemma_count_all_in_par(kv, a, b);
        },
        ExprV::Route(_, _, cs) => lemma_count_conds_in_par(cs, a, b),
        _ => {},
    }
}

proof fn lemma_count_all_in_par(xs: Seq<ExprV>, a: bool, b: bool)
    ensures
        count_all(xs, a).sites == count_all(xs, b).sites,
        count_all(xs, a).max_calls == count_all(xs, b).max_calls,
    decreases xs,
{
    if xs.len() > 0 {
        lemma_count_all_in_par(xs.drop_last(), a, b);
        lemma_count_in_par(xs.last(), a, b);
    }
}

proof fn lemma_count_conds_in_par(cs: Seq<Option<ExprV>>, a: bool, b: bool)
    ensures
        count_conds(cs, a).sites == count_conds(cs, b).sites,
        count_conds(cs, a).max_calls == count_conds(cs, b).max_calls,
    decreases cs,
{
    if cs.len() > 0 {
        lemma_count_conds_in_par(cs.drop_last(), a, b);
        match cs.last() {
            Some(c) => lemma_count_in_par(c, a, b),
            None => {},
        }
    }
}

proof fn lemma_count_all_has(xs: Seq<ExprV>, x: ExprV, in_par: bool)
    requires
        xs.contains(x),
    ensures
        count_all(xs, in_par).sites >= count_e(x, in_par).sites,
        count_all(xs, in_par).max_calls >= count_e(x, in_par).max_calls,
    decreases xs.len(),
{
    if xs.last() != x {
        let j = choose|j: int| 0 <= j < xs.len() && xs[j] == x;
        assert(xs.drop_last()[j] == x);
        lemma_count_all_has(xs.drop_last(), x, in_par);
    }
}

proof fn lemma_count_conds_has(cs: Seq<Option<ExprV>>, x: ExprV, in_par: bool)
    requires
        cs.contains(Some(x)),
    ensures
        count_conds(cs, in_par).sites >= count_e(x, in_par).sites,
        count_conds(cs, in_par).max_calls >= count_e(x, in_par).max_calls,
    decreases cs.len(),
{
    if cs.last() != Some(x) {
        let j = choose|j: int| 0 <= j < cs.len() && cs[j] == Some(x);
        assert(cs.drop_last()[j] == Some(x));
        lemma_count_conds_has(cs.drop_last(), x, in_par);
    }
}

/// An expression has at least the llm call sites and calls of each
/// expression directly inside it: none is left out of the count, a
/// `par map` body, a call's arguments and a route's conditions included.
pub proof fn law_count_covers_parts(e: ExprV, x: ExprV, in_par: bool)
    requires
        is_part(x, e),
    ensures
        count_e(e, in_par).sites >= count_e(x, in_par).sites,
        count_e(e, in_par).max_calls >= count_e(x, in_par).max_calls,
{
    match e {
        ExprV::LlmCall(_, _, vs, _) => {
            if vs.contains(x) {
                lemma_count_all_has(vs, x, in_par);
            }
        },
        ExprV::Call(_, args, _, kv) => {
            if args.contains(x) {
                lemma_count_all_has(args, x, in_par);
            }
            if kv.contains(x) {
                lemma_count_all_has(kv, x, in_par);
            }
        },
        ExprV::ListLit(xs) => lemma_count_all_has(xs, x, in_par),
        ExprV::ParAll(xs) => lemma_count_all_has(xs, x, in_par),
        ExprV::ParRace(xs) => lemma_count_all_has(xs, x, in_par),
        ExprV::ParMap(_, _, kv, _, b) => {
            if kv.contains(x) {
                lemma_count_all_has(kv, x, in_par);
            }
            lemma_count_in_par(*b, true, in_par);
        },
        ExprV::Route(_, _, cs) => lemma_count_conds_has(cs, x, in_par),
        _ => {},
    }
}

/// The llm call sites of an expression are at least one for each llm
/// call nested in it at any depth: with `path` leading down to such a
/// call, its own calls are counted too.
pub proof fn law_count_covers_nested(e: ExprV, x: ExprV, path: Seq<ExprV>, in_par: bool)
    requires
        nested_in(x, e, path),
    ensures
        count_e(e, in_par).sites >= count_e(x, in_par).sites,
        count_e(e, in_par).max_calls >= count_e(x, in_par).max_calls,
    decreases path.len(),
{
    if path.len() > 1 {
        let rest = path.subrange(1, path.len() as int);
        assert forall|i: int, j: int| 0 <= i && j == i + 1 && j < rest.len() implies #[trigger] is_part(rest[j], rest[i]) by {
            assert(is_part(path[j + 1], path[i + 1]));
        }
        assert(rest.last() == path.last());
        law_count_covers_nested(path[1], x, rest, in_par);
        assert(is_part(path[1], path[0]));
        law_count_covers_parts(e, path[1], in_par);
    }
}

proof fn lemma_body_count_has(body: Seq<StmtV>, k: int)
    requires
        0 <= k < body.len(),
    ensures
        body_count(body).sites >= count_e(stmt_expr(body[k].kind), false).sites,
        body_count(body).max_calls >= count_e(stmt_expr(body[k].kind), false).max_calls,
    decreases body.len(),
{
    if k < body.len() - 1 {
        assert(body.drop_last()[k] == body[k]);
        lemma_body_count_has(body.drop_last(), k);
    }
}

/// A fn body with an llm call anywhere in one of its statements (inside a
/// call's argument or a `par map` body too) has at least one direct site,
/// and at least one call plus the call's repair retries.
pub proof fn law_nested_llm_call_is_a_site_of_its_body(
    body: Seq<StmtV>,
    k: int,
    p: ExprV,
    ks: Seq<Seq<char>>,
    vs: Seq<ExprV>,
    rep: bool,
    path: Seq<ExprV>,
)
    requires
        0 <= k < body.len(),
        nested_in(ExprV::LlmCall(Box::new(p), ks, vs, rep), stmt_expr(body[k].kind), path),
    ensures
        body_count(body).sites >= 1,
        body_count(body).max_calls >= 1 + retry_v(ks, vs, rep),
{
    let x = ExprV::LlmCall(Box::new(p), ks, vs, rep);
    law_llm_call_is_a_site(p, ks, vs, rep, false);
    law_count_covers_nested(stmt_expr(body[k].kind), x, path, false);
    lemma_body_count_has(body, k);
}

} // verus!
