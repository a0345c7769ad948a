//! Comparison of two frozen v1 traces: totals (calls, tokens, cost,
//! repairs) and per-record differences (kind, outcome, token and cost drift,
//! changed outputs), records aligned by position.

use vstd::prelude::*;
use crate::decimal::{fixed_v, num_abs, num_add, num_eq, num_is_pos, num_is_tiny, num_neg, num_of, zero_v, Num, NumV};
use crate::json::{all_no_nan, dumps, dumps_v, find_key, lemma_find_key, member, no_nan, parse_chars, parse_v, Json, JsonV};
use crate::text::{
    blank, byte_len, chars_of, is_blank, lemma_lines_from_bound, lines_of, nat_str, push_char,
    push_chars, push_str, push_usize, split_lines, string_of,
};
use crate::tracecheck::{num_member, str_member, strs};

verus! {

/// A line that the lenient reader keeps: a JSON object.
pub open spec fn kept(line: Seq<char>) -> Option<JsonV> {
    if is_blank(line) {
        None
    } else {
        match parse_v(line) {
            Ok(r) => if r is Obj {
                Some(r)
            } else {
                None
            },
            Err(_) => None,
        }
    }
}

/// The records kept from the lines from index `k` on.
pub open spec fn recs_from(lines: Seq<Seq<char>>, k: int) -> Seq<JsonV>
    decreases lines.len() - k,
{
    if k < 0 || k >= lines.len() {
        Seq::empty()
    } else {
        match kept(lines[k]) {
            Some(r) => seq![r] + recs_from(lines, k + 1),
            None => recs_from(lines, k + 1),
        }
    }
}

/// The records of a trace text; lines that are blank, not JSON or not an
/// object are skipped.
pub open spec fn trace_v(text: Seq<char>) -> Seq<JsonV> {
    recs_from(lines_of(text), 0)
}

/// A number field, zero when absent.
pub open spec fn num_v(rec: JsonV, k: Seq<char>) -> NumV {
    match num_member(rec, k) {
        Some(x) => x,
        None => zero_v(),
    }
}

/// A string field, empty when absent.
pub open spec fn str_v(rec: JsonV, k: Seq<char>) -> Seq<char> {
    match str_member(rec, k) {
        Some(x) => x,
        None => Seq::empty(),
    }
}

/// The `in` or `out` count of a record's `tokens`, zero when absent.
pub open spec fn tok_v(rec: JsonV, k: Seq<char>) -> NumV {
    match member(rec, "tokens"@) {
        Some(t) => num_v(t, k),
        None => zero_v(),
    }
}

/// The sums over a trace.
pub struct TotalsV {
    pub llm: nat,
    pub tools: nat,
    pub tin: NumV,
    pub tout: NumV,
    pub cost: NumV,
    pub repairs: nat,
}

/// Totals over the first `n` records.
pub open spec fn totals_v(recs: Seq<JsonV>, n: nat) -> TotalsV
    decreases n,
{
    if n == 0 || n > recs.len() {
        TotalsV { llm: 0, tools: 0, tin: zero_v(), tout: zero_v(), cost: zero_v(), repairs: 0 }
    } else {
        let t = totals_v(recs, (n - 1) as nat);
        let r = recs[n - 1];
        let kind = str_v(r, "kind"@);
        if kind == "llm.call"@ {
            TotalsV {
                llm: t.llm + 1,
                tools: t.tools,
                tin: num_add(t.tin, tok_v(r, "in"@)),
                tout: num_add(t.tout, tok_v(r, "out"@)),
                cost: num_add(t.cost, num_v(r, "cost_usd"@)),
                repairs: t.repairs + if num_is_pos(num_v(r, "repair_round"@)) {
                    1nat
                } else {
                    0nat
                },
            }
        } else if kind == "tool.call"@ {
            TotalsV { tools: t.tools + 1, ..t }
        } else {
            t
        }
    }
}

/// `b - a`.
pub open spec fn minus(b: NumV, a: NumV) -> NumV {
    num_add(b, num_neg(a))
}

/// `x.abs() > 1e-12`.
pub open spec fn num_drifts(x: NumV) -> bool {
    !num_is_tiny(x) && x != NumV::NaN
}

/// A change of a count, ` (+d)` or ` (d)`, nothing when there is none.
pub open spec fn delta_v(a: NumV, b: NumV, suffix: Seq<char>) -> Seq<char> {
    let d = minus(b, a);
    if num_is_tiny(d) {
        Seq::empty()
    } else if num_is_pos(d) {
        " (+"@ + fixed_v(d, 0) + suffix + ")"@
    } else {
        " ("@ + fixed_v(d, 0) + suffix + ")"@
    }
}

/// A change of a cost in dollars.
pub open spec fn cost_delta_v(a: NumV, b: NumV) -> Seq<char> {
    let d = minus(b, a);
    if num_is_tiny(d) {
        Seq::empty()
    } else if num_is_pos(d) {
        " (+$"@ + fixed_v(d, 4) + ")"@
    } else {
        " (-$"@ + fixed_v(num_abs(d), 4) + ")"@
    }
}

pub open spec fn arrow(a: Seq<char>, b: Seq<char>) -> Seq<char> {
    a + " -> "@ + b
}

/// The summary lines at the top of the report.
#[verifier::opaque]
pub open spec fn header_v(a: Seq<JsonV>, b: Seq<JsonV>) -> Seq<char> {
    let ta = totals_v(a, a.len());
    let tb = totals_v(b, b.len());
    let sa = num_add(ta.tin, ta.tout);
    let sb = num_add(tb.tin, tb.tout);
    let ra = num_of(ta.repairs as int, 0);
    let rb = num_of(tb.repairs as int, 0);
    "records   "@ + arrow(nat_str(a.len()), nat_str(b.len())) + "\n"@
    + "llm calls "@ + arrow(nat_str(ta.llm), nat_str(tb.llm)) + "   tool calls "@ + arrow(nat_str(ta.tools), nat_str(tb.tools)) + "\n"@
    + "tokens    "@ + arrow(fixed_v(sa, 0), fixed_v(sb, 0)) + delta_v(sa, sb, ""@) + "   (in "@ + arrow(fixed_v(ta.tin, 0), fixed_v(tb.tin, 0)) + ", out "@ + arrow(fixed_v(ta.tout, 0), fixed_v(tb.tout, 0)) + ")\n"@
    + "cost      $"@ + arrow(fixed_v(ta.cost, 4), "$"@ + fixed_v(tb.cost, 4)) + cost_delta_v(ta.cost, tb.cost) + "\n"@
    + "repairs   "@ + arrow(nat_str(ta.repairs), nat_str(tb.repairs)) + delta_v(ra, rb, ""@) + "\n"@
}

/// `==` on JSON values as `#[derive(PartialEq)]` gives it: structural, with
/// numbers compared as `f64`.
pub open spec fn json_eq(a: JsonV, b: JsonV) -> bool
    decreases a, 1nat,
{
    match (a, b) {
        (JsonV::Null, JsonV::Null) => true,
        (JsonV::Bool(x), JsonV::Bool(y)) => x == y,
        (JsonV::Num(x), JsonV::Num(y)) => num_eq(x, y),
        (JsonV::Str(x), JsonV::Str(y)) => x == y,
        (JsonV::Arr(xs), JsonV::Arr(ys)) => xs.len() == ys.len() && all_eq(xs, ys, xs.len()),
        (JsonV::Obj(ks, xs), JsonV::Obj(ls, ys)) => ks == ls && xs.len() == ys.len() && all_eq(
            xs,
            ys,
            xs.len(),
        ),
        _ => false,
    }
}

/// The first `n` elements of `xs` and `ys` are pairwise `json_eq`.
pub open spec fn all_eq(xs: Seq<JsonV>, ys: Seq<JsonV>, n: nat) -> bool
    decreases xs, n,
{
    if n == 0 || n > xs.len() || n > ys.len() {
        n == 0
    } else {
        all_eq(xs, ys, (n - 1) as nat) && json_eq(xs[n - 1], ys[n - 1])
    }
}

/// `==` on optional values.
pub open spec fn opt_eq(a: Option<JsonV>, b: Option<JsonV>) -> bool {
    match (a, b) {
        (None, None) => true,
        (Some(x), Some(y)) => json_eq(x, y),
        _ => false,
    }
}

/// A value on one line, cut to `width` characters with an ellipsis.
pub open spec fn preview_v(j: JsonV, width: nat) -> Seq<char> {
    let raw = match j {
        JsonV::Str(s) => s,
        _ => dumps_v(j),
    };
    let one = Seq::new(raw.len(), |i: int| if raw[i] == '\n' { ' ' } else { raw[i] });
    if one.len() > width {
        one.take(width - 1) + "…"@
    } else {
        one
    }
}

/// How record `kind` is labelled in the report.
pub open spec fn label_v(r: JsonV) -> Seq<char> {
    let kind = str_v(r, "kind"@);
    if kind == "llm.call"@ {
        "llm.call "@ + str_v(r, "model"@)
    } else if kind == "tool.call"@ {
        "tool.call "@ + str_v(r, "tool"@)
    } else {
        kind + " "@ + str_v(r, "fn"@)
    }
}

/// The difference lines for a pair of records at the same position.
pub open spec fn pair_lines(ra: JsonV, rb: JsonV) -> Seq<Seq<char>> {
    let ka = str_v(ra, "kind"@);
    let kb = str_v(rb, "kind"@);
    let oa = str_v(ra, "outcome"@);
    let ob = str_v(rb, "outcome"@);
    let ta = num_add(tok_v(ra, "in"@), tok_v(ra, "out"@));
    let tb = num_add(tok_v(rb, "in"@), tok_v(rb, "out"@));
    let drift = minus(minus(ta, tok_v(rb, "in"@)), tok_v(rb, "out"@));
    let ca = num_v(ra, "cost_usd"@);
    let cb = num_v(rb, "cost_usd"@);
    let xa = member(ra, "output"@);
    let xb = member(rb, "output"@);
    (if ka != kb {
        seq!["  kind      "@ + arrow(ka, kb)]
    } else {
        Seq::empty()
    }) + (if oa != ob {
        seq!["  outcome   "@ + arrow(oa, ob)]
    } else {
        Seq::empty()
    }) + (if num_drifts(drift) {
        seq!["  tokens    "@ + arrow(fixed_v(ta, 0), fixed_v(tb, 0)) + delta_v(ta, tb, ""@)]
    } else {
        Seq::empty()
    }) + (if num_drifts(minus(ca, cb)) {
        seq!["  cost      $"@ + arrow(fixed_v(ca, 4), "$"@ + fixed_v(cb, 4)) + cost_delta_v(ca, cb)]
    } else {
        Seq::empty()
    }) + (if !opt_eq(xa, xb) {
        seq!["  output    CHANGED"@] + match (xa, xb) {
            (Some(x), Some(y)) => seq![
                "    - \""@ + preview_v(x, 72) + "\""@,
                "    + \""@ + preview_v(y, 72) + "\""@,
            ],
            _ => Seq::empty(),
        }
    } else {
        Seq::empty()
    })
}

/// Lines joined, each followed by a newline.
pub open spec fn join_lines(ls: Seq<Seq<char>>) -> Seq<char>
    decreases ls.len(),
{
    if ls.len() == 0 {
        Seq::empty()
    } else {
        join_lines(ls.drop_last()) + ls.last() + "\n"@
    }
}

/// The report block for position `i` (numbered `i + 1`), and whether the
/// records there differ.
pub open spec fn block_v(i: nat, a: Seq<JsonV>, b: Seq<JsonV>) -> (Seq<char>, bool) {
    if i < a.len() && i < b.len() {
        let ls = pair_lines(a[i as int], b[i as int]);
        if ls.len() > 0 {
            ("\n#"@ + nat_str(i + 1) + " "@ + label_v(a[i as int]) + "\n"@ + join_lines(ls), true)
        } else {
            (Seq::empty(), false)
        }
    } else if i < a.len() {
        ("\n#"@ + nat_str(i + 1) + " "@ + str_v(a[i as int], "kind"@) + " — only in A\n"@, true)
    } else if i < b.len() {
        ("\n#"@ + nat_str(i + 1) + " "@ + str_v(b[i as int], "kind"@) + " — only in B\n"@, true)
    } else {
        (Seq::empty(), false)
    }
}

/// The blocks for the first `n` positions, and how many of them differ.
pub open spec fn blocks_v(a: Seq<JsonV>, b: Seq<JsonV>, n: nat) -> (Seq<char>, nat)
    decreases n,
{
    if n == 0 {
        (Seq::empty(), 0)
    } else {
        let (t, c) = blocks_v(a, b, (n - 1) as nat);
        let (bt, d) = block_v((n - 1) as nat, a, b);
        (t + bt, if d {
            c + 1
        } else {
            c
        })
    }
}

/// The whole report for two parsed traces.
pub open spec fn report_v(a: Seq<JsonV>, b: Seq<JsonV>) -> Seq<char> {
    let n = if a.len() >= b.len() {
        a.len()
    } else {
        b.len()
    };
    let (body, changed) = blocks_v(a, b, n);
    header_v(a, b) + body + footer_v(changed)
}

/// The report `diff` gives for two trace texts.
pub open spec fn diff_v(a: Seq<char>, b: Seq<char>) -> Seq<char> {
    report_v(trace_v(a), trace_v(b))
}

} // verus!

verus! {

/// The views of a list of values.
pub open spec fn views(v: Seq<Json>) -> Seq<JsonV> {
    Seq::new(v.len(), |i: int| v[i]@)
}

/// The records of a trace, read leniently.
#[verifier::spinoff_prover]
#[verifier::rlimit(30)]
fn parse_trace(text: &Vec<char>) -> (r: Vec<Json>)
    requires
        byte_len(text@) <= usize::MAX,
    ensures
        views(r@) == trace_v(text@),
{
    let lines = split_lines(text);
    proof {
        lemma_lines_from_bound(text@, 0);
    }
    let mut recs: Vec<Json> = Vec::new();
    let mut k: usize = 0;
    proof {
        assert(views(recs@) + trace_v(text@) =~= trace_v(text@));
    }
    while k < lines.len()
        invariant
            k <= lines@.len() == lines_of(text@).len(),
            byte_len(text@) <= usize::MAX,
            forall|j: int| 0 <= j < lines@.len() ==> (#[trigger] lines@[j])@ == lines_of(text@)[j],
            forall|j: int|
                0 <= j < lines_of(text@).len() ==> byte_len(
                    #[trigger] crate::text::lines_from(text@, 0)[j],
                ) <= byte_len(text@),
            views(recs@) + recs_from(lines_of(text@), k as int) == trace_v(text@),
        decreases lines@.len() - k,
    {
        let ghost before = views(recs@);
        assert(lines@[k as int]@ == crate::text::lines_from(text@, 0)[k as int]);
        let line = &lines[k];
        if !blank(line) {
            match parse_chars(line) {
                Ok(rec) => {
                    if rec.is_obj() {
                        let ghost rv = rec@;
                        recs.push(rec);
                        assert(views(recs@) =~= before.push(rv));
                    }
                },
                Err(_) => {},
            }
        }
        proof {
            assert(views(recs@) + recs_from(lines_of(text@), k + 1) =~= before + recs_from(
                lines_of(text@),
                k as int,
            ));
        }
        k = k + 1;
    }
    recs
}

fn zero() -> (r: Num)
    ensures
        r@ == zero_v(),
{
    Num::zero()
}

/// A number field of a record, zero when absent.
pub(crate) fn num(rec: &Json, key: &str) -> (r: Num)
    ensures
        r@ == num_v(rec@, key@),
{
    match rec.get(key) {
        Some(v) => match v.as_num() {
            Some(n) => n,
            None => zero(),
        },
        None => zero(),
    }
}

/// A string field of a record, empty when absent.
pub(crate) fn s(rec: &Json, key: &str) -> (r: String)
    ensures
        r@ == str_v(rec@, key@),
{
    match rec.get(key) {
        Some(v) => match v.as_str() {
            Some(x) => string_of(x),
            None => String::new(),
        },
        None => String::new(),
    }
}

/// The `in` and `out` token counts of a record.
fn tokens_in_out(rec: &Json) -> (r: (Num, Num))
    ensures
        r.0@ == tok_v(rec@, "in"@),
        r.1@ == tok_v(rec@, "out"@),
{
    match rec.get("tokens") {
        Some(t) => (num(t, "in"), num(t, "out")),
        None => (zero(), zero()),
    }
}

/// Sums over a trace.
struct Totals {
    llm: usize,
    tools: usize,
    tin: Num,
    tout: Num,
    cost: Num,
    repairs: usize,
}

impl Totals {
    spec fn view_t(&self) -> TotalsV {
        TotalsV {
            llm: self.llm as nat,
            tools: self.tools as nat,
            tin: self.tin@,
            tout: self.tout@,
            cost: self.cost@,
            repairs: self.repairs as nat,
        }
    }
}

fn totals(recs: &Vec<Json>) -> (t: Totals)
    ensures
        t.view_t() == totals_v(views(recs@), recs@.len()),
        t.llm <= recs@.len(),
        t.tools <= recs@.len(),
        t.repairs <= recs@.len(),
{
    let mut t = Totals { llm: 0, tools: 0, tin: zero(), tout: zero(), cost: zero(), repairs: 0 };
    let mut i: usize = 0;
    while i < recs.len()
        invariant
            i <= recs@.len(),
            t.view_t() == totals_v(views(recs@), i as nat),
            t.llm <= i,
            t.tools <= i,
            t.repairs <= i,
        decreases recs@.len() - i,
    {
        let r = &recs[i];
        let kind = s(r, "kind");
        if crate::text::str_eq(kind.as_str(), "llm.call") {
            t.llm = t.llm + 1;
            let (a, b) = tokens_in_out(r);
            t.tin = t.tin.add(&a);
            t.tout = t.tout.add(&b);
            t.cost = t.cost.add(&num(r, "cost_usd"));
            if num(r, "repair_round").is_positive() {
                t.repairs = t.repairs + 1;
            }
        } else if crate::text::str_eq(kind.as_str(), "tool.call") {
            t.tools = t.tools + 1;
        }
        i = i + 1;
    }
    t
}

} // verus!

verus! {

/// A change of a count, ` (+d)` or ` (d)`, nothing when there is none.
fn delta(a: &Num, b: &Num, suffix: &str) -> (r: String)
    ensures
        r@ == delta_v(a@, b@, suffix@),
{
    let d = b.sub(a);
    let mut out = String::new();
    if d.is_tiny() {
    } else if d.is_positive() {
        push_str(&mut out, " (+");
        d.write_fixed(&mut out, 0);
        push_str(&mut out, suffix);
        push_str(&mut out, ")");
    } else {
        push_str(&mut out, " (");
        d.write_fixed(&mut out, 0);
        push_str(&mut out, suffix);
        push_str(&mut out, ")");
    }
    proof {
        assert(out@ =~= delta_v(a@, b@, suffix@));
    }
    out
}

/// A change of a cost, in dollars to four decimals.
fn cost_delta(a: &Num, b: &Num) -> (r: String)
    ensures
        r@ == cost_delta_v(a@, b@),
{
    let d = b.sub(a);
    let mut out = String::new();
    if d.is_tiny() {
    } else if d.is_positive() {
        push_str(&mut out, " (+$");
        d.write_fixed(&mut out, 4);
        push_str(&mut out, ")");
    } else {
        push_str(&mut out, " (-$");
        d.abs().write_fixed(&mut out, 4);
        push_str(&mut out, ")");
    }
    proof {
        assert(out@ =~= cost_delta_v(a@, b@));
    }
    out
}

/// A value on one line, cut to `width` characters with an ellipsis.
fn preview(j: &Json, width: usize) -> (r: String)
    requires
        width > 0,
    ensures
        r@ == preview_v(j@, width as nat),
{
    let raw = match j {
        Json::Str(x) => string_of(x.as_str()),
        _ => dumps(j),
    };
    let cs = chars_of(raw.as_str());
    let ghost one = Seq::new(raw@.len(), |i: int| if raw@[i] == '\n' { ' ' } else { raw@[i] });
    let mut line: Vec<char> = Vec::new();
    let mut i: usize = 0;
    while i < cs.len()
        invariant
            i <= cs@.len(),
            cs@ == raw@,
            line@ == one.take(i as int),
            one.len() == raw@.len(),
            forall|k: int| 0 <= k < one.len() ==> #[trigger] one[k] == if raw@[k] == '\n' {
                ' '
            } else {
                raw@[k]
            },
        decreases cs@.len() - i,
    {
        let c = cs[i];
        line.push(if c == '\n' {
            ' '
        } else {
            c
        });
        i = i + 1;
        assert(line@ =~= one.take(i as int));
    }
    assert(line@ =~= one);
    let mut out = String::new();
    if line.len() > width {
        push_chars(&mut out, &line, 0, width - 1);
        push_str(&mut out, "…");
        assert(out@ =~= one.take(width - 1) + "…"@);
    } else {
        push_chars(&mut out, &line, 0, line.len());
        assert(out@ =~= one);
    }
    out
}

pub proof fn lemma_all_eq(xs: Seq<JsonV>, ys: Seq<JsonV>, n: nat, j: int)
    requires
        all_eq(xs, ys, n),
        0 <= j < n,
    ensures
        json_eq(xs[j], ys[j]),
    decreases n,
{
    if j < n - 1 {
        lemma_all_eq(xs, ys, (n - 1) as nat, j);
    }
}

/// `==` on JSON values.
#[verifier::loop_isolation(false)]
fn json_equal(a: &Json, b: &Json) -> (r: bool)
    ensures
        r == json_eq(a@, b@),
    decreases a,
{
    match (a, b) {
        (Json::Null, Json::Null) => true,
        (Json::Bool(x), Json::Bool(y)) => *x == *y,
        (Json::Num(x), Json::Num(y)) => x.equal(y),
        (Json::Str(x), Json::Str(y)) => crate::text::str_eq(x.as_str(), y.as_str()),
        (Json::Arr(xs), Json::Arr(ys)) => {
            let ghost vx = a@->Arr_0;
            let ghost vy = b@->Arr_0;
            if xs.len() != ys.len() {
                return false;
            }
            let mut i: usize = 0;
            while i < xs.len()
                invariant
                    i <= xs@.len() == ys@.len() == vx.len() == vy.len(),
                    forall|k: int| 0 <= k < xs@.len() ==> vx[k] == (#[trigger] xs@[k])@,
                    forall|k: int| 0 <= k < ys@.len() ==> vy[k] == (#[trigger] ys@[k])@,
                    all_eq(vx, vy, i as nat),
                decreases xs@.len() - i,
            {
                if !json_equal(&xs[i], &ys[i]) {
                    proof {
                        if all_eq(vx, vy, vx.len()) {
                            lemma_all_eq(vx, vy, vx.len(), i as int);
                        }
                    }
                    return false;
                }
                i = i + 1;
            }
            true
        },
        (Json::Obj(xs), Json::Obj(ys)) => {
            let ghost kx = a@->Obj_0;
            let ghost ky = b@->Obj_0;
            let ghost vx = a@->Obj_1;
            let ghost vy = b@->Obj_1;
            if xs.len() != ys.len() {
                return false;
            }
            let mut i: usize = 0;
            while i < xs.len()
                invariant
                    i <= xs@.len() == ys@.len() == vx.len() == vy.len() == kx.len() == ky.len(),
                    forall|k: int| 0 <= k < xs@.len() ==> vx[k] == (#[trigger] xs@[k]).1@,
                    forall|k: int| 0 <= k < ys@.len() ==> vy[k] == (#[trigger] ys@[k]).1@,
                    forall|k: int| 0 <= k < xs@.len() ==> kx[k] == (#[trigger] xs@[k]).0@,
                    forall|k: int| 0 <= k < ys@.len() ==> ky[k] == (#[trigger] ys@[k]).0@,
                    kx.take(i as int) == ky.take(i as int),
                    all_eq(vx, vy, i as nat),
                decreases xs@.len() - i,
            {
                if !crate::text::str_eq(xs[i].0.as_str(), ys[i].0.as_str()) {
                    assert(kx[i as int] != ky[i as int]);
                    return false;
                }
                if !json_equal(&xs[i].1, &ys[i].1) {
                    proof {
                        if all_eq(vx, vy, vx.len()) {
                            lemma_all_eq(vx, vy, vx.len(), i as int);
                        }
                    }
                    return false;
                }
                i = i + 1;
                assert(kx.take(i as int) =~= ky.take(i as int));
            }
            assert(kx =~= kx.take(i as int));
            assert(ky =~= ky.take(i as int));
            true
        },
        _ => false,
    }
}

} // verus!

verus! {

fn push_line(ls: &mut Vec<String>, l: String)
    ensures
        strs(final(ls)@) == strs(old(ls)@).push(l@),
{
    let ghost v = l@;
    ls.push(l);
    assert(strs(ls@) =~= strs(old(ls)@).push(v));
}

/// `a -> b` appended.
fn push_arrow(out: &mut String, a: &str, b: &str)
    ensures
        final(out)@ == old(out)@ + arrow(a@, b@),
{
    push_str(out, a);
    push_str(out, " -> ");
    push_str(out, b);
    assert(out@ =~= old(out)@ + arrow(a@, b@));
}

fn fixed(n: &Num, k: usize) -> (r: String)
    requires
        k < 1000,
    ensures
        r@ == fixed_v(n@, k as nat),
{
    let mut r = String::new();
    n.write_fixed(&mut r, k);
    assert(r@ =~= fixed_v(n@, k as nat));
    r
}

/// The difference lines for a pair of records at the same position.
#[verifier::spinoff_prover]
#[verifier::rlimit(40)]
fn pair_lines_x(ra: &Json, rb: &Json) -> (r: Vec<String>)
    ensures
        strs(r@) == pair_lines(ra@, rb@),
{
    let mut ls: Vec<String> = Vec::new();
    let ka = s(ra, "kind");
    let kb = s(rb, "kind");
    if !crate::text::str_eq(ka.as_str(), kb.as_str()) {
        let mut l = string_of("  kind      ");
        push_arrow(&mut l, ka.as_str(), kb.as_str());
        push_line(&mut ls, l);
    }
    let oa = s(ra, "outcome");
    let ob = s(rb, "outcome");
    if !crate::text::str_eq(oa.as_str(), ob.as_str()) {
        let mut l = string_of("  outcome   ");
        push_arrow(&mut l, oa.as_str(), ob.as_str());
        push_line(&mut ls, l);
    }
    let (ia, oa_) = tokens_in_out(ra);
    let (ib, ob_) = tokens_in_out(rb);
    let ta = ia.add(&oa_);
    let tb = ib.add(&ob_);
    let drift = ta.sub(&ib).sub(&ob_);
    if !drift.is_tiny() && !drift.is_nan() {
        let mut l = string_of("  tokens    ");
        let fa = fixed(&ta, 0);
        let fb = fixed(&tb, 0);
        push_arrow(&mut l, fa.as_str(), fb.as_str());
        let d = delta(&ta, &tb, "");
        push_str(&mut l, d.as_str());
        push_line(&mut ls, l);
    }
    let ca = num(ra, "cost_usd");
    let cb = num(rb, "cost_usd");
    let cd = ca.sub(&cb);
    if !cd.is_tiny() && !cd.is_nan() {
        let mut l = string_of("  cost      $");
        let fa = fixed(&ca, 4);
        let mut fb = string_of("$");
        cb.write_fixed(&mut fb, 4);
        push_arrow(&mut l, fa.as_str(), fb.as_str());
        let d = cost_delta(&ca, &cb);
        push_str(&mut l, d.as_str());
        push_line(&mut ls, l);
    }
    let xa = ra.get("output");
    let xb = rb.get("output");
    let same = match (xa, xb) {
        (None, None) => true,
        (Some(x), Some(y)) => json_equal(x, y),
        _ => false,
    };
    if !same {
        push_line(&mut ls, string_of("  output    CHANGED"));
        match (xa, xb) {
            (Some(x), Some(y)) => {
                let mut l = string_of("    - \"");
                let p = preview(x, 72);
                push_str(&mut l, p.as_str());
                push_str(&mut l, "\"");
                push_line(&mut ls, l);
                let mut l = string_of("    + \"");
                let p = preview(y, 72);
                push_str(&mut l, p.as_str());
                push_str(&mut l, "\"");
                push_line(&mut ls, l);
            },
            _ => {},
        }
    }
    proof {
        assert(strs(ls@) =~= pair_lines(ra@, rb@));
    }
    ls
}

} // verus!

verus! {

fn nat_string(n: usize) -> (r: String)
    ensures
        r@ == nat_str(n as nat),
{
    let mut r = String::new();
    push_usize(&mut r, n);
    assert(r@ =~= nat_str(n as nat));
    r
}

/// The summary lines at the top of the report.
#[verifier::spinoff_prover]
#[verifier::rlimit(60)]
fn header(a: &Vec<Json>, b: &Vec<Json>) -> (r: String)
    ensures
        r@ == header_v(views(a@), views(b@)),
{
    let ta = totals(a);
    let tb = totals(b);
    let mut out = string_of("records   ");
    push_arrow(&mut out, nat_string(a.len()).as_str(), nat_string(b.len()).as_str());
    push_str(&mut out, "\n");
    push_str(&mut out, "llm calls ");
    push_arrow(&mut out, nat_string(ta.llm).as_str(), nat_string(tb.llm).as_str());
    push_str(&mut out, "   tool calls ");
    push_arrow(&mut out, nat_string(ta.tools).as_str(), nat_string(tb.tools).as_str());
    push_str(&mut out, "\n");
    let sa = ta.tin.add(&ta.tout);
    let sb = tb.tin.add(&tb.tout);
    push_str(&mut out, "tokens    ");
    push_arrow(&mut out, fixed(&sa, 0).as_str(), fixed(&sb, 0).as_str());
    push_str(&mut out, delta(&sa, &sb, "").as_str());
    push_str(&mut out, "   (in ");
    push_arrow(&mut out, fixed(&ta.tin, 0).as_str(), fixed(&tb.tin, 0).as_str());
    push_str(&mut out, ", out ");
    push_arrow(&mut out, fixed(&ta.tout, 0).as_str(), fixed(&tb.tout, 0).as_str());
    push_str(&mut out, ")\n");
    push_str(&mut out, "cost      $");
    let mut cb = string_of("$");
    tb.cost.write_fixed(&mut cb, 4);
    push_arrow(&mut out, fixed(&ta.cost, 4).as_str(), cb.as_str());
    push_str(&mut out, cost_delta(&ta.cost, &tb.cost).as_str());
    push_str(&mut out, "\n");
    push_str(&mut out, "repairs   ");
    push_arrow(&mut out, nat_string(ta.repairs).as_str(), nat_string(tb.repairs).as_str());
    let ra = Num::from_usize(ta.repairs);
    let rb = Num::from_usize(tb.repairs);
    push_str(&mut out, delta(&ra, &rb, "").as_str());
    push_str(&mut out, "\n");
    proof {
        reveal(header_v);
        assert(out@ =~= header_v(views(a@), views(b@)));
    }
    out
}

/// The report block for position `i`, and whether the records there differ.
fn block(i: usize, a: &Vec<Json>, b: &Vec<Json>) -> (r: (String, bool))
    requires
        i < usize::MAX,
    ensures
        (r.0@, r.1) == block_v(i as nat, views(a@), views(b@)),
{
    if i < a.len() && i < b.len() {
        let ls = pair_lines_x(&a[i], &b[i]);
        if ls.len() > 0 {
            let mut out = string_of("\n#");
            push_usize(&mut out, i + 1);
            push_str(&mut out, " ");
            push_str(&mut out, label(&a[i]).as_str());
            push_str(&mut out, "\n");
            let ghost o = out@;
            let mut k: usize = 0;
            while k < ls.len()
                invariant
                    k <= ls@.len(),
                    out@ == o + join_lines(strs(ls@).take(k as int)),
                decreases ls@.len() - k,
            {
                push_str(&mut out, ls[k].as_str());
                push_str(&mut out, "\n");
                proof {
                    assert(strs(ls@).take(k + 1).drop_last() =~= strs(ls@).take(k as int));
                }
                k = k + 1;
            }
            proof {
                assert(strs(ls@).take(k as int) =~= strs(ls@));
                assert(out@ =~= block_v(i as nat, views(a@), views(b@)).0);
            }
            (out, true)
        } else {
            (String::new(), false)
        }
    } else if i < a.len() {
        let mut out = string_of("\n#");
        push_usize(&mut out, i + 1);
        push_str(&mut out, " ");
        push_str(&mut out, s(&a[i], "kind").as_str());
        push_str(&mut out, " — only in A\n");
        proof {
            assert(out@ =~= block_v(i as nat, views(a@), views(b@)).0);
        }
        (out, true)
    } else if i < b.len() {
        let mut out = string_of("\n#");
        push_usize(&mut out, i + 1);
        push_str(&mut out, " ");
        push_str(&mut out, s(&b[i], "kind").as_str());
        push_str(&mut out, " — only in B\n");
        proof {
            assert(out@ =~= block_v(i as nat, views(a@), views(b@)).0);
        }
        (out, true)
    } else {
        (String::new(), false)
    }
}

/// How a record is labelled in the report.
fn label(r: &Json) -> (l: String)
    ensures
        l@ == label_v(r@),
{
    let kind = s(r, "kind");
    let mut out;
    if crate::text::str_eq(kind.as_str(), "llm.call") {
        out = string_of("llm.call ");
        push_str(&mut out, s(r, "model").as_str());
    } else if crate::text::str_eq(kind.as_str(), "tool.call") {
        out = string_of("tool.call ");
        push_str(&mut out, s(r, "tool").as_str());
    } else {
        out = string_of(kind.as_str());
        push_str(&mut out, " ");
        push_str(&mut out, s(r, "fn").as_str());
    }
    out
}

/// The last line of the report.
pub open spec fn footer_v(changed: nat) -> Seq<char> {
    if changed == 0 {
        "\n-- traces identical (per-record)\n"@
    } else {
        "\n-- "@ + nat_str(changed) + " record(s) differ\n"@
    }
}

fn footer(changed: usize) -> (r: String)
    ensures
        r@ == footer_v(changed as nat),
{
    let mut out = String::new();
    if changed == 0 {
        push_str(&mut out, "\n-- traces identical (per-record)\n");
    } else {
        push_str(&mut out, "\n-- ");
        push_usize(&mut out, changed);
        push_str(&mut out, " record(s) differ\n");
    }
    assert(out@ =~= footer_v(changed as nat));
    out
}

/// One human-readable report comparing two traces. Both are read leniently
/// (lines that are not JSON objects are skipped).
#[verifier::spinoff_prover]
pub fn diff(a_text: &str, b_text: &str) -> (r: String)
    ensures
        r@ == diff_v(a_text@, b_text@),
{
    let _a_bytes = crate::text::str_byte_len(a_text);
    let _b_bytes = crate::text::str_byte_len(b_text);
    let ac = chars_of(a_text);
    let bc = chars_of(b_text);
    let a = parse_trace(&ac);
    let b = parse_trace(&bc);
    let mut out = header(&a, &b);
    let ghost h = out@;
    let n = if a.len() >= b.len() {
        a.len()
    } else {
        b.len()
    };
    let mut changed: usize = 0;
    let mut i: usize = 0;
    while i < n
        invariant
            i <= n,
            n == if a@.len() >= b@.len() {
                a@.len()
            } else {
                b@.len()
            },
            changed <= i,
            (out@, changed as nat) == ({
                let (t, c) = blocks_v(views(a@), views(b@), i as nat);
                (h + t, c)
            }),
        decreases n - i,
    {
        let (bt, d) = block(i, &a, &b);
        push_str(&mut out, bt.as_str());
        if d {
            changed = changed + 1;
        }
        i = i + 1;
        proof {
            let (t0, c0) = blocks_v(views(a@), views(b@), (i - 1) as nat);
            assert(out@ =~= h + (t0 + bt@));
        }
    }
    let f = footer(changed);
    push_str(&mut out, f.as_str());
    proof {
        let (t, c) = blocks_v(views(a@), views(b@), n as nat);
        assert(out@ =~= h + t + footer_v(c));
    }
    out
}

} // verus!

verus! {

/// Position `i` of the two traces differs: only one of them has a record
/// there, or both do and the records differ in kind, outcome, token count,
/// cost or output.
pub open spec fn differs_at(a: Seq<JsonV>, b: Seq<JsonV>, i: nat) -> bool {
    if i < a.len() && i < b.len() {
        pair_lines(a[i as int], b[i as int]).len() > 0
    } else {
        i < a.len() || i < b.len()
    }
}

/// How many of the first `n` positions differ.
pub open spec fn count_differing(a: Seq<JsonV>, b: Seq<JsonV>, n: nat) -> nat
    decreases n,
{
    if n == 0 {
        0
    } else {
        count_differing(a, b, (n - 1) as nat) + if differs_at(a, b, (n - 1) as nat) {
            1nat
        } else {
            0nat
        }
    }
}

proof fn lemma_blocks_count(a: Seq<JsonV>, b: Seq<JsonV>, n: nat)
    ensures
        blocks_v(a, b, n).1 == count_differing(a, b, n),
    decreases n,
{
    if n > 0 {
        lemma_blocks_count(a, b, (n - 1) as nat);
    }
}

proof fn lemma_prefix_add(p: Seq<char>, s: Seq<char>, t: Seq<char>)
    requires
        p.is_prefix_of(s),
    ensures
        p.is_prefix_of(s + t),
{
    assert((s + t).subrange(0, p.len() as int) =~= s.subrange(0, p.len() as int));
}

proof fn lemma_chain_prefix(p: Seq<char>, x1: Seq<char>, x2: Seq<char>, x3: Seq<char>, x4: Seq<char>, x5: Seq<char>, x6: Seq<char>, x7: Seq<char>, x8: Seq<char>, x9: Seq<char>, x10: Seq<char>, x11: Seq<char>, x12: Seq<char>, x13: Seq<char>, x14: Seq<char>, x15: Seq<char>, x16: Seq<char>, x17: Seq<char>, x18: Seq<char>, x19: Seq<char>, x20: Seq<char>, x21: Seq<char>)
    ensures
        p.is_prefix_of(p + x1 + x2 + x3 + x4 + x5 + x6 + x7 + x8 + x9 + x10 + x11 + x12 + x13 + x14 + x15 + x16 + x17 + x18 + x19 + x20 + x21),
{
    assert((p + x1 + x2 + x3 + x4 + x5 + x6 + x7 + x8 + x9 + x10 + x11 + x12 + x13 + x14 + x15 + x16 + x17 + x18 + x19 + x20 + x21).subrange(0, p.len() as int) =~= p);
}

proof fn lemma_header_starts(a: Seq<JsonV>, b: Seq<JsonV>)
    ensures
        ("records   "@ + arrow(nat_str(a.len()), nat_str(b.len())) + "\n"@).is_prefix_of(header_v(a, b)),
{
    reveal(header_v);
    let ta = totals_v(a, a.len());
    let tb = totals_v(b, b.len());
    let sa = num_add(ta.tin, ta.tout);
    let sb = num_add(tb.tin, tb.tout);
    let ra = num_of(ta.repairs as int, 0);
    let rb = num_of(tb.repairs as int, 0);
    lemma_chain_prefix(
        "records   "@ + arrow(nat_str(a.len()), nat_str(b.len())) + "\n"@,
        "llm calls "@, arrow(nat_str(ta.llm), nat_str(tb.llm)), "   tool calls "@, arrow(nat_str(ta.tools), nat_str(tb.tools)), "\n"@,
        "tokens    "@, arrow(fixed_v(sa, 0), fixed_v(sb, 0)), delta_v(sa, sb, ""@), "   (in "@, arrow(fixed_v(ta.tin, 0), fixed_v(tb.tin, 0)), ", out "@, arrow(fixed_v(ta.tout, 0), fixed_v(tb.tout, 0)), ")\n"@,
        "cost      $"@, arrow(fixed_v(ta.cost, 4), "$"@ + fixed_v(tb.cost, 4)), cost_delta_v(ta.cost, tb.cost), "\n"@,
        "repairs   "@, arrow(nat_str(ta.repairs), nat_str(tb.repairs)), delta_v(ra, rb, ""@), "\n"@,
    );
}

/// The report opens with the number of records on each side and closes
/// with how many positions differ, or with `traces identical` when none
/// does.
pub proof fn law_report_counts_records_and_differences(a_text: Seq<char>, b_text: Seq<char>)
    ensures
        ({
            let a = trace_v(a_text);
            let b = trace_v(b_text);
            let n = if a.len() >= b.len() {
                a.len()
            } else {
                b.len()
            };
            let r = diff_v(a_text, b_text);
            &&& ("records   "@ + arrow(nat_str(a.len()), nat_str(b.len())) + "\n"@).is_prefix_of(r)
            &&& footer_v(count_differing(a, b, n)).is_suffix_of(r)
        }),
{
    let a = trace_v(a_text);
    let b = trace_v(b_text);
    let n = if a.len() >= b.len() {
        a.len()
    } else {
        b.len()
    };
    lemma_blocks_count(a, b, n);
    let (body, changed) = blocks_v(a, b, n);
    let h = header_v(a, b);
    let first = "records   "@ + arrow(nat_str(a.len()), nat_str(b.len())) + "\n"@;
    let f = footer_v(changed);
    let r = h + body + f;
    assert(r == diff_v(a_text, b_text));
    lemma_header_starts(a, b);
    lemma_prefix_add(first, h, body);
    lemma_prefix_add(first, h + body, f);
    assert(r.subrange((r.len() - f.len()) as int, r.len() as int) =~= f);
}

} // verus!

verus! {

proof fn lemma_recs_after_insert(lines: Seq<Seq<char>>, k: int, x: Seq<char>, i: int)
    requires
        0 <= k <= i <= lines.len(),
    ensures
        recs_from(lines.insert(k, x), i + 1) == recs_from(lines, i),
    decreases lines.len() - i,
{
    let m = lines.insert(k, x);
    if i < lines.len() {
        assert(m[i + 1] == lines[i]);
        lemma_recs_after_insert(lines, k, x, i + 1);
    }
}

proof fn lemma_recs_before_insert(lines: Seq<Seq<char>>, k: int, x: Seq<char>, i: int)
    requires
        0 <= i <= k <= lines.len(),
        kept(x) is None,
    ensures
        recs_from(lines.insert(k, x), i) == recs_from(lines, i),
    decreases k - i,
{
    let m = lines.insert(k, x);
    if i < k {
        assert(m[i] == lines[i]);
        lemma_recs_before_insert(lines, k, x, i + 1);
    } else {
        assert(m[k] == x);
        lemma_recs_after_insert(lines, k, x, k);
    }
}

/// A line that is blank, not JSON, or JSON but not an object is skipped:
/// inserting one anywhere leaves the records of a trace as they were.
pub proof fn law_skipped_lines_leave_the_records(lines: Seq<Seq<char>>, k: int, x: Seq<char>)
    requires
        0 <= k <= lines.len(),
        kept(x) is None,
    ensures
        recs_from(lines.insert(k, x), 0) == recs_from(lines, 0),
{
    lemma_recs_before_insert(lines, k, x, 0);
}

/// So `diff` gives the same report when such a line is added to either
/// trace.
pub proof fn law_diff_skips_lines_that_are_not_records(a: Seq<char>, a2: Seq<char>, b: Seq<char>, k: int, x: Seq<char>)
    requires
        0 <= k <= lines_of(a).len(),
        kept(x) is None,
        lines_of(a2) == lines_of(a).insert(k, x),
    ensures
        diff_v(a2, b) == diff_v(a, b),
        diff_v(b, a2) == diff_v(b, a),
{
    lemma_recs_before_insert(lines_of(a), k, x, 0);
}

} // verus!

verus! {

/// A record's token counts add up exactly: `in + out - in - out`, summed
/// as the report sums them, shows no drift. Where the sum rounds, a record
/// shows a token drift even against itself.
pub open spec fn tokens_add_up(r: JsonV) -> bool {
    let tin = tok_v(r, "in"@);
    let tout = tok_v(r, "out"@);
    !num_drifts(minus(minus(num_add(tin, tout), tin), tout))
}

proof fn lemma_all_no_nan_at(xs: Seq<JsonV>, n: nat, i: int)
    requires
        all_no_nan(xs, n),
        0 <= i < n,
    ensures
        no_nan(xs[i]),
    decreases n,
{
    if i < n - 1 {
        lemma_all_no_nan_at(xs, (n - 1) as nat, i);
    }
}

proof fn lemma_json_eq_refl(x: JsonV)
    requires
        no_nan(x),
    ensures
        json_eq(x, x),
    decreases x, 0nat,
{
    match x {
        JsonV::Arr(xs) => lemma_all_eq_refl(xs, xs.len()),
        JsonV::Obj(ks, vs) => lemma_all_eq_refl(vs, vs.len()),
        _ => {},
    }
}

proof fn lemma_all_eq_refl(xs: Seq<JsonV>, n: nat)
    requires
        all_no_nan(xs, n),
    ensures
        all_eq(xs, xs, n),
    decreases xs, n,
{
    if n > 0 && n <= xs.len() {
        lemma_all_eq_refl(xs, (n - 1) as nat);
        lemma_all_no_nan_at(xs, n, n - 1);
        lemma_json_eq_refl(xs[n - 1]);
    }
}

proof fn lemma_minus_self(c: NumV)
    ensures
        !num_drifts(minus(c, c)),
{
    assert(crate::digits::pow10(0) == 1);
    match c {
        NumV::Fin(n, d, e) => {
            assert(crate::digits::le_digits(0) =~= Seq::<u8>::empty());
            assert(crate::decimal::ndigits(0) == 0);
            assert(crate::decimal::strip(0, e) == (0nat, e));
            assert(num_of(0, e) == zero_v());
            assert(crate::digits::val(Seq::<u8>::empty()) == 0);
            let v = crate::digits::val(d);
            if d.len() == 0 {
                assert(d =~= Seq::<u8>::empty());
                assert(minus(c, c) == num_of(0, e));
            } else {
                assert(crate::decimal::signed(n, v) * crate::digits::pow10(0) + crate::decimal::signed(!n, v)
                    * crate::digits::pow10(0) == 0);
                assert(minus(c, c) == num_of(0, e));
            }
        },
        _ => {},
    }
}

proof fn lemma_recs_no_nan(lines: Seq<Seq<char>>, k: int)
    ensures
        forall|i: int| 0 <= i < recs_from(lines, k).len() ==> no_nan(#[trigger] recs_from(lines, k)[i]),
    decreases lines.len() - k,
{
    if 0 <= k < lines.len() {
        lemma_recs_no_nan(lines, k + 1);
        crate::json::law_parsed_values_hold_no_nan(lines[k]);
        match kept(lines[k]) {
            Some(r) => {
                let rest = recs_from(lines, k + 1);
                assert(parse_v(lines[k]) == Ok::<JsonV, Seq<char>>(r));
                assert(no_nan(r));
                assert(recs_from(lines, k) == seq![r] + rest);
                assert forall|i: int| 0 <= i < (seq![r] + rest).len() implies no_nan(#[trigger] (seq![r] + rest)[i]) by {
                    if i > 0 {
                        assert((seq![r] + rest)[i] == rest[i - 1]);
                    }
                }
            },
            None => {
                assert(recs_from(lines, k) == recs_from(lines, k + 1));
            },
        }
    }
}

proof fn lemma_member_no_nan(r: JsonV, k: Seq<char>)
    requires
        no_nan(r),
    ensures
        member(r, k) matches Some(x) ==> no_nan(x),
{
    match r {
        JsonV::Obj(ks, vs) => {
            lemma_find_key(ks, k, 0);
            match find_key(ks, k, 0) {
                Some(i) => lemma_all_no_nan_at(vs, vs.len(), i),
                None => {},
            }
        },
        _ => {},
    }
}

proof fn lemma_same_trace_count(a: Seq<JsonV>, n: nat)
    requires
        n <= a.len(),
        forall|i: int| 0 <= i < a.len() ==> no_nan(#[trigger] a[i]) && tokens_add_up(a[i]),
    ensures
        count_differing(a, a, n) == 0,
    decreases n,
{
    if n > 0 {
        lemma_same_trace_count(a, (n - 1) as nat);
        let r = a[n - 1];
        lemma_minus_self(num_v(r, "cost_usd"@));
        lemma_member_no_nan(r, "output"@);
        match member(r, "output"@) {
            Some(x) => lemma_json_eq_refl(x),
            None => {},
        }
        assert(pair_lines(r, r).len() == 0);
    }
}

/// A trace compared with itself is reported identical whenever every record
/// satisfies `tokens_add_up`.
pub proof fn law_identical_traces_report_no_differences(t: Seq<char>)
    requires
        forall|i: int| 0 <= i < trace_v(t).len() ==> tokens_add_up(#[trigger] trace_v(t)[i]),
    ensures
        footer_v(0).is_suffix_of(diff_v(t, t)),
{
    let a = trace_v(t);
    lemma_recs_no_nan(lines_of(t), 0);
    lemma_same_trace_count(a, a.len());
    law_report_counts_records_and_differences(t, t);
}

} // verus!

verus! {

/// The lines from index `k` on that are records, in order.
pub open spec fn record_lines(lines: Seq<Seq<char>>, k: int) -> Seq<Seq<char>>
    decreases lines.len() - k,
{
    if k < 0 || k >= lines.len() {
        Seq::empty()
    } else if kept(lines[k]) is Some {
        seq![lines[k]] + record_lines(lines, k + 1)
    } else {
        record_lines(lines, k + 1)
    }
}

proof fn lemma_recs_shift(x: Seq<char>, s: Seq<Seq<char>>, i: int)
    requires
        0 <= i,
    ensures
        recs_from(seq![x] + s, i + 1) == recs_from(s, i),
    decreases s.len() - i,
{
    let t = seq![x] + s;
    if i < s.len() {
        assert(t[i + 1] == s[i]);
        lemma_recs_shift(x, s, i + 1);
    }
}

proof fn lemma_recs_of_record_lines(lines: Seq<Seq<char>>, k: int)
    requires
        0 <= k,
    ensures
        recs_from(lines, k) == recs_from(record_lines(lines, k), 0),
    decreases lines.len() - k,
{
    if k < lines.len() {
        lemma_recs_of_record_lines(lines, k + 1);
        let rest = record_lines(lines, k + 1);
        if kept(lines[k]) is Some {
            let t = seq![lines[k]] + rest;
            assert(t[0] == lines[k]);
            lemma_recs_shift(lines[k], rest, 0);
        }
    }
}

/// The records of a trace are those of its record lines alone: two traces
/// whose lines that are records are the same, in the same order, have the
/// same records, however many blank, non-JSON or non-object lines either
/// holds, and wherever; so `diff` reports them alike.
pub proof fn law_only_record_lines_matter(a: Seq<char>, a2: Seq<char>, b: Seq<char>)
    requires
        record_lines(lines_of(a2), 0) == record_lines(lines_of(a), 0),
    ensures
        trace_v(a2) == trace_v(a),
        diff_v(a2, b) == diff_v(a, b),
        diff_v(b, a2) == diff_v(b, a),
{
    lemma_recs_of_record_lines(lines_of(a), 0);
    lemma_recs_of_record_lines(lines_of(a2), 0);
}

} // verus!

verus! {

proof fn lemma_join_has(ls: Seq<Seq<char>>, k: int)
    requires
        0 <= k < ls.len(),
    ensures
        exists|p: int| 0 <= p && p + ls[k].len() + 1 <= join_lines(ls).len()
            && #[trigger] join_lines(ls).subrange(p, p + ls[k].len() + 1) == ls[k] + "\n"@,
    decreases ls.len(),
{
    reveal_strlit("\n");
    let j = join_lines(ls);
    let pre = join_lines(ls.drop_last());
    assert(j == pre + ls.last() + "\n"@);
    if k == ls.len() - 1 {
        let p = pre.len() as int;
        assert(j.subrange(p, p + ls[k].len() + 1) =~= ls[k] + "\n"@);
    } else {
        lemma_join_has(ls.drop_last(), k);
        assert(ls.drop_last()[k] == ls[k]);
        let p = choose|p: int| 0 <= p && p + ls[k].len() + 1 <= pre.len()
            && #[trigger] pre.subrange(p, p + ls[k].len() + 1) == ls[k] + "\n"@;
        assert(j.subrange(p, p + ls[k].len() + 1) =~= pre.subrange(p, p + ls[k].len() + 1));
    }
}

/// Two records at the same position whose `outcome` strings differ always
/// differ, whatever their kinds: the block for that position is written
/// and holds the line `  outcome   a -> b`.
pub proof fn law_changed_outcome_is_reported(a: Seq<JsonV>, b: Seq<JsonV>, i: nat)
    requires
        i < a.len(),
        i < b.len(),
        str_v(a[i as int], "outcome"@) != str_v(b[i as int], "outcome"@),
    ensures
        ({
            let line = "  outcome   "@ + str_v(a[i as int], "outcome"@) + " -> "@ + str_v(b[i as int], "outcome"@);
            let (text, differs) = block_v(i, a, b);
            &&& pair_lines(a[i as int], b[i as int]).contains(line)
            &&& differs
            &&& differs_at(a, b, i)
            &&& exists|p: int| 0 <= p && p + line.len() + 1 <= text.len()
                && #[trigger] text.subrange(p, p + line.len() + 1) == line + "\n"@
        }),
{
    let ra = a[i as int];
    let rb = b[i as int];
    let line = "  outcome   "@ + str_v(ra, "outcome"@) + " -> "@ + str_v(rb, "outcome"@);
    let ls = pair_lines(ra, rb);
    let ka = str_v(ra, "kind"@);
    let kb = str_v(rb, "kind"@);
    let first: Seq<Seq<char>> = if ka != kb {
        seq!["  kind      "@ + arrow(ka, kb)]
    } else {
        Seq::empty()
    };
    let k = first.len() as int;
    assert(ls[k] == line);
    assert(ls.contains(line));
    lemma_join_has(ls, k);
    let head = "\n#"@ + nat_str(i + 1) + " "@ + label_v(ra) + "\n"@;
    let j = join_lines(ls);
    let text = block_v(i, a, b).0;
    assert(text == head + j);
    let p = choose|p: int| 0 <= p && p + line.len() + 1 <= j.len()
        && #[trigger] j.subrange(p, p + line.len() + 1) == line + "\n"@;
    let q = head.len() + p;
    assert(text.subrange(q, q + line.len() + 1) =~= j.subrange(p, p + line.len() + 1));
}

/// A changed kind is reported the same way, with the line
/// `  kind      a -> b`.
#[verifier::spinoff_prover]
#[verifier::rlimit(50)]
pub proof fn law_changed_kind_is_reported(ra: JsonV, rb: JsonV)
    requires
        str_v(ra, "kind"@) != str_v(rb, "kind"@),
    ensures
        pair_lines(ra, rb).contains("  kind      "@ + str_v(ra, "kind"@) + " -> "@ + str_v(rb, "kind"@)),
{
    let ls = pair_lines(ra, rb);
    assert(ls[0] == "  kind      "@ + str_v(ra, "kind"@) + " -> "@ + str_v(rb, "kind"@));
}

/// A changed output is reported with the line `  output    CHANGED`.
#[verifier::spinoff_prover]
#[verifier::rlimit(50)]
pub proof fn law_changed_output_is_reported(ra: JsonV, rb: JsonV)
    requires
        !opt_eq(member(ra, "output"@), member(rb, "output"@)),
    ensures
        pair_lines(ra, rb).contains("  output    CHANGED"@),
{
    let ls = pair_lines(ra, rb);
    let tail = seq!["  output    CHANGED"@] + match (member(ra, "output"@), member(rb, "output"@)) {
        (Some(x), Some(y)) => seq![
            "    - \""@ + preview_v(x, 72) + "\""@,
            "    + \""@ + preview_v(y, 72) + "\""@,
        ],
        _ => Seq::empty(),
    };
    let k = ls.len() - tail.len();
    assert(ls[k] == "  output    CHANGED"@);
}

/// Two records at the same position show no difference exactly when they
/// agree on kind and outcome, their token totals and costs do not drift,
/// and their outputs are equal.
#[verifier::spinoff_prover]
#[verifier::rlimit(50)]
pub proof fn law_records_agree_exactly_when_nothing_changed(ra: JsonV, rb: JsonV)
    ensures
        ({
            let ta = num_add(tok_v(ra, "in"@), tok_v(ra, "out"@));
            pair_lines(ra, rb).len() == 0 <==> {
                &&& str_v(ra, "kind"@) == str_v(rb, "kind"@)
                &&& str_v(ra, "outcome"@) == str_v(rb, "outcome"@)
                &&& !num_drifts(minus(minus(ta, tok_v(rb, "in"@)), tok_v(rb, "out"@)))
                &&& !num_drifts(minus(num_v(ra, "cost_usd"@), num_v(rb, "cost_usd"@)))
                &&& opt_eq(member(ra, "output"@), member(rb, "output"@))
            }
        }),
{
}

} // verus!
