//! Validation of frozen v1 trace files: every non-blank line must be a JSON
//! object of record version 1 with consecutive `seq` numbers, a known `kind`
//! and that kind's required fields. Additional fields are allowed.

use vstd::prelude::*;
use crate::decimal::{display_v, num_add, num_eq, num_of, Num, NumV};
use crate::json::{member, parse_chars, parse_v, Json, JsonV};
use crate::text::{
    blank, byte_len, chars_of, is_blank, lemma_lines_from_bound, lines_of, nat_str, push_chars,
    push_str, push_usize, split_lines, string_of,
};

verus! {

/// The fields a record of `kind` must carry, or `None` for an unknown kind.
pub open spec fn required_v(kind: Seq<char>) -> Option<Seq<Seq<char>>> {
    if kind == "llm.call"@ {
        Some(
            seq![
                "model"@,
                "params"@,
                "input"@,
                "output"@,
                "tokens"@,
                "cost_usd"@,
                "repair_round"@,
                "outcome"@,
                "provider"@,
            ],
        )
    } else if kind == "tool.call"@ {
        Some(seq!["tool"@, "input"@, "output"@])
    } else if kind == "fn.return"@ {
        Some(seq!["fn"@, "output"@])
    } else {
        None
    }
}

/// Required fields per record kind (optional additive fields are not listed).
pub fn required(kind: &str) -> (r: Option<Vec<&'static str>>)
    ensures
        r is Some <==> required_v(kind@) is Some,
        r matches Some(v) ==> v@.len() == required_v(kind@)->0.len() && forall|i: int|
            0 <= i < v@.len() ==> (#[trigger] v@[i])@ == required_v(kind@)->0[i],
{
    if crate::text::str_eq(kind, "llm.call") {
        let mut v: Vec<&'static str> = Vec::new();
        v.push("model");
        v.push("params");
        v.push("input");
        v.push("output");
        v.push("tokens");
        v.push("cost_usd");
        v.push("repair_round");
        v.push("outcome");
        v.push("provider");
        Some(v)
    } else if crate::text::str_eq(kind, "tool.call") {
        let mut v: Vec<&'static str> = Vec::new();
        v.push("tool");
        v.push("input");
        v.push("output");
        Some(v)
    } else if crate::text::str_eq(kind, "fn.return") {
        let mut v: Vec<&'static str> = Vec::new();
        v.push("fn");
        v.push("output");
        Some(v)
    } else {
        None
    }
}

/// The number member `k` of a record.
pub open spec fn num_member(rec: JsonV, k: Seq<char>) -> Option<NumV> {
    match member(rec, k) {
        Some(JsonV::Num(x)) => Some(x),
        _ => None,
    }
}

/// The string member `k` of a record.
pub open spec fn str_member(rec: JsonV, k: Seq<char>) -> Option<Seq<char>> {
    match member(rec, k) {
        Some(JsonV::Str(s)) => Some(s),
        _ => None,
    }
}

/// The number one.
pub open spec fn one_v() -> NumV {
    num_of(1, 0)
}

/// `line {n}: `
pub open spec fn pfx(n: nat) -> Seq<char> {
    "line "@ + nat_str(n) + ": "@
}

/// What the validator remembers between lines: the `seq` it expects next,
/// and whether the previous `seq` was missing.
pub struct SeqState {
    pub expect: NumV,
    pub unknown: bool,
}

pub open spec fn version_errs(n: nat, rec: JsonV) -> Seq<Seq<char>> {
    match num_member(rec, "v"@) {
        Some(v) => if num_eq(v, one_v()) {
            Seq::empty()
        } else {
            seq![pfx(n) + "unsupported record version "@ + display_v(v) + " (E0601)"@]
        },
        None => seq![pfx(n) + "missing or non-numeric `v`"@],
    }
}

pub open spec fn seq_step(n: nat, rec: JsonV, st: SeqState) -> (Seq<Seq<char>>, SeqState) {
    match num_member(rec, "seq"@) {
        Some(s) => if st.unknown {
            (Seq::empty(), SeqState { expect: num_add(s, one_v()), unknown: false })
        } else if num_eq(s, st.expect) {
            (Seq::empty(), SeqState { expect: num_add(st.expect, one_v()), unknown: false })
        } else {
            (
                seq![
                    pfx(n) + "seq "@ + display_v(s) + " out of order (expected "@ + display_v(
                        st.expect,
                    ) + ")"@,
                ],
                SeqState { expect: num_add(s, one_v()), unknown: false },
            )
        },
        None => (
            seq![pfx(n) + "missing or non-numeric `seq`"@],
            SeqState { expect: st.expect, unknown: true },
        ),
    }
}

/// One error for each of the first `k` fields that the record lacks.
pub open spec fn missing_errs(
    n: nat,
    rec: JsonV,
    kind: Seq<char>,
    fields: Seq<Seq<char>>,
    k: nat,
) -> Seq<Seq<char>>
    decreases k,
{
    if k == 0 || k > fields.len() {
        Seq::empty()
    } else {
        missing_errs(n, rec, kind, fields, (k - 1) as nat) + if member(rec, fields[k - 1]) is None {
            seq![pfx(n) + kind + " record missing `"@ + fields[k - 1] + "`"@]
        } else {
            Seq::empty()
        }
    }
}

pub open spec fn kind_errs(n: nat, rec: JsonV) -> Seq<Seq<char>> {
    match str_member(rec, "kind"@) {
        None => seq![pfx(n) + "missing `kind`"@],
        Some(kind) => match required_v(kind) {
            None => seq![pfx(n) + "unknown record kind '"@ + kind + "'"@],
            Some(fields) => missing_errs(n, rec, kind, fields, fields.len()),
        },
    }
}

/// The errors of line number `n` and the state after it.
pub open spec fn line_step(n: nat, line: Seq<char>, st: SeqState) -> (Seq<Seq<char>>, SeqState) {
    if is_blank(line) {
        (Seq::empty(), st)
    } else {
        match parse_v(line) {
            Err(e) => (seq![pfx(n) + "invalid JSON: "@ + e], st),
            Ok(rec) => if !(rec is Obj) {
                (seq![pfx(n) + "record is not a JSON object"@], st)
            } else {
                let (se, st2) = seq_step(n, rec, st);
                (version_errs(n, rec) + se + kind_errs(n, rec), st2)
            },
        }
    }
}

/// The errors of the lines from index `k` on, starting in state `st`.
pub open spec fn errs_from(lines: Seq<Seq<char>>, k: int, st: SeqState) -> Seq<Seq<char>>
    decreases lines.len() - k,
{
    if k < 0 || k >= lines.len() {
        Seq::empty()
    } else {
        let (e, st2) = line_step((k + 1) as nat, lines[k], st);
        e + errs_from(lines, k + 1, st2)
    }
}

/// Everything `validate` reports for a trace text.
pub open spec fn validate_v(text: Seq<char>) -> Seq<Seq<char>> {
    errs_from(lines_of(text), 0, SeqState { expect: one_v(), unknown: false })
}

} // verus!

verus! {

/// The contents of a list of strings.
pub open spec fn strs(v: Seq<String>) -> Seq<Seq<char>> {
    Seq::new(v.len(), |i: int| v[i]@)
}

/// Appends one message.
fn push_msg(errs: &mut Vec<String>, m: String)
    ensures
        strs(final(errs)@) == strs(old(errs)@).push(m@),
{
    let ghost m0 = m@;
    errs.push(m);
    assert(strs(errs@) =~= strs(old(errs)@).push(m0));
}

fn pfx_x(n: usize) -> (r: String)
    ensures
        r@ == pfx(n as nat),
{
    let mut r = string_of("line ");
    push_usize(&mut r, n);
    push_str(&mut r, ": ");
    r
}

fn one() -> (r: Num)
    ensures
        r@ == one_v(),
{
    Num::from_usize(1)
}

fn num_member_x(rec: &Json, k: &str) -> (r: Option<Num>)
    ensures
        r is Some <==> num_member(rec@, k@) is Some,
        r matches Some(x) ==> num_member(rec@, k@) == Some(x@),
{
    match rec.get(k) {
        Some(v) => v.as_num(),
        None => None,
    }
}

fn str_member_x<'a>(rec: &'a Json, k: &str) -> (r: Option<&'a str>)
    ensures
        r is Some <==> str_member(rec@, k@) is Some,
        r matches Some(x) ==> str_member(rec@, k@) == Some(x@),
{
    match rec.get(k) {
        Some(v) => v.as_str(),
        None => None,
    }
}

fn version_x(n: usize, rec: &Json, errs: &mut Vec<String>)
    ensures
        strs(final(errs)@) == strs(old(errs)@) + version_errs(n as nat, rec@),
{
    match num_member_x(rec, "v") {
        Some(v) => {
            if v.equal(&one()) {
                assert(strs(errs@) =~= strs(old(errs)@) + version_errs(n as nat, rec@));
            } else {
                let mut m = pfx_x(n);
                push_str(&mut m, "unsupported record version ");
                v.write_display(&mut m);
                push_str(&mut m, " (E0601)");
                push_msg(errs, m);
                assert(strs(errs@) =~= strs(old(errs)@) + version_errs(n as nat, rec@));
            }
        },
        None => {
            let mut m = pfx_x(n);
            push_str(&mut m, "missing or non-numeric `v`");
            push_msg(errs, m);
            assert(strs(errs@) =~= strs(old(errs)@) + version_errs(n as nat, rec@));
        },
    }
}

fn seq_x(n: usize, rec: &Json, expect: &mut Num, unknown: &mut bool, errs: &mut Vec<String>)
    ensures
        ({
            let (e, st) = seq_step(n as nat, rec@, SeqState { expect: old(expect)@, unknown: *old(unknown) });
            &&& strs(final(errs)@) == strs(old(errs)@) + e
            &&& final(expect)@ == st.expect
            &&& *final(unknown) == st.unknown
        }),
{
    match num_member_x(rec, "seq") {
        Some(s) => {
            if *unknown {
                *unknown = false;
                *expect = s.add(&one());
            } else if s.equal(expect) {
                *expect = expect.add(&one());
            } else {
                let mut m = pfx_x(n);
                push_str(&mut m, "seq ");
                s.write_display(&mut m);
                push_str(&mut m, " out of order (expected ");
                expect.write_display(&mut m);
                push_str(&mut m, ")");
                push_msg(errs, m);
                *expect = s.add(&one());
            }
        },
        None => {
            let mut m = pfx_x(n);
            push_str(&mut m, "missing or non-numeric `seq`");
            push_msg(errs, m);
            *unknown = true;
        },
    }
    assert(strs(errs@) =~= strs(old(errs)@) + seq_step(
        n as nat,
        rec@,
        SeqState { expect: old(expect)@, unknown: *old(unknown) },
    ).0);
}

fn kind_x(n: usize, rec: &Json, errs: &mut Vec<String>)
    ensures
        strs(final(errs)@) == strs(old(errs)@) + kind_errs(n as nat, rec@),
{
    match str_member_x(rec, "kind") {
        None => {
            let mut m = pfx_x(n);
            push_str(&mut m, "missing `kind`");
            push_msg(errs, m);
            assert(strs(errs@) =~= strs(old(errs)@) + kind_errs(n as nat, rec@));
        },
        Some(kind) => match required(kind) {
            None => {
                let mut m = pfx_x(n);
                push_str(&mut m, "unknown record kind '");
                push_str(&mut m, kind);
                push_str(&mut m, "'");
                push_msg(errs, m);
                assert(strs(errs@) =~= strs(old(errs)@) + kind_errs(n as nat, rec@));
            },
            Some(fields) => {
                let ghost fs = required_v(kind@)->0;
                let ghost e0 = strs(errs@);
                let mut i: usize = 0;
                while i < fields.len()
                    invariant
                        i <= fields@.len() == fs.len(),
                        forall|j: int| 0 <= j < fields@.len() ==> (#[trigger] fields@[j])@ == fs[j],
                        strs(errs@) == e0 + missing_errs(n as nat, rec@, kind@, fs, i as nat),
                    decreases fields@.len() - i,
                {
                    let f = fields[i];
                    if rec.get(f).is_none() {
                        let mut m = pfx_x(n);
                        push_str(&mut m, kind);
                        push_str(&mut m, " record missing `");
                        push_str(&mut m, f);
                        push_str(&mut m, "`");
                        push_msg(errs, m);
                    }
                    i = i + 1;
                    assert(strs(errs@) =~= e0 + missing_errs(n as nat, rec@, kind@, fs, i as nat));
                }
            },
        },
    }
}

} // verus!

verus! {

fn line_x(
    n: usize,
    line: &Vec<char>,
    expect: &mut Num,
    unknown: &mut bool,
    errs: &mut Vec<String>,
)
    requires
        byte_len(line@) <= usize::MAX,
    ensures
        ({
            let (e, st) = line_step(
                n as nat,
                line@,
                SeqState { expect: old(expect)@, unknown: *old(unknown) },
            );
            &&& strs(final(errs)@) == strs(old(errs)@) + e
            &&& final(expect)@ == st.expect
            &&& *final(unknown) == st.unknown
        }),
{
    if blank(line) {
        assert(strs(errs@) =~= strs(old(errs)@) + Seq::<Seq<char>>::empty());
        return;
    }
    match parse_chars(line) {
        Err(e) => {
            let mut m = pfx_x(n);
            push_str(&mut m, "invalid JSON: ");
            push_str(&mut m, e.as_str());
            push_msg(errs, m);
            assert(strs(errs@) =~= strs(old(errs)@) + seq![m@]);
        },
        Ok(rec) => {
            if !rec.is_obj() {
                let mut m = pfx_x(n);
                push_str(&mut m, "record is not a JSON object");
                push_msg(errs, m);
                assert(strs(errs@) =~= strs(old(errs)@) + seq![m@]);
            } else {
                let ghost e0 = strs(errs@);
                version_x(n, &rec, errs);
                let ghost e1 = strs(errs@);
                seq_x(n, &rec, expect, unknown, errs);
                let ghost e2 = strs(errs@);
                kind_x(n, &rec, errs);
                assert(strs(errs@) =~= e0 + (version_errs(n as nat, rec@) + seq_step(
                    n as nat,
                    rec@,
                    SeqState { expect: old(expect)@, unknown: *old(unknown) },
                ).0 + kind_errs(n as nat, rec@)));
            }
        },
    }
}

/// One human-readable problem per violation; empty means the trace conforms.
pub fn validate(text: &str) -> (r: Vec<String>)
    ensures
        strs(r@) == validate_v(text@),
{
    let _bytes = crate::text::str_byte_len(text);
    let t = chars_of(text);
    let lines = split_lines(&t);
    proof {
        lemma_lines_from_bound(t@, 0);
    }
    let mut errs: Vec<String> = Vec::new();
    let mut expect = one();
    let mut unknown = false;
    let mut k: usize = 0;
    proof {
        assert(strs(errs@) =~= Seq::<Seq<char>>::empty());
        assert(Seq::<Seq<char>>::empty() + validate_v(text@) =~= validate_v(text@));
    }
    while k < lines.len()
        invariant
            k <= lines@.len() == lines_of(t@).len(),
            t@ == text@,
            byte_len(t@) <= usize::MAX,
            forall|j: int| 0 <= j < lines@.len() ==> (#[trigger] lines@[j])@ == lines_of(t@)[j],
            forall|j: int|
                0 <= j < lines_of(t@).len() ==> byte_len(#[trigger] crate::text::lines_from(t@, 0)[j])
                    <= byte_len(t@),
            strs(errs@) + errs_from(
                lines_of(t@),
                k as int,
                SeqState { expect: expect@, unknown },
            ) == validate_v(text@),
        decreases lines@.len() - k,
    {
        let ghost before = strs(errs@);
        let ghost st = SeqState { expect: expect@, unknown };
        assert(lines@[k as int]@ == crate::text::lines_from(t@, 0)[k as int]);
        line_x(k + 1, &lines[k], &mut expect, &mut unknown, &mut errs);
        proof {
            let (e, st2) = line_step((k + 1) as nat, lines_of(t@)[k as int], st);
            assert(errs_from(lines_of(t@), k as int, st) == e + errs_from(lines_of(t@), k + 1, st2));
            assert(strs(errs@) == before + e);
            assert(strs(errs@) + errs_from(lines_of(t@), k + 1, st2) =~= before + (e + errs_from(
                lines_of(t@),
                k + 1,
                st2,
            )));
        }
        k = k + 1;
    }
    errs
}

} // verus!

verus! {

/// A record whose `v` is a number other than 1 is reported as an unknown
/// version (E0601), first among the errors of its line.
pub proof fn law_unknown_version_is_e0601(n: nat, line: Seq<char>, st: SeqState, rec: JsonV, x: NumV)
    requires
        !is_blank(line),
        parse_v(line) == Ok::<JsonV, Seq<char>>(rec),
        rec is Obj,
        num_member(rec, "v"@) == Some(x),
        !num_eq(x, one_v()),
    ensures
        line_step(n, line, st).0.len() > 0,
        line_step(n, line, st).0[0] == pfx(n) + "unsupported record version "@ + display_v(x)
            + " (E0601)"@,
{
}

/// After a record without a numeric `seq`, the next record's `seq` starts
/// the count afresh: it is never reported out of order.
pub proof fn law_missing_seq_rebaselines(n: nat, r1: JsonV, r2: JsonV, st: SeqState, s: NumV)
    requires
        num_member(r1, "seq"@) is None,
        num_member(r2, "seq"@) == Some(s),
    ensures
        seq_step(n, r1, st).1.unknown,
        seq_step(n + 1, r2, seq_step(n, r1, st).1).0.len() == 0,
        seq_step(n + 1, r2, seq_step(n, r1, st).1).1 == (SeqState {
            expect: num_add(s, one_v()),
            unknown: false,
        }),
{
}

pub proof fn lemma_find_key_push(ks: Seq<Seq<char>>, k: Seq<char>, x: Seq<char>, i: int)
    requires
        0 <= i <= ks.len(),
        x != k,
    ensures
        crate::json::find_key(ks.push(k), x, i) == crate::json::find_key(ks, x, i),
    decreases ks.len() - i,
{
    if i < ks.len() && ks[i] != x {
        lemma_find_key_push(ks, k, x, i + 1);
    } else if i == ks.len() {
        assert(ks.push(k)[i] == k);
        assert(crate::json::find_key(ks.push(k), x, i + 1) is None);
    }
}

/// The keys the validator looks at.
pub open spec fn checked_key(k: Seq<char>) -> bool {
    k == "v"@ || k == "seq"@ || k == "kind"@ || (exists|kind: Seq<char>, i: int|
        #![trigger required_v(kind)->0[i]]
        required_v(kind) is Some && 0 <= i < required_v(kind)->0.len() && required_v(kind)->0[i]
            == k)
}

proof fn lemma_member_push(ks: Seq<Seq<char>>, vs: Seq<JsonV>, k: Seq<char>, v: JsonV, x: Seq<char>)
    requires
        x != k,
        ks.len() == vs.len(),
    ensures
        member(JsonV::Obj(ks.push(k), vs.push(v)), x) == member(JsonV::Obj(ks, vs), x),
{
    lemma_find_key_push(ks, k, x, 0);
    crate::json::lemma_find_key(ks, x, 0);
}

proof fn lemma_missing_push(
    n: nat,
    ks: Seq<Seq<char>>,
    vs: Seq<JsonV>,
    k: Seq<char>,
    v: JsonV,
    kind: Seq<char>,
    fields: Seq<Seq<char>>,
    m: nat,
)
    requires
        ks.len() == vs.len(),
        forall|i: int| 0 <= i < fields.len() ==> fields[i] != k,
    ensures
        missing_errs(n, JsonV::Obj(ks.push(k), vs.push(v)), kind, fields, m) == missing_errs(
            n,
            JsonV::Obj(ks, vs),
            kind,
            fields,
            m,
        ),
    decreases m,
{
    if m > 0 && m <= fields.len() {
        lemma_missing_push(n, ks, vs, k, v, kind, fields, (m - 1) as nat);
        lemma_member_push(ks, vs, k, v, fields[m - 1]);
    }
}

/// Additive fields are allowed: adding a field that the record did not
/// have and that the validator does not look at changes nothing that is
/// reported for the record, nor what is expected of the next one.
pub proof fn law_additive_fields_are_allowed(
    n: nat,
    ks: Seq<Seq<char>>,
    vs: Seq<JsonV>,
    k: Seq<char>,
    v: JsonV,
    st: SeqState,
)
    requires
        ks.len() == vs.len(),
        !checked_key(k),
    ensures
        version_errs(n, JsonV::Obj(ks.push(k), vs.push(v))) == version_errs(n, JsonV::Obj(ks, vs)),
        seq_step(n, JsonV::Obj(ks.push(k), vs.push(v)), st) == seq_step(n, JsonV::Obj(ks, vs), st),
        kind_errs(n, JsonV::Obj(ks.push(k), vs.push(v))) == kind_errs(n, JsonV::Obj(ks, vs)),
{
    reveal_strlit("v");
    reveal_strlit("seq");
    reveal_strlit("kind");
    lemma_member_push(ks, vs, k, v, "v"@);
    lemma_member_push(ks, vs, k, v, "seq"@);
    lemma_member_push(ks, vs, k, v, "kind"@);
    let rec = JsonV::Obj(ks, vs);
    match str_member(rec, "kind"@) {
        Some(kind) => match required_v(kind) {
            Some(fields) => {
                assert forall|i: int| 0 <= i < fields.len() implies fields[i] != k by {
                    if fields[i] == k {
                        assert(required_v(kind)->0[i] == k);
                    }
                }
                lemma_missing_push(n, ks, vs, k, v, kind, fields, fields.len());
            },
            None => {},
        },
        None => {},
    }
}

} // verus!

verus! {

/// The number of non-blank lines among the first `k` lines.
pub open spec fn nonblank_count(ls: Seq<Seq<char>>, k: nat) -> nat
    decreases k,
{
    if k == 0 || k > ls.len() {
        0
    } else {
        nonblank_count(ls, (k - 1) as nat) + if is_blank(ls[k - 1]) {
            0nat
        } else {
            1nat
        }
    }
}

/// The number of records of a trace text: its non-blank lines.
pub fn record_count(text: &str) -> (r: usize)
    ensures
        r as nat == nonblank_count(lines_of(text@), lines_of(text@).len()),
{
    let t = chars_of(text);
    let lines = split_lines(&t);
    let mut n: usize = 0;
    let mut k: usize = 0;
    while k < lines.len()
        invariant
            k <= lines@.len() == lines_of(t@).len(),
            t@ == text@,
            forall|j: int| 0 <= j < lines@.len() ==> (#[trigger] lines@[j])@ == lines_of(t@)[j],
            n as nat == nonblank_count(lines_of(t@), k as nat),
            n <= k,
        decreases lines@.len() - k,
    {
        if !blank(&lines[k]) {
            n = n + 1;
        }
        k = k + 1;
    }
    n
}

} // verus!

verus! {

/// A record carries a known `kind` and every field that kind requires.
pub open spec fn kind_ok(rec: JsonV) -> bool {
    match str_member(rec, "kind"@) {
        Some(kind) => match required_v(kind) {
            Some(fields) => forall|i: int| 0 <= i < fields.len() ==> member(rec, #[trigger] fields[i]) is Some,
            None => false,
        },
        None => false,
    }
}

/// A conforming record numbered `j`: an object of version 1 whose `seq`
/// is `j`, of a known kind with its required fields.
pub open spec fn record_ok(rec: JsonV, j: nat) -> bool {
    &&& rec is Obj
    &&& num_member(rec, "v"@) matches Some(v) && num_eq(v, one_v())
    &&& num_member(rec, "seq"@) matches Some(s) && num_eq(s, num_of(j as int, 0))
    &&& kind_ok(rec)
}

/// The lines from index `k` on are blank or conforming records numbered on
/// from `j`.
pub open spec fn lines_ok(lines: Seq<Seq<char>>, k: int, j: nat) -> bool
    decreases lines.len() - k,
{
    if k < 0 || k >= lines.len() {
        true
    } else if is_blank(lines[k]) {
        lines_ok(lines, k + 1, j)
    } else {
        parse_v(lines[k]) matches Ok(rec) && record_ok(rec, j) && lines_ok(lines, k + 1, j + 1)
    }
}

proof fn lemma_missing_none(n: nat, rec: JsonV, kind: Seq<char>, fields: Seq<Seq<char>>, k: nat)
    requires
        k <= fields.len(),
    ensures
        missing_errs(n, rec, kind, fields, k).len() == 0 <==> forall|i: int|
            0 <= i < k ==> member(rec, #[trigger] fields[i]) is Some,
    decreases k,
{
    if k > 0 {
        lemma_missing_none(n, rec, kind, fields, (k - 1) as nat);
    }
}

proof fn lemma_errs_none(lines: Seq<Seq<char>>, k: int, j: nat)
    requires
        0 <= k <= lines.len(),
        1 <= j,
        j + lines.len() - k < 100_000_000_000_000_000,
    ensures
        errs_from(lines, k, SeqState { expect: num_of(j as int, 0), unknown: false }).len() == 0 <==> lines_ok(
            lines,
            k,
            j,
        ),
    decreases lines.len() - k,
{
    if k < lines.len() {
        let st = SeqState { expect: num_of(j as int, 0), unknown: false };
        let line = lines[k];
        let n = (k + 1) as nat;
        if is_blank(line) {
            lemma_errs_none(lines, k + 1, j);
        } else if parse_v(line) is Ok && parse_v(line)->Ok_0 is Obj {
            let rec = parse_v(line)->Ok_0;
            lemma_errs_none(lines, k + 1, j + 1);
            crate::decimal::lemma_num_succ(j);
            let (se, st2) = seq_step(n, rec, st);
            match str_member(rec, "kind"@) {
                Some(kind) => match required_v(kind) {
                    Some(fields) => lemma_missing_none(n, rec, kind, fields, fields.len()),
                    None => {},
                },
                None => {},
            }
            let e = version_errs(n, rec) + se + kind_errs(n, rec);
            let rest = errs_from(lines, k + 1, st2);
            assert(errs_from(lines, k, st) == e + rest);
            if e.len() == 0 {
                assert(st2 == SeqState { expect: num_of(j + 1int, 0), unknown: false });
            }
        }
    }
}

/// `validate` reports nothing exactly when every non-blank line is a
/// conforming record (a JSON object of version 1, of a known kind with its
/// required fields) and the records are numbered 1, 2, 3, ... in order.
/// Stated for traces of fewer than `10^17` lines, where counting is exact.
pub proof fn law_validate_accepts_exactly_conforming_traces(text: Seq<char>)
    requires
        lines_of(text).len() + 1 < 100_000_000_000_000_000,
    ensures
        validate_v(text).len() == 0 <==> lines_ok(lines_of(text), 0, 1),
{
    lemma_errs_none(lines_of(text), 0, 1);
}

} // verus!

verus! {

proof fn lemma_missing_len(n: nat, m: nat, rec: JsonV, kind: Seq<char>, fields: Seq<Seq<char>>, k: nat)
    ensures
        missing_errs(n, rec, kind, fields, k).len() == missing_errs(m, rec, kind, fields, k).len(),
    decreases k,
{
    if k > 0 {
        lemma_missing_len(n, m, rec, kind, fields, (k - 1) as nat);
    }
}

proof fn lemma_line_step_renumbered(n: nat, m: nat, line: Seq<char>, st: SeqState)
    ensures
        line_step(n, line, st).0.len() == line_step(m, line, st).0.len(),
        line_step(n, line, st).1 == line_step(m, line, st).1,
{
    if !is_blank(line) && parse_v(line) is Ok && parse_v(line)->Ok_0 is Obj {
        let rec = parse_v(line)->Ok_0;
        match str_member(rec, "kind"@) {
            Some(kind) => match required_v(kind) {
                Some(fields) => lemma_missing_len(n, m, rec, kind, fields, fields.len()),
                None => {},
            },
            None => {},
        }
    }
}

proof fn lemma_errs_after_blank(lines: Seq<Seq<char>>, k: int, x: Seq<char>, i: int, st: SeqState)
    requires
        0 <= k <= i <= lines.len(),
    ensures
        errs_from(lines.insert(k, x), i + 1, st).len() == errs_from(lines, i, st).len(),
    decreases lines.len() - i,
{
    let m = lines.insert(k, x);
    if i < lines.len() {
        assert(m[i + 1] == lines[i]);
        lemma_line_step_renumbered((i + 2) as nat, (i + 1) as nat, lines[i], st);
        let st2 = line_step((i + 1) as nat, lines[i], st).1;
        lemma_errs_after_blank(lines, k, x, i + 1, st2);
    }
}

proof fn lemma_errs_before_blank(lines: Seq<Seq<char>>, k: int, x: Seq<char>, i: int, st: SeqState)
    requires
        0 <= i <= k <= lines.len(),
        is_blank(x),
    ensures
        errs_from(lines.insert(k, x), i, st).len() == errs_from(lines, i, st).len(),
    decreases k - i,
{
    let m = lines.insert(k, x);
    if i < k {
        assert(m[i] == lines[i]);
        let st2 = line_step((i + 1) as nat, lines[i], st).1;
        lemma_errs_before_blank(lines, k, x, i + 1, st2);
    } else {
        assert(m[k] == x);
        lemma_errs_after_blank(lines, k, x, k, st);
    }
}

/// Inserting a blank line anywhere in a trace changes how many errors
/// `validate` reports by nothing; only the line numbers after it move.
pub proof fn law_blank_lines_change_no_error_count(lines: Seq<Seq<char>>, k: int, x: Seq<char>)
    requires
        0 <= k <= lines.len(),
        is_blank(x),
    ensures
        errs_from(lines.insert(k, x), 0, SeqState { expect: one_v(), unknown: false }).len() == errs_from(
            lines,
            0,
            SeqState { expect: one_v(), unknown: false },
        ).len(),
{
    lemma_errs_before_blank(lines, k, x, 0, SeqState { expect: one_v(), unknown: false });
}

} // verus!

verus! {

/// Record `(ks2, vs2)` is record `(ks, vs)` with more members appended under
/// keys that validation does not look at.
pub open spec fn widened_obj(ks: Seq<Seq<char>>, vs: Seq<JsonV>, ks2: Seq<Seq<char>>, vs2: Seq<JsonV>) -> bool {
    &&& ks.len() == vs.len()
    &&& ks2.len() == vs2.len()
    &&& ks.len() <= ks2.len()
    &&& ks2.subrange(0, ks.len() as int) == ks
    &&& vs2.subrange(0, vs.len() as int) == vs
    &&& forall|q: int| ks.len() <= q < ks2.len() ==> !checked_key(#[trigger] ks2[q])
}

/// Line `y` is line `x`, or both are records and `y`'s record is `x`'s
/// widened as `widened_obj` says.
pub open spec fn widened(x: Seq<char>, y: Seq<char>) -> bool {
    ||| x == y
    ||| {
        &&& !is_blank(x)
        &&& !is_blank(y)
        &&& parse_v(x) is Ok
        &&& parse_v(x)->Ok_0 is Obj
        &&& parse_v(y) is Ok
        &&& parse_v(y)->Ok_0 is Obj
        &&& widened_obj(
            parse_v(x)->Ok_0->Obj_0,
            parse_v(x)->Ok_0->Obj_1,
            parse_v(y)->Ok_0->Obj_0,
            parse_v(y)->Ok_0->Obj_1,
        )
    }
}

/// The lines `b[j..]` are the lines `a[i..]` with blank lines inserted
/// anywhere and records widened as `widened` says.
pub open spec fn loosened(a: Seq<Seq<char>>, i: int, b: Seq<Seq<char>>, j: int) -> bool
    decreases b.len() - j,
{
    if j < 0 || j >= b.len() {
        i == a.len() && j == b.len()
    } else {
        ||| (is_blank(b[j]) && loosened(a, i, b, j + 1))
        ||| (0 <= i < a.len() && widened(a[i], b[j]) && loosened(a, i + 1, b, j + 1))
    }
}

proof fn lemma_widen_record(n: nat, ks: Seq<Seq<char>>, vs: Seq<JsonV>, ks2: Seq<Seq<char>>, vs2: Seq<JsonV>, m: nat, st: SeqState)
    requires
        ks.len() == vs.len(),
        ks2.len() == vs2.len(),
        ks.len() <= m <= ks2.len(),
        ks2.subrange(0, ks.len() as int) == ks,
        vs2.subrange(0, vs.len() as int) == vs,
        forall|q: int| ks.len() <= q < ks2.len() ==> !checked_key(#[trigger] ks2[q]),
    ensures
        ({
            let r2 = JsonV::Obj(ks2.take(m as int), vs2.take(m as int));
            let r = JsonV::Obj(ks, vs);
            &&& version_errs(n, r2) == version_errs(n, r)
            &&& seq_step(n, r2, st) == seq_step(n, r, st)
            &&& kind_errs(n, r2) == kind_errs(n, r)
        }),
    decreases m,
{
    if m == ks.len() {
        assert(ks2.take(m as int) =~= ks);
        assert(vs2.take(m as int) =~= vs);
    } else {
        lemma_widen_record(n, ks, vs, ks2, vs2, (m - 1) as nat, st);
        let a = ks2.take(m - 1);
        let b = vs2.take(m - 1);
        assert(ks2.take(m as int) =~= a.push(ks2[m - 1]));
        assert(vs2.take(m as int) =~= b.push(vs2[m - 1]));
        law_additive_fields_are_allowed(n, a, b, ks2[m - 1], vs2[m - 1], st);
    }
}

proof fn lemma_widened_step(n: nat, x: Seq<char>, y: Seq<char>, st: SeqState)
    requires
        widened(x, y),
    ensures
        line_step(n, y, st).0.len() == line_step(n, x, st).0.len(),
        line_step(n, y, st).1 == line_step(n, x, st).1,
{
    if x != y {
        let rx = parse_v(x)->Ok_0;
        let ry = parse_v(y)->Ok_0;
        let (ks, vs) = (rx->Obj_0, rx->Obj_1);
        let (ks2, vs2) = (ry->Obj_0, ry->Obj_1);
        lemma_widen_record(n, ks, vs, ks2, vs2, ks2.len(), st);
        assert(ks2.take(ks2.len() as int) =~= ks2);
        assert(vs2.take(vs2.len() as int) =~= vs2);
    }
}

proof fn lemma_loosened_errs(a: Seq<Seq<char>>, i: int, b: Seq<Seq<char>>, j: int, st: SeqState)
    requires
        0 <= i <= a.len(),
        0 <= j <= b.len(),
        loosened(a, i, b, j),
    ensures
        errs_from(b, j, st).len() == errs_from(a, i, st).len(),
    decreases b.len() - j,
{
    if j < b.len() {
        if is_blank(b[j]) && loosened(a, i, b, j + 1) {
            lemma_loosened_errs(a, i, b, j + 1, st);
        } else {
            let x = a[i];
            let y = b[j];
            lemma_line_step_renumbered((j + 1) as nat, (i + 1) as nat, y, st);
            lemma_widened_step((i + 1) as nat, x, y, st);
            let st2 = line_step((i + 1) as nat, x, st).1;
            lemma_loosened_errs(a, i + 1, b, j + 1, st2);
        }
    }
}

/// Inserting blank lines anywhere, and appending members to records under
/// keys that validation does not look at, leaves the number of errors
/// `validate` reports as it was; only the line numbers in them move.
pub proof fn law_blank_lines_and_extra_fields_change_no_error_count(a: Seq<Seq<char>>, b: Seq<Seq<char>>)
    requires
        loosened(a, 0, b, 0),
    ensures
        errs_from(b, 0, SeqState { expect: one_v(), unknown: false }).len() == errs_from(
            a,
            0,
            SeqState { expect: one_v(), unknown: false },
        ).len(),
{
    lemma_loosened_errs(a, 0, b, 0, SeqState { expect: one_v(), unknown: false });
}

} // verus!

verus! {

proof fn lemma_missing_has(n: nat, rec: JsonV, kind: Seq<char>, fields: Seq<Seq<char>>, k: nat, i: int)
    requires
        k <= fields.len(),
        0 <= i < k,
        member(rec, fields[i]) is None,
    ensures
        missing_errs(n, rec, kind, fields, k).contains(pfx(n) + kind + " record missing `"@ + fields[i] + "`"@),
    decreases k,
{
    let m = pfx(n) + kind + " record missing `"@ + fields[i] + "`"@;
    let prev = missing_errs(n, rec, kind, fields, (k - 1) as nat);
    let last: Seq<Seq<char>> = if member(rec, fields[k - 1]) is None {
        seq![pfx(n) + kind + " record missing `"@ + fields[k - 1] + "`"@]
    } else {
        Seq::empty()
    };
    if i < k - 1 {
        lemma_missing_has(n, rec, kind, fields, (k - 1) as nat, i);
    } else {
        assert(last[0] == m);
    }
    crate::lint::lemma_concat_has(prev, last, m);
}

/// The errors of a record line end with those of its kind.
proof fn lemma_line_has_kind_errs(n: nat, line: Seq<char>, st: SeqState, rec: JsonV, m: Seq<char>)
    requires
        !is_blank(line),
        parse_v(line) == Ok::<JsonV, Seq<char>>(rec),
        rec is Obj,
        kind_errs(n, rec).contains(m),
    ensures
        line_step(n, line, st).0.contains(m),
{
    let (se, st2) = seq_step(n, rec, st);
    crate::lint::lemma_concat_has(version_errs(n, rec) + se, kind_errs(n, rec), m);
}

/// An `llm.call` record must carry exactly the fields model, params, input,
/// output, tokens, cost_usd, repair_round, outcome and provider: a record
/// line lacking any one of them is reported with
/// `line n: llm.call record missing `f``, and its kind gives no error
/// when it has them all.
pub proof fn law_llm_call_required_fields(n: nat, line: Seq<char>, st: SeqState, rec: JsonV, f: Seq<char>)
    requires
        !is_blank(line),
        parse_v(line) == Ok::<JsonV, Seq<char>>(rec),
        rec is Obj,
        str_member(rec, "kind"@) == Some("llm.call"@),
    ensures
        (f == "model"@ || f == "params"@ || f == "input"@ || f == "output"@ || f == "tokens"@
            || f == "cost_usd"@ || f == "repair_round"@ || f == "outcome"@ || f == "provider"@)
            && member(rec, f) is None ==> line_step(n, line, st).0.contains(
            pfx(n) + "llm.call"@ + " record missing `"@ + f + "`"@,
        ),
        kind_errs(n, rec).len() == 0 <==> (member(rec, "model"@) is Some && member(rec, "params"@) is Some
            && member(rec, "input"@) is Some && member(rec, "output"@) is Some && member(rec, "tokens"@) is Some
            && member(rec, "cost_usd"@) is Some && member(rec, "repair_round"@) is Some
            && member(rec, "outcome"@) is Some && member(rec, "provider"@) is Some),
{
    let fields = required_v("llm.call"@)->0;
    assert(fields.len() == 9);
    lemma_missing_none(n, rec, "llm.call"@, fields, 9);
    if (f == "model"@ || f == "params"@ || f == "input"@ || f == "output"@ || f == "tokens"@
        || f == "cost_usd"@ || f == "repair_round"@ || f == "outcome"@ || f == "provider"@)
        && member(rec, f) is None {
        let i: int = if f == "model"@ {
            0
        } else if f == "params"@ {
            1
        } else if f == "input"@ {
            2
        } else if f == "output"@ {
            3
        } else if f == "tokens"@ {
            4
        } else if f == "cost_usd"@ {
            5
        } else if f == "repair_round"@ {
            6
        } else if f == "outcome"@ {
            7
        } else {
            8
        };
        assert(fields[i] == f);
        lemma_missing_has(n, rec, "llm.call"@, fields, 9, i);
        lemma_line_has_kind_errs(n, line, st, rec, pfx(n) + "llm.call"@ + " record missing `"@ + f + "`"@);
    }
    assert(member(rec, fields[0]) is Some <==> member(rec, "model"@) is Some);
    assert(member(rec, fields[8]) is Some <==> member(rec, "provider"@) is Some);
}

/// A `tool.call` record must carry tool, input and output, and an
/// `fn.return` record fn and output: a record line lacking one is reported
/// as missing it, and the kind gives no error when all are there.
pub proof fn law_tool_call_and_fn_return_required_fields(n: nat, line: Seq<char>, st: SeqState, rec: JsonV, f: Seq<char>)
    requires
        !is_blank(line),
        parse_v(line) == Ok::<JsonV, Seq<char>>(rec),
        rec is Obj,
    ensures
        str_member(rec, "kind"@) == Some("tool.call"@) ==> {
            &&& (f == "tool"@ || f == "input"@ || f == "output"@) && member(rec, f) is None
                ==> line_step(n, line, st).0.contains(pfx(n) + "tool.call"@ + " record missing `"@ + f + "`"@)
            &&& kind_errs(n, rec).len() == 0 <==> (member(rec, "tool"@) is Some && member(rec, "input"@) is Some
                && member(rec, "output"@) is Some)
        },
        str_member(rec, "kind"@) == Some("fn.return"@) ==> {
            &&& (f == "fn"@ || f == "output"@) && member(rec, f) is None
                ==> line_step(n, line, st).0.contains(pfx(n) + "fn.return"@ + " record missing `"@ + f + "`"@)
            &&& kind_errs(n, rec).len() == 0 <==> (member(rec, "fn"@) is Some && member(rec, "output"@) is Some)
        },
{
    reveal_strlit("llm.call");
    reveal_strlit("tool.call");
    reveal_strlit("fn.return");
    if str_member(rec, "kind"@) == Some("tool.call"@) {
        assert("tool.call"@ != "llm.call"@) by {
            assert("tool.call"@[0] != "llm.call"@[0]);
        }
        let fields = required_v("tool.call"@)->0;
        assert(fields.len() == 3);
        lemma_missing_none(n, rec, "tool.call"@, fields, 3);
        if (f == "tool"@ || f == "input"@ || f == "output"@) && member(rec, f) is None {
            let i: int = if f == "tool"@ {
                0
            } else if f == "input"@ {
                1
            } else {
                2
            };
            assert(fields[i] == f);
            lemma_missing_has(n, rec, "tool.call"@, fields, 3, i);
            lemma_line_has_kind_errs(n, line, st, rec, pfx(n) + "tool.call"@ + " record missing `"@ + f + "`"@);
        }
        assert(member(rec, fields[0]) is Some <==> member(rec, "tool"@) is Some);
    }
    if str_member(rec, "kind"@) == Some("fn.return"@) {
        assert("fn.return"@ != "llm.call"@) by {
            assert("fn.return"@[0] != "llm.call"@[0]);
        }
        assert("fn.return"@ != "tool.call"@) by {
            assert("fn.return"@[0] != "tool.call"@[0]);
        }
        let fields = required_v("fn.return"@)->0;
        assert(fields.len() == 2);
        lemma_missing_none(n, rec, "fn.return"@, fields, 2);
        if (f == "fn"@ || f == "output"@) && member(rec, f) is None {
            let i: int = if f == "fn"@ {
                0
            } else {
                1
            };
            assert(fields[i] == f);
            lemma_missing_has(n, rec, "fn.return"@, fields, 2, i);
            lemma_line_has_kind_errs(n, line, st, rec, pfx(n) + "fn.return"@ + " record missing `"@ + f + "`"@);
        }
        assert(member(rec, fields[0]) is Some <==> member(rec, "fn"@) is Some);
    }
}

} // verus!
