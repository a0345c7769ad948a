//! Debug adapter over a recorded trace: breakpoints on record `seq`
//! numbers, stepping record by record, and the current record's fields as
//! variables. The protocol messages are JSON values; framing and transport
//! are left to the caller.

use vstd::prelude::*;
use crate::decimal::{display_v, num_eq, num_of, Num, NumV};
use crate::json::{dumps, dumps_v, find_key, member, parse_chars, parse_v, Json, JsonV};
use crate::text::{blank, byte_len, chars_of, is_blank, lines_of, push_str, split_lines, string_of};
use crate::tracediff::{num_v, str_v};
use crate::tracecheck::num_member;

verus! {

/// The state of a debug session.
pub struct DapV {
    pub records: Seq<JsonV>,
    pub pos: nat,
    pub breakpoints: Seq<NumV>,
    pub configured: bool,
    pub terminated: bool,
    pub out_seq: nat,
}

/// The records a session replays: every non-blank line that is JSON.
pub open spec fn dap_records(lines: Seq<Seq<char>>, k: int) -> Seq<JsonV>
    decreases lines.len() - k,
{
    if k < 0 || k >= lines.len() {
        Seq::empty()
    } else if !is_blank(lines[k]) && parse_v(lines[k]) is Ok {
        seq![parse_v(lines[k])->Ok_0] + dap_records(lines, k + 1)
    } else {
        dap_records(lines, k + 1)
    }
}

/// A fresh session over a trace text.
pub open spec fn new_v(text: Seq<char>) -> DapV {
    DapV {
        records: dap_records(lines_of(text), 0),
        pos: 0,
        breakpoints: Seq::empty(),
        configured: false,
        terminated: false,
        out_seq: 0,
    }
}

/// A JSON number for a count.
pub open spec fn n_v(k: nat) -> JsonV {
    JsonV::Num(num_of(k as int, 0))
}

pub open spec fn s_v(s: Seq<char>) -> JsonV {
    JsonV::Str(s)
}

pub open spec fn empty_obj() -> JsonV {
    JsonV::Obj(Seq::empty(), Seq::empty())
}

/// A response to `req` with `body`, numbered with the next message number.
pub open spec fn respond_v(st: DapV, req: JsonV, body: JsonV) -> (DapV, JsonV) {
    let k = st.out_seq + 1;
    (
        DapV { out_seq: k, ..st },
        JsonV::Obj(
            seq!["seq"@, "type"@, "request_seq"@, "success"@, "command"@, "body"@],
            seq![
                n_v(k),
                s_v("response"@),
                JsonV::Num(num_v(req, "seq"@)),
                JsonV::Bool(true),
                s_v(str_v(req, "command"@)),
                body,
            ],
        ),
    )
}

/// An event named `name` with `body`.
pub open spec fn event_v(st: DapV, name: Seq<char>, body: JsonV) -> (DapV, JsonV) {
    let k = st.out_seq + 1;
    (
        DapV { out_seq: k, ..st },
        JsonV::Obj(
            seq!["seq"@, "type"@, "event"@, "body"@],
            seq![n_v(k), s_v("event"@), s_v(name), body],
        ),
    )
}

/// A `stopped` event.
pub open spec fn stopped_v(st: DapV, reason: Seq<char>) -> (DapV, JsonV) {
    event_v(
        st,
        "stopped"@,
        JsonV::Obj(
            seq!["reason"@, "threadId"@, "allThreadsStopped"@],
            seq![s_v(reason), n_v(1), JsonV::Bool(true)],
        ),
    )
}

/// One of the breakpoints equals `x` (as `f64`s compare).
pub open spec fn has_bp(bps: Seq<NumV>, x: NumV) -> bool {
    exists|j: int| 0 <= j < bps.len() && num_eq(bps[j], x)
}

/// The first record at or after `k` whose `seq` is a breakpoint.
pub open spec fn hit_from(recs: Seq<JsonV>, bps: Seq<NumV>, k: int) -> Option<nat>
    decreases recs.len() - k,
{
    if k < 0 || k >= recs.len() {
        None
    } else if has_bp(bps, num_v(recs[k], "seq"@)) {
        Some(k as nat)
    } else {
        hit_from(recs, bps, k + 1)
    }
}

/// After configuration: pause on the first breakpoint, else on the first
/// record.
pub open spec fn entry_stop_v(st: DapV) -> (DapV, JsonV) {
    match hit_from(st.records, st.breakpoints, 0) {
        Some(i) => stopped_v(DapV { pos: i, ..st }, "breakpoint"@),
        None => stopped_v(DapV { pos: 0, ..st }, "entry"@),
    }
}

/// The current record's fields as variables.
pub open spec fn variables_v(st: DapV) -> JsonV {
    if st.pos < st.records.len() && st.records[st.pos as int] is Obj {
        let ks = st.records[st.pos as int]->Obj_0;
        let vs = st.records[st.pos as int]->Obj_1;
        JsonV::Arr(
            Seq::new(
                vs.len(),
                |i: int|
                    JsonV::Obj(
                        seq!["name"@, "value"@, "variablesReference"@],
                        seq![s_v(ks[i]), s_v(dumps_v(vs[i])), n_v(0)],
                    ),
            ),
        )
    } else {
        JsonV::Arr(Seq::empty())
    }
}

/// The `line` numbers of the first `n` breakpoint requests that have one.
pub open spec fn bp_lines(xs: Seq<JsonV>, n: nat) -> Seq<NumV>
    decreases n,
{
    if n == 0 || n > xs.len() {
        Seq::empty()
    } else {
        bp_lines(xs, (n - 1) as nat) + match num_member(xs[n - 1], "line"@) {
            Some(l) => seq![l],
            None => Seq::empty(),
        }
    }
}

/// The request's `arguments`, `null` when absent.
pub open spec fn args_v(req: JsonV) -> JsonV {
    match member(req, "arguments"@) {
        Some(a) => a,
        None => JsonV::Null,
    }
}

/// The breakpoints a `setBreakpoints` request sets.
pub open spec fn new_bps(req: JsonV) -> Seq<NumV> {
    match member(args_v(req), "breakpoints"@) {
        Some(JsonV::Arr(xs)) => bp_lines(xs, xs.len()),
        _ => Seq::empty(),
    }
}

/// The stack frame of the current record.
pub open spec fn frame_v(st: DapV) -> JsonV {
    if st.pos < st.records.len() {
        let rec = st.records[st.pos as int];
        let kind = match crate::tracecheck::str_member(rec, "kind"@) {
            Some(k) => k,
            None => "?"@,
        };
        JsonV::Obj(
            seq!["id"@, "name"@, "line"@, "column"@],
            seq![
                n_v(1),
                s_v(kind + " seq "@ + display_v(num_v(rec, "seq"@))),
                JsonV::Num(num_v(rec, "seq"@)),
                n_v(1),
            ],
        )
    } else {
        JsonV::Obj(
            seq!["id"@, "name"@, "line"@, "column"@],
            seq![n_v(1), s_v("<end of trace>"@), n_v(0), n_v(0)],
        )
    }
}

pub open spec fn on_initialize(st: DapV, req: JsonV) -> (DapV, Seq<JsonV>) {
    let (s1, r) = respond_v(
        st,
        req,
        JsonV::Obj(
            seq!["supportsConfigurationDoneRequest"@, "supportsSetVariable"@],
            seq![JsonV::Bool(true), JsonV::Bool(false)],
        ),
    );
    let (s2, e) = event_v(s1, "initialized"@, empty_obj());
    (s2, seq![r, e])
}

pub open spec fn on_plain(st: DapV, req: JsonV, body: JsonV) -> (DapV, Seq<JsonV>) {
    let (s1, r) = respond_v(st, req, body);
    (s1, seq![r])
}

/// The answer to `setBreakpoints`: every requested line, verified.
pub open spec fn verified_v(bps: Seq<NumV>) -> JsonV {
    JsonV::Arr(
        Seq::new(
            bps.len(),
            |i: int| JsonV::Obj(seq!["verified"@, "line"@], seq![JsonV::Bool(true), JsonV::Num(bps[i])]),
        ),
    )
}

pub open spec fn on_set_breakpoints(st: DapV, req: JsonV) -> (DapV, Seq<JsonV>) {
    let bps = new_bps(req);
    on_plain(
        DapV { breakpoints: bps, ..st },
        req,
        JsonV::Obj(seq!["breakpoints"@], seq![verified_v(bps)]),
    )
}

pub open spec fn on_configuration_done(st: DapV, req: JsonV) -> (DapV, Seq<JsonV>) {
    let (s1, r) = respond_v(DapV { configured: true, ..st }, req, empty_obj());
    let (s2, e) = entry_stop_v(s1);
    (s2, seq![r, e])
}

pub open spec fn threads_body() -> JsonV {
    JsonV::Obj(
        seq!["threads"@],
        seq![JsonV::Arr(seq![JsonV::Obj(seq!["id"@, "name"@], seq![n_v(1), s_v("trace replay"@)])])],
    )
}

pub open spec fn scopes_body() -> JsonV {
    JsonV::Obj(
        seq!["scopes"@],
        seq![
            JsonV::Arr(
                seq![
                    JsonV::Obj(
                        seq!["name"@, "variablesReference"@, "expensive"@],
                        seq![s_v("record"@), n_v(1000), JsonV::Bool(false)],
                    ),
                ],
            ),
        ],
    )
}

pub open spec fn on_next(st: DapV, req: JsonV) -> (DapV, Seq<JsonV>) {
    let (s1, r) = respond_v(st, req, empty_obj());
    let s2 = DapV { pos: s1.pos + 1, ..s1 };
    if s2.pos >= s2.records.len() {
        let (s3, e) = event_v(DapV { terminated: true, ..s2 }, "terminated"@, empty_obj());
        (s3, seq![r, e])
    } else {
        let (s3, e) = stopped_v(s2, "step"@);
        (s3, seq![r, e])
    }
}

pub open spec fn on_continue(st: DapV, req: JsonV) -> (DapV, Seq<JsonV>) {
    let (s1, r) = respond_v(st, req, empty_obj());
    match hit_from(s1.records, s1.breakpoints, (s1.pos + 1) as int) {
        Some(i) => {
            let (s2, e) = stopped_v(DapV { pos: i, ..s1 }, "breakpoint"@);
            (s2, seq![r, e])
        },
        None => {
            let (s2, e) = event_v(DapV { terminated: true, ..s1 }, "terminated"@, empty_obj());
            (s2, seq![r, e])
        },
    }
}

/// A request with an unknown command is answered as failed.
pub open spec fn on_unknown(st: DapV, req: JsonV) -> (DapV, Seq<JsonV>) {
    let k = st.out_seq + 1;
    let command = str_v(req, "command"@);
    (
        DapV { out_seq: k, ..st },
        seq![
            JsonV::Obj(
                seq!["seq"@, "type"@, "request_seq"@, "success"@, "command"@, "body"@, "message"@],
                seq![
                    n_v(k),
                    s_v("response"@),
                    JsonV::Num(num_v(req, "seq"@)),
                    JsonV::Bool(false),
                    s_v(command),
                    empty_obj(),
                    s_v("command not implemented: "@ + command),
                ],
            ),
        ],
    )
}

/// What the session answers to one request, and its state after it.
pub open spec fn dispatch_v(st: DapV, req: JsonV) -> (DapV, Seq<JsonV>) {
    let command = str_v(req, "command"@);
    if command == "initialize"@ {
        on_initialize(st, req)
    } else if command == "launch"@ || command == "attach"@ {
        on_plain(st, req, empty_obj())
    } else if command == "setBreakpoints"@ {
        on_set_breakpoints(st, req)
    } else if command == "configurationDone"@ {
        on_configuration_done(st, req)
    } else if command == "threads"@ {
        on_plain(st, req, threads_body())
    } else if command == "stackTrace"@ {
        on_plain(
            st,
            req,
            JsonV::Obj(
                seq!["stackFrames"@, "totalFrames"@],
                seq![JsonV::Arr(seq![frame_v(st)]), n_v(1)],
            ),
        )
    } else if command == "scopes"@ {
        on_plain(st, req, scopes_body())
    } else if command == "variables"@ {
        on_plain(st, req, JsonV::Obj(seq!["variables"@], seq![variables_v(st)]))
    } else if command == "next"@ {
        on_next(st, req)
    } else if command == "continue"@ {
        on_continue(st, req)
    } else if command == "disconnect"@ || command == "terminate"@ {
        on_plain(DapV { terminated: true, ..st }, req, empty_obj())
    } else {
        on_unknown(st, req)
    }
}

} // verus!

verus! {

/// A debug session over a recorded trace.
pub struct Dap {
    records: Vec<Json>,
    pos: usize,
    breakpoints: Vec<Num>,
    configured: bool,
    terminated: bool,
    out_seq: usize,
}

impl View for Dap {
    type V = DapV;

    closed spec fn view(&self) -> DapV {
        DapV {
            records: crate::tracediff::views(self.records@),
            pos: self.pos as nat,
            breakpoints: Seq::new(self.breakpoints@.len(), |i: int| self.breakpoints@[i]@),
            configured: self.configured,
            terminated: self.terminated,
            out_seq: self.out_seq as nat,
        }
    }
}

fn jnum(k: usize) -> (r: Json)
    ensures
        r@ == n_v(k as nat),
{
    Json::Num(Num::from_usize(k))
}

fn jstr(s: &str) -> (r: Json)
    ensures
        r@ == s_v(s@),
{
    Json::Str(string_of(s))
}

fn push_kv(p: &mut Vec<(String, Json)>, k: &str, v: Json)
    ensures
        crate::json::keys_of(final(p)@) == crate::json::keys_of(old(p)@).push(k@),
        crate::json::vals_of(final(p)@) == crate::json::vals_of(old(p)@).push(v@),
{
    let ghost vv = v@;
    p.push((string_of(k), v));
    assert(crate::json::keys_of(p@) =~= crate::json::keys_of(old(p)@).push(k@));
    assert(crate::json::vals_of(p@) =~= crate::json::vals_of(old(p)@).push(vv));
}

fn mk_obj(p: Vec<(String, Json)>) -> (r: Json)
    ensures
        r@ == JsonV::Obj(crate::json::keys_of(p@), crate::json::vals_of(p@)),
{
    let r = Json::Obj(p);
    assert(r@->Obj_0 =~= crate::json::keys_of(p@));
    assert(r@->Obj_1 =~= crate::json::vals_of(p@));
    r
}

fn empty() -> (r: Json)
    ensures
        r@ == empty_obj(),
{
    let p: Vec<(String, Json)> = Vec::new();
    let r = mk_obj(p);
    assert(crate::json::keys_of(p@) =~= Seq::<Seq<char>>::empty());
    assert(crate::json::vals_of(p@) =~= Seq::<JsonV>::empty());
    r
}

fn obj1(k1: &str, v1: Json) -> (r: Json)
    ensures
        r@ == JsonV::Obj(seq![k1@], seq![v1@]),
{
    let ghost w1 = v1@;
    let mut p: Vec<(String, Json)> = Vec::new();
    proof {
        assert(crate::json::keys_of(p@) =~= Seq::<Seq<char>>::empty());
        assert(crate::json::vals_of(p@) =~= Seq::<JsonV>::empty());
    }
    push_kv(&mut p, k1, v1);
    let r = mk_obj(p);
    assert(crate::json::keys_of(p@) =~= seq![k1@]);
    assert(crate::json::vals_of(p@) =~= seq![w1]);
    r
}

fn obj2(k1: &str, v1: Json, k2: &str, v2: Json) -> (r: Json)
    ensures
        r@ == JsonV::Obj(seq![k1@, k2@], seq![v1@, v2@]),
{
    let ghost (w1, w2) = (v1@, v2@);
    let mut p: Vec<(String, Json)> = Vec::new();
    proof {
        assert(crate::json::keys_of(p@) =~= Seq::<Seq<char>>::empty());
        assert(crate::json::vals_of(p@) =~= Seq::<JsonV>::empty());
    }
    push_kv(&mut p, k1, v1);
    push_kv(&mut p, k2, v2);
    let r = mk_obj(p);
    assert(crate::json::keys_of(p@) =~= seq![k1@, k2@]);
    assert(crate::json::vals_of(p@) =~= seq![w1, w2]);
    r
}

fn obj3(k1: &str, v1: Json, k2: &str, v2: Json, k3: &str, v3: Json) -> (r: Json)
    ensures
        r@ == JsonV::Obj(seq![k1@, k2@, k3@], seq![v1@, v2@, v3@]),
{
    let ghost (w1, w2, w3) = (v1@, v2@, v3@);
    let mut p: Vec<(String, Json)> = Vec::new();
    proof {
        assert(crate::json::keys_of(p@) =~= Seq::<Seq<char>>::empty());
        assert(crate::json::vals_of(p@) =~= Seq::<JsonV>::empty());
    }
    push_kv(&mut p, k1, v1);
    push_kv(&mut p, k2, v2);
    push_kv(&mut p, k3, v3);
    let r = mk_obj(p);
    assert(crate::json::keys_of(p@) =~= seq![k1@, k2@, k3@]);
    assert(crate::json::vals_of(p@) =~= seq![w1, w2, w3]);
    r
}

fn obj4(k1: &str, v1: Json, k2: &str, v2: Json, k3: &str, v3: Json, k4: &str, v4: Json) -> (r:
    Json)
    ensures
        r@ == JsonV::Obj(seq![k1@, k2@, k3@, k4@], seq![v1@, v2@, v3@, v4@]),
{
    let ghost (w1, w2, w3, w4) = (v1@, v2@, v3@, v4@);
    let mut p: Vec<(String, Json)> = Vec::new();
    proof {
        assert(crate::json::keys_of(p@) =~= Seq::<Seq<char>>::empty());
        assert(crate::json::vals_of(p@) =~= Seq::<JsonV>::empty());
    }
    push_kv(&mut p, k1, v1);
    push_kv(&mut p, k2, v2);
    push_kv(&mut p, k3, v3);
    push_kv(&mut p, k4, v4);
    let r = mk_obj(p);
    assert(crate::json::keys_of(p@) =~= seq![k1@, k2@, k3@, k4@]);
    assert(crate::json::vals_of(p@) =~= seq![w1, w2, w3, w4]);
    r
}

fn arr1(v: Json) -> (r: Json)
    ensures
        r@ == JsonV::Arr(seq![v@]),
{
    let mut xs: Vec<Json> = Vec::new();
    xs.push(v);
    let r = Json::Arr(xs);
    assert(r@->Arr_0 =~= seq![v@]);
    r
}

} // verus!

verus! {

/// The records of a trace text: every non-blank line that parses.
fn load(text: &Vec<char>) -> (r: Vec<Json>)
    requires
        byte_len(text@) <= usize::MAX,
    ensures
        crate::tracediff::views(r@) == dap_records(lines_of(text@), 0),
{
    let lines = split_lines(text);
    proof {
        crate::text::lemma_lines_from_bound(text@, 0);
    }
    let mut recs: Vec<Json> = Vec::new();
    let mut k: usize = 0;
    proof {
        assert(crate::tracediff::views(recs@) + dap_records(lines_of(text@), 0) =~= dap_records(
            lines_of(text@),
            0,
        ));
    }
    while k < lines.len()
        invariant
            k <= lines@.len() == lines_of(text@).len(),
            byte_len(text@) <= usize::MAX,
            forall|j: int| 0 <= j < lines@.len() ==> (#[trigger] lines@[j])@ == lines_of(text@)[j],
            forall|j: int|
                0 <= j < lines_of(text@).len() ==> byte_len(
                    #[trigger] crate::text::lines_from(text@, 0)[j],
                ) <= byte_len(text@),
            crate::tracediff::views(recs@) + dap_records(lines_of(text@), k as int) == dap_records(
                lines_of(text@),
                0,
            ),
        decreases lines@.len() - k,
    {
        let ghost before = crate::tracediff::views(recs@);
        assert(lines@[k as int]@ == crate::text::lines_from(text@, 0)[k as int]);
        let line = &lines[k];
        if !blank(line) {
            match parse_chars(line) {
                Ok(rec) => {
                    let ghost rv = rec@;
                    recs.push(rec);
                    assert(crate::tracediff::views(recs@) =~= before.push(rv));
                },
                Err(_) => {},
            }
        }
        proof {
            assert(crate::tracediff::views(recs@) + dap_records(lines_of(text@), k + 1) =~= before
                + dap_records(lines_of(text@), k as int));
        }
        k = k + 1;
    }
    recs
}

impl Dap {
    /// A session over the records of a trace text, paused before the first.
    pub fn new(trace_src: &str) -> (r: Dap)
        ensures
            r@ == new_v(trace_src@),
    {
        let _bytes = crate::text::str_byte_len(trace_src);
        let t = chars_of(trace_src);
        let records = load(&t);
        let d = Dap {
            records,
            pos: 0,
            breakpoints: Vec::new(),
            configured: false,
            terminated: false,
            out_seq: 0,
        };
        assert(d@.breakpoints =~= Seq::<NumV>::empty());
        d
    }

    /// Whether the session has ended.
    pub fn is_terminated(&self) -> (r: bool)
        ensures
            r == self@.terminated,
    {
        self.terminated
    }

    /// The next outgoing message number.
    fn next_seq(&mut self) -> (r: usize)
        requires
            old(self).out_seq < usize::MAX,
        ensures
            r == old(self).out_seq + 1,
            final(self)@ == (DapV { out_seq: r as nat, ..old(self)@ }),
    {
        self.out_seq = self.out_seq + 1;
        self.out_seq
    }

    fn respond(&mut self, req: &Json, body: Json) -> (r: Json)
        requires
            old(self).out_seq < usize::MAX,
        ensures
            (final(self)@, r@) == respond_v(old(self)@, req@, body@),
    {
        let k = self.next_seq();
        let ghost b = body@;
        let mut p: Vec<(String, Json)> = Vec::new();
        proof {
            assert(crate::json::keys_of(p@) =~= Seq::<Seq<char>>::empty());
            assert(crate::json::vals_of(p@) =~= Seq::<JsonV>::empty());
        }
        push_kv(&mut p, "seq", jnum(k));
        push_kv(&mut p, "type", jstr("response"));
        push_kv(&mut p, "request_seq", Json::Num(crate::tracediff::num(req, "seq")));
        push_kv(&mut p, "success", Json::Bool(true));
        let c = crate::tracediff::s(req, "command");
        push_kv(&mut p, "command", Json::Str(c));
        push_kv(&mut p, "body", body);
        let r = mk_obj(p);
        proof {
            let (s2, rv) = respond_v(old(self)@, req@, b);
            assert(crate::json::keys_of(p@) =~= rv->Obj_0);
            assert(crate::json::vals_of(p@) =~= rv->Obj_1);
        }
        r
    }

    fn event(&mut self, name: &str, body: Json) -> (r: Json)
        requires
            old(self).out_seq < usize::MAX,
        ensures
            (final(self)@, r@) == event_v(old(self)@, name@, body@),
    {
        let k = self.next_seq();
        let r = obj4("seq", jnum(k), "type", jstr("event"), "event", jstr(name), "body", body);
        r
    }

    fn stopped(&mut self, reason: &str) -> (r: Json)
        requires
            old(self).out_seq < usize::MAX,
        ensures
            (final(self)@, r@) == stopped_v(old(self)@, reason@),
    {
        let b = obj3("reason", jstr(reason), "threadId", jnum(1), "allThreadsStopped", Json::Bool(true));
        self.event("stopped", b)
    }
}

} // verus!

verus! {

pub open spec fn jviews(v: Seq<Json>) -> Seq<JsonV> {
    crate::tracediff::views(v)
}

fn one_msg(r: Json) -> (v: Vec<Json>)
    ensures
        jviews(v@) == seq![r@],
{
    let ghost rv = r@;
    let mut v: Vec<Json> = Vec::new();
    v.push(r);
    assert(jviews(v@) =~= seq![rv]);
    v
}

fn two_msgs(r: Json, e: Json) -> (v: Vec<Json>)
    ensures
        jviews(v@) == seq![r@, e@],
{
    let ghost (rv, ev) = (r@, e@);
    let mut v: Vec<Json> = Vec::new();
    v.push(r);
    v.push(e);
    assert(jviews(v@) =~= seq![rv, ev]);
    v
}

impl Dap {
    /// Whether some breakpoint equals `x`.
    fn has_bp_x(&self, x: &Num) -> (r: bool)
        ensures
            r == has_bp(self@.breakpoints, x@),
    {
        let ghost bv = self@.breakpoints;
        let mut j: usize = 0;
        while j < self.breakpoints.len()
            invariant
                j <= self.breakpoints@.len() == bv.len(),
                bv == self@.breakpoints,
                forall|q: int| 0 <= q < j ==> !num_eq(bv[q], x@),
            decreases self.breakpoints@.len() - j,
        {
            if self.breakpoints[j].equal(x) {
                assert(num_eq(bv[j as int], x@));
                return true;
            }
            j = j + 1;
        }
        false
    }

    /// The first record at or after `k` whose `seq` is a breakpoint.
    fn hit_x(&self, k: usize) -> (r: Option<usize>)
        ensures
            match r {
                Some(i) => hit_from(self@.records, self@.breakpoints, k as int) == Some(i as nat),
                None => hit_from(self@.records, self@.breakpoints, k as int) is None,
            },
    {
        let mut i = k;
        while i < self.records.len()
            invariant
                k <= i,
                self@.records.len() == self.records@.len(),
                hit_from(self@.records, self@.breakpoints, i as int) == hit_from(
                    self@.records,
                    self@.breakpoints,
                    k as int,
                ),
            decreases self.records@.len() - i,
        {
            let sq = crate::tracediff::num(&self.records[i], "seq");
            assert(self@.records[i as int] == self.records@[i as int]@);
            if self.has_bp_x(&sq) {
                return Some(i);
            }
            i = i + 1;
        }
        None
    }

    fn entry_stop(&mut self) -> (r: Json)
        requires
            old(self).out_seq < usize::MAX,
        ensures
            (final(self)@, r@) == entry_stop_v(old(self)@),
    {
        match self.hit_x(0) {
            Some(i) => {
                self.pos = i;
                self.stopped("breakpoint")
            },
            None => {
                self.pos = 0;
                self.stopped("entry")
            },
        }
    }

    fn variables(&self) -> (r: Json)
        ensures
            r@ == variables_v(self@),
    {
        if self.pos < self.records.len() {
            assert(self@.records[self.pos as int] == self.records@[self.pos as int]@);
            match &self.records[self.pos] {
                Json::Obj(fields) => {
                    let ghost rec = self@.records[self.pos as int];
                    let ghost ks = rec->Obj_0;
                    let ghost vs = rec->Obj_1;
                    let mut items: Vec<Json> = Vec::new();
                    let mut i: usize = 0;
                    while i < fields.len()
                        invariant
                            i <= fields@.len() == ks.len() == vs.len(),
                            forall|j: int| 0 <= j < fields@.len() ==> ks[j] == (#[trigger] fields@[j]).0@,
                            forall|j: int| 0 <= j < fields@.len() ==> vs[j] == (#[trigger] fields@[j]).1@,
                            items@.len() == i,
                            forall|j: int|
                                0 <= j < i ==> (#[trigger] items@[j])@ == JsonV::Obj(
                                    seq!["name"@, "value"@, "variablesReference"@],
                                    seq![s_v(ks[j]), s_v(dumps_v(vs[j])), n_v(0)],
                                ),
                        decreases fields@.len() - i,
                    {
                        let item = obj3(
                            "name",
                            jstr(fields[i].0.as_str()),
                            "value",
                            Json::Str(dumps(&fields[i].1)),
                            "variablesReference",
                            jnum(0),
                        );
                        items.push(item);
                        i = i + 1;
                    }
                    let r = Json::Arr(items);
                    proof {
                        assert(r@->Arr_0 =~= variables_v(self@)->Arr_0);
                    }
                    r
                },
                _ => {
                    let r = Json::Arr(Vec::new());
                    assert(r@->Arr_0 =~= Seq::<JsonV>::empty());
                    r
                },
            }
        } else {
            let r = Json::Arr(Vec::new());
            assert(r@->Arr_0 =~= Seq::<JsonV>::empty());
            r
        }
    }

    fn frame(&self) -> (r: Json)
        ensures
            r@ == frame_v(self@),
    {
        if self.pos < self.records.len() {
            let rec = &self.records[self.pos];
            assert(self@.records[self.pos as int] == rec@);
            let mut name = match rec.get("kind") {
                Some(v) => match v.as_str() {
                    Some(k) => string_of(k),
                    None => string_of("?"),
                },
                None => string_of("?"),
            };
            push_str(&mut name, " seq ");
            let sq = crate::tracediff::num(rec, "seq");
            sq.write_display(&mut name);
            let sq2 = crate::tracediff::num(rec, "seq");
            obj4("id", jnum(1), "name", Json::Str(name), "line", Json::Num(sq2), "column", jnum(1))
        } else {
            obj4("id", jnum(1), "name", jstr("<end of trace>"), "line", jnum(0), "column", jnum(0))
        }
    }

    /// The breakpoint lines of a `setBreakpoints` request.
    fn requested_bps(req: &Json) -> (r: Vec<Num>)
        ensures
            Seq::new(r@.len(), |i: int| r@[i]@) == new_bps(req@),
    {
        let mut out: Vec<Num> = Vec::new();
        proof {
            assert(Seq::new(out@.len(), |i: int| out@[i]@) =~= Seq::<NumV>::empty());
        }
        match req.get("arguments") {
            Some(a) => match a.get("breakpoints") {
                Some(b) => match b {
                    Json::Arr(xs) => {
                        let ghost xv = b@->Arr_0;
                        let mut i: usize = 0;
                        while i < xs.len()
                            invariant
                                i <= xs@.len() == xv.len(),
                                forall|j: int| 0 <= j < xs@.len() ==> xv[j] == (#[trigger] xs@[j])@,
                                Seq::new(out@.len(), |q: int| out@[q]@) == bp_lines(xv, i as nat),
                            decreases xs@.len() - i,
                        {
                            let ghost before = Seq::new(out@.len(), |q: int| out@[q]@);
                            match xs[i].get("line") {
                                Some(l) => match l.as_num() {
                                    Some(v) => {
                                        let ghost vv = v@;
                                        out.push(v);
                                        assert(Seq::new(out@.len(), |q: int| out@[q]@) =~= before.push(vv));
                                    },
                                    None => {},
                                },
                                None => {},
                            }
                            i = i + 1;
                            proof {
                                assert(Seq::new(out@.len(), |q: int| out@[q]@) =~= bp_lines(xv, i as nat));
                            }
                        }
                    },
                    _ => {},
                },
                None => {},
            },
            None => {},
        }
        out
    }

    fn on_set_breakpoints_x(&mut self, req: &Json) -> (r: Vec<Json>)
        requires
            old(self).out_seq < usize::MAX,
        ensures
            (final(self)@, jviews(r@)) == on_set_breakpoints(old(self)@, req@),
    {
        self.breakpoints = Dap::requested_bps(req);
        let ghost bps = self@.breakpoints;
        let mut items: Vec<Json> = Vec::new();
        let mut i: usize = 0;
        while i < self.breakpoints.len()
            invariant
                i <= self.breakpoints@.len() == bps.len(),
                bps == self@.breakpoints,
                items@.len() == i,
                forall|j: int|
                    0 <= j < i ==> (#[trigger] items@[j])@ == JsonV::Obj(
                        seq!["verified"@, "line"@],
                        seq![JsonV::Bool(true), JsonV::Num(bps[j])],
                    ),
            decreases self.breakpoints@.len() - i,
        {
            let l = self.breakpoints[i].copy();
            items.push(obj2("verified", Json::Bool(true), "line", Json::Num(l)));
            i = i + 1;
        }
        let arr = Json::Arr(items);
        assert(arr@->Arr_0 =~= verified_v(bps)->Arr_0);
        let body = obj1("breakpoints", arr);
        let r = self.respond(req, body);
        one_msg(r)
    }

    fn on_unknown_x(&mut self, req: &Json) -> (r: Vec<Json>)
        requires
            old(self).out_seq < usize::MAX,
        ensures
            (final(self)@, jviews(r@)) == on_unknown(old(self)@, req@),
    {
        let k = self.next_seq();
        let command = crate::tracediff::s(req, "command");
        let mut msg = string_of("command not implemented: ");
        push_str(&mut msg, command.as_str());
        let ghost mv = msg@;
        let mut p: Vec<(String, Json)> = Vec::new();
        proof {
            assert(crate::json::keys_of(p@) =~= Seq::<Seq<char>>::empty());
            assert(crate::json::vals_of(p@) =~= Seq::<JsonV>::empty());
        }
        push_kv(&mut p, "seq", jnum(k));
        push_kv(&mut p, "type", jstr("response"));
        push_kv(&mut p, "request_seq", Json::Num(crate::tracediff::num(req, "seq")));
        push_kv(&mut p, "success", Json::Bool(false));
        push_kv(&mut p, "command", Json::Str(command));
        push_kv(&mut p, "body", empty());
        push_kv(&mut p, "message", Json::Str(msg));
        let r = mk_obj(p);
        proof {
            let (s2, rs) = on_unknown(old(self)@, req@);
            assert(crate::json::keys_of(p@) =~= rs[0]->Obj_0);
            assert(crate::json::vals_of(p@) =~= rs[0]->Obj_1);
        }
        one_msg(r)
    }
}

} // verus!

verus! {

impl Dap {
    /// Handles one request; returns the messages to send back, responses
    /// and events in order.
    pub fn dispatch(&mut self, req: &Json) -> (r: Vec<Json>)
        requires
            old(self)@.out_seq + 2 <= usize::MAX,
            old(self)@.pos + 2 <= usize::MAX,
        ensures
            (final(self)@, jviews(r@)) == dispatch_v(old(self)@, req@),
    {
        let command = crate::tracediff::s(req, "command");
        let c = command.as_str();
        if crate::text::str_eq(c, "initialize") {
            let caps = obj2(
                "supportsConfigurationDoneRequest",
                Json::Bool(true),
                "supportsSetVariable",
                Json::Bool(false),
            );
            let r = self.respond(req, caps);
            let e = self.event("initialized", empty());
            two_msgs(r, e)
        } else if crate::text::str_eq(c, "launch") || crate::text::str_eq(c, "attach") {
            let r = self.respond(req, empty());
            one_msg(r)
        } else if crate::text::str_eq(c, "setBreakpoints") {
            self.on_set_breakpoints_x(req)
        } else if crate::text::str_eq(c, "configurationDone") {
            self.configured = true;
            let r = self.respond(req, empty());
            let e = self.entry_stop();
            two_msgs(r, e)
        } else if crate::text::str_eq(c, "threads") {
            let t = obj2("id", jnum(1), "name", jstr("trace replay"));
            let body = obj1("threads", arr1(t));
            let r = self.respond(req, body);
            one_msg(r)
        } else if crate::text::str_eq(c, "stackTrace") {
            let f = self.frame();
            let body = obj2("stackFrames", arr1(f), "totalFrames", jnum(1));
            let r = self.respond(req, body);
            one_msg(r)
        } else if crate::text::str_eq(c, "scopes") {
            let sc = obj3(
                "name",
                jstr("record"),
                "variablesReference",
                jnum(1000),
                "expensive",
                Json::Bool(false),
            );
            let body = obj1("scopes", arr1(sc));
            let r = self.respond(req, body);
            one_msg(r)
        } else if crate::text::str_eq(c, "variables") {
            let vars = self.variables();
            let body = obj1("variables", vars);
            let r = self.respond(req, body);
            one_msg(r)
        } else if crate::text::str_eq(c, "next") {
            let r = self.respond(req, empty());
            self.pos = self.pos + 1;
            if self.pos >= self.records.len() {
                self.terminated = true;
                let e = self.event("terminated", empty());
                two_msgs(r, e)
            } else {
                let e = self.stopped("step");
                two_msgs(r, e)
            }
        } else if crate::text::str_eq(c, "continue") {
            let r = self.respond(req, empty());
            match self.hit_x(self.pos + 1) {
                Some(idx) => {
                    self.pos = idx;
                    let e = self.stopped("breakpoint");
                    two_msgs(r, e)
                },
                None => {
                    self.terminated = true;
                    let e = self.event("terminated", empty());
                    two_msgs(r, e)
                },
            }
        } else if crate::text::str_eq(c, "disconnect") || crate::text::str_eq(c, "terminate") {
            self.terminated = true;
            let r = self.respond(req, empty());
            one_msg(r)
        } else {
            self.on_unknown_x(req)
        }
    }
}

} // verus!

verus! {

proof fn lemma_hit_from(recs: Seq<JsonV>, bps: Seq<NumV>, k: int)
    requires
        0 <= k,
    ensures
        match hit_from(recs, bps, k) {
            Some(i) => k <= i < recs.len() && has_bp(bps, num_v(recs[i as int], "seq"@)) && forall|j: int|
                k <= j < i ==> !has_bp(bps, #[trigger] num_v(recs[j], "seq"@)),
            None => forall|j: int| k <= j < recs.len() ==> !has_bp(bps, #[trigger] num_v(recs[j], "seq"@)),
        },
    decreases recs.len() - k,
{
    if k < recs.len() && !has_bp(bps, num_v(recs[k], "seq"@)) {
        lemma_hit_from(recs, bps, k + 1);
    }
}

/// Every message a session sends gets the next message number: a request
/// answered with `n` messages advances the numbering by `n`.
pub proof fn law_messages_are_numbered_in_order(st: DapV, req: JsonV)
    ensures
        dispatch_v(st, req).0.out_seq == st.out_seq + dispatch_v(st, req).1.len(),
{
    reveal_strlit("initialize");
    reveal_strlit("launch");
    reveal_strlit("attach");
    reveal_strlit("setBreakpoints");
    reveal_strlit("configurationDone");
    reveal_strlit("threads");
    reveal_strlit("stackTrace");
    reveal_strlit("scopes");
    reveal_strlit("variables");
    reveal_strlit("next");
    reveal_strlit("continue");
    reveal_strlit("disconnect");
    reveal_strlit("terminate");
    let s = st;
    match hit_from(s.records, s.breakpoints, 0) {
        Some(i) => {},
        None => {},
    }
    match hit_from(s.records, s.breakpoints, (s.pos + 1) as int) {
        Some(i) => {},
        None => {},
    }
}

/// `next` steps to the following record, and ends the session past the
/// last one.
#[verifier::spinoff_prover]
pub proof fn law_next_steps_one_record(st: DapV, req: JsonV)
    requires
        str_v(req, "command"@) == "next"@,
    ensures
        dispatch_v(st, req).0.pos == st.pos + 1,
        dispatch_v(st, req).0.terminated == (st.terminated || st.pos + 1 >= st.records.len()),
{
    reveal_strlit("next");
    reveal_strlit("initialize");
    reveal_strlit("launch");
    reveal_strlit("attach");
    reveal_strlit("setBreakpoints");
    reveal_strlit("configurationDone");
    reveal_strlit("threads");
    reveal_strlit("stackTrace");
    reveal_strlit("scopes");
    reveal_strlit("variables");
    assert(dispatch_v(st, req) == on_next(st, req));
}

/// `continue` lands on the next record whose `seq` is a breakpoint, passing
/// none on the way; with no breakpoint ahead, the session ends.
pub proof fn law_continue_lands_on_breakpoints(st: DapV, req: JsonV)
    requires
        str_v(req, "command"@) == "continue"@,
    ensures
        ({
            let s = dispatch_v(st, req).0;
            ||| (s.terminated && s.pos == st.pos && forall|j: int|
                st.pos < j < st.records.len() ==> !has_bp(
                    st.breakpoints,
                    #[trigger] num_v(st.records[j], "seq"@),
                ))
            ||| (st.pos < s.pos < st.records.len() && has_bp(
                st.breakpoints,
                num_v(st.records[s.pos as int], "seq"@),
            ) && forall|j: int|
                st.pos < j < s.pos ==> !has_bp(st.breakpoints, #[trigger] num_v(st.records[j], "seq"@)))
        }),
{
    reveal_strlit("continue");
    reveal_strlit("initialize");
    reveal_strlit("launch");
    reveal_strlit("attach");
    reveal_strlit("setBreakpoints");
    reveal_strlit("configurationDone");
    reveal_strlit("threads");
    reveal_strlit("stackTrace");
    reveal_strlit("scopes");
    reveal_strlit("variables");
    reveal_strlit("next");
    lemma_hit_from(st.records, st.breakpoints, (st.pos + 1) as int);
}

} // verus!

verus! {

/// The commands a session implements; any other is answered as failed.
pub open spec fn known_command(c: Seq<char>) -> bool {
    ||| c == "initialize"@
    ||| c == "launch"@
    ||| c == "attach"@
    ||| c == "setBreakpoints"@
    ||| c == "configurationDone"@
    ||| c == "threads"@
    ||| c == "stackTrace"@
    ||| c == "scopes"@
    ||| c == "variables"@
    ||| c == "next"@
    ||| c == "continue"@
    ||| c == "disconnect"@
    ||| c == "terminate"@
}

/// The state after handling `reqs` one after another from `st`, and every
/// message sent on the way, in order.
pub open spec fn run_v(st: DapV, reqs: Seq<JsonV>) -> (DapV, Seq<JsonV>)
    decreases reqs.len(),
{
    if reqs.len() == 0 {
        (st, Seq::empty())
    } else {
        let (s1, m1) = run_v(st, reqs.drop_last());
        let (s2, m2) = dispatch_v(s1, reqs.last());
        (s2, m1 + m2)
    }
}

proof fn lemma_message_fields()
    ensures
        forall|st: DapV, req: JsonV, body: JsonV| {
            let (s, m) = #[trigger] respond_v(st, req, body);
            &&& s.out_seq == st.out_seq + 1
            &&& member(m, "seq"@) == Some(n_v(st.out_seq + 1))
            &&& member(m, "type"@) == Some(s_v("response"@))
            &&& member(m, "request_seq"@) == Some(JsonV::Num(num_v(req, "seq"@)))
            &&& member(m, "success"@) == Some(JsonV::Bool(true))
            &&& member(m, "command"@) == Some(s_v(str_v(req, "command"@)))
        },
        forall|st: DapV, name: Seq<char>, body: JsonV| {
            let (s, m) = #[trigger] event_v(st, name, body);
            &&& s.out_seq == st.out_seq + 1
            &&& member(m, "seq"@) == Some(n_v(st.out_seq + 1))
            &&& member(m, "type"@) == Some(s_v("event"@))
        },
        forall|st: DapV, req: JsonV| {
            let (s, ms) = #[trigger] on_unknown(st, req);
            &&& s.out_seq == st.out_seq + 1
            &&& ms.len() == 1
            &&& member(ms[0], "seq"@) == Some(n_v(st.out_seq + 1))
            &&& member(ms[0], "type"@) == Some(s_v("response"@))
            &&& member(ms[0], "request_seq"@) == Some(JsonV::Num(num_v(req, "seq"@)))
            &&& member(ms[0], "success"@) == Some(JsonV::Bool(false))
            &&& member(ms[0], "command"@) == Some(s_v(str_v(req, "command"@)))
        },
{
    reveal_with_fuel(find_key, 6);
    reveal_strlit("seq");
    reveal_strlit("type");
    reveal_strlit("request_seq");
    reveal_strlit("success");
    reveal_strlit("command");
    reveal_strlit("event");
    assert("seq"@.len() != "type"@.len());
    assert("command"@[0] != "success"@[0]);
}

/// Each request is answered first by a response that carries its `seq` as
/// `request_seq` (0 where it has none) and its `command`, and that reports
/// success exactly for the commands a session implements; any events follow
/// it. The messages are numbered on from the last message sent.
pub proof fn law_each_request_is_answered(st: DapV, req: JsonV)
    ensures
        ({
            let (s, ms) = dispatch_v(st, req);
            &&& ms.len() >= 1
            &&& s.out_seq == st.out_seq + ms.len()
            &&& forall|i: int| 0 <= i < ms.len() ==> member(#[trigger] ms[i], "seq"@) == Some(n_v((st.out_seq + i + 1) as nat))
            &&& member(ms[0], "type"@) == Some(s_v("response"@))
            &&& member(ms[0], "request_seq"@) == Some(JsonV::Num(num_v(req, "seq"@)))
            &&& member(ms[0], "command"@) == Some(s_v(str_v(req, "command"@)))
            &&& member(ms[0], "success"@) == Some(JsonV::Bool(known_command(str_v(req, "command"@))))
            &&& forall|i: int| 1 <= i < ms.len() ==> member(#[trigger] ms[i], "type"@) == Some(s_v("event"@))
        }),
{
    lemma_message_fields();
    reveal_strlit("initialize");
    reveal_strlit("launch");
    reveal_strlit("attach");
    reveal_strlit("setBreakpoints");
    reveal_strlit("configurationDone");
    reveal_strlit("threads");
    reveal_strlit("stackTrace");
    reveal_strlit("scopes");
    reveal_strlit("variables");
    reveal_strlit("next");
    reveal_strlit("continue");
    reveal_strlit("disconnect");
    reveal_strlit("terminate");
    let s = st;
    match hit_from(s.records, s.breakpoints, 0) {
        Some(i) => {},
        None => {},
    }
    match hit_from(s.records, s.breakpoints, (s.pos + 1) as int) {
        Some(i) => {},
        None => {},
    }
}

/// Over any run of requests, the messages sent are numbered 1, 2, 3, ... on
/// from where the session stood.
pub proof fn law_messages_are_numbered_across_requests(st: DapV, reqs: Seq<JsonV>)
    ensures
        run_v(st, reqs).0.out_seq == st.out_seq + run_v(st, reqs).1.len(),
        forall|i: int|
            0 <= i < run_v(st, reqs).1.len() ==> member(#[trigger] run_v(st, reqs).1[i], "seq"@) == Some(
                n_v((st.out_seq + i + 1) as nat),
            ),
    decreases reqs.len(),
{
    if reqs.len() > 0 {
        law_messages_are_numbered_across_requests(st, reqs.drop_last());
        let (s1, m1) = run_v(st, reqs.drop_last());
        law_each_request_is_answered(s1, reqs.last());
        let (s2, m2) = dispatch_v(s1, reqs.last());
        assert forall|i: int| 0 <= i < (m1 + m2).len() implies member(#[trigger] (m1 + m2)[i], "seq"@) == Some(
            n_v((st.out_seq + i + 1) as nat),
        ) by {
            if i < m1.len() {
                assert((m1 + m2)[i] == m1[i]);
            } else {
                assert((m1 + m2)[i] == m2[i - m1.len()]);
            }
        }
    }
}

} // verus!

verus! {

proof fn lemma_run_prefix(st: DapV, reqs: Seq<JsonV>, a: nat, n: nat)
    requires
        a <= n <= reqs.len(),
    ensures
        run_v(st, reqs.take(a as int)).1.len() <= run_v(st, reqs.take(n as int)).1.len(),
        forall|q: int|
            0 <= q < run_v(st, reqs.take(a as int)).1.len() ==> #[trigger] run_v(st, reqs.take(n as int)).1[q]
                == run_v(st, reqs.take(a as int)).1[q],
    decreases n,
{
    if a < n {
        lemma_run_prefix(st, reqs, a, (n - 1) as nat);
        let t = reqs.take(n as int);
        assert(t.drop_last() =~= reqs.take(n - 1));
        let (s1, m1) = run_v(st, reqs.take(n - 1));
        let m2 = dispatch_v(s1, t.last()).1;
        assert(run_v(st, t).1 == m1 + m2);
        assert forall|q: int| 0 <= q < run_v(st, reqs.take(a as int)).1.len() implies #[trigger] run_v(
            st,
            t,
        ).1[q] == run_v(st, reqs.take(a as int)).1[q] by {
            assert((m1 + m2)[q] == m1[q]);
        }
    }
}

/// Over any run of requests, the message that starts the answer to the
/// `r`-th request is its response: it carries that request's `seq` as
/// `request_seq` and its `command`, and reports success exactly when the
/// command is implemented.
pub proof fn law_every_request_in_a_run_is_answered(st: DapV, reqs: Seq<JsonV>)
    ensures
        forall|r: int|
            0 <= r < reqs.len() ==> {
                let q = (#[trigger] run_v(st, reqs.take(r))).1.len();
                let m = run_v(st, reqs).1;
                &&& q < m.len()
                &&& member(m[q as int], "type"@) == Some(s_v("response"@))
                &&& member(m[q as int], "request_seq"@) == Some(JsonV::Num(num_v(reqs[r], "seq"@)))
                &&& member(m[q as int], "command"@) == Some(s_v(str_v(reqs[r], "command"@)))
                &&& member(m[q as int], "success"@) == Some(JsonV::Bool(known_command(str_v(reqs[r], "command"@))))
            },
{
    assert forall|r: int| 0 <= r < reqs.len() implies {
        let q = (#[trigger] run_v(st, reqs.take(r))).1.len();
        let m = run_v(st, reqs).1;
        &&& q < m.len()
        &&& member(m[q as int], "type"@) == Some(s_v("response"@))
        &&& member(m[q as int], "request_seq"@) == Some(JsonV::Num(num_v(reqs[r], "seq"@)))
        &&& member(m[q as int], "command"@) == Some(s_v(str_v(reqs[r], "command"@)))
        &&& member(m[q as int], "success"@) == Some(JsonV::Bool(known_command(str_v(reqs[r], "command"@))))
    } by {
        let (s1, m1) = run_v(st, reqs.take(r));
        let t = reqs.take(r + 1);
        assert(t.drop_last() =~= reqs.take(r));
        assert(t.last() == reqs[r]);
        law_each_request_is_answered(s1, reqs[r]);
        let m2 = dispatch_v(s1, reqs[r]).1;
        assert(run_v(st, t).1 == m1 + m2);
        assert((m1 + m2)[m1.len() as int] == m2[0]);
        lemma_run_prefix(st, reqs, (r + 1) as nat, reqs.len());
        assert(reqs.take(reqs.len() as int) =~= reqs);
        assert(run_v(st, reqs).1[m1.len() as int] == run_v(st, t).1[m1.len() as int]);
    }
}

} // verus!
