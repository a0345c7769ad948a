//! Prompt lints: warnings about llm calls that are likely to misbehave.

use vstd::prelude::*;
use crate::ast::{conds_of, is_part, nested_in, exprs_v, kvals_v, names_v, stmts_v, strs_v, Expr, ExprV, Item, ItemV, ParamV, Stmt, StmtV, TypeExpr, TypeExprV};
use crate::check::items_v;
use crate::cost::stmt_expr;
use crate::json::{find_key, lemma_find_key};
use crate::text::{chars_of, is_space, char_is_space, lowercase, push_char, push_str, push_usize, str_eq, string_of, to_lowercase, nat_str};
use crate::typing::comma_join;

verus! {

/// A lint warning: its `W` code and message.
#[derive(Debug)]
pub struct Lint {
    pub code: &'static str,
    pub msg: String,
}

/// A warning with the given code and message.
pub fn lint(code: &'static str, msg: String) -> (r: Lint)
    ensures
        r.code == code,
        r.msg@ == msg@,
{
    Lint { code, msg }
}

/// The state of the word count: words so far, inside a `{...}` hole,
/// inside a word.
pub struct WordState {
    pub words: nat,
    pub in_hole: bool,
    pub in_word: bool,
}

/// The word count after reading one more character.
pub open spec fn word_step(st: WordState, c: char) -> WordState {
    if c == '{' {
        WordState {
            words: if st.in_word {
                st.words + 1
            } else {
                st.words
            },
            in_hole: true,
            in_word: false,
        }
    } else if c == '}' {
        WordState { in_hole: false, ..st }
    } else if is_space(c) {
        WordState {
            words: if st.in_word && !st.in_hole {
                st.words + 1
            } else {
                st.words
            },
            in_word: false,
            ..st
        }
    } else if !st.in_hole {
        WordState { in_word: true, ..st }
    } else {
        st
    }
}

/// The state after the first `n` characters.
pub open spec fn word_scan(s: Seq<char>, n: nat) -> WordState
    decreases n,
{
    if n == 0 || n > s.len() {
        WordState { words: 0, in_hole: false, in_word: false }
    } else {
        word_step(word_scan(s, (n - 1) as nat), s[n - 1])
    }
}

/// Words of a prompt body, `{interpolation}` holes left out: a word is a
/// run of characters outside holes ended by whitespace, a hole or the end.
pub open spec fn prompt_words_v(s: Seq<char>) -> nat {
    let st = word_scan(s, s.len());
    if st.in_word && !st.in_hole {
        st.words + 1
    } else {
        st.words
    }
}

proof fn lemma_word_scan_bound(s: Seq<char>, n: nat)
    requires
        n <= s.len(),
    ensures
        word_scan(s, n).words <= n,
        word_scan(s, n).in_word ==> word_scan(s, n).words < n,
    decreases n,
{
    if n > 0 {
        lemma_word_scan_bound(s, (n - 1) as nat);
    }
}

/// Words of the prompt body with `{interpolation}` holes removed.
pub fn prompt_words(body: &str) -> (r: usize)
    ensures
        r == prompt_words_v(body@),
{
    let cs = chars_of(body);
    let mut words: usize = 0;
    let mut in_hole = false;
    let mut in_word = false;
    let mut i: usize = 0;
    while i < cs.len()
        invariant
            i <= cs@.len(),
            cs@ == body@,
            word_scan(cs@, i as nat) == (WordState { words: words as nat, in_hole, in_word }),
        decreases cs@.len() - i,
    {
        proof {
            lemma_word_scan_bound(cs@, i as nat);
        }
        let c = cs[i];
        if c == '{' {
            in_hole = true;
            if in_word {
                words = words + 1;
                in_word = false;
            }
        } else if c == '}' {
            in_hole = false;
        } else if char_is_space(c) {
            if in_word && !in_hole {
                words = words + 1;
            }
            in_word = false;
        } else {
            if !in_hole {
                in_word = true;
            }
        }
        i = i + 1;
    }
    proof {
        lemma_word_scan_bound(cs@, i as nat);
    }
    if in_word && !in_hole {
        words = words + 1;
    }
    words
}

} // verus!

verus! {

/// A warning as values: its code and message.
pub open spec fn lint_v(l: Lint) -> (Seq<char>, Seq<char>) {
    (l.code@, l.msg@)
}

pub open spec fn lints_v(ls: Seq<Lint>) -> Seq<(Seq<char>, Seq<char>)> {
    Seq::new(ls.len(), |i: int| lint_v(ls[i]))
}

/// The record aliases of a program: name and field names, in order.
pub open spec fn records_v(items: Seq<ItemV>) -> Seq<(Seq<char>, Seq<Seq<char>>)>
    decreases items.len(),
{
    if items.len() == 0 {
        Seq::empty()
    } else {
        let a = records_v(items.drop_last());
        match items.last() {
            ItemV::TypeAlias(n, TypeExprV::Record(fs, _)) => a.push((n, fs)),
            _ => a,
        }
    }
}

pub open spec fn rec_names(recs: Seq<(Seq<char>, Seq<Seq<char>>)>) -> Seq<Seq<char>> {
    Seq::new(recs.len(), |i: int| recs[i].0)
}

/// Whether `c` belongs to a word of a prompt when matching field names:
/// an ASCII letter or digit, or `_`.
pub open spec fn word_char(c: char) -> bool {
    ('a' <= c <= 'z') || ('A' <= c <= 'Z') || ('0' <= c <= '9') || c == '_'
}

/// The words finished within the first `n` characters, and the word in
/// progress.
pub open spec fn split_scan(s: Seq<char>, n: nat) -> (Seq<Seq<char>>, Seq<char>)
    decreases n,
{
    if n == 0 || n > s.len() {
        (Seq::empty(), Seq::empty())
    } else {
        let (ws, cur) = split_scan(s, (n - 1) as nat);
        let c = s[n - 1];
        if word_char(c) {
            (ws, cur.push(c))
        } else if cur.len() > 0 {
            (ws.push(cur), Seq::empty())
        } else {
            (ws, Seq::empty())
        }
    }
}

/// The non-empty runs of word characters of `s`, in order.
pub open spec fn words_v(s: Seq<char>) -> Seq<Seq<char>> {
    let (ws, cur) = split_scan(s, s.len());
    if cur.len() > 0 {
        ws.push(cur)
    } else {
        ws
    }
}

/// A field is mentioned when some word of the prompt, lowercased, equals
/// the field's name lowercased.
pub open spec fn mentioned(f: Seq<char>, body: Seq<char>) -> bool {
    exists|i: int| 0 <= i < words_v(body).len() && lowercase(words_v(body)[i]) == lowercase(f)
}

pub open spec fn msg_w1(ctx: Seq<char>) -> Seq<char> {
    "in "@ + ctx
        + ": llm call has no `budget` option — cost is uncapped; add `budget: N USD` to the with-block"@
}

pub open spec fn msg_w2(ctx: Seq<char>) -> Seq<char> {
    "in "@ + ctx
        + ": prompt is fewer than 4 words — vague instructions produce vague output; state the task and the expected shape"@
}

pub open spec fn msg_w3(ctx: Seq<char>, schema: Seq<char>, fields: Seq<Seq<char>>) -> Seq<char> {
    "in "@ + ctx + ": schema `"@ + schema + "` fields ("@ + comma_join(fields)
        + ") never appear in the prompt — tell the model the output contract, e.g. \"return JSON with fields: "@
        + comma_join(fields) + "\""@
}

pub open spec fn msg_w4(ctx: Seq<char>) -> Seq<char> {
    "in "@ + ctx
        + ": `schema` without `retry: N with repair` — a schema violation raises at runtime instead of being repaired; add a repair loop or accept the crash"@
}

/// W0003: a record `schema` none of whose fields the prompt mentions.
pub open spec fn schema_lint(
    ctx: Seq<char>,
    body: Seq<char>,
    ks: Seq<Seq<char>>,
    vs: Seq<ExprV>,
    recs: Seq<(Seq<char>, Seq<Seq<char>>)>,
) -> Seq<(Seq<char>, Seq<char>)> {
    match find_key(ks, "schema"@, 0) {
        Some(i) => match vs[i] {
            ExprV::Ident(sch) => match find_key(rec_names(recs), sch, 0) {
                Some(r) => {
                    let fs = recs[r].1;
                    if fs.len() > 0 && (forall|j: int| 0 <= j < fs.len() ==> !mentioned(fs[j], body)) {
                        seq![("W0003"@, msg_w3(ctx, sch, fs))]
                    } else {
                        Seq::empty()
                    }
                },
                None => Seq::empty(),
            },
            _ => Seq::empty(),
        },
        None => Seq::empty(),
    }
}

/// The warnings about one llm call in the context `ctx`: W0001 without a
/// `budget` option; W0004 with a `schema` and no repair; and, when the
/// prompt's text is known, W0002 for fewer than four words and W0003.
pub open spec fn call_lints(
    ctx: Seq<char>,
    body: Option<Seq<char>>,
    ks: Seq<Seq<char>>,
    vs: Seq<ExprV>,
    repair: bool,
    recs: Seq<(Seq<char>, Seq<Seq<char>>)>,
) -> Seq<(Seq<char>, Seq<char>)> {
    let w1: Seq<(Seq<char>, Seq<char>)> = if find_key(ks, "budget"@, 0) is Some {
        Seq::empty()
    } else {
        seq![("W0001"@, msg_w1(ctx))]
    };
    let w4: Seq<(Seq<char>, Seq<char>)> = if find_key(ks, "schema"@, 0) is Some && !repair {
        seq![("W0004"@, msg_w4(ctx))]
    } else {
        Seq::empty()
    };
    match body {
        None => w1 + w4,
        Some(b) => w1 + w4 + (if prompt_words_v(b) < 4 {
            seq![("W0002"@, msg_w2(ctx))]
        } else {
            Seq::empty()
        }) + schema_lint(ctx, b, ks, vs, recs),
    }
}

/// The text of a prompt expression, when it is a prompt or a string.
pub open spec fn prompt_text(p: ExprV) -> Option<Seq<char>> {
    match p {
        ExprV::Prompt(b, _) => Some(b),
        ExprV::Str(s) => Some(s),
        _ => None,
    }
}

/// The warnings about the llm calls of an expression, in evaluation order
/// of the walk.
pub open spec fn walk_e(ctx: Seq<char>, e: ExprV, recs: Seq<(Seq<char>, Seq<Seq<char>>)>) -> Seq<
    (Seq<char>, Seq<char>),
>
    decreases e,
{
    match e {
        ExprV::LlmCall(p, ks, vs, rep) => call_lints(ctx, prompt_text(*p), ks, vs, rep, recs)
            + walk_e(ctx, *p, recs) + walk_all(ctx, vs, recs),
        ExprV::Call(f, args, _, kv) => walk_e(ctx, *f, recs) + walk_all(ctx, args, recs) + walk_all(
            ctx,
            kv,
            recs,
        ),
        ExprV::ListLit(xs) => walk_all(ctx, xs, recs),
        ExprV::ParAll(xs) => walk_all(ctx, xs, recs),
        ExprV::ParRace(xs) => walk_all(ctx, xs, recs),
        ExprV::Field(o, _) => walk_e(ctx, *o, recs),
        ExprV::Binary(_, l, r) => walk_e(ctx, *l, recs) + walk_e(ctx, *r, recs),
        ExprV::Merge(l, r) => walk_e(ctx, *l, recs) + walk_e(ctx, *r, recs),
        ExprV::Unary(_, x) => walk_e(ctx, *x, recs),
        ExprV::ParMap(c, _, kv, _, b) => walk_e(ctx, *c, recs) + walk_all(ctx, kv, recs) + walk_e(
            ctx,
            *b,
            recs,
        ),
        ExprV::Route(_, _, cs) => walk_conds(ctx, cs, recs),
        _ => Seq::empty(),
    }
}

pub open spec fn walk_all(ctx: Seq<char>, xs: Seq<ExprV>, recs: Seq<(Seq<char>, Seq<Seq<char>>)>) -> Seq<
    (Seq<char>, Seq<char>),
>
    decreases xs,
{
    if xs.len() == 0 {
        Seq::empty()
    } else {
        walk_all(ctx, xs.drop_last(), recs) + walk_e(ctx, xs.last(), recs)
    }
}

pub open spec fn walk_conds(
    ctx: Seq<char>,
    cs: Seq<Option<ExprV>>,
    recs: Seq<(Seq<char>, Seq<Seq<char>>)>,
) -> Seq<(Seq<char>, Seq<char>)>
    decreases cs,
{
    if cs.len() == 0 {
        Seq::empty()
    } else {
        walk_conds(ctx, cs.drop_last(), recs) + match cs.last() {
            Some(c) => walk_e(ctx, c, recs),
            None => Seq::empty(),
        }
    }
}

} // verus!

verus! {

pub open spec fn recs_v(r: Seq<(String, Vec<String>)>) -> Seq<(Seq<char>, Seq<Seq<char>>)> {
    Seq::new(r.len(), |i: int| (r[i].0@, strs_v(r[i].1@)))
}

/// Record type name → field names, collected from `type T = { ... }` items.
fn record_fields(items: &[Item]) -> (r: Vec<(String, Vec<String>)>)
    ensures
        recs_v(r@) == records_v(items_v(items@)),
{
    let ghost iv = items_v(items@);
    let mut out: Vec<(String, Vec<String>)> = Vec::new();
    let mut i: usize = 0;
    proof {
        assert(iv.take(0) =~= Seq::<ItemV>::empty());
        assert(recs_v(out@) =~= Seq::<(Seq<char>, Seq<Seq<char>>)>::empty());
    }
    while i < items.len()
        invariant
            i <= items@.len() == iv.len(),
            iv == items_v(items@),
            recs_v(out@) == records_v(iv.take(i as int)),
        decreases items@.len() - i,
    {
        proof {
            assert(iv.take(i + 1).drop_last() =~= iv.take(i as int));
        }
        let ghost before = recs_v(out@);
        match &items[i] {
            Item::TypeAlias { name, ty: TypeExpr::Record(fields) } => {
                let mut names: Vec<String> = Vec::new();
                let mut j: usize = 0;
                while j < fields.len()
                    invariant
                        j <= fields@.len(),
                        strs_v(names@) == names_v(fields@).take(j as int),
                    decreases fields@.len() - j,
                {
                    let nm = fields[j].0.clone();
                    assert(nm@ == fields@[j as int].0@);
                    let ghost n0 = strs_v(names@);
                    names.push(nm);
                    proof {
                        assert(strs_v(names@) =~= n0.push(nm@));
                        assert(strs_v(names@) =~= names_v(fields@).take(j + 1));
                    }
                    j = j + 1;
                }
                out.push((name.clone(), names));
                proof {
                    assert(names_v(fields@).take(fields@.len() as int) =~= names_v(fields@));
                    assert(iv[i as int] == items@[i as int]@);
                    assert(recs_v(out@) =~= before.push((name@, names_v(fields@))));
                }
            },
            _ => {
                proof {
                    assert(iv[i as int] == items@[i as int]@);
                }
            },
        }
        i = i + 1;
    }
    proof {
        assert(iv.take(items@.len() as int) =~= iv);
    }
    out
}

/// The first option named `k`.
fn find_opt(options: &Vec<(String, Expr)>, k: &str) -> (r: Option<usize>)
    ensures
        match r {
            Some(i) => find_key(names_v(options@), k@, 0) == Some(i as int),
            None => find_key(names_v(options@), k@, 0) is None,
        },
{
    let mut i: usize = 0;
    while i < options.len()
        invariant
            i <= options@.len(),
            find_key(names_v(options@), k@, i as int) == find_key(names_v(options@), k@, 0),
        decreases options@.len() - i,
    {
        if str_eq(options[i].0.as_str(), k) {
            return Some(i);
        }
        i = i + 1;
    }
    None
}

/// The first record named `n`.
fn find_rec(records: &Vec<(String, Vec<String>)>, n: &str) -> (r: Option<usize>)
    ensures
        match r {
            Some(i) => find_key(rec_names(recs_v(records@)), n@, 0) == Some(i as int),
            None => find_key(rec_names(recs_v(records@)), n@, 0) is None,
        },
{
    let ghost ks = rec_names(recs_v(records@));
    let mut i: usize = 0;
    while i < records.len()
        invariant
            i <= records@.len() == ks.len(),
            ks == rec_names(recs_v(records@)),
            find_key(ks, n@, i as int) == find_key(ks, n@, 0),
        decreases records@.len() - i,
    {
        if str_eq(records[i].0.as_str(), n) {
            return Some(i);
        }
        i = i + 1;
    }
    None
}

fn is_word_char(c: char) -> (r: bool)
    ensures
        r == word_char(c),
{
    ('a' <= c && c <= 'z') || ('A' <= c && c <= 'Z') || ('0' <= c && c <= '9') || c == '_'
}

/// The words of a prompt, each lowercased.
fn lower_words(body: &str) -> (r: Vec<String>)
    ensures
        r@.len() == words_v(body@).len(),
        forall|i: int| 0 <= i < r@.len() ==> r@[i]@ == lowercase(words_v(body@)[i]),
{
    let cs = chars_of(body);
    let mut ws: Vec<String> = Vec::new();
    let mut cur = String::new();
    let mut has = false;
    let mut i: usize = 0;
    while i < cs.len()
        invariant
            i <= cs@.len(),
            cs@ == body@,
            ws@.len() == split_scan(cs@, i as nat).0.len(),
            forall|j: int| 0 <= j < ws@.len() ==> ws@[j]@ == lowercase(split_scan(cs@, i as nat).0[j]),
            cur@ == split_scan(cs@, i as nat).1,
            has == (cur@.len() > 0),
        decreases cs@.len() - i,
    {
        let c = cs[i];
        let ghost ws0 = ws@;
        if is_word_char(c) {
            push_char(&mut cur, c);
            has = true;
        } else if has {
            ws.push(to_lowercase(cur.as_str()));
            cur = String::new();
            has = false;
        } else {
            cur = String::new();
        }
        proof {
            assert(cs@.take(i + 1).last() == cs@[i as int]);
        }
        i = i + 1;
    }
    if has {
        ws.push(to_lowercase(cur.as_str()));
    }
    ws
}

} // verus!

verus! {

pub open spec fn opt_text(b: Option<&str>) -> Option<Seq<char>> {
    match b {
        Some(s) => Some(s@),
        None => None,
    }
}

/// Whether some field is mentioned among the lowercased words.
fn any_mentioned(fields: &Vec<String>, words: &Vec<String>, Ghost(body): Ghost<Seq<char>>) -> (r: bool)
    requires
        words@.len() == words_v(body).len(),
        forall|i: int| 0 <= i < words@.len() ==> words@[i]@ == lowercase(words_v(body)[i]),
    ensures
        r == exists|j: int| 0 <= j < fields@.len() && mentioned(fields@[j]@, body),
{
    let mut j: usize = 0;
    while j < fields.len()
        invariant
            j <= fields@.len(),
            words@.len() == words_v(body).len(),
            forall|i: int| 0 <= i < words@.len() ==> words@[i]@ == lowercase(words_v(body)[i]),
            forall|q: int| 0 <= q < j ==> !mentioned(fields@[q]@, body),
        decreases fields@.len() - j,
    {
        let lf = to_lowercase(fields[j].as_str());
        let mut i: usize = 0;
        while i < words.len()
            invariant
                i <= words@.len(),
                j < fields@.len(),
                words@.len() == words_v(body).len(),
                forall|q: int| 0 <= q < words@.len() ==> words@[q]@ == lowercase(words_v(body)[q]),
                lf@ == lowercase(fields@[j as int]@),
                forall|q: int| 0 <= q < i ==> lowercase(words_v(body)[q]) != lf@,
            decreases words@.len() - i,
        {
            if str_eq(words[i].as_str(), lf.as_str()) {
                proof {
                    assert(lowercase(words_v(body)[i as int]) == lowercase(fields@[j as int]@));
                    assert(mentioned(fields@[j as int]@, body));
                }
                return true;
            }
            i = i + 1;
        }
        j = j + 1;
    }
    false
}

fn push_ctx_msg(ctx: &str, tail: &str) -> (r: String)
    ensures
        r@ == "in "@ + ctx@ + tail@,
{
    let mut m = string_of("in ");
    push_str(&mut m, ctx);
    push_str(&mut m, tail);
    m
}

/// The warnings about one llm call.
#[verifier::spinoff_prover]
#[verifier::rlimit(50)]
fn lint_llm_call(
    ctx: &str,
    prompt_body: Option<&str>,
    options: &Vec<(String, Expr)>,
    repair: bool,
    records: &Vec<(String, Vec<String>)>,
    out: &mut Vec<Lint>,
)
    ensures
        lints_v(final(out)@) == lints_v(old(out)@) + call_lints(
            ctx@,
            opt_text(prompt_body),
            names_v(options@),
            kvals_v(options@),
            repair,
            recs_v(records@),
        ),
{
    let ghost o0 = lints_v(out@);
    let ghost ks = names_v(options@);
    let ghost vs = kvals_v(options@);
    let ghost recs = recs_v(records@);
    if find_opt(options, "budget").is_none() {
        let m = push_ctx_msg(
            ctx,
            ": llm call has no `budget` option — cost is uncapped; add `budget: N USD` to the with-block",
        );
        let ghost b = lints_v(out@);
        out.push(lint("W0001", m));
        proof {
            assert(lints_v(out@) =~= b.push(("W0001"@, msg_w1(ctx@))));
        }
    }
    let ghost w1: Seq<(Seq<char>, Seq<char>)> = if find_key(ks, "budget"@, 0) is Some {
        Seq::empty()
    } else {
        seq![("W0001"@, msg_w1(ctx@))]
    };
    assert(lints_v(out@) =~= o0 + w1);
    let sch = find_opt(options, "schema");
    if sch.is_some() && !repair {
        let m = push_ctx_msg(
            ctx,
            ": `schema` without `retry: N with repair` — a schema violation raises at runtime instead of being repaired; add a repair loop or accept the crash",
        );
        let ghost b = lints_v(out@);
        out.push(lint("W0004", m));
        proof {
            assert(lints_v(out@) =~= b.push(("W0004"@, msg_w4(ctx@))));
        }
    }
    let ghost w4: Seq<(Seq<char>, Seq<char>)> = if find_key(ks, "schema"@, 0) is Some && !repair {
        seq![("W0004"@, msg_w4(ctx@))]
    } else {
        Seq::empty()
    };
    assert(lints_v(out@) =~= o0 + w1 + w4);
    let body = match prompt_body {
        Some(b) => b,
        None => {
            return;
        },
    };
    if prompt_words(body) < 4 {
        let m = push_ctx_msg(
            ctx,
            ": prompt is fewer than 4 words — vague instructions produce vague output; state the task and the expected shape",
        );
        let ghost b = lints_v(out@);
        out.push(lint("W0002", m));
        proof {
            assert(lints_v(out@) =~= b.push(("W0002"@, msg_w2(ctx@))));
        }
    }
    let ghost w2: Seq<(Seq<char>, Seq<char>)> = if prompt_words_v(body@) < 4 {
        seq![("W0002"@, msg_w2(ctx@))]
    } else {
        Seq::empty()
    };
    let ghost o3 = lints_v(out@);
    assert(o3 =~= o0 + w1 + w4 + w2);
    match sch {
        Some(i) => {
            proof {
                lemma_find_key(ks, "schema"@, 0);
                assert(vs[i as int] == options@[i as int].1@);
            }
            match &options[i].1 {
                Expr::Ident(schema) => {
                    assert(vs[i as int] == ExprV::Ident(schema@));
                    match find_rec(records, schema.as_str()) {
                        Some(r) => {
                            proof {
                                lemma_find_key(rec_names(recs), schema@, 0);
                                assert(recs[r as int].1 == strs_v(records@[r as int].1@));
                            }
                            let fields = &records[r].1;
                            if fields.len() > 0 {
                                let words = lower_words(body);
                                if !any_mentioned(fields, &words, Ghost(body@)) {
                                    let mut m = push_ctx_msg(ctx, ": schema `");
                                    push_str(&mut m, schema.as_str());
                                    push_str(&mut m, "` fields (");
                                    crate::check::push_comma_join(&mut m, fields);
                                    push_str(
                                        &mut m,
                                        ") never appear in the prompt — tell the model the output contract, e.g. \"return JSON with fields: ",
                                    );
                                    crate::check::push_comma_join(&mut m, fields);
                                    push_str(&mut m, "\"");
                                    proof {
                                        assert(m@ =~= msg_w3(ctx@, schema@, strs_v(fields@)));
                                    }
                                    out.push(lint("W0003", m));
                                    proof {
                                        assert(lints_v(out@) =~= o3.push(
                                            ("W0003"@, msg_w3(ctx@, schema@, strs_v(fields@))),
                                        ));
                                        assert forall|j: int| 0 <= j < strs_v(fields@).len() implies !mentioned(
                                            strs_v(fields@)[j],
                                            body@,
                                        ) by {
                                            assert(strs_v(fields@)[j] == fields@[j]@);
                                        }
                                    }
                                } else {
                                    proof {
                                        let j = choose|j: int| 0 <= j < fields@.len() && mentioned(fields@[j]@, body@);
                                        assert(strs_v(fields@)[j] == fields@[j]@);
                                        assert(lints_v(out@) =~= o3 + Seq::<(Seq<char>, Seq<char>)>::empty());
                                    }
                                }
                            } else {
                                assert(lints_v(out@) =~= o3 + Seq::<(Seq<char>, Seq<char>)>::empty());
                            }
                        },
                        None => {
                            assert(lints_v(out@) =~= o3 + Seq::<(Seq<char>, Seq<char>)>::empty());
                        },
                    }
                },
                _ => {
                    assert(lints_v(out@) =~= o3 + Seq::<(Seq<char>, Seq<char>)>::empty());
                },
            }
        },
        None => {
            assert(lints_v(out@) =~= o3 + Seq::<(Seq<char>, Seq<char>)>::empty());
        },
    }
}

} // verus!

verus! {

/// Appends the warnings about the llm calls of `e`.
#[verifier::spinoff_prover]
#[verifier::rlimit(50)]
fn walk_expr(ctx: &str, e: &Expr, records: &Vec<(String, Vec<String>)>, out: &mut Vec<Lint>)
    ensures
        lints_v(final(out)@) == lints_v(old(out)@) + walk_e(ctx@, e@, recs_v(records@)),
    decreases e,
{
    let ghost o0 = lints_v(out@);
    let ghost recs = recs_v(records@);
    match e {
        Expr::LlmCall { prompt, options, repair } => {
            proof {
                assert(e@->LlmCall_2 =~= kvals_v(options@));
            }
            let body: Option<&str> = match &**prompt {
                Expr::Prompt { body, .. } => Some(body.as_str()),
                Expr::Str(s) => Some(s.as_str()),
                _ => None,
            };
            assert(opt_text(body) == prompt_text((**prompt)@));
            lint_llm_call(ctx, body, options, *repair, records, out);
            walk_expr(ctx, &**prompt, records, out);
            walk_kv(ctx, options, records, out);
            assert(lints_v(out@) =~= o0 + walk_e(ctx@, e@, recs));
        },
        Expr::Call { func, args, kwargs } => {
            proof {
                assert(e@->Call_1 =~= exprs_v(args@));
                assert(e@->Call_3 =~= kvals_v(kwargs@));
            }
            walk_expr(ctx, &**func, records, out);
            walk_list(ctx, args, records, out);
            walk_kv(ctx, kwargs, records, out);
            assert(lints_v(out@) =~= o0 + walk_e(ctx@, e@, recs));
        },
        Expr::ListLit(xs) => {
            proof {
                assert(e@->ListLit_0 =~= exprs_v(xs@));
            }
            walk_list(ctx, xs, records, out);
        },
        Expr::ParAll(xs) => {
            proof {
                assert(e@->ParAll_0 =~= exprs_v(xs@));
            }
            walk_list(ctx, xs, records, out);
        },
        Expr::ParRace(xs) => {
            proof {
                assert(e@->ParRace_0 =~= exprs_v(xs@));
            }
            walk_list(ctx, xs, records, out);
        },
        Expr::Field { obj, .. } => {
            walk_expr(ctx, &**obj, records, out);
        },
        Expr::Binary { l, r, .. } => {
            walk_expr(ctx, &**l, records, out);
            walk_expr(ctx, &**r, records, out);
            assert(lints_v(out@) =~= o0 + walk_e(ctx@, e@, recs));
        },
        Expr::Merge { l, r } => {
            walk_expr(ctx, &**l, records, out);
            walk_expr(ctx, &**r, records, out);
            assert(lints_v(out@) =~= o0 + walk_e(ctx@, e@, recs));
        },
        Expr::Unary { x, .. } => {
            walk_expr(ctx, &**x, records, out);
        },
        Expr::ParMap { coll, kwargs, body, .. } => {
            proof {
                assert(e@->ParMap_2 =~= kvals_v(kwargs@));
            }
            walk_expr(ctx, &**coll, records, out);
            walk_kv(ctx, kwargs, records, out);
            walk_expr(ctx, &**body, records, out);
            assert(lints_v(out@) =~= o0 + walk_e(ctx@, e@, recs));
        },
        Expr::Route { arms } => {
            proof {
                assert(e@->Route_2 =~= conds_of(arms@));
            }
            walk_arms(ctx, arms, records, out);
        },
        _ => {
            assert(lints_v(out@) =~= o0 + walk_e(ctx@, e@, recs));
        },
    }
}

fn walk_list(ctx: &str, xs: &Vec<Expr>, records: &Vec<(String, Vec<String>)>, out: &mut Vec<Lint>)
    ensures
        lints_v(final(out)@) == lints_v(old(out)@) + walk_all(ctx@, exprs_v(xs@), recs_v(records@)),
    decreases xs,
{
    let ghost o0 = lints_v(out@);
    let ghost xv = exprs_v(xs@);
    let mut i: usize = 0;
    proof {
        assert(xv.take(0) =~= Seq::<ExprV>::empty());
        assert(lints_v(out@) =~= o0 + Seq::<(Seq<char>, Seq<char>)>::empty());
    }
    while i < xs.len()
        invariant
            i <= xs@.len() == xv.len(),
            xv == exprs_v(xs@),
            o0 == lints_v(old(out)@),
            lints_v(out@) == o0 + walk_all(ctx@, xv.take(i as int), recs_v(records@)),
        decreases xs@.len() - i,
    {
        proof {
            assert(xv.take(i + 1).drop_last() =~= xv.take(i as int));
        }
        walk_expr(ctx, &xs[i], records, out);
        proof {
            assert(lints_v(out@) =~= o0 + walk_all(ctx@, xv.take(i + 1), recs_v(records@)));
        }
        i = i + 1;
    }
    proof {
        assert(xv.take(xs@.len() as int) =~= xv);
    }
}

fn walk_kv(ctx: &str, kv: &Vec<(String, Expr)>, records: &Vec<(String, Vec<String>)>, out: &mut Vec<Lint>)
    ensures
        lints_v(final(out)@) == lints_v(old(out)@) + walk_all(ctx@, kvals_v(kv@), recs_v(records@)),
    decreases kv,
{
    let ghost o0 = lints_v(out@);
    let ghost xv = kvals_v(kv@);
    let mut i: usize = 0;
    proof {
        assert(xv.take(0) =~= Seq::<ExprV>::empty());
        assert(lints_v(out@) =~= o0 + Seq::<(Seq<char>, Seq<char>)>::empty());
    }
    while i < kv.len()
        invariant
            i <= kv@.len() == xv.len(),
            xv == kvals_v(kv@),
            o0 == lints_v(old(out)@),
            lints_v(out@) == o0 + walk_all(ctx@, xv.take(i as int), recs_v(records@)),
        decreases kv@.len() - i,
    {
        proof {
            assert(xv.take(i + 1).drop_last() =~= xv.take(i as int));
        }
        walk_expr(ctx, &kv[i].1, records, out);
        proof {
            assert(lints_v(out@) =~= o0 + walk_all(ctx@, xv.take(i + 1), recs_v(records@)));
        }
        i = i + 1;
    }
    proof {
        assert(xv.take(kv@.len() as int) =~= xv);
    }
}

fn walk_arms(ctx: &str, arms: &Vec<(String, String, Option<Expr>)>, records: &Vec<(String, Vec<String>)>, out: &mut Vec<Lint>)
    ensures
        lints_v(final(out)@) == lints_v(old(out)@) + walk_conds(ctx@, conds_of(arms@), recs_v(records@)),
    decreases arms,
{
    let ghost o0 = lints_v(out@);
    let ghost cs = conds_of(arms@);
    let mut i: usize = 0;
    proof {
        assert(cs.take(0) =~= Seq::<Option<ExprV>>::empty());
        assert(lints_v(out@) =~= o0 + Seq::<(Seq<char>, Seq<char>)>::empty());
    }
    while i < arms.len()
        invariant
            i <= arms@.len() == cs.len(),
            cs == conds_of(arms@),
            o0 == lints_v(old(out)@),
            lints_v(out@) == o0 + walk_conds(ctx@, cs.take(i as int), recs_v(records@)),
        decreases arms@.len() - i,
    {
        proof {
            assert(cs.take(i + 1).drop_last() =~= cs.take(i as int));
        }
        let ghost before = lints_v(out@);
        match &arms[i].2 {
            Some(x) => {
                walk_expr(ctx, x, records, out);
            },
            None => {
                assert(lints_v(out@) =~= before + Seq::<(Seq<char>, Seq<char>)>::empty());
            },
        }
        proof {
            assert(lints_v(out@) =~= o0 + walk_conds(ctx@, cs.take(i + 1), recs_v(records@)));
        }
        i = i + 1;
    }
    proof {
        assert(cs.take(arms@.len() as int) =~= cs);
    }
}

} // verus!

verus! {

/// The warnings of a body in the context `ctx`.
pub open spec fn body_lints(ctx: Seq<char>, body: Seq<StmtV>, recs: Seq<(Seq<char>, Seq<Seq<char>>)>) -> Seq<
    (Seq<char>, Seq<char>),
>
    decreases body.len(),
{
    if body.len() == 0 {
        Seq::empty()
    } else {
        body_lints(ctx, body.drop_last(), recs) + walk_e(ctx, stmt_expr(body.last().kind), recs)
    }
}

/// The warnings of an item: a fn's in the context `fn f`, a test's in
/// `test "t"`, an agent's fns' in `agent A / fn f` (other items inside an
/// agent as at the top).
pub open spec fn item_lints(it: ItemV, recs: Seq<(Seq<char>, Seq<Seq<char>>)>) -> Seq<
    (Seq<char>, Seq<char>),
>
    decreases it, 0nat,
{
    match it {
        ItemV::Fn(n, _, _, _, body) => body_lints("fn "@ + n, body, recs),
        ItemV::Test(n, body) => body_lints("test \""@ + n + "\""@, body, recs),
        ItemV::Agent(n, _, _, _, fns) => agent_lints(n, fns, fns.len(), recs),
        _ => Seq::empty(),
    }
}

pub open spec fn agent_lints(
    agent: Seq<char>,
    fns: Seq<ItemV>,
    k: nat,
    recs: Seq<(Seq<char>, Seq<Seq<char>>)>,
) -> Seq<(Seq<char>, Seq<char>)>
    decreases fns, k,
{
    if k == 0 || k > fns.len() {
        Seq::empty()
    } else {
        agent_lints(agent, fns, (k - 1) as nat, recs) + match fns[k - 1] {
            ItemV::Fn(f, _, _, _, body) => body_lints("agent "@ + agent + " / fn "@ + f, body, recs),
            other => item_lints(other, recs),
        }
    }
}

pub open spec fn items_lints(items: Seq<ItemV>, recs: Seq<(Seq<char>, Seq<Seq<char>>)>) -> Seq<
    (Seq<char>, Seq<char>),
>
    decreases items.len(),
{
    if items.len() == 0 {
        Seq::empty()
    } else {
        items_lints(items.drop_last(), recs) + item_lints(items.last(), recs)
    }
}

/// The first warning equal to `l` at or after `i`.
pub open spec fn find_lint(ds: Seq<(Seq<char>, Seq<char>)>, l: (Seq<char>, Seq<char>), i: int) -> Option<int>
    decreases ds.len() - i,
{
    if i < 0 || i >= ds.len() {
        None
    } else if ds[i] == l {
        Some(i)
    } else {
        find_lint(ds, l, i + 1)
    }
}

/// The distinct warnings among the first `n`, in order of first
/// appearance, with how often each appeared.
pub open spec fn dedup_scan(ls: Seq<(Seq<char>, Seq<char>)>, n: nat) -> (Seq<(Seq<char>, Seq<char>)>, Seq<nat>)
    decreases n,
{
    if n == 0 || n > ls.len() {
        (Seq::empty(), Seq::empty())
    } else {
        let (ds, cs) = dedup_scan(ls, (n - 1) as nat);
        match find_lint(ds, ls[n - 1], 0) {
            Some(i) => (ds, cs.update(i, cs[i] + 1)),
            None => (ds.push(ls[n - 1]), cs.push(1)),
        }
    }
}

/// Identical warnings (same code and message) collapsed into the first,
/// whose message then ends with ` (×n)`.
pub open spec fn dedup_v(ls: Seq<(Seq<char>, Seq<char>)>) -> Seq<(Seq<char>, Seq<char>)> {
    let (ds, cs) = dedup_scan(ls, ls.len());
    Seq::new(
        ds.len(),
        |i: int|
            if cs[i] > 1 {
                (ds[i].0, ds[i].1 + " (×"@ + nat_str(cs[i]) + ")"@)
            } else {
                ds[i]
            },
    )
}

/// All prompt-quality warnings of a program.
pub open spec fn lint_items_v(items: Seq<ItemV>) -> Seq<(Seq<char>, Seq<char>)> {
    dedup_v(items_lints(items, records_v(items)))
}

proof fn lemma_find_lint(ds: Seq<(Seq<char>, Seq<char>)>, l: (Seq<char>, Seq<char>), i: int)
    requires
        0 <= i,
    ensures
        find_lint(ds, l, i) matches Some(j) ==> i <= j < ds.len() && ds[j] == l,
    decreases ds.len() - i,
{
    if i < ds.len() && ds[i] != l {
        lemma_find_lint(ds, l, i + 1);
    }
}

proof fn lemma_dedup_scan(ls: Seq<(Seq<char>, Seq<char>)>, n: nat)
    requires
        n <= ls.len(),
    ensures
        dedup_scan(ls, n).0.len() == dedup_scan(ls, n).1.len(),
        forall|i: int| 0 <= i < dedup_scan(ls, n).1.len() ==> 1 <= #[trigger] dedup_scan(ls, n).1[i] <= n,
    decreases n,
{
    if n > 0 {
        lemma_dedup_scan(ls, (n - 1) as nat);
        let (ds, cs) = dedup_scan(ls, (n - 1) as nat);
        lemma_find_lint(ds, ls[n - 1], 0);
    }
}

} // verus!

verus! {

fn walk_body(ctx: &str, body: &Vec<Stmt>, records: &Vec<(String, Vec<String>)>, out: &mut Vec<Lint>)
    ensures
        lints_v(final(out)@) == lints_v(old(out)@) + body_lints(ctx@, stmts_v(body@), recs_v(records@)),
{
    let ghost o0 = lints_v(out@);
    let ghost bv = stmts_v(body@);
    let mut i: usize = 0;
    proof {
        assert(bv.take(0) =~= Seq::<StmtV>::empty());
        assert(lints_v(out@) =~= o0 + Seq::<(Seq<char>, Seq<char>)>::empty());
    }
    while i < body.len()
        invariant
            i <= body@.len() == bv.len(),
            bv == stmts_v(body@),
            o0 == lints_v(old(out)@),
            lints_v(out@) == o0 + body_lints(ctx@, bv.take(i as int), recs_v(records@)),
        decreases body@.len() - i,
    {
        proof {
            assert(bv.take(i + 1).drop_last() =~= bv.take(i as int));
            assert(bv.take(i + 1).last() == bv[i as int]);
        }
        walk_expr(ctx, crate::cost::stmt_value(&body[i]), records, out);
        proof {
            assert(lints_v(out@) =~= o0 + body_lints(ctx@, bv.take(i + 1), recs_v(records@)));
        }
        i = i + 1;
    }
    proof {
        assert(bv.take(body@.len() as int) =~= bv);
    }
}

#[verifier::loop_isolation(false)]
fn walk_item(it: &Item, records: &Vec<(String, Vec<String>)>, out: &mut Vec<Lint>)
    ensures
        lints_v(final(out)@) == lints_v(old(out)@) + item_lints(it@, recs_v(records@)),
    decreases it,
{
    let ghost o0 = lints_v(out@);
    let ghost recs = recs_v(records@);
    match it {
        Item::Fn { name, body, .. } => {
            let ctx = push_ctx_of("fn ", name.as_str());
            walk_body(ctx.as_str(), body, records, out);
        },
        Item::Test { name, body } => {
            let mut ctx = push_ctx_of("test \"", name.as_str());
            push_str(&mut ctx, "\"");
            walk_body(ctx.as_str(), body, records, out);
        },
        Item::Agent { name, fns, .. } => {
            let ghost fv = it@->Agent_4;
            assert(fv =~= Seq::new(fns@.len(), |q: int| fns@[q]@));
            let mut j: usize = 0;
            proof {
                assert(lints_v(out@) =~= o0 + agent_lints(name@, fv, 0, recs));
            }
            while j < fns.len()
                invariant
                    j <= fns@.len() == fv.len(),
                    fv == Seq::new(fns@.len(), |q: int| fns@[q]@),
                    it@ == ItemV::Agent(name@, it@->Agent_1, it@->Agent_2, it@->Agent_3, fv),
                    recs == recs_v(records@),
                    o0 == lints_v(old(out)@),
                    lints_v(out@) == o0 + agent_lints(name@, fv, j as nat, recs),
                decreases fns@.len() - j,
            {
                let ghost b = lints_v(out@);
                assert(fv[j as int] == fns@[j as int]@);
                match &fns[j] {
                    Item::Fn { name: f, body, .. } => {
                        let mut ctx = push_ctx_of("agent ", name.as_str());
                        push_str(&mut ctx, " / fn ");
                        push_str(&mut ctx, f.as_str());
                        walk_body(ctx.as_str(), body, records, out);
                    },
                    _ => {
                        proof {
                            assert(decreases_to!(*it => *fns));
                            assert(decreases_to!(*fns => fns@));
                            assert(decreases_to!(fns@ => fns@[j as int]));
                        }
                        walk_item(&fns[j], records, out);
                    },
                }
                proof {
                    assert(lints_v(out@) =~= o0 + agent_lints(name@, fv, (j + 1) as nat, recs));
                }
                j = j + 1;
            }
        },
        _ => {
            assert(lints_v(out@) =~= o0 + item_lints(it@, recs));
        },
    }
}

/// The first kept warning equal to `l`.
fn find_dup(ds: &Vec<Lint>, l: &Lint) -> (r: Option<usize>)
    ensures
        match r {
            Some(i) => find_lint(lints_v(ds@), lint_v(*l), 0) == Some(i as int),
            None => find_lint(lints_v(ds@), lint_v(*l), 0) is None,
        },
{
    let mut i: usize = 0;
    while i < ds.len()
        invariant
            i <= ds@.len(),
            find_lint(lints_v(ds@), lint_v(*l), i as int) == find_lint(lints_v(ds@), lint_v(*l), 0),
        decreases ds@.len() - i,
    {
        if str_eq(ds[i].code, l.code) && str_eq(ds[i].msg.as_str(), l.msg.as_str()) {
            return Some(i);
        }
        i = i + 1;
    }
    None
}

fn push_ctx_of(kind: &str, name: &str) -> (r: String)
    ensures
        r@ == kind@ + name@,
{
    let mut c = string_of(kind);
    push_str(&mut c, name);
    c
}

/// Runs all prompt-quality rules over the parsed items, in program order;
/// identical warnings collapse into the first, with a repetition count.
pub fn lint_items(items: &[Item]) -> (r: Vec<Lint>)
    ensures
        lints_v(r@) == lint_items_v(items_v(items@)),
{
    let records = record_fields(items);
    let ghost iv = items_v(items@);
    let ghost recs = records_v(iv);
    let mut out: Vec<Lint> = Vec::new();
    let mut i: usize = 0;
    proof {
        assert(iv.take(0) =~= Seq::<ItemV>::empty());
        assert(lints_v(out@) =~= Seq::<(Seq<char>, Seq<char>)>::empty());
    }
    while i < items.len()
        invariant
            i <= items@.len() == iv.len(),
            iv == items_v(items@),
            recs_v(records@) == recs,
            recs == records_v(iv),
            lints_v(out@) == items_lints(iv.take(i as int), recs),
        decreases items@.len() - i,
    {
        proof {
            assert(iv.take(i + 1).drop_last() =~= iv.take(i as int));
            assert(iv.take(i + 1).last() == items@[i as int]@);
        }
        walk_item(&items[i], &records, &mut out);
        i = i + 1;
    }
    proof {
        assert(iv.take(items@.len() as int) =~= iv);
    }
    let ghost ls = lints_v(out@);
    let mut deduped: Vec<Lint> = Vec::new();
    let mut counts: Vec<usize> = Vec::new();
    let mut k: usize = 0;
    while k < out.len()
        invariant
            k <= out@.len(),
            ls == lints_v(out@),
            lints_v(deduped@) == dedup_scan(ls, k as nat).0,
            counts@.len() == deduped@.len(),
            forall|q: int| 0 <= q < counts@.len() ==> counts@[q] as nat == dedup_scan(ls, k as nat).1[q],
            forall|q: int| 0 <= q < counts@.len() ==> counts@[q] <= k,
        decreases out@.len() - k,
    {
        proof {
            lemma_dedup_scan(ls, k as nat);
        }
        let code = out[k].code;
        let ghost ds = dedup_scan(ls, k as nat).0;
        let pos_opt = find_dup(&deduped, &out[k]);
        assert(ls[k as int] == lint_v(out@[k as int]));
        if let Some(pos) = pos_opt {
            proof {
                lemma_find_lint(ds, ls[k as int], 0);
            }
            let n = counts[pos] + 1;
            counts.set(pos, n);
        } else {
            let m = out[k].msg.clone();
            deduped.push(lint(code, m));
            counts.push(1);
            proof {
                assert(lints_v(deduped@) =~= ds.push(ls[k as int]));
            }
        }
        k = k + 1;
    }
    proof {
        lemma_dedup_scan(ls, ls.len());
        assert(ls.len() == out@.len());
    }
    let mut res: Vec<Lint> = Vec::new();
    let mut q: usize = 0;
    while q < deduped.len()
        invariant
            q <= deduped@.len() == counts@.len(),
            ls.len() == out@.len(),
            lints_v(deduped@) == dedup_scan(ls, ls.len()).0,
            forall|p: int| 0 <= p < counts@.len() ==> counts@[p] as nat == dedup_scan(ls, ls.len()).1[p],
            lints_v(res@) == dedup_v(ls).take(q as int),
        decreases deduped@.len() - q,
    {
        let n = counts[q];
        let mut m = deduped[q].msg.clone();
        if n > 1 {
            push_str(&mut m, " (×");
            push_usize(&mut m, n);
            push_str(&mut m, ")");
        }
        let ghost r0 = lints_v(res@);
        res.push(lint(deduped[q].code, m));
        proof {
            assert(lints_v(res@) =~= r0.push(dedup_v(ls)[q as int]));
            assert(dedup_v(ls).take(q + 1) =~= dedup_v(ls).take(q as int).push(dedup_v(ls)[q as int]));
        }
        q = q + 1;
    }
    proof {
        assert(dedup_v(ls).take(q as int) =~= dedup_v(ls));
    }
    res
}

} // verus!

verus! {

/// A warning code with its message in the given context: one of the four
/// `W` codes, and a message that starts with `in ` and the context.
pub open spec fn in_context(l: (Seq<char>, Seq<char>), ctx: Seq<char>) -> bool {
    &&& (l.0 == "W0001"@ || l.0 == "W0002"@ || l.0 == "W0003"@ || l.0 == "W0004"@)
    &&& ("in "@ + ctx).is_prefix_of(l.1)
    &&& plain_end(l.1)
}

/// A message that does not end with `)`, as a repeat count would.
pub open spec fn plain_end(m: Seq<char>) -> bool {
    m.len() > 0 && m.last() != ')'
}

proof fn lemma_plain_end_add(a: Seq<char>, b: Seq<char>)
    requires
        plain_end(b),
    ensures
        plain_end(a + b),
{
    assert((a + b).last() == b.last());
}

proof fn lemma_msgs_plain_end(ctx: Seq<char>, sch: Seq<char>, fs: Seq<Seq<char>>)
    ensures
        plain_end(msg_w1(ctx)),
        plain_end(msg_w2(ctx)),
        plain_end(msg_w3(ctx, sch, fs)),
        plain_end(msg_w4(ctx)),
{
    let l1 = ": llm call has no `budget` option — cost is uncapped; add `budget: N USD` to the with-block"@;
    let l2 = ": prompt is fewer than 4 words — vague instructions produce vague output; state the task and the expected shape"@;
    let l4 = ": `schema` without `retry: N with repair` — a schema violation raises at runtime instead of being repaired; add a repair loop or accept the crash"@;
    reveal_strlit(": llm call has no `budget` option — cost is uncapped; add `budget: N USD` to the with-block");
    reveal_strlit(": prompt is fewer than 4 words — vague instructions produce vague output; state the task and the expected shape");
    reveal_strlit(": `schema` without `retry: N with repair` — a schema violation raises at runtime instead of being repaired; add a repair loop or accept the crash");
    reveal_strlit("\"");
    lemma_plain_end_add("in "@ + ctx, l1);
    lemma_plain_end_add("in "@ + ctx, l2);
    lemma_plain_end_add("in "@ + ctx, l4);
    let w3 = "in "@ + ctx + ": schema `"@ + sch + "` fields ("@ + comma_join(fs)
        + ") never appear in the prompt — tell the model the output contract, e.g. \"return JSON with fields: "@
        + comma_join(fs);
    lemma_plain_end_add(w3, "\""@);
}

pub open spec fn all_in_context(s: Seq<(Seq<char>, Seq<char>)>, ctx: Seq<char>) -> bool {
    forall|i: int| 0 <= i < s.len() ==> in_context(#[trigger] s[i], ctx)
}

proof fn lemma_add_in_context(a: Seq<(Seq<char>, Seq<char>)>, b: Seq<(Seq<char>, Seq<char>)>, ctx: Seq<char>)
    requires
        all_in_context(a, ctx),
        all_in_context(b, ctx),
    ensures
        all_in_context(a + b, ctx),
{
    assert forall|i: int| 0 <= i < (a + b).len() implies in_context(#[trigger] (a + b)[i], ctx) by {
        if i >= a.len() {
            assert((a + b)[i] == b[i - a.len()]);
        } else {
            assert((a + b)[i] == a[i]);
        }
    }
}

proof fn lemma_prefix_msg(ctx: Seq<char>, tail: Seq<char>)
    ensures
        ("in "@ + ctx).is_prefix_of("in "@ + ctx + tail),
{
    assert(("in "@ + ctx + tail).take(("in "@ + ctx).len() as int) =~= "in "@ + ctx);
}

proof fn lemma_call_lints_in_context(
    ctx: Seq<char>,
    body: Option<Seq<char>>,
    ks: Seq<Seq<char>>,
    vs: Seq<ExprV>,
    repair: bool,
    recs: Seq<(Seq<char>, Seq<Seq<char>>)>,
)
    ensures
        all_in_context(call_lints(ctx, body, ks, vs, repair, recs), ctx),
{
    let w1: Seq<(Seq<char>, Seq<char>)> = if find_key(ks, "budget"@, 0) is Some {
        Seq::empty()
    } else {
        seq![("W0001"@, msg_w1(ctx))]
    };
    let w4: Seq<(Seq<char>, Seq<char>)> = if find_key(ks, "schema"@, 0) is Some && !repair {
        seq![("W0004"@, msg_w4(ctx))]
    } else {
        Seq::empty()
    };
    lemma_msgs_plain_end(ctx, Seq::empty(), Seq::empty());
    lemma_prefix_msg(ctx, msg_w1(ctx).skip(("in "@ + ctx).len() as int));
    assert(msg_w1(ctx) =~= "in "@ + ctx + msg_w1(ctx).skip(("in "@ + ctx).len() as int));
    assert(msg_w4(ctx) =~= "in "@ + ctx + msg_w4(ctx).skip(("in "@ + ctx).len() as int));
    lemma_prefix_msg(ctx, msg_w4(ctx).skip(("in "@ + ctx).len() as int));
    assert(all_in_context(w1, ctx));
    assert(all_in_context(w4, ctx));
    lemma_add_in_context(w1, w4, ctx);
    match body {
        None => {},
        Some(b) => {
            let w2: Seq<(Seq<char>, Seq<char>)> = if prompt_words_v(b) < 4 {
                seq![("W0002"@, msg_w2(ctx))]
            } else {
                Seq::empty()
            };
            assert(msg_w2(ctx) =~= "in "@ + ctx + msg_w2(ctx).skip(("in "@ + ctx).len() as int));
            lemma_prefix_msg(ctx, msg_w2(ctx).skip(("in "@ + ctx).len() as int));
            assert(all_in_context(w2, ctx));
            let w3 = schema_lint(ctx, b, ks, vs, recs);
            assert forall|i: int| 0 <= i < w3.len() implies in_context(#[trigger] w3[i], ctx) by {
                let m = w3[i].1;
                match find_key(ks, "schema"@, 0) {
                    Some(q) => match vs[q] {
                        ExprV::Ident(sch) => match find_key(rec_names(recs), sch, 0) {
                            Some(r) => lemma_msgs_plain_end(ctx, sch, recs[r].1),
                            None => {},
                        },
                        _ => {},
                    },
                    None => {},
                }
                assert(m =~= "in "@ + ctx + m.skip(("in "@ + ctx).len() as int));
                lemma_prefix_msg(ctx, m.skip(("in "@ + ctx).len() as int));
            }
            lemma_add_in_context(w1 + w4, w2, ctx);
            lemma_add_in_context(w1 + w4 + w2, w3, ctx);
        },
    }
}

proof fn lemma_walk_in_context(ctx: Seq<char>, e: ExprV, recs: Seq<(Seq<char>, Seq<Seq<char>>)>)
    ensures
        all_in_context(walk_e(ctx, e, recs), ctx),
    decreases e,
{
    let em: Seq<(Seq<char>, Seq<char>)> = Seq::empty();
    match e {
        ExprV::LlmCall(p, ks, vs, rep) => {
            lemma_call_lints_in_context(ctx, prompt_text(*p), ks, vs, rep, recs);
            lemma_walk_in_context(ctx, *p, recs);
            lemma_walk_all_in_context(ctx, vs, recs);
            lemma_add_in_context(call_lints(ctx, prompt_text(*p), ks, vs, rep, recs), walk_e(ctx, *p, recs), ctx);
            lemma_add_in_context(
                call_lints(ctx, prompt_text(*p), ks, vs, rep, recs) + walk_e(ctx, *p, recs),
                walk_all(ctx, vs, recs),
                ctx,
            );
        },
        ExprV::Call(f, args, _, kv) => {
            lemma_walk_in_context(ctx, *f, recs);
            lemma_walk_all_in_context(ctx, args, recs);
            lemma_walk_all_in_context(ctx, kv, recs);
            lemma_add_in_context(walk_e(ctx, *f, recs), walk_all(ctx, args, recs), ctx);
            lemma_add_in_context(walk_e(ctx, *f, recs) + walk_all(ctx, args, recs), walk_all(ctx, kv, recs), ctx);
        },
        ExprV::ListLit(xs) => lemma_walk_all_in_context(ctx, xs, recs),
        ExprV::ParAll(xs) => lemma_walk_all_in_context(ctx, xs, recs),
        ExprV::ParRace(xs) => lemma_walk_all_in_context(ctx, xs, recs),
        ExprV::Field(o, _) => lemma_walk_in_context(ctx, *o, recs),
        ExprV::Binary(_, l, r) => {
            lemma_walk_in_context(ctx, *l, recs);
            lemma_walk_in_context(ctx, *r, recs);
            lemma_add_in_context(walk_e(ctx, *l, recs), walk_e(ctx, *r, recs), ctx);
        },
        ExprV::Merge(l, r) => {
            lemma_walk_in_context(ctx, *l, recs);
            lemma_walk_in_context(ctx, *r, recs);
            lemma_add_in_context(walk_e(ctx, *l, recs), walk_e(ctx, *r, recs), ctx);
        },
        ExprV::Unary(_, x) => lemma_walk_in_context(ctx, *x, recs),
        ExprV::ParMap(c, _, kv, _, b) => {
            lemma_walk_in_context(ctx, *c, recs);
            lemma_walk_all_in_context(ctx, kv, recs);
            lemma_walk_in_context(ctx, *b, recs);
            lemma_add_in_context(walk_e(ctx, *c, recs), walk_all(ctx, kv, recs), ctx);
            lemma_add_in_context(walk_e(ctx, *c, recs) + walk_all(ctx, kv, recs), walk_e(ctx, *b, recs), ctx);
        },
        ExprV::Route(_, _, cs) => lemma_walk_conds_in_context(ctx, cs, recs),
        _ => {},
    }
}

proof fn lemma_walk_all_in_context(ctx: Seq<char>, xs: Seq<ExprV>, recs: Seq<(Seq<char>, Seq<Seq<char>>)>)
    ensures
        all_in_context(walk_all(ctx, xs, recs), ctx),
    decreases xs,
{
    if xs.len() > 0 {
        lemma_walk_all_in_context(ctx, xs.drop_last(), recs);
        lemma_walk_in_context(ctx, xs.last(), recs);
        lemma_add_in_context(walk_all(ctx, xs.drop_last(), recs), walk_e(ctx, xs.last(), recs), ctx);
    }
}

proof fn lemma_walk_conds_in_context(ctx: Seq<char>, cs: Seq<Option<ExprV>>, recs: Seq<(Seq<char>, Seq<Seq<char>>)>)
    ensures
        all_in_context(walk_conds(ctx, cs, recs), ctx),
    decreases cs,
{
    if cs.len() > 0 {
        lemma_walk_conds_in_context(ctx, cs.drop_last(), recs);
        match cs.last() {
            Some(c) => {
                lemma_walk_in_context(ctx, c, recs);
                lemma_add_in_context(walk_conds(ctx, cs.drop_last(), recs), walk_e(ctx, c, recs), ctx);
            },
            None => {
                lemma_add_in_context(walk_conds(ctx, cs.drop_last(), recs), Seq::empty(), ctx);
            },
        }
    }
}

proof fn lemma_body_in_context(ctx: Seq<char>, body: Seq<StmtV>, recs: Seq<(Seq<char>, Seq<Seq<char>>)>)
    ensures
        all_in_context(body_lints(ctx, body, recs), ctx),
    decreases body.len(),
{
    if body.len() > 0 {
        lemma_body_in_context(ctx, body.drop_last(), recs);
        lemma_walk_in_context(ctx, stmt_expr(body.last().kind), recs);
        lemma_add_in_context(
            body_lints(ctx, body.drop_last(), recs),
            walk_e(ctx, stmt_expr(body.last().kind), recs),
            ctx,
        );
    }
}

} // verus!

verus! {

/// A warning of a program: one of the four `W` codes, with a message that
/// names where it was found (`in fn …`, `in test …` or `in agent … / fn …`).
pub open spec fn located(l: (Seq<char>, Seq<char>)) -> bool {
    &&& (l.0 == "W0001"@ || l.0 == "W0002"@ || l.0 == "W0003"@ || l.0 == "W0004"@)
    &&& ("in fn "@.is_prefix_of(l.1) || "in test "@.is_prefix_of(l.1) || "in agent "@.is_prefix_of(l.1))
}

pub open spec fn all_located(s: Seq<(Seq<char>, Seq<char>)>) -> bool {
    forall|i: int| 0 <= i < s.len() ==> located(#[trigger] s[i])
}

/// A warning as found, before repeats are counted: located, and with a
/// message that does not end with `)`.
pub open spec fn raw_located(l: (Seq<char>, Seq<char>)) -> bool {
    located(l) && plain_end(l.1)
}

pub open spec fn all_raw_located(s: Seq<(Seq<char>, Seq<char>)>) -> bool {
    forall|i: int| 0 <= i < s.len() ==> raw_located(#[trigger] s[i])
}

proof fn lemma_located_from_context(s: Seq<(Seq<char>, Seq<char>)>, kind: Seq<char>, rest: Seq<char>)
    requires
        all_in_context(s, kind + rest),
        kind == "fn "@ || kind == "test "@ || kind == "agent "@,
    ensures
        all_raw_located(s),
{
    assert forall|i: int| 0 <= i < s.len() implies raw_located(#[trigger] s[i]) by {
        assert(in_context(s[i], kind + rest));
        let m = s[i].1;
        let p = "in "@ + (kind + rest);
        assert(p.is_prefix_of(m));
        assert(m.take(("in "@ + kind).len() as int) =~= "in "@ + kind) by {
            assert(p.take(("in "@ + kind).len() as int) =~= "in "@ + kind);
            assert forall|j: int| 0 <= j < ("in "@ + kind).len() implies m[j] == p[j] by {
                assert(m.take(p.len() as int)[j] == p[j]);
            }
        }
        reveal_strlit("in ");
        reveal_strlit("fn ");
        reveal_strlit("test ");
        reveal_strlit("agent ");
        reveal_strlit("in fn ");
        reveal_strlit("in test ");
        reveal_strlit("in agent ");
        if kind == "fn "@ {
            assert("in "@ + kind =~= "in fn "@);
        } else if kind == "test "@ {
            assert("in "@ + kind =~= "in test "@);
        } else {
            assert("in "@ + kind =~= "in agent "@);
        }
    }
}

proof fn lemma_add_located(a: Seq<(Seq<char>, Seq<char>)>, b: Seq<(Seq<char>, Seq<char>)>)
    requires
        all_raw_located(a),
        all_raw_located(b),
    ensures
        all_raw_located(a + b),
{
    assert forall|i: int| 0 <= i < (a + b).len() implies raw_located(#[trigger] (a + b)[i]) by {
        if i >= a.len() {
            assert((a + b)[i] == b[i - a.len()]);
        } else {
            assert((a + b)[i] == a[i]);
        }
    }
}

proof fn lemma_item_located(it: ItemV, recs: Seq<(Seq<char>, Seq<Seq<char>>)>)
    ensures
        all_raw_located(item_lints(it, recs)),
    decreases it, 0nat,
{
    match it {
        ItemV::Fn(n, _, _, _, body) => {
            lemma_body_in_context("fn "@ + n, body, recs);
            lemma_located_from_context(body_lints("fn "@ + n, body, recs), "fn "@, n);
        },
        ItemV::Test(n, body) => {
            let ctx = "test \""@ + n + "\""@;
            lemma_body_in_context(ctx, body, recs);
            assert(ctx =~= "test "@ + ("\""@ + n + "\""@)) by {
                reveal_strlit("test \"");
                reveal_strlit("test ");
                reveal_strlit("\"");
            }
            lemma_located_from_context(body_lints(ctx, body, recs), "test "@, "\""@ + n + "\""@);
        },
        ItemV::Agent(n, _, _, _, fns) => {
            lemma_agent_located(n, fns, fns.len(), recs);
        },
        _ => {},
    }
}

proof fn lemma_agent_located(agent: Seq<char>, fns: Seq<ItemV>, k: nat, recs: Seq<(Seq<char>, Seq<Seq<char>>)>)
    ensures
        all_raw_located(agent_lints(agent, fns, k, recs)),
    decreases fns, k,
{
    if k > 0 && k <= fns.len() {
        lemma_agent_located(agent, fns, (k - 1) as nat, recs);
        match fns[k - 1] {
            ItemV::Fn(f, _, _, _, body) => {
                let ctx = "agent "@ + agent + " / fn "@ + f;
                lemma_body_in_context(ctx, body, recs);
                assert(ctx =~= "agent "@ + (agent + " / fn "@ + f));
                lemma_located_from_context(body_lints(ctx, body, recs), "agent "@, agent + " / fn "@ + f);
                lemma_add_located(agent_lints(agent, fns, (k - 1) as nat, recs), body_lints(ctx, body, recs));
            },
            other => {
                lemma_item_located(other, recs);
                lemma_add_located(agent_lints(agent, fns, (k - 1) as nat, recs), item_lints(other, recs));
            },
        }
    }
}

proof fn lemma_items_located(items: Seq<ItemV>, recs: Seq<(Seq<char>, Seq<Seq<char>>)>)
    ensures
        all_raw_located(items_lints(items, recs)),
    decreases items.len(),
{
    if items.len() > 0 {
        lemma_items_located(items.drop_last(), recs);
        lemma_item_located(items.last(), recs);
        lemma_add_located(items_lints(items.drop_last(), recs), item_lints(items.last(), recs));
    }
}

proof fn lemma_dedup_located(ls: Seq<(Seq<char>, Seq<char>)>, n: nat)
    requires
        all_raw_located(ls),
        n <= ls.len(),
    ensures
        all_raw_located(dedup_scan(ls, n).0),
    decreases n,
{
    if n > 0 {
        lemma_dedup_located(ls, (n - 1) as nat);
        let (ds, cs) = dedup_scan(ls, (n - 1) as nat);
        match find_lint(ds, ls[n - 1], 0) {
            Some(i) => {},
            None => {
                assert forall|i: int| 0 <= i < ds.push(ls[n - 1]).len() implies raw_located(#[trigger] ds.push(ls[n - 1])[i]) by {
                    if i < ds.len() {
                        assert(ds.push(ls[n - 1])[i] == ds[i]);
                    }
                }
            },
        }
    }
}

/// Every warning of a program has a `W` code and says where it was found:
/// `in fn …`, `in test …` or `in agent … / fn …`. Warnings are never
/// errors.
pub proof fn law_warnings_carry_their_context(items: Seq<ItemV>)
    ensures
        all_located(lint_items_v(items)),
{
    let ls = items_lints(items, records_v(items));
    lemma_items_located(items, records_v(items));
    lemma_dedup_located(ls, ls.len());
    lemma_dedup_scan(ls, ls.len());
    let (ds, cs) = dedup_scan(ls, ls.len());
    let r = lint_items_v(items);
    assert forall|i: int| 0 <= i < r.len() implies located(#[trigger] r[i]) by {
        assert(raw_located(ds[i]));
        assert(located(ds[i]));
        if cs[i] > 1 {
            let m = ds[i].1 + " (×"@ + nat_str(cs[i]) + ")"@;
            assert(r[i] == (ds[i].0, m));
            let m0 = ds[i].1;
            reveal_strlit("in fn ");
            reveal_strlit("in test ");
            reveal_strlit("in agent ");
            if "in fn "@.is_prefix_of(m0) {
                assert(m.take(6) =~= m0.take(6));
            } else if "in test "@.is_prefix_of(m0) {
                assert(m.take(8) =~= m0.take(8));
            } else {
                assert(m.take(9) =~= m0.take(9));
            }
        }
    }
}

} // verus!

verus! {

proof fn lemma_find_lint_none(ds: Seq<(Seq<char>, Seq<char>)>, l: (Seq<char>, Seq<char>), i: int)
    requires
        0 <= i,
        find_lint(ds, l, i) is None,
    ensures
        forall|j: int| i <= j < ds.len() ==> ds[j] != l,
    decreases ds.len() - i,
{
    if i < ds.len() {
        lemma_find_lint_none(ds, l, i + 1);
    }
}

proof fn lemma_dedup_distinct(ls: Seq<(Seq<char>, Seq<char>)>, n: nat)
    requires
        n <= ls.len(),
    ensures
        forall|i: int, j: int|
            0 <= i < j < dedup_scan(ls, n).0.len() ==> dedup_scan(ls, n).0[i] != dedup_scan(ls, n).0[j],
        forall|k: int|
            0 <= k < n ==> exists|i: int|
                0 <= i < dedup_scan(ls, n).0.len() && dedup_scan(ls, n).0[i] == #[trigger] ls[k],
    decreases n,
{
    if n > 0 {
        let m = (n - 1) as nat;
        lemma_dedup_distinct(ls, m);
        let (ds, cs) = dedup_scan(ls, m);
        lemma_find_lint(ds, ls[m as int], 0);
        match find_lint(ds, ls[m as int], 0) {
            Some(w) => {
                assert(ds[w] == ls[m as int]);
                assert(dedup_scan(ls, n).0 == ds);
                assert forall|k: int| 0 <= k < n implies exists|i: int| 0 <= i < ds.len() && ds[i] == #[trigger] ls[k] by {
                    if k == m {
                        assert(ds[w] == ls[k]);
                    } else {
                        assert(0 <= k < m);
                        assert(exists|i: int| 0 <= i < ds.len() && ds[i] == ls[k]);
                    }
                }
            },
            None => {
                lemma_find_lint_none(ds, ls[m as int], 0);
                let d2 = ds.push(ls[m as int]);
                assert(dedup_scan(ls, n).0 == d2);
                assert(d2[ds.len() as int] == ls[m as int]);
                assert forall|k: int| 0 <= k < n implies exists|i: int| 0 <= i < d2.len() && d2[i] == #[trigger] ls[k] by {
                    if k < m {
                        let i = choose|i: int| 0 <= i < ds.len() && ds[i] == ls[k];
                        assert(d2[i] == ds[i]);
                    } else {
                        assert(d2[ds.len() as int] == ls[k]);
                    }
                }
            },
        }
    }
}

/// Identical warnings collapse: the warnings reported are pairwise
/// different before their counts are appended, and every warning found is
/// among them.
pub proof fn law_identical_warnings_collapse(items: Seq<ItemV>)
    ensures
        ({
            let ls = items_lints(items, records_v(items));
            let ds = dedup_scan(ls, ls.len()).0;
            &&& forall|i: int, j: int| 0 <= i < j < ds.len() ==> ds[i] != ds[j]
            &&& forall|k: int| 0 <= k < ls.len() ==> exists|i: int| 0 <= i < ds.len() && ds[i] == #[trigger] ls[k]
            &&& lint_items_v(items).len() == ds.len()
        }),
{
    let ls = items_lints(items, records_v(items));
    lemma_dedup_distinct(ls, ls.len());
    let ds = dedup_scan(ls, ls.len()).0;
    assert(lint_items_v(items) == dedup_v(ls));
    assert(dedup_v(ls).len() == ds.len());
    assert forall|k: int| 0 <= k < ls.len() implies exists|i: int| 0 <= i < ds.len() && ds[i] == #[trigger] ls[k] by {
        assert(exists|i: int| 0 <= i < dedup_scan(ls, ls.len()).0.len() && dedup_scan(ls, ls.len()).0[i] == ls[k]);
    }
}

} // verus!

verus! {

/// How many times `l` occurs in `s`.
pub open spec fn occurrences(s: Seq<(Seq<char>, Seq<char>)>, l: (Seq<char>, Seq<char>)) -> nat
    decreases s.len(),
{
    if s.len() == 0 {
        0
    } else {
        occurrences(s.drop_last(), l) + if s.last() == l {
            1nat
        } else {
            0nat
        }
    }
}

proof fn lemma_occurrences_none(s: Seq<(Seq<char>, Seq<char>)>, l: (Seq<char>, Seq<char>))
    requires
        forall|k: int| 0 <= k < s.len() ==> s[k] != l,
    ensures
        occurrences(s, l) == 0,
    decreases s.len(),
{
    if s.len() > 0 {
        lemma_occurrences_none(s.drop_last(), l);
    }
}

proof fn lemma_dedup_counts(ls: Seq<(Seq<char>, Seq<char>)>, n: nat)
    requires
        n <= ls.len(),
    ensures
        forall|i: int|
            0 <= i < dedup_scan(ls, n).0.len() ==> #[trigger] dedup_scan(ls, n).1[i] == occurrences(
                ls.take(n as int),
                dedup_scan(ls, n).0[i],
            ),
    decreases n,
{
    lemma_dedup_scan(ls, n);
    if n > 0 {
        let m = (n - 1) as nat;
        lemma_dedup_counts(ls, m);
        lemma_dedup_scan(ls, m);
        lemma_dedup_distinct(ls, m);
        let (ds, cs) = dedup_scan(ls, m);
        let x = ls[m as int];
        assert(ls.take(n as int).drop_last() =~= ls.take(m as int));
        assert(ls.take(n as int).last() == x);
        lemma_find_lint(ds, x, 0);
        match find_lint(ds, x, 0) {
            Some(w) => {
                let cs2 = cs.update(w, cs[w] + 1);
                assert forall|i: int| 0 <= i < ds.len() implies #[trigger] cs2[i] == occurrences(
                    ls.take(n as int),
                    ds[i],
                ) by {
                    if i != w {
                        assert(ds[i] != ds[w]);
                    }
                }
            },
            None => {
                lemma_find_lint_none(ds, x, 0);
                let d2 = ds.push(x);
                let c2 = cs.push(1);
                assert forall|k: int| 0 <= k < ls.take(m as int).len() implies ls.take(m as int)[k] != x by {
                    assert(ls.take(m as int)[k] == ls[k]);
                    let i = choose|i: int| 0 <= i < ds.len() && ds[i] == #[trigger] ls[k];
                }
                lemma_occurrences_none(ls.take(m as int), x);
                assert forall|i: int| 0 <= i < d2.len() implies #[trigger] c2[i] == occurrences(
                    ls.take(n as int),
                    d2[i],
                ) by {
                    if i < ds.len() {
                        assert(d2[i] == ds[i]);
                        assert(c2[i] == cs[i]);
                    }
                }
            },
        }
    }
}

/// A warning found `k` times is reported once; when `k` is two or more its
/// message ends with ` (×k)`.
pub proof fn law_repeats_are_counted(items: Seq<ItemV>)
    ensures
        ({
            let ls = items_lints(items, records_v(items));
            let ds = dedup_scan(ls, ls.len()).0;
            let r = lint_items_v(items);
            &&& r.len() == ds.len()
            &&& forall|i: int|
                0 <= i < r.len() ==> #[trigger] r[i] == if occurrences(ls, ds[i]) > 1 {
                    (ds[i].0, ds[i].1 + " (×"@ + nat_str(occurrences(ls, ds[i])) + ")"@)
                } else {
                    ds[i]
                }
        }),
{
    let ls = items_lints(items, records_v(items));
    lemma_dedup_counts(ls, ls.len());
    lemma_dedup_scan(ls, ls.len());
    assert(ls.take(ls.len() as int) =~= ls);
}

} // verus!

verus! {

/// Every character is a decimal digit.
pub open spec fn all_digit_chars(s: Seq<char>) -> bool {
    forall|i: int| 0 <= i < s.len() ==> '0' <= #[trigger] s[i] <= '9'
}

proof fn lemma_nat_str_digits(n: nat)
    ensures
        all_digit_chars(nat_str(n)),
{
    if n > 0 {
        crate::digits::lemma_le_digits_props(n);
        let d = crate::digits::le_digits(n);
        assert forall|i: int| 0 <= i < nat_str(n).len() implies '0' <= #[trigger] nat_str(n)[i] <= '9' by {
            let x = d[d.len() - 1 - i];
            assert(x <= 9);
        }
    }
}

proof fn lemma_count_suffix_inj(x: Seq<char>, y: Seq<char>, a: Seq<char>, b: Seq<char>)
    requires
        all_digit_chars(a),
        all_digit_chars(b),
        x + " (×"@ + a + ")"@ == y + " (×"@ + b + ")"@,
    ensures
        x == y,
{
    reveal_strlit(" (×");
    reveal_strlit(")");
    let s = x + " (×"@ + a + ")"@;
    let t = y + " (×"@ + b + ")"@;
    assert(s.len() == x.len() + 3 + a.len() + 1);
    assert(t.len() == y.len() + 3 + b.len() + 1);
    if a.len() == b.len() {
        assert forall|k: int| 0 <= k < x.len() implies x[k] == y[k] by {
            assert(s[k] == x[k]);
            assert(t[k] == y[k]);
        }
        assert(x =~= y);
    } else if a.len() < b.len() {
        let idx: int = x.len() as int + 2;
        assert(s[idx] == '×');
        let off: int = idx - (y.len() + 3);
        assert(0 <= off < b.len());
        assert(t[idx] == b[off]);
        assert('0' <= b[off] <= '9');
    } else {
        let idx: int = y.len() as int + 2;
        assert(t[idx] == '×');
        let off: int = idx - (x.len() + 3);
        assert(0 <= off < a.len());
        assert(s[idx] == a[off]);
        assert('0' <= a[off] <= '9');
    }
}

/// The warnings reported are pairwise different, counts included, and each
/// has one of the codes W0001–W0004.
pub proof fn law_reported_warnings_are_distinct(items: Seq<ItemV>)
    ensures
        forall|i: int, j: int|
            0 <= i < j < lint_items_v(items).len() ==> lint_items_v(items)[i] != lint_items_v(items)[j],
        forall|i: int|
            0 <= i < lint_items_v(items).len() ==> {
                let c = (#[trigger] lint_items_v(items)[i]).0;
                c == "W0001"@ || c == "W0002"@ || c == "W0003"@ || c == "W0004"@
            },
{
    law_warnings_carry_their_context(items);
    let ls = items_lints(items, records_v(items));
    lemma_items_located(items, records_v(items));
    lemma_dedup_located(ls, ls.len());
    lemma_dedup_scan(ls, ls.len());
    lemma_dedup_distinct(ls, ls.len());
    let (ds, cs) = dedup_scan(ls, ls.len());
    let r = lint_items_v(items);
    assert forall|i: int| 0 <= i < r.len() implies {
        let c = (#[trigger] r[i]).0;
        c == "W0001"@ || c == "W0002"@ || c == "W0003"@ || c == "W0004"@
    } by {
        assert(located(r[i]));
    }
    assert forall|i: int, j: int| 0 <= i < j < r.len() implies r[i] != r[j] by {
        assert(raw_located(ds[i]));
        assert(raw_located(ds[j]));
        assert(ds[i] != ds[j]);
        lemma_nat_str_digits(cs[i]);
        lemma_nat_str_digits(cs[j]);
        reveal_strlit(")");
        if cs[i] > 1 && cs[j] > 1 {
            if r[i] == r[j] {
                lemma_count_suffix_inj(ds[i].1, ds[j].1, nat_str(cs[i]), nat_str(cs[j]));
            }
        } else if cs[i] > 1 {
            let m = ds[i].1 + " (×"@ + nat_str(cs[i]) + ")"@;
            assert(m.last() == ')');
            assert(r[i].1 == m);
            assert(r[j].1 == ds[j].1);
        } else if cs[j] > 1 {
            let m = ds[j].1 + " (×"@ + nat_str(cs[j]) + ")"@;
            assert(m.last() == ')');
            assert(r[j].1 == m);
            assert(r[i].1 == ds[i].1);
        }
    }
}

} // verus!

verus! {

pub proof fn lemma_concat_has<T>(a: Seq<T>, b: Seq<T>, l: T)
    ensures
        a.contains(l) ==> (a + b).contains(l),
        b.contains(l) ==> (a + b).contains(l),
{
    if a.contains(l) {
        let j = choose|j: int| 0 <= j < a.len() && a[j] == l;
        assert((a + b)[j] == l);
    }
    if b.contains(l) {
        let j = choose|j: int| 0 <= j < b.len() && b[j] == l;
        assert((a + b)[a.len() + j] == l);
    }
}

proof fn lemma_walk_all_has(ctx: Seq<char>, xs: Seq<ExprV>, recs: Seq<(Seq<char>, Seq<Seq<char>>)>, x: ExprV, l: (Seq<char>, Seq<char>))
    requires
        xs.contains(x),
        walk_e(ctx, x, recs).contains(l),
    ensures
        walk_all(ctx, xs, recs).contains(l),
    decreases xs.len(),
{
    let a = walk_all(ctx, xs.drop_last(), recs);
    let b = walk_e(ctx, xs.last(), recs);
    lemma_concat_has(a, b, l);
    if xs.last() != x {
        let j = choose|j: int| 0 <= j < xs.len() && xs[j] == x;
        assert(xs.drop_last()[j] == x);
        lemma_walk_all_has(ctx, xs.drop_last(), recs, x, l);
    }
}

proof fn lemma_walk_conds_has(ctx: Seq<char>, cs: Seq<Option<ExprV>>, recs: Seq<(Seq<char>, Seq<Seq<char>>)>, x: ExprV, l: (Seq<char>, Seq<char>))
    requires
        cs.contains(Some(x)),
        walk_e(ctx, x, recs).contains(l),
    ensures
        walk_conds(ctx, cs, recs).contains(l),
    decreases cs.len(),
{
    let a = walk_conds(ctx, cs.drop_last(), recs);
    let b: Seq<(Seq<char>, Seq<char>)> = match cs.last() {
        Some(c) => walk_e(ctx, c, recs),
        None => Seq::empty(),
    };
    lemma_concat_has(a, b, l);
    if cs.last() != Some(x) {
        let j = choose|j: int| 0 <= j < cs.len() && cs[j] == Some(x);
        assert(cs.drop_last()[j] == Some(x));
        lemma_walk_conds_has(ctx, cs.drop_last(), recs, x, l);
    }
}

/// The walk of an expression reports every warning of each expression
/// directly inside it, a `par map` body and the arguments of a call
/// included.
pub proof fn law_walk_covers_parts(
    ctx: Seq<char>,
    e: ExprV,
    x: ExprV,
    recs: Seq<(Seq<char>, Seq<Seq<char>>)>,
    l: (Seq<char>, Seq<char>),
)
    requires
        is_part(x, e),
        walk_e(ctx, x, recs).contains(l),
    ensures
        walk_e(ctx, e, recs).contains(l),
{
    match e {
        ExprV::LlmCall(p, ks, vs, rep) => {
            let a = call_lints(ctx, prompt_text(*p), ks, vs, rep, recs);
            let b = walk_e(ctx, *p, recs);
            let c = walk_all(ctx, vs, recs);
            lemma_concat_has(a, b, l);
            if vs.contains(x) {
                lemma_walk_all_has(ctx, vs, recs, x, l);
            }
            lemma_concat_has(a + b, c, l);
        },
        ExprV::Call(f, args, _, kv) => {
            let a = walk_e(ctx, *f, recs);
            let b = walk_all(ctx, args, recs);
            let c = walk_all(ctx, kv, recs);
            if args.contains(x) {
                lemma_walk_all_has(ctx, args, recs, x, l);
            }
            if kv.contains(x) {
                lemma_walk_all_has(ctx, kv, recs, x, l);
            }
            lemma_concat_has(a, b, l);
            lemma_concat_has(a + b, c, l);
        },
        ExprV::ListLit(xs) => {
            lemma_walk_all_has(ctx, xs, recs, x, l);
        },
        ExprV::ParAll(xs) => {
            lemma_walk_all_has(ctx, xs, recs, x, l);
        },
        ExprV::ParRace(xs) => {
            lemma_walk_all_has(ctx, xs, recs, x, l);
        },
        ExprV::Field(o, _) => {},
        ExprV::Binary(_, lhs, rhs) => {
            lemma_concat_has(walk_e(ctx, *lhs, recs), walk_e(ctx, *rhs, recs), l);
        },
        ExprV::Merge(lhs, rhs) => {
            lemma_concat_has(walk_e(ctx, *lhs, recs), walk_e(ctx, *rhs, recs), l);
        },
        ExprV::Unary(_, y) => {},
        ExprV::ParMap(c, _, kv, _, b) => {
            let wa = walk_e(ctx, *c, recs);
            let wb = walk_all(ctx, kv, recs);
            let wc = walk_e(ctx, *b, recs);
            if kv.contains(x) {
                lemma_walk_all_has(ctx, kv, recs, x, l);
            }
            lemma_concat_has(wa, wb, l);
            lemma_concat_has(wa + wb, wc, l);
        },
        ExprV::Route(_, _, cs) => {
            lemma_walk_conds_has(ctx, cs, recs, x, l);
        },
        _ => {},
    }
}

/// The walk of an expression reports every warning of each expression
/// nested inside it, at any depth.
pub proof fn law_walk_covers_nested(
    ctx: Seq<char>,
    e: ExprV,
    x: ExprV,
    path: Seq<ExprV>,
    recs: Seq<(Seq<char>, Seq<Seq<char>>)>,
    l: (Seq<char>, Seq<char>),
)
    requires
        nested_in(x, e, path),
        walk_e(ctx, x, recs).contains(l),
    ensures
        walk_e(ctx, e, recs).contains(l),
    decreases path.len(),
{
    if path.len() > 1 {
        let rest = path.subrange(1, path.len() as int);
        assert forall|i: int, j: int| 0 <= i && j == i + 1 && j < rest.len() implies #[trigger] is_part(rest[j], rest[i]) by {
            assert(is_part(path[j + 1], path[i + 1]));
        }
        assert(rest.last() == path.last());
        law_walk_covers_nested(ctx, path[1], x, rest, recs, l);
        assert(is_part(path[1], path[0]));
        law_walk_covers_parts(ctx, e, path[1], recs, l);
    }
}

/// An llm call without a `budget` option, at any depth inside an
/// expression (a `par map` body, a call's argument), yields the W0001
/// warning in the walk's context.
pub proof fn law_unbudgeted_llm_call_is_warned(
    ctx: Seq<char>,
    e: ExprV,
    p: ExprV,
    ks: Seq<Seq<char>>,
    vs: Seq<ExprV>,
    rep: bool,
    path: Seq<ExprV>,
    recs: Seq<(Seq<char>, Seq<Seq<char>>)>,
)
    requires
        nested_in(ExprV::LlmCall(Box::new(p), ks, vs, rep), e, path),
        !ks.contains("budget"@),
    ensures
        walk_e(ctx, e, recs).contains(("W0001"@, msg_w1(ctx))),
{
    let x = ExprV::LlmCall(Box::new(p), ks, vs, rep);
    let w = ("W0001"@, msg_w1(ctx));
    lemma_find_key(ks, "budget"@, 0);
    let lints = call_lints(ctx, prompt_text(p), ks, vs, rep, recs);
    assert(lints[0] == w);
    assert(lints.contains(w));
    lemma_concat_has(lints, walk_e(ctx, p, recs), w);
    lemma_concat_has(lints + walk_e(ctx, p, recs), walk_all(ctx, vs, recs), w);
    law_walk_covers_nested(ctx, e, x, path, recs, w);
}

proof fn lemma_body_has(ctx: Seq<char>, body: Seq<StmtV>, k: int, recs: Seq<(Seq<char>, Seq<Seq<char>>)>, l: (Seq<char>, Seq<char>))
    requires
        0 <= k < body.len(),
        walk_e(ctx, stmt_expr(body[k].kind), recs).contains(l),
    ensures
        body_lints(ctx, body, recs).contains(l),
    decreases body.len(),
{
    lemma_concat_has(body_lints(ctx, body.drop_last(), recs), walk_e(ctx, stmt_expr(body.last().kind), recs), l);
    if k < body.len() - 1 {
        assert(body.drop_last()[k] == body[k]);
        lemma_body_has(ctx, body.drop_last(), k, recs, l);
    }
}

proof fn lemma_items_has(items: Seq<ItemV>, m: int, recs: Seq<(Seq<char>, Seq<Seq<char>>)>, l: (Seq<char>, Seq<char>))
    requires
        0 <= m < items.len(),
        item_lints(items[m], recs).contains(l),
    ensures
        items_lints(items, recs).contains(l),
    decreases items.len(),
{
    lemma_concat_has(items_lints(items.drop_last(), recs), item_lints(items.last(), recs), l);
    if m < items.len() - 1 {
        assert(items.drop_last()[m] == items[m]);
        lemma_items_has(items.drop_last(), m, recs, l);
    }
}

/// A fn of the program with an llm call lacking a `budget` option anywhere
/// in a statement of its body (inside a `par map` body or a call's argument
/// too) is reported with a W0001 warning in the context `fn name`, its
/// message followed only by a repeat count.
pub proof fn law_fn_with_unbudgeted_llm_call_is_warned(
    items: Seq<ItemV>,
    m: int,
    n: Seq<char>,
    ps: Seq<ParamV>,
    ret: TypeExprV,
    uses: Seq<Seq<char>>,
    body: Seq<StmtV>,
    k: int,
    p: ExprV,
    ks: Seq<Seq<char>>,
    vs: Seq<ExprV>,
    rep: bool,
    path: Seq<ExprV>,
)
    requires
        0 <= m < items.len(),
        items[m] == ItemV::Fn(n, ps, ret, uses, body),
        0 <= k < body.len(),
        nested_in(ExprV::LlmCall(Box::new(p), ks, vs, rep), stmt_expr(body[k].kind), path),
        !ks.contains("budget"@),
    ensures
        exists|i: int|
            0 <= i < lint_items_v(items).len() && (#[trigger] lint_items_v(items)[i]).0 == "W0001"@
                && msg_w1("fn "@ + n).is_prefix_of(lint_items_v(items)[i].1),
{
    let recs = records_v(items);
    let ctx = "fn "@ + n;
    let w = ("W0001"@, msg_w1(ctx));
    law_unbudgeted_llm_call_is_warned(ctx, stmt_expr(body[k].kind), p, ks, vs, rep, path, recs);
    lemma_body_has(ctx, body, k, recs, w);
    assert(item_lints(items[m], recs) == body_lints(ctx, body, recs));
    lemma_items_has(items, m, recs, w);
    let ls = items_lints(items, recs);
    let q = choose|q: int| 0 <= q < ls.len() && ls[q] == w;
    law_identical_warnings_collapse(items);
    lemma_dedup_scan(ls, ls.len());
    let (ds, cs) = dedup_scan(ls, ls.len());
    assert(exists|i: int| 0 <= i < ds.len() && ds[i] == #[trigger] ls[q]);
    let i = choose|i: int| 0 <= i < ds.len() && ds[i] == ls[q];
    let r = lint_items_v(items);
    assert(r == dedup_v(ls));
    assert(r[i].0 == "W0001"@);
    assert(msg_w1(ctx).is_prefix_of(r[i].1)) by {
        if cs[i] > 1 {
            assert(r[i].1 == ds[i].1 + " (×"@ + nat_str(cs[i]) + ")"@);
            assert(r[i].1.subrange(0, msg_w1(ctx).len() as int) =~= msg_w1(ctx));
        } else {
            assert(r[i].1 == msg_w1(ctx));
        }
    }
}

} // verus!
