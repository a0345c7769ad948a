//! Editor support: positions, identifiers, the declaration index and the
//! server's document state.

use vstd::prelude::*;
use crate::check::{check, diags_v, CheckError};
use crate::decimal::{num_of, num_neg, usize_cast, Num, NumV};
use crate::grammar::parse_v;
use crate::ast::{Item, ItemV};
use crate::json::{find_key, lemma_find_key, member, element, Json, JsonV};
use crate::lexer::{lex, lex_v, spanned_views};
use crate::lint::{lint_items, lint_items_v, lints_v, Lint};
use crate::parser::parse;
use crate::typing::check_v;
use crate::text::{
    byte_len, byte_off, byte_offset, chars_of, lemma_byte_off_bound, lemma_byte_off_mono,
    lemma_byte_off_step, lemma_lines_from_bound, lemma_trim_hi, lemma_trim_lo, lines_of,
    push_chars, split_lines, string_of, trim_hi, trim_lo, is_space, char_is_space, utf8_width,
    str_byte_len, nat_str, push_str, push_usize,
};

verus! {

/// Line and column (both counted from zero, columns in characters) after
/// the first `k` characters of `s`.
pub open spec fn line_col_v(s: Seq<char>, k: nat) -> (nat, nat)
    decreases k,
{
    if k == 0 || k > s.len() {
        (0, 0)
    } else {
        let (l, c) = line_col_v(s, (k - 1) as nat);
        if s[k - 1] == '\n' {
            (l + 1, 0)
        } else {
            (l, c + 1)
        }
    }
}

proof fn lemma_line_col_bound(s: Seq<char>, k: nat)
    requires
        k <= s.len(),
    ensures
        line_col_v(s, k).0 <= k,
        line_col_v(s, k).1 <= k,
    decreases k,
{
    if k > 0 {
        lemma_line_col_bound(s, (k - 1) as nat);
    }
}

pub proof fn lemma_byte_off_strict(s: Seq<char>, i: int, j: int)
    requires
        0 <= i < j <= s.len(),
    ensures
        byte_off(s, i) < byte_off(s, j),
{
    lemma_byte_off_step(s, i);
    lemma_byte_off_mono(s, i + 1, j);
}

/// The index of the first character, from `i` on, that starts at or after
/// byte `at`; the length when there is none.
pub open spec fn char_at_byte(s: Seq<char>, at: nat, i: int) -> int
    decreases s.len() - i,
{
    if i >= s.len() || byte_off(s, i) >= at {
        i
    } else {
        char_at_byte(s, at, i + 1)
    }
}

/// Line and column of byte offset `at` (clamped to the end of the text):
/// those of the first character that starts at or after `at`.
pub fn line_col(src: &str, at: usize) -> (r: (usize, usize))
    ensures
        (r.0 as nat, r.1 as nat) == line_col_v(src@, char_at_byte(src@, at as nat, 0) as nat),
        at >= byte_len(src@) ==> r == (
        line_col_v(src@, src@.len()).0 as usize,
        line_col_v(src@, src@.len()).1 as usize,
        ),
        forall|k: int|
            0 <= k <= src@.len() && byte_off(src@, k) == at ==> r == (
            line_col_v(src@, k as nat).0 as usize,
            line_col_v(src@, k as nat).1 as usize,
            ),
{
    let _bytes = str_byte_len(src);
    let s = chars_of(src);
    let mut i: usize = 0;
    let mut b: usize = 0;
    let mut line: usize = 0;
    let mut col: usize = 0;
    proof {
        assert(s@.take(0) =~= Seq::<char>::empty());
    }
    while i < s.len() && b < at
        invariant
            i <= s@.len(),
            s@ == src@,
            byte_len(s@) <= usize::MAX,
            char_at_byte(s@, at as nat, i as int) == char_at_byte(s@, at as nat, 0),
            b == byte_off(s@, i as int),
            (line as nat, col as nat) == line_col_v(s@, i as nat),
            forall|k: int| 0 <= k <= s@.len() && byte_off(s@, k) == at ==> i <= k,
        decreases s@.len() - i,
    {
        proof {
            lemma_byte_off_step(s@, i as int);
            lemma_byte_off_bound(s@, i + 1);
            lemma_line_col_bound(s@, i as nat);
            assert forall|k: int| 0 <= k <= s@.len() && byte_off(s@, k) == at implies i + 1 <= k by {
                if k <= i {
                    if k < i {
                        lemma_byte_off_strict(s@, k, i as int);
                    }
                }
            }
        }
        let c = s[i];
        if c == '\n' {
            line = line + 1;
            col = 0;
        } else {
            col = col + 1;
        }
        let u = c as u32;
        let w: usize = if u < 0x80 {
            1
        } else if u < 0x800 {
            2
        } else if u < 0x10000 {
            3
        } else {
            4
        };
        b = b + w;
        i = i + 1;
    }
    proof {
        lemma_byte_off_bound(s@, i as int);
        assert(s@.take(s@.len() as int) =~= s@);
        assert forall|k: int| 0 <= k <= s@.len() && byte_off(s@, k) == at implies k == i by {
            if i < k {
                lemma_byte_off_strict(s@, i as int, k);
            }
        }
        if at >= byte_len(src@) && i < s@.len() {
            lemma_byte_off_strict(s@, i as int, s@.len() as int);
        }
    }
    (line, col)
}

/// `c.is_ascii_alphabetic() || c == '_'`.
pub open spec fn ident_start(c: char) -> bool {
    ('a' <= c <= 'z') || ('A' <= c <= 'Z') || c == '_'
}

/// `c.is_ascii_alphanumeric() || c == '_'`.
pub open spec fn ident_char(c: char) -> bool {
    ident_start(c) || ('0' <= c <= '9')
}

pub fn is_ident_start(c: char) -> (r: bool)
    ensures
        r == ident_start(c),
{
    ('a' <= c && c <= 'z') || ('A' <= c && c <= 'Z') || c == '_'
}

pub fn is_ident_char(c: char) -> (r: bool)
    ensures
        r == ident_char(c),
{
    is_ident_start(c) || ('0' <= c && c <= '9')
}

/// Start of the run of identifier characters ending at `s`.
pub open spec fn ident_left(t: Seq<char>, s: int) -> int
    decreases s,
{
    if 0 < s <= t.len() && ident_char(t[s - 1]) {
        ident_left(t, s - 1)
    } else {
        s
    }
}

/// End of the run of identifier characters starting at `e`.
pub open spec fn ident_right(t: Seq<char>, e: int) -> int
    decreases t.len() - e,
{
    if 0 <= e < t.len() && ident_char(t[e]) {
        ident_right(t, e + 1)
    } else {
        e
    }
}

pub proof fn lemma_ident_left(t: Seq<char>, s: int)
    requires
        0 <= s <= t.len(),
    ensures
        0 <= ident_left(t, s) <= s,
    decreases s,
{
    if 0 < s && ident_char(t[s - 1]) {
        lemma_ident_left(t, s - 1);
    }
}

pub proof fn lemma_ident_right(t: Seq<char>, e: int)
    requires
        0 <= e <= t.len(),
    ensures
        e <= ident_right(t, e) <= t.len(),
    decreases t.len() - e,
{
    if e < t.len() && ident_char(t[e]) {
        lemma_ident_right(t, e + 1);
    }
}

/// The identifier around column `col` of the line `t`: the identifier
/// characters left of `min(col, len - 1)` and right of `col`, kept when
/// the first is an identifier start.
pub open spec fn word_in(t: Seq<char>, col: int) -> Option<Seq<char>> {
    if col > t.len() {
        None
    } else {
        let s0 = if t.len() == 0 {
            0
        } else if col < t.len() - 1 {
            col
        } else {
            t.len() - 1
        };
        let start = ident_left(t, s0);
        let end = ident_right(t, col);
        if start >= end {
            None
        } else if ident_start(t[start]) {
            Some(t.subrange(start, end))
        } else {
            None
        }
    }
}

/// The identifier under a (0-based) line and character position.
pub open spec fn word_at_v(src: Seq<char>, line: int, col: int) -> Option<Seq<char>> {
    if 0 <= line < lines_of(src).len() {
        word_in(lines_of(src)[line], col)
    } else {
        None
    }
}

/// The identifier under an LSP position (0-based line/character).
pub fn word_at(src: &str, line: usize, col: usize) -> (r: Option<String>)
    ensures
        r is Some <==> word_at_v(src@, line as int, col as int) is Some,
        r matches Some(w) ==> word_at_v(src@, line as int, col as int) == Some(w@),
{
    let s = chars_of(src);
    let lines = split_lines(&s);
    if line >= lines.len() {
        return None;
    }
    let t = &lines[line];
    let n = t.len();
    if col > n {
        return None;
    }
    let mut start = if n == 0 {
        0
    } else if col < n - 1 {
        col
    } else {
        n - 1
    };
    let ghost s0 = start as int;
    let mut end = col;
    proof {
        lemma_ident_left(t@, s0);
        lemma_ident_right(t@, col as int);
    }
    while start > 0 && is_ident_char(t[start - 1])
        invariant
            start <= s0 <= n == t@.len(),
            ident_left(t@, start as int) == ident_left(t@, s0),
        decreases start,
    {
        start = start - 1;
    }
    while end < n && is_ident_char(t[end])
        invariant
            col <= end <= n == t@.len(),
            ident_right(t@, end as int) == ident_right(t@, col as int),
        decreases n - end,
    {
        end = end + 1;
    }
    if start >= end {
        return None;
    }
    if is_ident_start(t[start]) {
        let mut w = String::new();
        push_chars(&mut w, t, start, end);
        proof {
            assert(w@ =~= t@.subrange(start as int, end as int));
        }
        Some(w)
    } else {
        None
    }
}

/// The editor server's state: the open documents by URI, whether a
/// shutdown was requested, and the exit status once `exit` arrived.
pub struct Lsp {
    docs: Vec<(String, String)>,
    shutdown: bool,
    exit: Option<i32>,
}

pub open spec fn doc_keys(d: Seq<(String, String)>) -> Seq<Seq<char>> {
    Seq::new(d.len(), |i: int| d[i].0@)
}

/// The documents held in `d`, by URI.
pub open spec fn doc_map(d: Seq<(String, String)>) -> Map<Seq<char>, Seq<char>> {
    Map::new(
        |k: Seq<char>| find_key(doc_keys(d), k, 0) is Some,
        |k: Seq<char>| d[find_key(doc_keys(d), k, 0)->0].1@,
    )
}

impl Lsp {
    /// The open documents.
    pub closed spec fn documents(&self) -> Map<Seq<char>, Seq<char>> {
        doc_map(self.docs@)
    }

    /// Whether a shutdown was requested.
    pub closed spec fn is_shut_down(&self) -> bool {
        self.shutdown
    }

    /// The exit status requested by `exit`, once it arrived.
    pub closed spec fn exit_status(&self) -> Option<i32> {
        self.exit
    }

    /// No URI is held twice.
    pub closed spec fn wf(&self) -> bool {
        keys_unique(self.docs@)
    }

    /// A server with no open documents, not shut down.
    pub fn new() -> (r: Lsp)
        ensures
            r.wf(),
            r.documents() == Map::<Seq<char>, Seq<char>>::empty(),
            !r.is_shut_down(),
            r.exit_status() is None,
            r.state() == (LspV { docs: Map::<Seq<char>, Seq<char>>::empty(), shutdown: false, exit: None }),
    {
        let r = Lsp { docs: Vec::new(), shutdown: false, exit: None };
        proof {
            assert(r.documents() =~= Map::<Seq<char>, Seq<char>>::empty());
        }
        r
    }

    /// The exit status the process should end with, once `exit` arrived:
    /// 0 after a shutdown request, 1 without one.
    pub fn exit_code(&self) -> (r: Option<i32>)
        ensures
            r == self.exit_status(),
    {
        self.exit
    }
}

} // verus!

verus! {

/// A declared symbol found by the line scan: kind, name, 0-based line and
/// byte column, and the declaration line for hover display.
#[derive(Debug)]
pub struct Sym {
    pub kind: &'static str,
    pub name: String,
    pub line: usize,
    pub col: usize,
    pub detail: String,
}

pub struct SymV {
    pub kind: Seq<char>,
    pub name: Seq<char>,
    pub line: nat,
    pub col: nat,
    pub detail: Seq<char>,
}

impl Sym {
    pub open spec fn view_s(&self) -> SymV {
        SymV {
            kind: self.kind@,
            name: self.name@,
            line: self.line as nat,
            col: self.col as nat,
            detail: self.detail@,
        }
    }
}

/// The declaration keywords and the symbol kinds they introduce.
pub open spec fn decl_kw(i: int) -> (Seq<char>, Seq<char>) {
    if i == 0 {
        ("fn "@, "function"@)
    } else if i == 1 {
        ("type "@, "type"@)
    } else if i == 2 {
        ("agent "@, "agent"@)
    } else if i == 3 {
        ("tool "@, "tool"@)
    } else {
        ("let "@, "variable"@)
    }
}

/// `s` with trailing whitespace removed.
pub open spec fn rtrim(s: Seq<char>) -> Seq<char> {
    s.take(trim_hi(s, 0, s.len() as int))
}

/// `s` with trailing `{` characters removed.
pub open spec fn rstrip_brace(s: Seq<char>) -> Seq<char>
    decreases s.len(),
{
    if s.len() > 0 && s.last() == '{' {
        rstrip_brace(s.drop_last())
    } else {
        s
    }
}

/// The symbol that keyword `i` declares on a line, if any. `raw` is the
/// line, `lo` where its text starts after the indentation.
pub open spec fn kw_sym(n: nat, raw: Seq<char>, lo: int, i: int) -> Seq<SymV> {
    let line = raw.subrange(lo, raw.len() as int);
    let (kw, kind) = decl_kw(i);
    if kw.len() <= line.len() && line.take(kw.len() as int) == kw {
        let rest = line.skip(kw.len() as int);
        let name = rest.take(ident_right(rest, 0));
        if name.len() > 0 && ident_start(name[0]) {
            seq![
                SymV {
                    kind,
                    name,
                    line: n,
                    col: byte_off(raw, lo + kw.len()),
                    detail: rtrim(rstrip_brace(rtrim(line))),
                },
            ]
        } else {
            Seq::empty()
        }
    } else {
        Seq::empty()
    }
}

/// The symbols declared on line number `n` (0-based), `raw`.
pub open spec fn line_syms(n: nat, raw: Seq<char>) -> Seq<SymV> {
    let lo = trim_lo(raw, 0);
    let line = raw.subrange(lo, raw.len() as int);
    if line.len() >= 2 && line[0] == '/' && line[1] == '/' {
        Seq::empty()
    } else {
        kw_sym(n, raw, lo, 0) + kw_sym(n, raw, lo, 1) + kw_sym(n, raw, lo, 2) + kw_sym(n, raw, lo, 3)
            + kw_sym(n, raw, lo, 4)
    }
}

/// The symbols of the lines from index `k` on.
pub open spec fn syms_from(ls: Seq<Seq<char>>, k: int) -> Seq<SymV>
    decreases ls.len() - k,
{
    if k < 0 || k >= ls.len() {
        Seq::empty()
    } else {
        line_syms(k as nat, ls[k]) + syms_from(ls, k + 1)
    }
}

/// Declarations of a source text: `fn`/`type`/`agent`/`tool`/`let` NAME at
/// the start of a line (after indentation; `//` lines skipped).
pub open spec fn index_v(src: Seq<char>) -> Seq<SymV> {
    syms_from(lines_of(src), 0)
}

/// The views of a list of symbols.
pub open spec fn sym_views(v: Seq<Sym>) -> Seq<SymV> {
    Seq::new(v.len(), |i: int| v[i].view_s())
}

fn push_sym(out: &mut Vec<Sym>, s: Sym)
    ensures
        sym_views(final(out)@) == sym_views(old(out)@).push(s.view_s()),
{
    let ghost v = s.view_s();
    out.push(s);
    assert(sym_views(out@) =~= sym_views(old(out)@).push(v));
}

fn kw_at(i: usize) -> (r: (&'static str, &'static str))
    requires
        i < 5,
    ensures
        (r.0@, r.1@) == decl_kw(i as int),
{
    if i == 0 {
        ("fn ", "function")
    } else if i == 1 {
        ("type ", "type")
    } else if i == 2 {
        ("agent ", "agent")
    } else if i == 3 {
        ("tool ", "tool")
    } else {
        ("let ", "variable")
    }
}

/// The declaration text of a line: trailing whitespace, then trailing `{`,
/// then trailing whitespace again removed.
fn detail_of(raw: &Vec<char>, lo: usize) -> (r: String)
    requires
        lo <= raw@.len(),
    ensures
        r@ == rtrim(rstrip_brace(rtrim(raw@.subrange(lo as int, raw@.len() as int)))),
{
    let ghost line = raw@.subrange(lo as int, raw@.len() as int);
    let n = raw.len();
    let mut e = n;
    proof {
        lemma_trim_hi(line, 0, line.len() as int);
    }
    while e > lo && char_is_space(raw[e - 1])
        invariant
            lo <= e <= n == raw@.len(),
            line == raw@.subrange(lo as int, n as int),
            trim_hi(line, 0, e - lo) == trim_hi(line, 0, line.len() as int),
        decreases e,
    {
        e = e - 1;
    }
    let ghost l1 = line.take(e - lo);
    assert(l1 == rtrim(line));
    assert(raw@.subrange(lo as int, e as int) =~= l1);
    while e > lo && raw[e - 1] == '{'
        invariant
            lo <= e <= n == raw@.len(),
            rstrip_brace(raw@.subrange(lo as int, e as int)) == rstrip_brace(l1),
        decreases e,
    {
        assert(raw@.subrange(lo as int, e as int).drop_last() =~= raw@.subrange(lo as int, e - 1));
        e = e - 1;
    }
    assert(raw@.subrange(lo as int, e as int) =~= rstrip_brace(l1)) by {
        assert(rstrip_brace(raw@.subrange(lo as int, e as int)) == raw@.subrange(lo as int, e as int));
    }
    let ghost l2 = raw@.subrange(lo as int, e as int);
    proof {
        lemma_trim_hi(l2, 0, l2.len() as int);
    }
    let e2 = e;
    while e > lo && char_is_space(raw[e - 1])
        invariant
            lo <= e <= e2 <= n == raw@.len(),
            l2 == raw@.subrange(lo as int, e2 as int),
            trim_hi(l2, 0, e - lo) == trim_hi(l2, 0, l2.len() as int),
        decreases e,
    {
        e = e - 1;
    }
    let mut r = String::new();
    push_chars(&mut r, raw, lo, e);
    proof {
        assert(r@ =~= rtrim(l2));
    }
    r
}

} // verus!

verus! {

/// The symbol keyword `i` declares on the line `raw` (number `n`), if any.
fn kw_sym_x(n: usize, raw: &Vec<char>, lo: usize, i: usize, out: &mut Vec<Sym>)
    requires
        lo <= raw@.len(),
        i < 5,
        byte_len(raw@) <= usize::MAX,
    ensures
        sym_views(final(out)@) == sym_views(old(out)@) + kw_sym(n as nat, raw@, lo as int, i as int),
{
    let ghost line = raw@.subrange(lo as int, raw@.len() as int);
    let (kw, kind) = kw_at(i);
    let kc = chars_of(kw);
    let m = kc.len();
    let tl = raw.len();
    if tl - lo < m {
        assert(sym_views(out@) =~= sym_views(old(out)@) + kw_sym(n as nat, raw@, lo as int, i as int));
        return;
    }
    let mut q: usize = 0;
    while q < m
        invariant
            q <= m == kc@.len() == kw@.len(),
            kc@ == kw@,
            lo + m <= tl == raw@.len(),
            line == raw@.subrange(lo as int, raw@.len() as int),
            out@ == old(out)@,
            (kw@, kind@) == decl_kw(i as int),
            forall|j: int| 0 <= j < q ==> raw@[lo + j] == kc@[j],
        decreases m - q,
    {
        if raw[lo + q] != kc[q] {
            proof {
                assert(line.take(m as int)[q as int] != kw@[q as int]);
            }
            assert(sym_views(out@) =~= sym_views(old(out)@) + kw_sym(n as nat, raw@, lo as int, i as int));
            return;
        }
        q = q + 1;
    }
    assert(line.take(m as int) =~= kw@);
    let p = lo + m;
    let ghost rest = line.skip(m as int);
    assert(forall|k: int| 0 <= k < rest.len() ==> rest[k] == raw@[p + k]);
    proof {
        lemma_ident_right(rest, 0);
    }
    let mut e = p;
    while e < tl && is_ident_char(raw[e])
        invariant
            p <= e <= tl == raw@.len(),
            rest.len() == tl - p,
            forall|k: int| 0 <= k < rest.len() ==> rest[k] == raw@[p + k],
            ident_right(rest, e - p) == ident_right(rest, 0),
        decreases tl - e,
    {
        e = e + 1;
    }
    let ghost name = rest.take(e - p);
    assert(name =~= raw@.subrange(p as int, e as int));
    if e > p && is_ident_start(raw[p]) {
        let mut nm = String::new();
        push_chars(&mut nm, raw, p, e);
        let col = byte_offset(raw, p);
        let detail = detail_of(raw, lo);
        push_sym(out, Sym { kind, name: nm, line: n, col, detail });
    }
    assert(sym_views(out@) =~= sym_views(old(out)@) + kw_sym(n as nat, raw@, lo as int, i as int));
}

/// Index declarations `fn`/`type`/`agent`/`tool`/`let` NAME, found by a
/// line scan that is robust against broken input.
#[verifier::spinoff_prover]
#[verifier::rlimit(50)]
pub fn index(src: &str) -> (r: Vec<Sym>)
    ensures
        sym_views(r@) == index_v(src@),
        forall|i: int| 0 <= i < r@.len() ==> (#[trigger] r@[i]).line < usize::MAX,
{
    let _bytes = str_byte_len(src);
    let s = chars_of(src);
    let lines = split_lines(&s);
    proof {
        lemma_lines_from_bound(s@, 0);
    }
    let mut out: Vec<Sym> = Vec::new();
    let mut k: usize = 0;
    proof {
        assert(sym_views(out@) + syms_from(lines_of(s@), 0) =~= index_v(src@));
    }
    while k < lines.len()
        invariant
            k <= lines@.len() == lines_of(s@).len(),
            s@ == src@,
            forall|j: int| 0 <= j < lines@.len() ==> (#[trigger] lines@[j])@ == lines_of(s@)[j],
            forall|j: int|
                0 <= j < lines_of(s@).len() ==> byte_len(#[trigger] crate::text::lines_from(s@, 0)[j])
                    <= byte_len(s@),
            byte_len(s@) <= usize::MAX,
            sym_views(out@) + syms_from(lines_of(s@), k as int) == index_v(src@),
        decreases lines@.len() - k,
    {
        let ghost before = sym_views(out@);
        assert(lines@[k as int]@ == crate::text::lines_from(s@, 0)[k as int]);
        let raw = &lines[k];
        let n = raw.len();
        let mut lo: usize = 0;
        proof {
            lemma_trim_lo(raw@, 0);
        }
        while lo < n && char_is_space(raw[lo])
            invariant
                lo <= n == raw@.len(),
                trim_lo(raw@, lo as int) == trim_lo(raw@, 0),
            decreases n - lo,
        {
            lo = lo + 1;
        }
        if n - lo >= 2 && raw[lo] == '/' && raw[lo + 1] == '/' {
        } else {
            kw_sym_x(k, raw, lo, 0, &mut out);
            kw_sym_x(k, raw, lo, 1, &mut out);
            kw_sym_x(k, raw, lo, 2, &mut out);
            kw_sym_x(k, raw, lo, 3, &mut out);
            kw_sym_x(k, raw, lo, 4, &mut out);
        }
        proof {
            assert(sym_views(out@) =~= before + line_syms(k as nat, lines_of(s@)[k as int]));
            assert(sym_views(out@) + syms_from(lines_of(s@), k + 1) =~= before + syms_from(
                lines_of(s@),
                k as int,
            ));
        }
        k = k + 1;
    }
    proof {
        lemma_syms_from_line(lines_of(s@), 0);
        assert forall|i: int| 0 <= i < out@.len() implies (#[trigger] out@[i]).line < usize::MAX by {
            assert(sym_views(out@)[i] == out@[i].view_s());
        }
    }
    out
}

} // verus!

verus! {

/// The value of a decimal digit string as `usize::from_str` reads it: an
/// optional `+`, then at least one digit, within range.
pub open spec fn usize_of(t: Seq<char>) -> Option<nat> {
    digits_value(
        if t.len() > 0 && t[0] == '+' {
            t.skip(1)
        } else {
            t
        },
    )
}

/// The value of a non-empty run of decimal digits, when it fits a `usize`.
pub open spec fn digits_value(d: Seq<char>) -> Option<nat> {
    if d.len() > 0 && (forall|i: int| 0 <= i < d.len() ==> crate::decimal::is_digit(#[trigger] d[i]))
        && crate::decimal::be_val(d, 0, d.len() as int) <= usize::MAX {
        Some(crate::decimal::be_val(d, 0, d.len() as int))
    } else {
        None
    }
}

/// The first line of a message header that starts with `Content-Length:`.
pub open spec fn length_line(ls: Seq<Seq<char>>, k: int) -> Option<Seq<char>>
    decreases ls.len() - k,
{
    if k < 0 || k >= ls.len() {
        None
    } else if ls[k].len() >= 15 && ls[k].take(15) == "Content-Length:"@ {
        Some(ls[k].skip(15))
    } else {
        length_line(ls, k + 1)
    }
}

/// The body length a message header announces: the value, trimmed, of its
/// first `Content-Length:` line.
pub open spec fn content_length_v(header: Seq<char>) -> Option<nat> {
    match length_line(lines_of(header), 0) {
        Some(v) => usize_of(crate::text::trim_v(v)),
        None => None,
    }
}

/// Parses `usize::from_str` digits.
fn parse_usize(t: &Vec<char>) -> (r: Option<usize>)
    ensures
        match r {
            Some(n) => usize_of(t@) == Some(n as nat),
            None => usize_of(t@) is None,
        },
{
    let n = t.len();
    let s: usize = if n > 0 && t[0] == '+' {
        1
    } else {
        0
    };
    let ghost d = if t@.len() > 0 && t@[0] == '+' {
        t@.skip(1)
    } else {
        t@
    };
    assert(d =~= t@.subrange(s as int, n as int));
    if s >= n {
        return None;
    }
    let mut v: usize = 0;
    let mut i = s;
    while i < n
        invariant
            s <= i <= n == t@.len(),
            s < n,
            d == t@.subrange(s as int, n as int),
            d == (if t@.len() > 0 && t@[0] == '+' {
                t@.skip(1)
            } else {
                t@
            }),
            forall|j: int| s <= j < i ==> crate::decimal::is_digit(#[trigger] t@[j]),
            v as nat == crate::decimal::be_val(d, 0, i - s),
        decreases n - i,
    {
        let c = t[i];
        if !('0' <= c && c <= '9') {
            assert(!crate::decimal::is_digit(d[i - s]));
            assert(!(forall|j: int| 0 <= j < d.len() ==> crate::decimal::is_digit(#[trigger] d[j])));
            assert(digits_value(d) is None);
            return None;
        }
        let dv = (c as u32 - '0' as u32) as usize;
        proof {
            assert(d[i - s] == c);
        }
        if v > (usize::MAX - dv) / 10 {
            proof {
                assert(crate::decimal::be_val(d, 0, i - s + 1) == v * 10 + dv);
                lemma_be_val_mono(d, i - s + 1, d.len() as int);
            }
            return None;
        }
        v = v * 10 + dv;
        i = i + 1;
    }
    Some(v)
}

proof fn lemma_be_val_mono(d: Seq<char>, a: int, b: int)
    requires
        0 <= a <= b <= d.len(),
    ensures
        crate::decimal::be_val(d, 0, a) <= crate::decimal::be_val(d, 0, b),
    decreases b - a,
{
    if a < b {
        lemma_be_val_mono(d, a, b - 1);
    }
}

/// The body length a `Content-Length`-framed message header announces.
pub fn content_length(header: &str) -> (r: Option<usize>)
    ensures
        match r {
            Some(n) => content_length_v(header@) == Some(n as nat),
            None => content_length_v(header@) is None,
        },
{
    let s = chars_of(header);
    let lines = split_lines(&s);
    let key = chars_of("Content-Length:");
    proof {
        reveal_strlit("Content-Length:");
    }
    let mut k: usize = 0;
    while k < lines.len()
        invariant
            k <= lines@.len() == lines_of(s@).len(),
            s@ == header@,
            key@ == "Content-Length:"@,
            key@.len() == 15,
            forall|j: int| 0 <= j < lines@.len() ==> (#[trigger] lines@[j])@ == lines_of(s@)[j],
            length_line(lines_of(s@), k as int) == length_line(lines_of(s@), 0),
        decreases lines@.len() - k,
    {
        let l = &lines[k];
        let mut ok = l.len() >= 15;
        let mut q: usize = 0;
        while ok && q < 15
            invariant
                q <= 15,
                key@.len() == 15,
                ok ==> l@.len() >= 15,
                ok ==> forall|j: int| 0 <= j < q ==> l@[j] == key@[j],
                !ok ==> !(l@.len() >= 15 && l@.take(15) == key@),
            decreases 15 - q + if ok { 1int } else { 0int },
        {
            if l[q] != key[q] {
                assert(l@.take(15)[q as int] != key@[q as int]);
                ok = false;
            } else {
                q = q + 1;
            }
        }
        if ok {
            assert(l@.take(15) =~= key@);
            let n = l.len();
            let t = crate::text::trim_range(l, 15, n);
            let tc = chars_of(t.as_str());
            proof {
                assert(l@.subrange(15, n as int) =~= l@.skip(15));
            }
            return parse_usize(&tc);
        }
        k = k + 1;
    }
    None
}

} // verus!

verus! {

/// A JSON number holding the integer `n`.
pub open spec fn num_j(n: nat) -> JsonV {
    JsonV::Num(num_of(n as int, 0))
}

/// An LSP position.
pub open spec fn pos_v(l: nat, c: nat) -> JsonV {
    JsonV::Obj(seq!["line"@, "character"@], seq![num_j(l), num_j(c)])
}

/// An LSP diagnostic one character wide at line `l`, column `c`.
pub open spec fn diag_v(l: nat, c: nat, code: Seq<char>, msg: Seq<char>, severity: nat) -> JsonV {
    JsonV::Obj(
        seq!["range"@, "severity"@, "source"@, "code"@, "message"@],
        seq![
            JsonV::Obj(seq!["start"@, "end"@], seq![pos_v(l, c), pos_v(l, c + 1)]),
            num_j(severity),
            JsonV::Str("nudge"@),
            JsonV::Str(code),
            JsonV::Str(msg),
        ],
    )
}

/// Line and column of byte offset `at` of `s`.
pub open spec fn pos_at(s: Seq<char>, at: nat) -> (nat, nat) {
    line_col_v(s, char_at_byte(s, at, 0) as nat)
}

/// The full pipeline as LSP diagnostics: a lex error (E0001) or a parse
/// error (E0002) at its position; else the checker's errors (severity 1);
/// and on a file without errors the prompt lints (severity 2). Checker
/// errors and lints carry no position and sit at the start of the file.
pub open spec fn diagnostics_v(src: Seq<char>) -> Seq<JsonV> {
    match lex_v(src) {
        Err((m, at)) => seq![diag_v(pos_at(src, at).0, pos_at(src, at).1, "E0001"@, m, 1)],
        Ok(toks) => match parse_v(toks) {
            Err((m, at)) => seq![diag_v(pos_at(src, at).0, pos_at(src, at).1, "E0002"@, m, 1)],
            Ok(items) => item_diags_v(items),
        },
    }
}

pub open spec fn json_views(v: Seq<Json>) -> Seq<JsonV> {
    Seq::new(v.len(), |i: int| v[i]@)
}

/// An object built from members in order.
pub(crate) fn obj(members: Vec<(String, Json)>) -> (r: Json)
    ensures
        r@ == JsonV::Obj(
            Seq::new(members@.len(), |i: int| members@[i].0@),
            Seq::new(members@.len(), |i: int| members@[i].1@),
        ),
{
    let r = Json::Obj(members);
    proof {
        assert(r@->Obj_1 =~= Seq::new(members@.len(), |i: int| members@[i].1@));
    }
    r
}

pub(crate) fn member_of(k: &str, v: Json) -> (r: (String, Json))
    ensures
        r.0@ == k@,
        r.1@ == v@,
{
    (string_of(k), v)
}

fn num_json(n: u128) -> (r: Json)
    ensures
        r@ == num_j(n as nat),
{
    Json::Num(Num::from_u128(n))
}

fn pos(l: usize, c: u128) -> (r: Json)
    ensures
        r@ == pos_v(l as nat, c as nat),
{
    let mut m: Vec<(String, Json)> = Vec::new();
    m.push(member_of("line", num_json(l as u128)));
    m.push(member_of("character", num_json(c)));
    let r = obj(m);
    proof {
        assert(r@->Obj_0 =~= seq!["line"@, "character"@]);
        assert(r@->Obj_1 =~= seq![num_j(l as nat), num_j(c as nat)]);
    }
    r
}

/// An LSP diagnostic at line `line`, column `col` with the given severity.
fn diag_sev(line: usize, col: usize, code: &str, msg: &str, severity: usize) -> (r: Json)
    ensures
        r@ == diag_v(line as nat, col as nat, code@, msg@, severity as nat),
{
    let mut range: Vec<(String, Json)> = Vec::new();
    range.push(member_of("start", pos(line, col as u128)));
    range.push(member_of("end", pos(line, col as u128 + 1)));
    let range = obj(range);
    proof {
        assert(range@->Obj_0 =~= seq!["start"@, "end"@]);
        assert(range@->Obj_1 =~= seq![pos_v(line as nat, col as nat), pos_v(line as nat, (col + 1) as nat)]);
    }
    let mut m: Vec<(String, Json)> = Vec::new();
    m.push(member_of("range", range));
    m.push(member_of("severity", num_json(severity as u128)));
    m.push(member_of("source", Json::str("nudge")));
    m.push(member_of("code", Json::str(code)));
    m.push(member_of("message", Json::str(msg)));
    let r = obj(m);
    proof {
        assert(r@->Obj_0 =~= seq!["range"@, "severity"@, "source"@, "code"@, "message"@]);
        assert(r@->Obj_1 =~= diag_v(line as nat, col as nat, code@, msg@, severity as nat)->Obj_1);
    }
    r
}

/// The checker's errors as diagnostics at the start of the file.
fn push_check_diags(errs: &Vec<CheckError>, out: &mut Vec<Json>)
    requires
        old(out)@.len() == 0,
    ensures
        json_views(final(out)@) == Seq::new(
            errs@.len(),
            |q: int| diag_v(0, 0, diags_v(errs@)[q].code, diags_v(errs@)[q].msg, 1),
        ),
{
    let ghost dv = diags_v(errs@);
    let mut i: usize = 0;
    proof {
        assert(json_views(out@) =~= Seq::new(0, |q: int| diag_v(0, 0, dv[q].code, dv[q].msg, 1)));
    }
    while i < errs.len()
        invariant
            i <= errs@.len(),
            dv == diags_v(errs@),
            json_views(out@) == Seq::new(i as nat, |q: int| diag_v(0, 0, dv[q].code, dv[q].msg, 1)),
        decreases errs@.len() - i,
    {
        let d = diag_sev(0, 0, errs[i].code, errs[i].msg.as_str(), 1);
        proof {
            assert(dv[i as int].code == errs@[i as int].code@);
            assert(dv[i as int].msg == errs@[i as int].msg@);
        }
        let ghost o = json_views(out@);
        out.push(d);
        proof {
            assert(json_views(out@) =~= o.push(d@));
            assert(json_views(out@) =~= Seq::new((i + 1) as nat, |q: int| diag_v(0, 0, dv[q].code, dv[q].msg, 1)));
        }
        i = i + 1;
    }
}

/// The prompt lints as severity-2 diagnostics at the start of the file.
fn push_lint_diags(ls: &Vec<Lint>, out: &mut Vec<Json>)
    requires
        old(out)@.len() == 0,
    ensures
        json_views(final(out)@) == Seq::new(
            ls@.len(),
            |q: int| diag_v(0, 0, lints_v(ls@)[q].0, lints_v(ls@)[q].1, 2),
        ),
{
    let ghost lv = lints_v(ls@);
    let mut i: usize = 0;
    proof {
        assert(json_views(out@) =~= Seq::new(0, |q: int| diag_v(0, 0, lv[q].0, lv[q].1, 2)));
    }
    while i < ls.len()
        invariant
            i <= ls@.len(),
            lv == lints_v(ls@),
            json_views(out@) == Seq::new(i as nat, |q: int| diag_v(0, 0, lv[q].0, lv[q].1, 2)),
        decreases ls@.len() - i,
    {
        let d = diag_sev(0, 0, ls[i].code, ls[i].msg.as_str(), 2);
        proof {
            assert(lv[i as int] == (ls@[i as int].code@, ls@[i as int].msg@));
        }
        let ghost o = json_views(out@);
        out.push(d);
        proof {
            assert(json_views(out@) =~= o.push(d@));
            assert(json_views(out@) =~= Seq::new((i + 1) as nat, |q: int| diag_v(0, 0, lv[q].0, lv[q].1, 2)));
        }
        i = i + 1;
    }
}

/// The diagnostics of a parsed program: the checker's errors, or when
/// there are none, the prompt lints.
pub open spec fn item_diags_v(items: Seq<ItemV>) -> Seq<JsonV> {
    let errs = check_v(items);
    if errs.len() > 0 {
        Seq::new(errs.len(), |i: int| diag_v(0, 0, errs[i].code, errs[i].msg, 1))
    } else {
        let ls = lint_items_v(items);
        Seq::new(ls.len(), |i: int| diag_v(0, 0, ls[i].0, ls[i].1, 2))
    }
}

fn item_diags(items: &Vec<Item>) -> (r: Vec<Json>)
    ensures
        json_views(r@) == item_diags_v(crate::check::items_v(items@)),
{
    let mut out: Vec<Json> = Vec::new();
    let errs = check(items.as_slice());
    if errs.len() > 0 {
        push_check_diags(&errs, &mut out);
    } else {
        let ls = lint_items(items.as_slice());
        push_lint_diags(&ls, &mut out);
    }
    out
}

/// The full pipeline as LSP diagnostics (0-based positions).
#[verifier::spinoff_prover]
pub fn diagnostics(src: &str) -> (r: Vec<Json>)
    ensures
        json_views(r@) == diagnostics_v(src@),
{
    let mut out: Vec<Json> = Vec::new();
    match lex(src) {
        Err(e) => {
            let (l, c) = line_col(src, e.at);
            out.push(diag_sev(l, c, "E0001", e.msg.as_str(), 1));
            proof {
                assert(json_views(out@) =~= diagnostics_v(src@));
            }
        },
        Ok(tokens) => {
            proof {
                crate::lexer::law_spans_are_ordered(src@, spanned_views(tokens@));
            }
            match parse(tokens) {
                Err(e) => {
                    let (l, c) = line_col(src, e.at);
                    out.push(diag_sev(l, c, "E0002", e.msg.as_str(), 1));
                    proof {
                        assert(json_views(out@) =~= diagnostics_v(src@));
                    }
                },
                Ok(items) => {
                    proof {
                        assert(crate::parser::views(items@) =~= crate::check::items_v(items@));
                    }
                    out = item_diags(&items);
                },
            }
        },
    }
    out
}

} // verus!

verus! {

proof fn lemma_kw_sym_line(n: nat, raw: Seq<char>, lo: int, q: int)
    ensures
        forall|i: int| 0 <= i < kw_sym(n, raw, lo, q).len() ==> (#[trigger] kw_sym(n, raw, lo, q)[i]).line == n,
{
}

proof fn lemma_syms_from_line(ls: Seq<Seq<char>>, k: int)
    requires
        0 <= k,
    ensures
        forall|i: int| 0 <= i < syms_from(ls, k).len() ==> (#[trigger] syms_from(ls, k)[i]).line < ls.len(),
    decreases ls.len() - k,
{
    if k < ls.len() {
        lemma_syms_from_line(ls, k + 1);
        let raw = ls[k];
        let lo = trim_lo(raw, 0);
        lemma_kw_sym_line(k as nat, raw, lo, 0);
        lemma_kw_sym_line(k as nat, raw, lo, 1);
        lemma_kw_sym_line(k as nat, raw, lo, 2);
        lemma_kw_sym_line(k as nat, raw, lo, 3);
        lemma_kw_sym_line(k as nat, raw, lo, 4);
        let a = line_syms(k as nat, raw);
        assert forall|i: int| 0 <= i < a.len() implies (#[trigger] a[i]).line == k by {
            let s0 = kw_sym(k as nat, raw, lo, 0);
            let s1 = kw_sym(k as nat, raw, lo, 1);
            let s2 = kw_sym(k as nat, raw, lo, 2);
            let s3 = kw_sym(k as nat, raw, lo, 3);
            let s4 = kw_sym(k as nat, raw, lo, 4);
            if !(raw.subrange(lo, raw.len() as int).len() >= 2 && raw.subrange(lo, raw.len() as int)[0] == '/'
                && raw.subrange(lo, raw.len() as int)[1] == '/') {
                assert(a == s0 + s1 + s2 + s3 + s4);
                if i < s0.len() {
                } else if i < s0.len() + s1.len() {
                    assert(a[i] == s1[i - s0.len()]);
                } else if i < s0.len() + s1.len() + s2.len() {
                    assert(a[i] == s2[i - s0.len() - s1.len()]);
                } else if i < s0.len() + s1.len() + s2.len() + s3.len() {
                    assert(a[i] == s3[i - s0.len() - s1.len() - s2.len()]);
                } else {
                    assert(a[i] == s4[i - s0.len() - s1.len() - s2.len() - s3.len()]);
                }
            }
        }
        let r = syms_from(ls, k + 1);
        assert forall|i: int| 0 <= i < syms_from(ls, k).len() implies (#[trigger] syms_from(ls, k)[i]).line < ls.len() by {
            if i >= a.len() {
                assert(syms_from(ls, k)[i] == r[i - a.len()]);
            }
        }
    }
}

} // verus!

verus! {

/// One-line docs for the reserved and contextual keywords.
pub open spec fn keyword_docs() -> Seq<(Seq<char>, Seq<char>)> {
    seq![
        ("fn"@, "Declare a function. `fn name(args) -> ret uses LLM { … }` — effects listed after `uses`."@),
        ("let"@, "Bind a value: `let x = expr`."@),
        ("type"@, "Declare a named type: `type Name = { field: string }` or an alias with constraints (`@format(url)`)."@),
        ("tool"@, "Declare an external tool binding."@),
        ("agent"@, "An `agent` block with checkpointed `state` (design §7)."@),
        ("state"@, "Declare checkpointed agent state (design §7)."@),
        ("uses"@, "Effect list on a signature: `uses LLM`, `uses Tool`, `uses IO` (design §3)."@),
        ("with"@, "Call options on an llm call: `with { model: …, schema: …, budget: … USD }`."@),
        ("par"@, "Parallel combinator: `par map`, `par race`, `par all` with compile-time race safety."@),
        ("map"@, "`par map(items, concurrency = n) |x| -> f(x)` — bounded-concurrency parallel map."@),
        ("all"@, "`par all [f(), g()]` — run all, wait for all."@),
        ("race"@, "`par race [f(), g()]` — first result wins."@),
        ("test"@, "A replayable test block with `assert`s — runs from a trace at zero token cost."@),
        ("assert"@, "`assert cond` — test/runtime assertion."@),
        ("export"@, "Export a declaration from the module."@),
        ("use"@, "Import from another module."@),
        ("LLM"@, "The LLM effect — required on signatures that make llm calls (E0301/E0302)."@),
        ("schema"@, "`with`-key: the output type of an llm call. Violations trigger automatic repair."@),
        ("model"@, "`with`-key: model name; `provider:model` prefix picks a real provider (design §4.6)."@),
        ("budget"@, "`with`-key: USD ceiling for the call, enforced at runtime (E0501)."@),
        ("retry"@, "`with`-key: repair-loop retry policy for schema violations."@),
        ("concurrency"@, "`par map` bound: max in-flight calls."@),
        ("replay"@, "Replay mode: full / `NUDGE_REPLAY_MODE=llm` hybrid / live (design §6.1)."@),
        ("zip"@, "Zip two lists pairwise: `par map(a zip b, …) |(x, y)| -> …`."@),
        ("merge"@, "Reducer join `l | merge r` — dict union, list append-dedup (design §7)."@),
    ]
}

fn keyword_docs_x() -> (r: Vec<(&'static str, &'static str)>)
    ensures
        r@.len() == keyword_docs().len(),
        forall|i: int| 0 <= i < r@.len() ==> (r@[i].0@, r@[i].1@) == #[trigger] keyword_docs()[i],
{
    let mut v: Vec<(&'static str, &'static str)> = Vec::new();
    v.push(("fn", "Declare a function. `fn name(args) -> ret uses LLM { … }` — effects listed after `uses`."));
    v.push(("let", "Bind a value: `let x = expr`."));
    v.push(("type", "Declare a named type: `type Name = { field: string }` or an alias with constraints (`@format(url)`)."));
    v.push(("tool", "Declare an external tool binding."));
    v.push(("agent", "An `agent` block with checkpointed `state` (design §7)."));
    v.push(("state", "Declare checkpointed agent state (design §7)."));
    v.push(("uses", "Effect list on a signature: `uses LLM`, `uses Tool`, `uses IO` (design §3)."));
    v.push(("with", "Call options on an llm call: `with { model: …, schema: …, budget: … USD }`."));
    v.push(("par", "Parallel combinator: `par map`, `par race`, `par all` with compile-time race safety."));
    v.push(("map", "`par map(items, concurrency = n) |x| -> f(x)` — bounded-concurrency parallel map."));
    v.push(("all", "`par all [f(), g()]` — run all, wait for all."));
    v.push(("race", "`par race [f(), g()]` — first result wins."));
    v.push(("test", "A replayable test block with `assert`s — runs from a trace at zero token cost."));
    v.push(("assert", "`assert cond` — test/runtime assertion."));
    v.push(("export", "Export a declaration from the module."));
    v.push(("use", "Import from another module."));
    v.push(("LLM", "The LLM effect — required on signatures that make llm calls (E0301/E0302)."));
    v.push(("schema", "`with`-key: the output type of an llm call. Violations trigger automatic repair."));
    v.push(("model", "`with`-key: model name; `provider:model` prefix picks a real provider (design §4.6)."));
    v.push(("budget", "`with`-key: USD ceiling for the call, enforced at runtime (E0501)."));
    v.push(("retry", "`with`-key: repair-loop retry policy for schema violations."));
    v.push(("concurrency", "`par map` bound: max in-flight calls."));
    v.push(("replay", "Replay mode: full / `NUDGE_REPLAY_MODE=llm` hybrid / live (design §6.1)."));
    v.push(("zip", "Zip two lists pairwise: `par map(a zip b, …) |(x, y)| -> …`."));
    v.push(("merge", "Reducer join `l | merge r` — dict union, list append-dedup (design §7)."));
    proof {
        assert(Seq::new(v@.len(), |i: int| (v@[i].0@, v@[i].1@)) =~= keyword_docs());
    }
    v
}

/// A publishDiagnostics notification.
pub open spec fn notify_v(uri: Seq<char>, diags: Seq<JsonV>) -> JsonV {
    JsonV::Obj(
        seq!["jsonrpc"@, "method"@, "params"@],
        seq![
            JsonV::Str("2.0"@),
            JsonV::Str("textDocument/publishDiagnostics"@),
            JsonV::Obj(seq!["uri"@, "diagnostics"@], seq![JsonV::Str(uri), JsonV::Arr(diags)]),
        ],
    )
}

/// A response carrying `result`.
pub open spec fn respond_v(id: JsonV, result: JsonV) -> JsonV {
    JsonV::Obj(seq!["jsonrpc"@, "id"@, "result"@], seq![JsonV::Str("2.0"@), id, result])
}

/// An error response.
pub open spec fn respond_error_v(id: JsonV, code: NumV, msg: Seq<char>) -> JsonV {
    JsonV::Obj(
        seq!["jsonrpc"@, "id"@, "error"@],
        seq![
            JsonV::Str("2.0"@),
            id,
            JsonV::Obj(seq!["code"@, "message"@], seq![JsonV::Num(code), JsonV::Str(msg)]),
        ],
    )
}

/// A markdown hover result.
pub open spec fn md_v(v: Seq<char>) -> JsonV {
    JsonV::Obj(
        seq!["contents"@],
        seq![JsonV::Obj(seq!["kind"@, "value"@], seq![JsonV::Str("markdown"@), JsonV::Str(v)])],
    )
}

/// The first symbol named `w`, from index `i` on.
pub open spec fn find_sym(syms: Seq<SymV>, w: Seq<char>, i: int) -> Option<int>
    decreases syms.len() - i,
{
    if i < 0 || i >= syms.len() {
        None
    } else if syms[i].name == w {
        Some(i)
    } else {
        find_sym(syms, w, i + 1)
    }
}

/// The first keyword `w` of the docs table, from index `i` on.
pub open spec fn find_kw(w: Seq<char>, i: int) -> Option<int>
    decreases keyword_docs().len() - i,
{
    if i < 0 || i >= keyword_docs().len() {
        None
    } else if keyword_docs()[i].0 == w {
        Some(i)
    } else {
        find_kw(w, i + 1)
    }
}

pub open spec fn primitive(w: Seq<char>) -> bool {
    w == "string"@ || w == "float"@ || w == "int"@ || w == "bool"@
}

/// Hover at a position: a declared symbol's declaration line, kind and
/// line number; a primitive type; a keyword's doc line; else null.
pub open spec fn hover_v(src: Seq<char>, line: int, col: int) -> JsonV {
    match word_at_v(src, line, col) {
        None => JsonV::Null,
        Some(w) => match find_sym(index_v(src), w, 0) {
            Some(i) => {
                let s = index_v(src)[i];
                md_v(
                    "```nudge\n"@ + s.detail + "\n```\n*"@ + s.kind + "* — declared on line "@
                        + nat_str(s.line + 1),
                )
            },
            None => if primitive(w) {
                md_v("`"@ + w + "` — primitive type"@)
            } else {
                match find_kw(w, 0) {
                    Some(k) => md_v("`"@ + w + "` — "@ + keyword_docs()[k].1),
                    None => JsonV::Null,
                }
            },
        },
    }
}

/// Go-to-definition: the range of the first declaration of the word under
/// the position, else null.
pub open spec fn definition_v(src: Seq<char>, uri: Seq<char>, line: int, col: int) -> JsonV {
    match word_at_v(src, line, col) {
        None => JsonV::Null,
        Some(w) => match find_sym(index_v(src), w, 0) {
            None => JsonV::Null,
            Some(i) => {
                let s = index_v(src)[i];
                JsonV::Obj(
                    seq!["uri"@, "range"@],
                    seq![
                        JsonV::Str(uri),
                        JsonV::Obj(
                            seq!["start"@, "end"@],
                            seq![pos_v(s.line, s.col), pos_v(s.line, s.col + byte_len(s.name))],
                        ),
                    ],
                )
            },
        },
    }
}

/// A completion item.
pub open spec fn item_v(label: Seq<char>, kind: nat, detail: Seq<char>) -> JsonV {
    JsonV::Obj(
        seq!["label"@, "kind"@, "detail"@],
        seq![JsonV::Str(label), num_j(kind), JsonV::Str(detail)],
    )
}

/// The completion kind of a symbol kind.
pub open spec fn sym_kind_num(k: Seq<char>) -> nat {
    if k == "function"@ || k == "tool"@ {
        3
    } else if k == "type"@ || k == "agent"@ {
        7
    } else {
        6
    }
}

/// Completion items: the keywords, the primitive types, and the symbols of
/// the document.
pub open spec fn completions_v(src: Seq<char>) -> JsonV {
    let kws = Seq::new(
        keyword_docs().len(),
        |i: int| item_v(keyword_docs()[i].0, 14, keyword_docs()[i].1),
    );
    let prims = seq![
        item_v("string"@, 25, "primitive type"@),
        item_v("float"@, 25, "primitive type"@),
        item_v("int"@, 25, "primitive type"@),
        item_v("bool"@, 25, "primitive type"@),
    ];
    let syms = index_v(src);
    let si = Seq::new(syms.len(), |i: int| item_v(syms[i].name, sym_kind_num(syms[i].kind), syms[i].detail));
    JsonV::Obj(seq!["isIncomplete"@, "items"@], seq![JsonV::Bool(false), JsonV::Arr(kws + prims + si)])
}

} // verus!

verus! {

pub(crate) fn obj2(k1: &str, v1: Json, k2: &str, v2: Json) -> (r: Json)
    ensures
        r@ == JsonV::Obj(seq![k1@, k2@], seq![v1@, v2@]),
{
    let mut m: Vec<(String, Json)> = Vec::new();
    m.push(member_of(k1, v1));
    m.push(member_of(k2, v2));
    let r = obj(m);
    proof {
        assert(r@->Obj_0 =~= seq![k1@, k2@]);
        assert(r@->Obj_1 =~= seq![v1@, v2@]);
    }
    r
}

pub(crate) fn obj3(k1: &str, v1: Json, k2: &str, v2: Json, k3: &str, v3: Json) -> (r: Json)
    ensures
        r@ == JsonV::Obj(seq![k1@, k2@, k3@], seq![v1@, v2@, v3@]),
{
    let mut m: Vec<(String, Json)> = Vec::new();
    m.push(member_of(k1, v1));
    m.push(member_of(k2, v2));
    m.push(member_of(k3, v3));
    let r = obj(m);
    proof {
        assert(r@->Obj_0 =~= seq![k1@, k2@, k3@]);
        assert(r@->Obj_1 =~= seq![v1@, v2@, v3@]);
    }
    r
}

pub(crate) fn arr(xs: Vec<Json>) -> (r: Json)
    ensures
        r@ == JsonV::Arr(json_views(xs@)),
{
    let r = Json::Arr(xs);
    proof {
        assert(r@->Arr_0 =~= json_views(xs@));
    }
    r
}

/// A publishDiagnostics notification for `uri`.
fn notify_diagnostics(uri: &str, diags: Vec<Json>) -> (r: Json)
    ensures
        r@ == notify_v(uri@, json_views(diags@)),
{
    let params = obj2("uri", Json::str(uri), "diagnostics", arr(diags));
    obj3(
        "jsonrpc",
        Json::str("2.0"),
        "method",
        Json::str("textDocument/publishDiagnostics"),
        "params",
        params,
    )
}

/// A response to request `id` carrying `result`.
pub fn respond(id: &Json, result: Json) -> (r: Json)
    ensures
        r@ == respond_v(id@, result@),
{
    obj3("jsonrpc", Json::str("2.0"), "id", crate::json::copy_json(id), "result", result)
}

/// An error response to request `id`.
pub fn respond_error(id: &Json, code: Num, msg: &str) -> (r: Json)
    ensures
        r@ == respond_error_v(id@, code@, msg@),
{
    let err = obj2("code", Json::Num(code), "message", Json::str(msg));
    obj3("jsonrpc", Json::str("2.0"), "id", crate::json::copy_json(id), "error", err)
}

fn md(v: String) -> (r: Json)
    ensures
        r@ == md_v(v@),
{
    let inner = obj2("kind", Json::str("markdown"), "value", Json::Str(v));
    let mut m: Vec<(String, Json)> = Vec::new();
    m.push(member_of("contents", inner));
    let r = obj(m);
    proof {
        assert(r@->Obj_0 =~= seq!["contents"@]);
        assert(r@->Obj_1 =~= seq![md_v(v@)->Obj_1[0]]);
    }
    r
}

proof fn lemma_find_sym(syms: Seq<SymV>, w: Seq<char>, i: int)
    requires
        0 <= i,
    ensures
        find_sym(syms, w, i) matches Some(j) ==> i <= j < syms.len() && syms[j].name == w,
    decreases syms.len() - i,
{
    if i < syms.len() && syms[i].name != w {
        lemma_find_sym(syms, w, i + 1);
    }
}

proof fn lemma_find_kw(w: Seq<char>, i: int)
    requires
        0 <= i,
    ensures
        find_kw(w, i) matches Some(j) ==> i <= j < keyword_docs().len() && keyword_docs()[j].0 == w,
    decreases keyword_docs().len() - i,
{
    if i < keyword_docs().len() && keyword_docs()[i].0 != w {
        lemma_find_kw(w, i + 1);
    }
}

fn find_sym_x(syms: &Vec<Sym>, w: &str) -> (r: Option<usize>)
    ensures
        match r {
            Some(i) => find_sym(sym_views(syms@), w@, 0) == Some(i as int) && i < syms@.len(),
            None => find_sym(sym_views(syms@), w@, 0) is None,
        },
{
    let mut i: usize = 0;
    while i < syms.len()
        invariant
            i <= syms@.len(),
            find_sym(sym_views(syms@), w@, i as int) == find_sym(sym_views(syms@), w@, 0),
        decreases syms@.len() - i,
    {
        if crate::text::str_eq(syms[i].name.as_str(), w) {
            return Some(i);
        }
        i = i + 1;
    }
    None
}

fn find_kw_x(docs: &Vec<(&'static str, &'static str)>, w: &str) -> (r: Option<usize>)
    requires
        docs@.len() == keyword_docs().len(),
        forall|i: int| 0 <= i < docs@.len() ==> (docs@[i].0@, docs@[i].1@) == #[trigger] keyword_docs()[i],
    ensures
        match r {
            Some(i) => find_kw(w@, 0) == Some(i as int) && i < docs@.len(),
            None => find_kw(w@, 0) is None,
        },
{
    let mut i: usize = 0;
    while i < docs.len()
        invariant
            i <= docs@.len() == keyword_docs().len(),
            forall|q: int| 0 <= q < docs@.len() ==> (docs@[q].0@, docs@[q].1@) == #[trigger] keyword_docs()[q],
            find_kw(w@, i as int) == find_kw(w@, 0),
        decreases docs@.len() - i,
    {
        if crate::text::str_eq(docs[i].0, w) {
            proof {
                assert((docs@[i as int].0@, docs@[i as int].1@) == keyword_docs()[i as int]);
            }
            return Some(i);
        }
        proof {
            assert((docs@[i as int].0@, docs@[i as int].1@) == keyword_docs()[i as int]);
        }
        i = i + 1;
    }
    None
}

/// Hover at a 0-based position.
#[verifier::spinoff_prover]
pub fn hover(src: &str, line: usize, col: usize) -> (r: Json)
    ensures
        r@ == hover_v(src@, line as int, col as int),
{
    let word = match word_at(src, line, col) {
        Some(w) => w,
        None => {
            return Json::Null;
        },
    };
    let syms = index(src);
    match find_sym_x(&syms, word.as_str()) {
        Some(i) => {
            let s = &syms[i];
            assert(sym_views(syms@)[i as int] == s.view_s());
            let mut v = string_of("```nudge\n");
            push_str(&mut v, s.detail.as_str());
            push_str(&mut v, "\n```\n*");
            push_str(&mut v, s.kind);
            push_str(&mut v, "* — declared on line ");
            push_usize(&mut v, s.line + 1);
            return md(v);
        },
        None => {},
    }
    let w = word.as_str();
    if crate::text::str_eq(w, "string") || crate::text::str_eq(w, "float") || crate::text::str_eq(w, "int")
        || crate::text::str_eq(w, "bool") {
        let mut v = string_of("`");
        push_str(&mut v, w);
        push_str(&mut v, "` — primitive type");
        return md(v);
    }
    let docs = keyword_docs_x();
    match find_kw_x(&docs, w) {
        Some(k) => {
            proof {
                assert((docs@[k as int].0@, docs@[k as int].1@) == keyword_docs()[k as int]);
            }
            let mut v = string_of("`");
            push_str(&mut v, w);
            push_str(&mut v, "` — ");
            push_str(&mut v, docs[k].1);
            md(v)
        },
        None => Json::Null,
    }
}

/// Go-to-definition at a 0-based position of document `uri`.
#[verifier::spinoff_prover]
pub fn definition(src: &str, uri: &str, line: usize, col: usize) -> (r: Json)
    ensures
        r@ == definition_v(src@, uri@, line as int, col as int),
{
    let word = match word_at(src, line, col) {
        Some(w) => w,
        None => {
            return Json::Null;
        },
    };
    let syms = index(src);
    match find_sym_x(&syms, word.as_str()) {
        Some(i) => {
            let s = &syms[i];
            assert(sym_views(syms@)[i as int] == s.view_s());
            let nb = str_byte_len(s.name.as_str());
            let range = obj2("start", pos(s.line, s.col as u128), "end", pos(s.line, s.col as u128 + nb as u128));
            obj2("uri", Json::str(uri), "range", range)
        },
        None => Json::Null,
    }
}

fn push_item(items: &mut Vec<Json>, label: &str, kind: usize, detail: &str)
    ensures
        json_views(final(items)@) == json_views(old(items)@).push(item_v(label@, kind as nat, detail@)),
{
    let it = obj3("label", Json::str(label), "kind", num_json(kind as u128), "detail", Json::str(detail));
    let ghost before = json_views(items@);
    items.push(it);
    proof {
        assert(json_views(items@) =~= before.push(item_v(label@, kind as nat, detail@)));
    }
}

/// Completion items: keywords, primitive types and the document's symbols.
#[verifier::spinoff_prover]
pub fn completions(src: &str) -> (r: Json)
    ensures
        r@ == completions_v(src@),
{
    let mut items: Vec<Json> = Vec::new();
    let docs = keyword_docs_x();
    let ghost kws = Seq::new(
        keyword_docs().len(),
        |i: int| item_v(keyword_docs()[i].0, 14, keyword_docs()[i].1),
    );
    let mut i: usize = 0;
    while i < docs.len()
        invariant
            i <= docs@.len() == keyword_docs().len(),
            forall|q: int| 0 <= q < docs@.len() ==> (docs@[q].0@, docs@[q].1@) == #[trigger] keyword_docs()[q],
            kws == Seq::new(keyword_docs().len(), |q: int| item_v(keyword_docs()[q].0, 14, keyword_docs()[q].1)),
            json_views(items@) == kws.take(i as int),
        decreases docs@.len() - i,
    {
        proof {
            assert((docs@[i as int].0@, docs@[i as int].1@) == keyword_docs()[i as int]);
        }
        push_item(&mut items, docs[i].0, 14, docs[i].1);
        proof {
            assert(kws.take(i + 1) =~= kws.take(i as int).push(kws[i as int]));
        }
        i = i + 1;
    }
    push_item(&mut items, "string", 25, "primitive type");
    push_item(&mut items, "float", 25, "primitive type");
    push_item(&mut items, "int", 25, "primitive type");
    push_item(&mut items, "bool", 25, "primitive type");
    let ghost prims = seq![
        item_v("string"@, 25, "primitive type"@),
        item_v("float"@, 25, "primitive type"@),
        item_v("int"@, 25, "primitive type"@),
        item_v("bool"@, 25, "primitive type"@),
    ];
    proof {
        assert(kws.take(docs@.len() as int) =~= kws);
        assert(json_views(items@) =~= kws + prims);
    }
    let syms = index(src);
    let ghost sv = sym_views(syms@);
    let ghost si = Seq::new(sv.len(), |q: int| item_v(sv[q].name, sym_kind_num(sv[q].kind), sv[q].detail));
    let mut j: usize = 0;
    while j < syms.len()
        invariant
            j <= syms@.len() == sv.len(),
            sv == sym_views(syms@),
            si == Seq::new(sv.len(), |q: int| item_v(sv[q].name, sym_kind_num(sv[q].kind), sv[q].detail)),
            json_views(items@) == kws + prims + si.take(j as int),
        decreases syms@.len() - j,
    {
        let s = &syms[j];
        assert(sv[j as int] == s.view_s());
        let k = s.kind;
        let kind: usize = if crate::text::str_eq(k, "function") || crate::text::str_eq(k, "tool") {
            3
        } else if crate::text::str_eq(k, "type") || crate::text::str_eq(k, "agent") {
            7
        } else {
            6
        };
        push_item(&mut items, s.name.as_str(), kind, s.detail.as_str());
        proof {
            assert(si.take(j + 1) =~= si.take(j as int).push(si[j as int]));
        }
        j = j + 1;
    }
    proof {
        assert(si.take(syms@.len() as int) =~= si);
    }
    obj2("isIncomplete", Json::Bool(false), "items", arr(items))
}

} // verus!

verus! {

proof fn lemma_unique_find(d: Seq<(String, String)>, k: Seq<char>, j: int)
    requires
        forall|a: int, b: int| 0 <= a < b < d.len() ==> d[a].0@ != d[b].0@,
        0 <= j < d.len(),
        d[j].0@ == k,
    ensures
        find_key(doc_keys(d), k, 0) == Some(j),
{
    crate::cost::lemma_find_key_exists(doc_keys(d), k, 0);
    let f = find_key(doc_keys(d), k, 0);
    lemma_find_key(doc_keys(d), k, 0);
    assert(doc_keys(d)[j] == k);
    let w = f->0;
    if w != j {
        if w < j {
            assert(d[w].0@ != d[j].0@);
        } else {
            assert(d[j].0@ != d[w].0@);
        }
    }
}

impl Lsp {
    /// The text of document `uri`, if open.
    fn get_doc(&self, uri: &str) -> (r: Option<&String>)
        ensures
            r is Some <==> self.documents().contains_key(uri@),
            r matches Some(t) ==> self.documents()[uri@] == t@,
    {
        let mut i: usize = 0;
        while i < self.docs.len()
            invariant
                i <= self.docs@.len(),
                find_key(doc_keys(self.docs@), uri@, i as int) == find_key(doc_keys(self.docs@), uri@, 0),
            decreases self.docs@.len() - i,
        {
            if crate::text::str_eq(self.docs[i].0.as_str(), uri) {
                return Some(&self.docs[i].1);
            }
            i = i + 1;
        }
        None
    }

    /// Opens or replaces document `uri`.
    fn set_doc(&mut self, uri: String, text: String)
        requires
            old(self).wf(),
        ensures
            final(self).wf(),
            final(self).documents() == old(self).documents().insert(uri@, text@),
            final(self).is_shut_down() == old(self).is_shut_down(),
            final(self).exit_status() == old(self).exit_status(),
    {
        doc_set(&mut self.docs, uri, text);
    }

    /// Closes document `uri`.
    fn remove_doc(&mut self, uri: &str)
        requires
            old(self).wf(),
        ensures
            final(self).wf(),
            final(self).documents() == old(self).documents().remove(uri@),
            final(self).is_shut_down() == old(self).is_shut_down(),
            final(self).exit_status() == old(self).exit_status(),
    {
        doc_remove(&mut self.docs, uri);
    }
}

pub open spec fn keys_unique(d: Seq<(String, String)>) -> bool {
    forall|i: int, j: int| 0 <= i < j < d.len() ==> d[i].0@ != d[j].0@
}

/// Opens or replaces document `uri` in `docs`.
fn doc_set(docs: &mut Vec<(String, String)>, uri: String, text: String)
    requires
        keys_unique(old(docs)@),
    ensures
        keys_unique(final(docs)@),
        doc_map(final(docs)@) == doc_map(old(docs)@).insert(uri@, text@),
    {
        let ghost d0 = docs@;
        let ghost k = uri@;
        let mut i: usize = 0;
        while i < docs.len()
            invariant
                i <= docs@.len(),
                docs@ == d0,
                d0 == old(docs)@,
                keys_unique(d0),
                k == uri@,
                forall|q: int| 0 <= q < i ==> docs@[q].0@ != k,
            decreases docs@.len() - i,
        {
            if crate::text::str_eq(docs[i].0.as_str(), uri.as_str()) {
                let ghost tv = text@;
                docs.set(i, (uri, text));
                proof {
                    let d1 = docs@;
                    assert(doc_keys(d1) =~= doc_keys(d0));
                    lemma_unique_find(d0, k, i as int);
                    let m1 = doc_map(d1);
                    let m2 = doc_map(d0).insert(k, tv);
                    assert forall|x: Seq<char>| m1.contains_key(x) <==> m2.contains_key(x) by {}
                    assert forall|x: Seq<char>| #[trigger] m1.contains_key(x) implies m1[x] == m2[x] by {
                        lemma_find_key(doc_keys(d0), x, 0);
                        if x == k {
                            assert(d1[i as int].1@ == tv);
                        } else {
                            let f = find_key(doc_keys(d0), x, 0)->0;
                            assert(f != i);
                            assert(d1[f] == d0[f]);
                        }
                    }
                    assert(m1 =~= m2);
                }
                return;
            }
            i = i + 1;
        }
        docs.push((uri, text));
        proof {
            let d1 = docs@;
            assert(doc_keys(d1) =~= doc_keys(d0).push(k));
            crate::cost::lemma_find_key_exists(doc_keys(d0), k, 0);
            assert(find_key(doc_keys(d0), k, 0) is None);
            assert forall|x: Seq<char>| x != k implies find_key(doc_keys(d1), x, 0) == find_key(doc_keys(d0), x, 0) by {
                crate::tracecheck::lemma_find_key_push(doc_keys(d0), k, x, 0);
            }
            lemma_unique_find(d1, k, d0.len() as int);
            assert forall|x: Seq<char>| #[trigger] doc_map(d0).contains_key(x) && x != k implies
                d1[find_key(doc_keys(d0), x, 0)->0] == d0[find_key(doc_keys(d0), x, 0)->0] by {
                lemma_find_key(doc_keys(d0), x, 0);
            }
            assert(doc_map(docs@) =~= doc_map(d0).insert(k, text@));
        }
    }

/// Closes document `uri` in `docs`.
fn doc_remove(docs: &mut Vec<(String, String)>, uri: &str)
    requires
        keys_unique(old(docs)@),
    ensures
        keys_unique(final(docs)@),
        doc_map(final(docs)@) == doc_map(old(docs)@).remove(uri@),
    {
        let ghost d0 = docs@;
        let ghost k = uri@;
        let mut i: usize = 0;
        while i < docs.len()
            invariant
                i <= docs@.len(),
                docs@ == d0,
                d0 == old(docs)@,
                keys_unique(d0),
                k == uri@,
                forall|q: int| 0 <= q < i ==> docs@[q].0@ != k,
            decreases docs@.len() - i,
        {
            if crate::text::str_eq(docs[i].0.as_str(), uri) {
                let _old = docs.remove(i);
                proof {
                    let d1 = docs@;
                    assert(d1 =~= d0.remove(i as int));
                    assert forall|x: Seq<char>| #[trigger] doc_map(d1).contains_key(x) <==> doc_map(d0).contains_key(x) && x != k by {
                        crate::cost::lemma_find_key_exists(doc_keys(d1), x, 0);
                        crate::cost::lemma_find_key_exists(doc_keys(d0), x, 0);
                        if doc_map(d1).contains_key(x) {
                            let w = choose|w: int| 0 <= w < doc_keys(d1).len() && doc_keys(d1)[w] == x;
                            if w < i {
                                assert(doc_keys(d0)[w] == x);
                            } else {
                                assert(doc_keys(d0)[w + 1] == x);
                            }
                        }
                        if doc_map(d0).contains_key(x) && x != k {
                            let w = choose|w: int| 0 <= w < doc_keys(d0).len() && doc_keys(d0)[w] == x;
                            if w < i {
                                assert(doc_keys(d1)[w] == x);
                            } else {
                                assert(w != i);
                                assert(doc_keys(d1)[w - 1] == x);
                            }
                        }
                    }
                    assert forall|x: Seq<char>| #[trigger] doc_map(d1).contains_key(x) implies doc_map(d1)[x] == doc_map(d0)[x] by {
                        lemma_find_key(doc_keys(d1), x, 0);
                        let w = find_key(doc_keys(d1), x, 0)->0;
                        if w < i {
                            lemma_unique_find(d0, x, w);
                        } else {
                            lemma_unique_find(d0, x, w + 1);
                        }
                    }
                    assert(doc_map(docs@) =~= doc_map(d0).remove(k));
                }
                return;
            }
            i = i + 1;
        }
        proof {
            crate::cost::lemma_find_key_exists(doc_keys(d0), k, 0);
            assert(doc_map(docs@) =~= doc_map(d0).remove(k));
        }
    }

} // verus!

verus! {

/// The server's state as values.
pub struct LspV {
    pub docs: Map<Seq<char>, Seq<char>>,
    pub shutdown: bool,
    pub exit: Option<i32>,
}

impl Lsp {
    pub closed spec fn state(&self) -> LspV {
        LspV { docs: self.documents(), shutdown: self.shutdown, exit: self.exit }
    }
}

/// The text of a string value; empty for anything else or nothing.
pub open spec fn str_or_empty(j: Option<JsonV>) -> Seq<char> {
    match j {
        Some(JsonV::Str(s)) => s,
        _ => Seq::empty(),
    }
}

pub open spec fn or_null(j: Option<JsonV>) -> JsonV {
    match j {
        Some(v) => v,
        None => JsonV::Null,
    }
}

/// A number member read as `usize` (`as usize` of the float); 0 when it is
/// missing or not a number.
pub open spec fn usize_or_zero(j: Option<JsonV>) -> nat {
    match j {
        Some(JsonV::Num(n)) => usize_cast(n),
        _ => 0,
    }
}

/// The answer to `initialize`: the server's capabilities.
pub open spec fn init_result_v() -> JsonV {
    JsonV::Obj(
        seq!["capabilities"@],
        seq![
            JsonV::Obj(
                seq!["textDocumentSync"@, "hoverProvider"@, "definitionProvider"@, "completionProvider"@],
                seq![
                    num_j(1),
                    JsonV::Bool(true),
                    JsonV::Bool(true),
                    JsonV::Obj(seq!["triggerCharacters"@], seq![JsonV::Arr(Seq::empty())]),
                ],
            ),
        ],
    )
}

/// A response to `id` when the message has one; nothing for a
/// notification.
pub open spec fn reply_v(id: Option<JsonV>, result: JsonV) -> Seq<JsonV> {
    match id {
        Some(i) => seq![respond_v(i, result)],
        None => Seq::empty(),
    }
}

/// The URI of `params.textDocument.uri`.
pub open spec fn doc_uri(params: JsonV) -> Seq<char> {
    str_or_empty(member(or_null(member(params, "textDocument"@)), "uri"@))
}

/// The text of the first content change of `didChange`.
pub open spec fn change_text(params: JsonV) -> Seq<char> {
    str_or_empty(
        match member(params, "contentChanges"@) {
            Some(c) => match element(c, 0) {
                Some(x) => member(x, "text"@),
                None => None,
            },
            None => None,
        },
    )
}

pub open spec fn position_field(params: JsonV, k: Seq<char>) -> nat {
    usize_or_zero(member(or_null(member(params, "position"@)), k))
}

/// One incoming message handled: the next state and the messages to send
/// back. `initialize` answers the capabilities; `shutdown` is remembered;
/// `exit` sets the exit status (0 after a shutdown, else 1); document
/// opens and changes store the text and publish its diagnostics; a close
/// forgets it and publishes none; hover, definition and completion answer
/// from the stored text (null for an unknown document); other requests
/// get a method-not-found error, other notifications nothing.
pub open spec fn dispatch_v(st: LspV, msg: JsonV) -> (LspV, Seq<JsonV>) {
    let method = str_or_empty(member(msg, "method"@));
    let id = member(msg, "id"@);
    let params = or_null(member(msg, "params"@));
    if method == "initialize"@ {
        (st, reply_v(id, init_result_v()))
    } else if method == "initialized"@ || method == "$/cancelRequest"@ {
        (st, Seq::empty())
    } else if method == "shutdown"@ {
        (LspV { shutdown: true, ..st }, reply_v(id, JsonV::Null))
    } else if method == "exit"@ {
        (LspV { exit: Some(if st.shutdown { 0i32 } else { 1i32 }), ..st }, Seq::empty())
    } else if method == "textDocument/didOpen"@ {
        let doc = or_null(member(params, "textDocument"@));
        let uri = str_or_empty(member(doc, "uri"@));
        let text = str_or_empty(member(doc, "text"@));
        (LspV { docs: st.docs.insert(uri, text), ..st }, seq![notify_v(uri, diagnostics_v(text))])
    } else if method == "textDocument/didChange"@ {
        let uri = doc_uri(params);
        let text = change_text(params);
        (LspV { docs: st.docs.insert(uri, text), ..st }, seq![notify_v(uri, diagnostics_v(text))])
    } else if method == "textDocument/didClose"@ {
        let uri = doc_uri(params);
        (LspV { docs: st.docs.remove(uri), ..st }, seq![notify_v(uri, Seq::empty())])
    } else if method == "textDocument/hover"@ || method == "textDocument/definition"@ || method
        == "textDocument/completion"@ {
        let uri = doc_uri(params);
        let line = position_field(params, "line"@);
        let col = position_field(params, "character"@);
        if !st.docs.contains_key(uri) {
            (st, reply_v(id, JsonV::Null))
        } else {
            let src = st.docs[uri];
            let result = if method == "textDocument/hover"@ {
                hover_v(src, line as int, col as int)
            } else if method == "textDocument/definition"@ {
                definition_v(src, uri, line as int, col as int)
            } else {
                completions_v(src)
            };
            (st, reply_v(id, result))
        }
    } else {
        (
            st,
            match id {
                Some(i) => seq![
                    respond_error_v(i, num_neg(num_of(32601, 0)), "method not implemented: "@ + method),
                ],
                None => Seq::empty(),
            },
        )
    }
}

} // verus!

verus! {

pub open spec fn opt_json(j: Option<&Json>) -> Option<JsonV> {
    match j {
        Some(x) => Some(x@),
        None => None,
    }
}

fn str_of<'a>(j: Option<&'a Json>) -> (r: &'a str)
    ensures
        r@ == str_or_empty(opt_json(j)),
{
    proof {
        reveal_strlit("");
    }
    match j {
        Some(x) => match x.as_str() {
            Some(s) => s,
            None => "",
        },
        None => "",
    }
}

fn usize_of_field(j: Option<&Json>) -> (r: usize)
    ensures
        r as nat == usize_or_zero(opt_json(j)),
{
    match j {
        Some(x) => match x.as_num() {
            Some(n) => n.to_usize(),
            None => 0,
        },
        None => 0,
    }
}

fn reply(id: Option<&Json>, result: Json) -> (r: Vec<Json>)
    ensures
        json_views(r@) == reply_v(opt_json(id), result@),
{
    let mut out: Vec<Json> = Vec::new();
    match id {
        Some(i) => {
            out.push(respond(i, result));
            proof {
                assert(json_views(out@) =~= reply_v(opt_json(id), result@));
            }
        },
        None => {
            proof {
                assert(json_views(out@) =~= reply_v(opt_json(id), result@));
            }
        },
    }
    out
}

fn init_result() -> (r: Json)
    ensures
        r@ == init_result_v(),
{
    let trig = {
        let mut m: Vec<(String, Json)> = Vec::new();
        let e: Vec<Json> = Vec::new();
        proof {
            assert(json_views(e@) =~= Seq::<JsonV>::empty());
        }
        m.push(member_of("triggerCharacters", arr(e)));
        let t = obj(m);
        proof {
            assert(t@->Obj_0 =~= seq!["triggerCharacters"@]);
            assert(t@->Obj_1 =~= seq![JsonV::Arr(Seq::empty())]);
        }
        t
    };
    let mut c: Vec<(String, Json)> = Vec::new();
    c.push(member_of("textDocumentSync", num_json(1)));
    c.push(member_of("hoverProvider", Json::Bool(true)));
    c.push(member_of("definitionProvider", Json::Bool(true)));
    c.push(member_of("completionProvider", trig));
    let caps = obj(c);
    proof {
        assert(caps@->Obj_0 =~= init_result_v()->Obj_1[0]->Obj_0);
        assert(caps@->Obj_1 =~= init_result_v()->Obj_1[0]->Obj_1);
    }
    let mut m: Vec<(String, Json)> = Vec::new();
    m.push(member_of("capabilities", caps));
    let r = obj(m);
    proof {
        assert(r@->Obj_0 =~= seq!["capabilities"@]);
        assert(r@->Obj_1 =~= seq![init_result_v()->Obj_1[0]]);
    }
    r
}

fn one(j: Json) -> (r: Vec<Json>)
    ensures
        json_views(r@) == seq![j@],
{
    let mut out: Vec<Json> = Vec::new();
    out.push(j);
    proof {
        assert(json_views(out@) =~= seq![j@]);
    }
    out
}

impl Lsp {
    /// Handles one incoming message; returns the messages to send back.
    /// After `exit`, `exit_code` gives the status to end the process with.
    #[verifier::spinoff_prover]
    #[verifier::rlimit(100)]
    pub fn dispatch(&mut self, msg: &Json) -> (r: Vec<Json>)
        requires
            old(self).wf(),
        ensures
            final(self).wf(),
            (final(self).state(), json_views(r@)) == dispatch_v(old(self).state(), msg@),
    {
        let ghost st0 = self.state();
        let null = Json::Null;
        let method = str_of(msg.get("method"));
        let id = msg.get("id");
        let params: &Json = match msg.get("params") {
            Some(p) => p,
            None => &null,
        };
        proof {
            assert(params@ == or_null(member(msg@, "params"@)));
            assert(opt_json(id) == member(msg@, "id"@));
        }
        if crate::text::str_eq(method, "initialize") {
            reply(id, init_result())
        } else if crate::text::str_eq(method, "initialized") || crate::text::str_eq(method, "$/cancelRequest") {
            Vec::new()
        } else if crate::text::str_eq(method, "shutdown") {
            self.shutdown = true;
            proof {
                assert(self.documents() == st0.docs);
            }
            reply(id, Json::Null)
        } else if crate::text::str_eq(method, "exit") {
            self.exit = Some(if self.shutdown { 0 } else { 1 });
            Vec::new()
        } else if crate::text::str_eq(method, "textDocument/didOpen") {
            let doc: &Json = match params.get("textDocument") {
                Some(d) => d,
                None => &null,
            };
            let uri = str_of(doc.get("uri"));
            let text = str_of(doc.get("text"));
            let diags = diagnostics(text);
            self.set_doc(string_of(uri), string_of(text));
            one(notify_diagnostics(uri, diags))
        } else if crate::text::str_eq(method, "textDocument/didChange") {
            let uri = str_of(
                match params.get("textDocument") {
                    Some(d) => d.get("uri"),
                    None => None,
                },
            );
            let text = str_of(
                match params.get("contentChanges") {
                    Some(c) => match c.idx(0) {
                        Some(x) => x.get("text"),
                        None => None,
                    },
                    None => None,
                },
            );
            proof {
                assert(uri@ == doc_uri(params@));
                assert(text@ == change_text(params@));
            }
            let diags = diagnostics(text);
            self.set_doc(string_of(uri), string_of(text));
            one(notify_diagnostics(uri, diags))
        } else if crate::text::str_eq(method, "textDocument/didClose") {
            let uri = str_of(
                match params.get("textDocument") {
                    Some(d) => d.get("uri"),
                    None => None,
                },
            );
            proof {
                assert(uri@ == doc_uri(params@));
            }
            self.remove_doc(uri);
            let none: Vec<Json> = Vec::new();
            proof {
                assert(json_views(none@) =~= Seq::<JsonV>::empty());
            }
            one(notify_diagnostics(uri, none))
        } else if crate::text::str_eq(method, "textDocument/hover") || crate::text::str_eq(method, "textDocument/definition")
            || crate::text::str_eq(method, "textDocument/completion") {
            let uri = str_of(
                match params.get("textDocument") {
                    Some(d) => d.get("uri"),
                    None => None,
                },
            );
            let pos_obj = params.get("position");
            let line = usize_of_field(
                match pos_obj {
                    Some(p) => p.get("line"),
                    None => None,
                },
            );
            let col = usize_of_field(
                match pos_obj {
                    Some(p) => p.get("character"),
                    None => None,
                },
            );
            proof {
                assert(uri@ == doc_uri(params@));
                assert(line as nat == position_field(params@, "line"@));
                assert(col as nat == position_field(params@, "character"@));
            }
            match self.get_doc(uri) {
                None => reply(id, Json::Null),
                Some(src) => {
                    let result = if crate::text::str_eq(method, "textDocument/hover") {
                        hover(src.as_str(), line, col)
                    } else if crate::text::str_eq(method, "textDocument/definition") {
                        definition(src.as_str(), uri, line, col)
                    } else {
                        completions(src.as_str())
                    };
                    reply(id, result)
                },
            }
        } else {
            match id {
                Some(i) => {
                    let mut m = string_of("method not implemented: ");
                    push_str(&mut m, method);
                    one(respond_error(i, Num::from_usize(32601).neg(), m.as_str()))
                },
                None => Vec::new(),
            }
        }
    }
}

} // verus!

verus! {

/// The method of a message.
pub open spec fn method_of(msg: JsonV) -> Seq<char> {
    str_or_empty(member(msg, "method"@))
}

pub open spec fn params_of(msg: JsonV) -> JsonV {
    or_null(member(msg, "params"@))
}

/// What a hover reads is what the last open of the document wrote: after
/// `didOpen` of a URI with some text, a hover on that URI answers from that
/// text.
pub proof fn law_hover_reads_the_opened_text(st: LspV, open: JsonV, hov: JsonV)
    requires
        method_of(open) == "textDocument/didOpen"@,
        method_of(hov) == "textDocument/hover"@,
        doc_uri(params_of(hov)) == doc_uri(params_of(open)),
    ensures
        dispatch_v(dispatch_v(st, open).0, hov).1 == reply_v(
            member(hov, "id"@),
            hover_v(
                str_or_empty(member(or_null(member(params_of(open), "textDocument"@)), "text"@)),
                position_field(params_of(hov), "line"@) as int,
                position_field(params_of(hov), "character"@) as int,
            ),
        ),
{
    reveal_strlit("textDocument/didOpen");
    reveal_strlit("textDocument/hover");
    reveal_strlit("initialize");
    reveal_strlit("initialized");
    reveal_strlit("$/cancelRequest");
    reveal_strlit("shutdown");
    reveal_strlit("exit");
    reveal_strlit("textDocument/didChange");
    reveal_strlit("textDocument/didClose");
}

/// Full sync: after a change, the server holds the changed text for the
/// document and publishes that text's diagnostics.
pub proof fn law_change_replaces_the_text(st: LspV, msg: JsonV)
    requires
        method_of(msg) == "textDocument/didChange"@,
    ensures
        dispatch_v(st, msg).0.docs == st.docs.insert(doc_uri(params_of(msg)), change_text(params_of(msg))),
        dispatch_v(st, msg).1 == seq![
            notify_v(doc_uri(params_of(msg)), diagnostics_v(change_text(params_of(msg)))),
        ],
{
    reveal_strlit("textDocument/didChange");
    reveal_strlit("initialize");
    reveal_strlit("initialized");
    reveal_strlit("$/cancelRequest");
    reveal_strlit("shutdown");
    reveal_strlit("exit");
    reveal_strlit("textDocument/didOpen");
}

/// A closed document is forgotten: requests on it answer null.
pub proof fn law_closed_documents_answer_null(st: LspV, close: JsonV, req: JsonV)
    requires
        method_of(close) == "textDocument/didClose"@,
        method_of(req) == "textDocument/hover"@ || method_of(req) == "textDocument/definition"@
            || method_of(req) == "textDocument/completion"@,
        doc_uri(params_of(req)) == doc_uri(params_of(close)),
    ensures
        dispatch_v(dispatch_v(st, close).0, req).1 == reply_v(member(req, "id"@), JsonV::Null),
{
    reveal_strlit("textDocument/didClose");
    reveal_strlit("textDocument/hover");
    reveal_strlit("textDocument/definition");
    reveal_strlit("textDocument/completion");
    reveal_strlit("initialize");
    reveal_strlit("initialized");
    reveal_strlit("$/cancelRequest");
    reveal_strlit("shutdown");
    reveal_strlit("exit");
    reveal_strlit("textDocument/didOpen");
    reveal_strlit("textDocument/didChange");
}

/// A document that was never opened has nothing to show: hover, go to
/// definition and completion on it answer `null`. In particular a new
/// server answers so for every document.
pub proof fn law_unopened_documents_answer_null(st: LspV, req: JsonV)
    requires
        method_of(req) == "textDocument/hover"@ || method_of(req) == "textDocument/definition"@
            || method_of(req) == "textDocument/completion"@,
        !st.docs.dom().contains(doc_uri(params_of(req))),
    ensures
        dispatch_v(st, req).1 == reply_v(member(req, "id"@), JsonV::Null),
        dispatch_v(st, req).0 == st,
{
    reveal_strlit("textDocument/hover");
    reveal_strlit("textDocument/definition");
    reveal_strlit("textDocument/completion");
    reveal_strlit("initialize");
    reveal_strlit("initialized");
    reveal_strlit("$/cancelRequest");
    reveal_strlit("shutdown");
    reveal_strlit("exit");
    reveal_strlit("textDocument/didOpen");
    reveal_strlit("textDocument/didChange");
    reveal_strlit("textDocument/didClose");
}

/// The methods the server handles.
pub open spec fn known_method(m: Seq<char>) -> bool {
    ||| m == "initialize"@ || m == "initialized"@ || m == "$/cancelRequest"@ || m == "shutdown"@
    ||| m == "exit"@ || m == "textDocument/didOpen"@ || m == "textDocument/didChange"@
    ||| m == "textDocument/didClose"@ || m == "textDocument/hover"@ || m == "textDocument/definition"@
    ||| m == "textDocument/completion"@
}

/// Any other method changes nothing: a request is answered with error
/// -32601 naming the method, a notification (no `id`) with nothing.
pub proof fn law_unknown_methods_are_not_implemented(st: LspV, msg: JsonV)
    requires
        !known_method(method_of(msg)),
    ensures
        dispatch_v(st, msg).0 == st,
        dispatch_v(st, msg).1 == match member(msg, "id"@) {
            Some(i) => seq![
                respond_error_v(i, num_neg(num_of(32601, 0)), "method not implemented: "@ + method_of(msg)),
            ],
            None => Seq::<JsonV>::empty(),
        },
{
}

/// `exit` ends with status 0 exactly when a shutdown was requested before.
pub proof fn law_exit_status_follows_shutdown(st: LspV, msg: JsonV)
    requires
        method_of(msg) == "exit"@,
    ensures
        dispatch_v(st, msg).0.exit == Some(if st.shutdown { 0i32 } else { 1i32 }),
        dispatch_v(st, msg).1.len() == 0,
{
    reveal_strlit("exit");
    reveal_strlit("initialize");
    reveal_strlit("initialized");
    reveal_strlit("$/cancelRequest");
    reveal_strlit("shutdown");
}

} // verus!
