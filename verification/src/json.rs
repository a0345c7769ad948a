//! Minimal JSON values: parser, writer and accessors.

use vstd::prelude::*;
use crate::decimal::{display_v, Num, NumV};
use crate::decimal::{lit_ok, lit_value, is_digit, canonical, digits_end, lit_pos, sign_len, sign_str, be_val, signed, num_of, lemma_be_val_digit_str, lemma_num_of_whole, lemma_num_of_canonical};
use crate::text::{byte_off, byte_len, byte_offset, chars_of, nat_str, push_char, push_chars, push_str, push_usize, string_of, char_from_u32};

verus! {

/// A JSON value.
#[derive(Debug)]
pub enum Json {
    Null,
    Bool(bool),
    Num(Num),
    Str(String),
    Arr(Vec<Json>),
    Obj(Vec<(String, Json)>),
}

/// The mathematical value of a `Json`.
pub enum JsonV {
    Null,
    Bool(bool),
    Num(NumV),
    Str(Seq<char>),
    Arr(Seq<JsonV>),
    /// Keys and values, in order.
    Obj(Seq<Seq<char>>, Seq<JsonV>),
}

impl View for Json {
    type V = JsonV;

    open spec fn view(&self) -> JsonV
        decreases self,
    {
        match self {
            Json::Null => JsonV::Null,
            Json::Bool(b) => JsonV::Bool(*b),
            Json::Num(n) => JsonV::Num(n@),
            Json::Str(s) => JsonV::Str(s@),
            Json::Arr(xs) => JsonV::Arr(
                Seq::new(
                    xs@.len(),
                    |i: int|
                        if 0 <= i < xs@.len() {
                            xs@[i].view()
                        } else {
                            JsonV::Null
                        },
                ),
            ),
            Json::Obj(m) => JsonV::Obj(
                Seq::new(m@.len(), |i: int| m@[i].0@),
                Seq::new(
                    m@.len(),
                    |i: int|
                        if 0 <= i < m@.len() {
                            m@[i].1.view()
                        } else {
                            JsonV::Null
                        },
                ),
            ),
        }
    }
}

/// Lower-case hexadecimal digit.
pub open spec fn hex_digit(d: nat) -> char {
    if d < 10 {
        (d + 48) as char
    } else {
        (d + 87) as char
    }
}

/// How one character is written inside a JSON string literal.
pub open spec fn esc_char(c: char) -> Seq<char> {
    if c == '"' {
        seq!['\\', '"']
    } else if c == '\\' {
        seq!['\\', '\\']
    } else if c == '\n' {
        seq!['\\', 'n']
    } else if c == '\r' {
        seq!['\\', 'r']
    } else if c == '\t' {
        seq!['\\', 't']
    } else if (c as u32) < 0x20 {
        seq![
            '\\',
            'u',
            '0',
            '0',
            hex_digit((c as u32 / 16) as nat),
            hex_digit((c as u32 % 16) as nat),
        ]
    } else {
        seq![c]
    }
}

/// The contents of `s` escaped for a JSON string literal.
pub open spec fn escape_v(s: Seq<char>) -> Seq<char>
    decreases s.len(),
{
    if s.len() == 0 {
        Seq::<char>::empty()
    } else {
        escape_v(s.drop_last()) + esc_char(s.last())
    }
}

fn push_hex(out: &mut String, d: u32)
    requires
        d < 16,
    ensures
        final(out)@ == old(out)@.push(hex_digit(d as nat)),
{
    if d < 10 {
        push_char(out, ((d + 48) as u8) as char);
    } else {
        push_char(out, ((d + 87) as u8) as char);
    }
}

/// Appends `esc_char(c)`.
fn push_escaped(out: &mut String, c: char)
    ensures
        final(out)@ == old(out)@ + esc_char(c),
{
    let ghost o = out@;
    if c == '"' {
        push_char(out, '\\');
        push_char(out, '"');
    } else if c == '\\' {
        push_char(out, '\\');
        push_char(out, '\\');
    } else if c == '\n' {
        push_char(out, '\\');
        push_char(out, 'n');
    } else if c == '\r' {
        push_char(out, '\\');
        push_char(out, 'r');
    } else if c == '\t' {
        push_char(out, '\\');
        push_char(out, 't');
    } else if (c as u32) < 0x20 {
        push_char(out, '\\');
        push_char(out, 'u');
        push_char(out, '0');
        push_char(out, '0');
        push_hex(out, c as u32 / 16);
        push_hex(out, c as u32 % 16);
    } else {
        push_char(out, c);
    }
    assert(out@ =~= o + esc_char(c));
}

/// Appends `escape_v(s)`.
fn push_escape(out: &mut String, s: &str)
    ensures
        final(out)@ == old(out)@ + escape_v(s@),
{
    let cs = chars_of(s);
    let ghost o = out@;
    let mut i: usize = 0;
    while i < cs.len()
        invariant
            i <= cs@.len(),
            cs@ == s@,
            out@ == o + escape_v(cs@.subrange(0, i as int)),
        decreases cs@.len() - i,
    {
        push_escaped(out, cs[i]);
        proof {
            let t = cs@.subrange(0, i + 1);
            assert(t.drop_last() =~= cs@.subrange(0, i as int));
        }
        i = i + 1;
    }
    assert(cs@.subrange(0, i as int) =~= s@);
}

/// Escape a string's contents for embedding in a JSON string literal.
pub fn escape(s: &str) -> (r: String)
    ensures
        r@ == escape_v(s@),
{
    let mut out = String::new();
    push_escape(&mut out, s);
    out
}

pub open spec fn quote(s: Seq<char>) -> Seq<char> {
    seq!['"'] + s + seq!['"']
}

/// The text `dumps` writes for a value.
pub open spec fn dumps_v(v: JsonV) -> Seq<char>
    decreases v, 0nat,
{
    match v {
        JsonV::Null => seq!['n', 'u', 'l', 'l'],
        JsonV::Bool(b) => if b {
            seq!['t', 'r', 'u', 'e']
        } else {
            seq!['f', 'a', 'l', 's', 'e']
        },
        JsonV::Num(n) => display_v(n),
        JsonV::Str(s) => quote(escape_v(s)),
        JsonV::Arr(xs) => seq!['['] + items_v(xs, xs.len()) + seq![']'],
        JsonV::Obj(ks, vs) => seq!['{'] + entries_v(ks, vs, vs.len()) + seq!['}'],
    }
}

/// The first `n` elements, written and separated by `", "`.
pub open spec fn items_v(xs: Seq<JsonV>, n: nat) -> Seq<char>
    decreases xs, n,
{
    if n == 0 || n > xs.len() {
        Seq::<char>::empty()
    } else if n == 1 {
        dumps_v(xs[0])
    } else {
        items_v(xs, (n - 1) as nat) + seq![',', ' '] + dumps_v(xs[n - 1])
    }
}

/// The first `n` entries as `"key": value`, separated by `", "`.
pub open spec fn entries_v(ks: Seq<Seq<char>>, vs: Seq<JsonV>, n: nat) -> Seq<char>
    decreases vs, n,
{
    if n == 0 || n > vs.len() {
        Seq::<char>::empty()
    } else if n == 1 {
        quote(escape_v(ks[0])) + seq![':', ' '] + dumps_v(vs[0])
    } else {
        entries_v(ks, vs, (n - 1) as nat) + seq![',', ' '] + quote(escape_v(ks[n - 1])) + seq![
            ':',
            ' ',
        ] + dumps_v(vs[n - 1])
    }
}

/// Appends `dumps_v(v@)`.
#[verifier::loop_isolation(false)]
#[verifier::spinoff_prover]
#[verifier::rlimit(100)]
pub fn push_dumps(out: &mut String, v: &Json)
    ensures
        final(out)@ == old(out)@ + dumps_v(v@),
        nums_canonical(v@),
    decreases v,
{
    let ghost o = out@;
    match v {
        Json::Null => {
            push_str(out, "null");
            proof {
                reveal_strlit("null");
            }
            assert(out@ =~= o + dumps_v(v@));
        },
        Json::Bool(b) => {
            if *b {
                push_str(out, "true");
                proof {
                    reveal_strlit("true");
                }
            } else {
                push_str(out, "false");
                proof {
                    reveal_strlit("false");
                }
            }
            assert(out@ =~= o + dumps_v(v@));
        },
        Json::Num(n) => {
            n.write_display(out);
        },
        Json::Str(s) => {
            push_char(out, '"');
            push_escape(out, s.as_str());
            push_char(out, '"');
            assert(out@ =~= o + dumps_v(v@));
        },
        Json::Arr(xs) => {
            let ghost vs = match v@ {
                JsonV::Arr(vs) => vs,
                _ => Seq::<JsonV>::empty(),
            };
            push_char(out, '[');
            let mut i: usize = 0;
            while i < xs.len()
                invariant
                    i <= xs@.len() == vs.len(),
                    v@ == JsonV::Arr(vs),
                    forall|j: int| 0 <= j < xs@.len() ==> vs[j] == #[trigger] xs@[j]@,
                    out@ == o + seq!['['] + items_v(vs, i as nat),
                    all_canonical(vs, i as nat),
                decreases xs@.len() - i,
            {
                if i > 0 {
                    push_char(out, ',');
                    push_char(out, ' ');
                }
                push_dumps(out, &xs[i]);
                assert(nums_canonical(vs[i as int]));
                i = i + 1;
                assert(all_canonical(vs, i as nat));
                assert(out@ =~= o + seq!['['] + items_v(vs, i as nat));
            }
            push_char(out, ']');
            assert(out@ =~= o + dumps_v(v@));
        },
        Json::Obj(m) => {
            let ghost ks = v@->Obj_0;
            let ghost vs = v@->Obj_1;
            push_char(out, '{');
            let mut i: usize = 0;
            while i < m.len()
                invariant
                    i <= m@.len() == vs.len() == ks.len(),
                    forall|j: int| 0 <= j < m@.len() ==> ks[j] == (#[trigger] m@[j]).0@,
                    forall|j: int| 0 <= j < m@.len() ==> vs[j] == (#[trigger] m@[j]).1@,
                    out@ == o + seq!['{'] + entries_v(ks, vs, i as nat),
                    v@ == JsonV::Obj(ks, vs),
                    all_canonical(vs, i as nat),
                decreases m@.len() - i,
            {
                if i > 0 {
                    push_char(out, ',');
                    push_char(out, ' ');
                }
                push_char(out, '"');
                push_escape(out, m[i].0.as_str());
                push_char(out, '"');
                push_char(out, ':');
                push_char(out, ' ');
                push_dumps(out, &m[i].1);
                assert(nums_canonical(vs[i as int]));
                i = i + 1;
                assert(all_canonical(vs, i as nat));
                assert(out@ =~= o + seq!['{'] + entries_v(ks, vs, i as nat));
            }
            push_char(out, '}');
            assert(out@ =~= o + dumps_v(v@));
        },
    }
}

/// Writes a value as JSON text.
pub fn dumps(v: &Json) -> (r: String)
    ensures
        r@ == dumps_v(v@),
        nums_finite(v@) ==> parse_v(r@) == Ok::<JsonV, Seq<char>>(v@),
{
    let mut out = String::new();
    push_dumps(&mut out, v);
    proof {
        assert(out@ =~= dumps_v(v@));
        if nums_finite(v@) {
            lemma_wf_of_canonical_finite(v@);
            law_dumps_then_parse_is_identity(v@);
        }
    }
    out
}

} // verus!

verus! {

/// What parsing a value from a position gives: the value and the position
/// after it, or an error message.
pub enum PRes {
    Parsed(JsonV, int),
    Failed(Seq<char>),
}

/// What parsing a string literal gives: its contents and the position after
/// it, or an error message.
pub enum SRes {
    Parsed(Seq<char>, int),
    Failed(Seq<char>),
}

pub open spec fn is_json_ws(c: char) -> bool {
    c == ' ' || c == '\t' || c == '\n' || c == '\r'
}

/// The first position at or after `i` that holds no JSON whitespace.
pub open spec fn skip_ws(t: Seq<char>, i: int) -> int
    decreases t.len() - i,
{
    if 0 <= i < t.len() && is_json_ws(t[i]) {
        skip_ws(t, i + 1)
    } else {
        i
    }
}

pub proof fn lemma_skip_ws(t: Seq<char>, i: int)
    requires
        0 <= i <= t.len(),
    ensures
        i <= skip_ws(t, i) <= t.len(),
        skip_ws(t, i) < t.len() ==> !is_json_ws(t[skip_ws(t, i)]),
    decreases t.len() - i,
{
    if i < t.len() && is_json_ws(t[i]) {
        lemma_skip_ws(t, i + 1);
    }
}

/// `prefix` followed by the byte offset of position `i`.
pub open spec fn at_byte(prefix: Seq<char>, t: Seq<char>, i: int) -> Seq<char> {
    prefix + nat_str(byte_off(t, i))
}

/// `expected 'c' at byte N`.
pub open spec fn expected_msg(c: char, t: Seq<char>, i: int) -> Seq<char> {
    "expected '"@ + seq![c] + at_byte("' at byte "@, t, i)
}

/// A character that can occur in a number token.
pub open spec fn is_num_char(c: char) -> bool {
    is_digit(c) || c == '-' || c == '+' || c == '.' || c == 'e' || c == 'E'
}

/// End of the number token starting at `i`.
pub open spec fn num_end(t: Seq<char>, i: int) -> int
    decreases t.len() - i,
{
    if 0 <= i < t.len() && is_num_char(t[i]) {
        num_end(t, i + 1)
    } else {
        i
    }
}

pub open spec fn is_hex(c: char) -> bool {
    ('0' <= c <= '9') || ('a' <= c <= 'f') || ('A' <= c <= 'F')
}

pub open spec fn hex_val(c: char) -> nat {
    if '0' <= c <= '9' {
        (c as int - '0' as int) as nat
    } else if 'a' <= c <= 'f' {
        (c as int - 'a' as int + 10) as nat
    } else {
        (c as int - 'A' as int + 10) as nat
    }
}

/// The four characters at `k` are what `u32::from_str_radix(_, 16)`
/// accepts: hex digits, the first of which may be a `+` sign.
pub open spec fn hex4_ok(t: Seq<char>, k: int) -> bool {
    &&& 0 <= k
    &&& k + 4 <= t.len()
    &&& is_hex(t[k]) || t[k] == '+'
    &&& is_hex(t[k + 1])
    &&& is_hex(t[k + 2])
    &&& is_hex(t[k + 3])
}

pub open spec fn hex4_val(t: Seq<char>, k: int) -> nat {
    (if t[k] == '+' {
        0
    } else {
        hex_val(t[k])
    }) * 4096 + hex_val(t[k + 1]) * 256 + hex_val(t[k + 2]) * 16 + hex_val(t[k + 3])
}

/// The character a `\u` escape stands for (a surrogate becomes U+FFFD).
pub open spec fn u_char(cp: nat) -> char {
    if 0xD800 <= cp <= 0xDFFF {
        '\u{FFFD}'
    } else {
        cp as char
    }
}

/// The character a one-letter escape stands for.
pub open spec fn esc_of(c: char) -> Option<char> {
    if c == '"' {
        Some('"')
    } else if c == '\\' {
        Some('\\')
    } else if c == '/' {
        Some('/')
    } else if c == 'n' {
        Some('\n')
    } else if c == 'r' {
        Some('\r')
    } else if c == 't' {
        Some('\t')
    } else if c == 'b' {
        Some('\u{8}')
    } else if c == 'f' {
        Some('\u{c}')
    } else {
        None
    }
}

/// The rest of a string literal from `i` (after its opening quote), with
/// `acc` read so far.
pub open spec fn p_chars(t: Seq<char>, i: int, acc: Seq<char>) -> SRes
    decreases t.len() - i,
{
    if i < 0 || i >= t.len() {
        SRes::Failed("unterminated string"@)
    } else if t[i] == '"' {
        SRes::Parsed(acc, i + 1)
    } else if t[i] == '\\' {
        let k = i + 1;
        if k < t.len() && t[k] == 'u' {
            if hex4_ok(t, k + 1) {
                p_chars(t, k + 5, acc.push(u_char(hex4_val(t, k + 1))))
            } else {
                SRes::Failed("bad \\u escape"@)
            }
        } else if k < t.len() && esc_of(t[k]) is Some {
            p_chars(t, k + 1, acc.push(esc_of(t[k])->0))
        } else {
            SRes::Failed(at_byte("bad escape at byte "@, t, k))
        }
    } else {
        p_chars(t, i + 1, acc.push(t[i]))
    }
}

/// A string literal, after whitespace, at `i`.
pub open spec fn p_string(t: Seq<char>, i: int) -> SRes {
    let j = skip_ws(t, i);
    if 0 <= j < t.len() && t[j] == '"' {
        p_chars(t, j + 1, Seq::empty())
    } else {
        SRes::Failed(expected_msg('"', t, j))
    }
}

/// The keyword `w` at `j`, standing for `v`.
pub open spec fn p_lit(t: Seq<char>, j: int, w: Seq<char>, v: JsonV) -> PRes {
    if 0 <= j && j + w.len() <= t.len() && t.subrange(j, j + w.len()) == w {
        PRes::Parsed(v, j + w.len())
    } else {
        PRes::Failed(at_byte("invalid literal at byte "@, t, j))
    }
}

/// A number token at `j`.
pub open spec fn p_num(t: Seq<char>, j: int) -> PRes {
    let k = num_end(t, j);
    let s = t.subrange(j, k);
    if lit_ok(s) {
        PRes::Parsed(JsonV::Num(lit_value(s)), k)
    } else {
        PRes::Failed("invalid number '"@ + s + at_byte("' at byte "@, t, j))
    }
}

/// A value, after whitespace, at `i`.
pub open spec fn p_value(t: Seq<char>, i: int) -> PRes
    decreases t.len() - i, 2int,
{
    if i < 0 || i > t.len() {
        PRes::Failed(Seq::empty())
    } else {
        let j = skip_ws(t, i);
        proof {
            lemma_skip_ws(t, i);
        }
        if j >= t.len() {
            PRes::Failed("unexpected end of input"@)
        } else if t[j] == '{' {
            p_obj(t, j)
        } else if t[j] == '[' {
            p_arr(t, j)
        } else if t[j] == '"' {
            match p_string(t, j) {
                SRes::Parsed(s, k) => PRes::Parsed(JsonV::Str(s), k),
                SRes::Failed(m) => PRes::Failed(m),
            }
        } else if t[j] == 't' {
            p_lit(t, j, "true"@, JsonV::Bool(true))
        } else if t[j] == 'f' {
            p_lit(t, j, "false"@, JsonV::Bool(false))
        } else if t[j] == 'n' {
            p_lit(t, j, "null"@, JsonV::Null)
        } else {
            p_num(t, j)
        }
    }
}

/// An object whose `{` is at `j`.
pub open spec fn p_obj(t: Seq<char>, j: int) -> PRes
    decreases t.len() - j, 1int,
{
    if j < 0 || j >= t.len() {
        PRes::Failed(Seq::empty())
    } else {
        let k = skip_ws(t, j + 1);
        proof {
            lemma_skip_ws(t, j + 1);
        }
        if k < t.len() && t[k] == '}' {
            PRes::Parsed(JsonV::Obj(Seq::empty(), Seq::empty()), k + 1)
        } else {
            p_members(t, k, Seq::empty(), Seq::empty())
        }
    }
}

/// The members of an object from `i` on, with keys `ks` and values `vs`
/// read so far.
pub open spec fn p_members(t: Seq<char>, i: int, ks: Seq<Seq<char>>, vs: Seq<JsonV>) -> PRes
    decreases t.len() - i, 3int,
{
    if i < 0 || i > t.len() {
        PRes::Failed(Seq::empty())
    } else {
        match p_string(t, i) {
            SRes::Failed(m) => PRes::Failed(m),
            SRes::Parsed(key, k1) => {
                if k1 <= i || k1 > t.len() {
                    PRes::Failed(Seq::empty())
                } else {
                    let k2 = skip_ws(t, k1);
                    proof {
                        lemma_skip_ws(t, k1);
                    }
                    if !(k2 < t.len() && t[k2] == ':') {
                        PRes::Failed(expected_msg(':', t, k2))
                    } else {
                        match p_value(t, k2 + 1) {
                            PRes::Failed(m) => PRes::Failed(m),
                            PRes::Parsed(v, k3) => {
                                if k3 < i || k3 > t.len() {
                                    PRes::Failed(Seq::empty())
                                } else {
                                    let k4 = skip_ws(t, k3);
                                    proof {
                                        lemma_skip_ws(t, k3);
                                    }
                                    if k4 < t.len() && t[k4] == ',' {
                                        p_members(t, k4 + 1, ks.push(key), vs.push(v))
                                    } else if k4 < t.len() && t[k4] == '}' {
                                        PRes::Parsed(JsonV::Obj(ks.push(key), vs.push(v)), k4 + 1)
                                    } else {
                                        PRes::Failed(at_byte("expected ',' or '}' at byte "@, t, k4))
                                    }
                                }
                            },
                        }
                    }
                }
            },
        }
    }
}

/// An array whose `[` is at `j`.
pub open spec fn p_arr(t: Seq<char>, j: int) -> PRes
    decreases t.len() - j, 1int,
{
    if j < 0 || j >= t.len() {
        PRes::Failed(Seq::empty())
    } else {
        let k = skip_ws(t, j + 1);
        proof {
            lemma_skip_ws(t, j + 1);
        }
        if k < t.len() && t[k] == ']' {
            PRes::Parsed(JsonV::Arr(Seq::empty()), k + 1)
        } else {
            p_elems(t, k, Seq::empty())
        }
    }
}

/// The elements of an array from `i` on, with `xs` read so far.
pub open spec fn p_elems(t: Seq<char>, i: int, xs: Seq<JsonV>) -> PRes
    decreases t.len() - i, 3int,
{
    if i < 0 || i > t.len() {
        PRes::Failed(Seq::empty())
    } else {
        match p_value(t, i) {
            PRes::Failed(m) => PRes::Failed(m),
            PRes::Parsed(v, k) => {
                if k < i || k > t.len() {
                    PRes::Failed(Seq::empty())
                } else {
                    let k2 = skip_ws(t, k);
                    proof {
                        lemma_skip_ws(t, k);
                    }
                    if k2 < t.len() && t[k2] == ',' {
                        p_elems(t, k2 + 1, xs.push(v))
                    } else if k2 < t.len() && t[k2] == ']' {
                        PRes::Parsed(JsonV::Arr(xs.push(v)), k2 + 1)
                    } else {
                        PRes::Failed(at_byte("expected ',' or ']' at byte "@, t, k2))
                    }
                }
            },
        }
    }
}

/// What `parse` gives for the text `t`.
pub open spec fn parse_v(t: Seq<char>) -> Result<JsonV, Seq<char>> {
    match p_value(t, 0) {
        PRes::Parsed(v, k) => {
            let k2 = skip_ws(t, k);
            if k2 != t.len() {
                Err(at_byte("trailing data at byte "@, t, k2))
            } else {
                Ok(v)
            }
        },
        PRes::Failed(m) => Err(m),
    }
}

} // verus!

verus! {

pub open spec fn keys_of(m: Seq<(String, Json)>) -> Seq<Seq<char>> {
    Seq::new(m.len(), |i: int| m[i].0@)
}

pub open spec fn vals_of(m: Seq<(String, Json)>) -> Seq<JsonV> {
    Seq::new(m.len(), |i: int| if 0 <= i < m.len() { m[i].1@ } else { JsonV::Null })
}

pub open spec fn views_of(xs: Seq<Json>) -> Seq<JsonV> {
    Seq::new(xs.len(), |i: int| if 0 <= i < xs.len() { xs[i]@ } else { JsonV::Null })
}

proof fn lemma_lit_ok_nonempty(s: Seq<char>)
    requires
        lit_ok(s),
    ensures
        s.len() > 0,
{
    if s.len() == 0 {
        assert(crate::decimal::digits_end(s, 0) == 0);
        assert(crate::decimal::sign_len(s, 0) == 0);
    }
}

/// `skip_ws`, computed.
fn ws(t: &Vec<char>, i: usize) -> (k: usize)
    requires
        i <= t@.len(),
    ensures
        k == skip_ws(t@, i as int),
        i <= k <= t@.len(),
        k < t@.len() ==> !is_json_ws(t@[k as int]),
{
    proof {
        lemma_skip_ws(t@, i as int);
    }
    let mut k = i;
    while k < t.len() && (t[k] == ' ' || t[k] == '\t' || t[k] == '\n' || t[k] == '\r')
        invariant
            i <= k <= t@.len(),
            skip_ws(t@, k as int) == skip_ws(t@, i as int),
        decreases t@.len() - k,
    {
        k = k + 1;
    }
    k
}

/// `prefix` followed by the byte offset of position `i`.
fn msg_at(prefix: &str, t: &Vec<char>, i: usize) -> (r: String)
    requires
        i <= t@.len(),
        byte_len(t@) <= usize::MAX,
    ensures
        r@ == at_byte(prefix@, t@, i as int),
{
    let mut r = string_of(prefix);
    let b = byte_offset(t, i);
    push_usize(&mut r, b);
    r
}

fn expected(c: char, t: &Vec<char>, i: usize) -> (r: String)
    requires
        i <= t@.len(),
        byte_len(t@) <= usize::MAX,
    ensures
        r@ == expected_msg(c, t@, i as int),
{
    let mut r = string_of("expected '");
    push_char(&mut r, c);
    let rest = msg_at("' at byte ", t, i);
    push_str(&mut r, rest.as_str());
    proof {
        assert(r@ =~= expected_msg(c, t@, i as int));
    }
    r
}

fn hex_x(c: char) -> (r: Option<u32>)
    ensures
        r is Some <==> is_hex(c),
        r matches Some(v) ==> v == hex_val(c) && v < 16,
{
    if '0' <= c && c <= '9' {
        Some(c as u32 - '0' as u32)
    } else if 'a' <= c && c <= 'f' {
        Some(c as u32 - 'a' as u32 + 10)
    } else if 'A' <= c && c <= 'F' {
        Some(c as u32 - 'A' as u32 + 10)
    } else {
        None
    }
}

/// The value of the `\u` escape digits at `k`, if they are well formed.
fn hex4_x(t: &Vec<char>, k: usize) -> (r: Option<u32>)
    requires
        k <= t@.len(),
    ensures
        r is Some <==> hex4_ok(t@, k as int),
        r matches Some(v) ==> v == hex4_val(t@, k as int) && v <= 0xFFFF,
{
    if t.len() - k < 4 {
        return None;
    }
    let d0: u32 = if t[k] == '+' {
        0
    } else {
        match hex_x(t[k]) {
            Some(v) => v,
            None => {
                return None;
            },
        }
    };
    let d1 = match hex_x(t[k + 1]) {
        Some(v) => v,
        None => {
            return None;
        },
    };
    let d2 = match hex_x(t[k + 2]) {
        Some(v) => v,
        None => {
            return None;
        },
    };
    let d3 = match hex_x(t[k + 3]) {
        Some(v) => v,
        None => {
            return None;
        },
    };
    Some(d0 * 4096 + d1 * 256 + d2 * 16 + d3)
}

fn u_char_x(cp: u32) -> (c: char)
    requires
        cp <= 0xFFFF,
    ensures
        c == u_char(cp as nat),
{
    if 0xD800 <= cp && cp <= 0xDFFF {
        '\u{FFFD}'
    } else {
        match char_from_u32(cp) {
            Some(c) => c,
            None => '\u{FFFD}',
        }
    }
}

/// A string literal, after whitespace, at `i`.
fn string_x(t: &Vec<char>, i: usize) -> (r: Result<(String, usize), String>)
    requires
        i <= t@.len(),
        byte_len(t@) <= usize::MAX,
    ensures
        match r {
            Ok(x) => p_string(t@, i as int) == SRes::Parsed(x.0@, x.1 as int) && i < x.1
                <= t@.len(),
            Err(m) => p_string(t@, i as int) == SRes::Failed(m@),
        },
{
    let j = ws(t, i);
    if !(j < t.len() && t[j] == '"') {
        return Err(expected('"', t, j));
    }
    let mut out = String::new();
    let mut k = j + 1;
    loop
        invariant
            j < k <= t@.len(),
            i <= j,
            byte_len(t@) <= usize::MAX,
            p_chars(t@, k as int, out@) == p_string(t@, i as int),
        decreases t@.len() - k,
    {
        if k >= t.len() {
            return Err(string_of("unterminated string"));
        }
        let c = t[k];
        if c == '"' {
            return Ok((out, k + 1));
        } else if c == '\\' {
            let e = k + 1;
            if e < t.len() && t[e] == 'u' {
                match hex4_x(t, e + 1) {
                    Some(cp) => {
                        push_char(&mut out, u_char_x(cp));
                        k = e + 5;
                    },
                    None => {
                        return Err(string_of("bad \\u escape"));
                    },
                }
            } else {
                let m: Option<char> = if e >= t.len() {
                    None
                } else {
                    let d = t[e];
                    if d == '"' {
                        Some('"')
                    } else if d == '\\' {
                        Some('\\')
                    } else if d == '/' {
                        Some('/')
                    } else if d == 'n' {
                        Some('\n')
                    } else if d == 'r' {
                        Some('\r')
                    } else if d == 't' {
                        Some('\t')
                    } else if d == 'b' {
                        Some('\u{8}')
                    } else if d == 'f' {
                        Some('\u{c}')
                    } else {
                        None
                    }
                };
                match m {
                    Some(x) => {
                        push_char(&mut out, x);
                        k = e + 1;
                    },
                    None => {
                        return Err(msg_at("bad escape at byte ", t, e));
                    },
                }
            }
        } else {
            push_char(&mut out, c);
            k = k + 1;
        }
    }
}

/// A keyword at `j`.
fn lit_x(t: &Vec<char>, j: usize, word: &str, v: Json) -> (r: Result<(Json, usize), String>)
    requires
        j < t@.len(),
        byte_len(t@) <= usize::MAX,
        word@.len() > 0,
    ensures
        match r {
            Ok(x) => p_lit(t@, j as int, word@, v@) == PRes::Parsed(x.0@, x.1 as int) && j < x.1
                <= t@.len(),
            Err(m) => p_lit(t@, j as int, word@, v@) == PRes::Failed(m@),
        },
{
    let w = chars_of(word);
    let n = w.len();
    let tl = t.len();
    if tl - j < n {
        return Err(msg_at("invalid literal at byte ", t, j));
    }
    let mut q: usize = 0;
    while q < n
        invariant
            q <= n == w@.len() == word@.len(),
            w@ == word@,
            j + n <= tl == t@.len(),
            j < t@.len(),
            byte_len(t@) <= usize::MAX,
            forall|p: int| 0 <= p < q ==> t@[j + p] == w@[p],
        decreases n - q,
    {
        if t[j + q] != w[q] {
            proof {
                assert(t@.subrange(j as int, j + n)[q as int] != word@[q as int]);
            }
            return Err(msg_at("invalid literal at byte ", t, j));
        }
        q = q + 1;
    }
    proof {
        assert(t@.subrange(j as int, j + n) =~= word@);
    }
    Ok((v, j + n))
}

/// A number token at `j`.
fn num_x(t: &Vec<char>, j: usize) -> (r: Result<(Json, usize), String>)
    requires
        j <= t@.len(),
        byte_len(t@) <= usize::MAX,
    ensures
        match r {
            Ok(x) => p_num(t@, j as int) == PRes::Parsed(x.0@, x.1 as int) && j < x.1 <= t@.len(),
            Err(m) => p_num(t@, j as int) == PRes::Failed(m@),
        },
{
    let mut k = j;
    let mut s: Vec<char> = Vec::new();
    while k < t.len() && (('0' <= t[k] && t[k] <= '9') || t[k] == '-' || t[k] == '+' || t[k] == '.'
        || t[k] == 'e' || t[k] == 'E')
        invariant
            j <= k <= t@.len(),
            num_end(t@, k as int) == num_end(t@, j as int),
            s@ == t@.subrange(j as int, k as int),
        decreases t@.len() - k,
    {
        s.push(t[k]);
        k = k + 1;
        assert(s@ =~= t@.subrange(j as int, k as int));
    }
    match crate::decimal::Num::parse_literal(&s) {
        Some(n) => {
            proof {
                lemma_lit_ok_nonempty(s@);
            }
            Ok((Json::Num(n), k))
        },
        None => {
            let mut m = string_of("invalid number '");
            push_chars(&mut m, &s, 0, s.len());
            let rest = msg_at("' at byte ", t, j);
            push_str(&mut m, rest.as_str());
            proof {
                assert(s@.subrange(0, s@.len() as int) =~= s@);
                assert(m@ =~= "invalid number '"@ + s@ + at_byte("' at byte "@, t@, j as int));
            }
            Err(m)
        },
    }
}

} // verus!

verus! {

/// A value, after whitespace, at `i`.
fn value_x(t: &Vec<char>, i: usize) -> (r: Result<(Json, usize), String>)
    requires
        i <= t@.len(),
        byte_len(t@) <= usize::MAX,
    ensures
        match r {
            Ok(x) => p_value(t@, i as int) == PRes::Parsed(x.0@, x.1 as int) && i < x.1
                <= t@.len(),
            Err(m) => p_value(t@, i as int) == PRes::Failed(m@),
        },
    decreases t@.len() - i, 2int,
{
    let j = ws(t, i);
    if j >= t.len() {
        return Err(string_of("unexpected end of input"));
    }
    let c = t[j];
    if c == '{' {
        obj_x(t, j)
    } else if c == '[' {
        arr_x(t, j)
    } else if c == '"' {
        match string_x(t, j) {
            Ok((s, k)) => Ok((Json::Str(s), k)),
            Err(m) => Err(m),
        }
    } else if c == 't' {
        proof {
            reveal_strlit("true");
        }
        lit_x(t, j, "true", Json::Bool(true))
    } else if c == 'f' {
        proof {
            reveal_strlit("false");
        }
        lit_x(t, j, "false", Json::Bool(false))
    } else if c == 'n' {
        proof {
            reveal_strlit("null");
        }
        lit_x(t, j, "null", Json::Null)
    } else {
        num_x(t, j)
    }
}

/// An object whose `{` is at `j`.
fn obj_x(t: &Vec<char>, j: usize) -> (r: Result<(Json, usize), String>)
    requires
        j < t@.len(),
        byte_len(t@) <= usize::MAX,
    ensures
        match r {
            Ok(x) => p_obj(t@, j as int) == PRes::Parsed(x.0@, x.1 as int) && j < x.1
                <= t@.len(),
            Err(m) => p_obj(t@, j as int) == PRes::Failed(m@),
        },
    decreases t@.len() - j, 1int,
{
    let tl = t.len();
    let k = ws(t, j + 1);
    if k < t.len() && t[k] == '}' {
        let e: Vec<(String, Json)> = Vec::new();
        let v = Json::Obj(e);
        proof {
            assert(v@->Obj_0 =~= Seq::<Seq<char>>::empty());
            assert(v@->Obj_1 =~= Seq::<JsonV>::empty());
        }
        return Ok((v, k + 1));
    }
    let mut m: Vec<(String, Json)> = Vec::new();
    let mut i = k;
    proof {
        assert(keys_of(m@) =~= Seq::<Seq<char>>::empty());
        assert(vals_of(m@) =~= Seq::<JsonV>::empty());
    }
    loop
        invariant
            j < i <= t@.len(),
            byte_len(t@) <= usize::MAX,
            p_members(t@, i as int, keys_of(m@), vals_of(m@)) == p_obj(t@, j as int),
        decreases t@.len() - i,
    {
        let (key, k1) = match string_x(t, i) {
            Ok(x) => x,
            Err(e) => {
                return Err(e);
            },
        };
        let k2 = ws(t, k1);
        if !(k2 < t.len() && t[k2] == ':') {
            return Err(expected(':', t, k2));
        }
        let (v, k3) = match value_x(t, k2 + 1) {
            Ok(x) => x,
            Err(e) => {
                return Err(e);
            },
        };
        let k4 = ws(t, k3);
        let ghost ks = keys_of(m@).push(key@);
        let ghost vs = vals_of(m@).push(v@);
        m.push((key, v));
        proof {
            assert(keys_of(m@) =~= ks);
            assert(vals_of(m@) =~= vs);
        }
        if k4 < t.len() && t[k4] == ',' {
            i = k4 + 1;
        } else if k4 < t.len() && t[k4] == '}' {
            let r = Json::Obj(m);
            proof {
                assert(r@->Obj_0 =~= ks);
                assert(r@->Obj_1 =~= vs);
            }
            return Ok((r, k4 + 1));
        } else {
            return Err(msg_at("expected ',' or '}' at byte ", t, k4));
        }
    }
}

/// An array whose `[` is at `j`.
fn arr_x(t: &Vec<char>, j: usize) -> (r: Result<(Json, usize), String>)
    requires
        j < t@.len(),
        byte_len(t@) <= usize::MAX,
    ensures
        match r {
            Ok(x) => p_arr(t@, j as int) == PRes::Parsed(x.0@, x.1 as int) && j < x.1
                <= t@.len(),
            Err(m) => p_arr(t@, j as int) == PRes::Failed(m@),
        },
    decreases t@.len() - j, 1int,
{
    let tl = t.len();
    let k = ws(t, j + 1);
    if k < t.len() && t[k] == ']' {
        let e: Vec<Json> = Vec::new();
        let v = Json::Arr(e);
        proof {
            assert(v@->Arr_0 =~= Seq::<JsonV>::empty());
        }
        return Ok((v, k + 1));
    }
    let mut xs: Vec<Json> = Vec::new();
    let mut i = k;
    proof {
        assert(views_of(xs@) =~= Seq::<JsonV>::empty());
    }
    loop
        invariant
            j < i <= t@.len(),
            byte_len(t@) <= usize::MAX,
            p_elems(t@, i as int, views_of(xs@)) == p_arr(t@, j as int),
        decreases t@.len() - i,
    {
        let (v, k1) = match value_x(t, i) {
            Ok(x) => x,
            Err(e) => {
                return Err(e);
            },
        };
        let k2 = ws(t, k1);
        let ghost vs = views_of(xs@).push(v@);
        xs.push(v);
        proof {
            assert(views_of(xs@) =~= vs);
        }
        if k2 < t.len() && t[k2] == ',' {
            i = k2 + 1;
        } else if k2 < t.len() && t[k2] == ']' {
            let r = Json::Arr(xs);
            proof {
                assert(r@->Arr_0 =~= vs);
            }
            return Ok((r, k2 + 1));
        } else {
            return Err(msg_at("expected ',' or ']' at byte ", t, k2));
        }
    }
}

/// Parses JSON text.
pub fn parse(text: &str) -> (r: Result<Json, String>)
    ensures
        match r {
            Ok(v) => parse_v(text@) == Ok::<JsonV, Seq<char>>(v@),
            Err(m) => parse_v(text@) == Err::<JsonV, Seq<char>>(m@),
        },
{
    let _bytes = crate::text::str_byte_len(text);
    let t = chars_of(text);
    parse_chars(&t)
}

/// Parses JSON text given as characters.
pub fn parse_chars(t: &Vec<char>) -> (r: Result<Json, String>)
    requires
        byte_len(t@) <= usize::MAX,
    ensures
        match r {
            Ok(v) => parse_v(t@) == Ok::<JsonV, Seq<char>>(v@),
            Err(m) => parse_v(t@) == Err::<JsonV, Seq<char>>(m@),
        },
{
    match value_x(t, 0) {
        Ok((v, k)) => {
            let k2 = ws(t, k);
            if k2 != t.len() {
                Err(msg_at("trailing data at byte ", t, k2))
            } else {
                Ok(v)
            }
        },
        Err(m) => Err(m),
    }
}

} // verus!

verus! {

/// The first index at or after `i` where `ks` holds `k`.
pub open spec fn find_key(ks: Seq<Seq<char>>, k: Seq<char>, i: int) -> Option<int>
    decreases ks.len() - i,
{
    if i < 0 || i >= ks.len() {
        None
    } else if ks[i] == k {
        Some(i)
    } else {
        find_key(ks, k, i + 1)
    }
}

pub proof fn lemma_find_key(ks: Seq<Seq<char>>, k: Seq<char>, i: int)
    requires
        0 <= i,
    ensures
        find_key(ks, k, i) matches Some(j) ==> i <= j < ks.len() && ks[j] == k,
    decreases ks.len() - i,
{
    if i < ks.len() && ks[i] != k {
        lemma_find_key(ks, k, i + 1);
    }
}

/// The value of the first member named `k`, when `v` is an object.
pub open spec fn member(v: JsonV, k: Seq<char>) -> Option<JsonV> {
    match v {
        JsonV::Obj(ks, vs) => match find_key(ks, k, 0) {
            Some(i) => Some(vs[i]),
            None => None,
        },
        _ => None,
    }
}

/// Element `i`, when `v` is an array that long.
pub open spec fn element(v: JsonV, i: int) -> Option<JsonV> {
    match v {
        JsonV::Arr(xs) => if 0 <= i < xs.len() {
            Some(xs[i])
        } else {
            None
        },
        _ => None,
    }
}

impl Json {
    /// The first member named `key` of an object; `None` for other values.
    pub fn get(&self, key: &str) -> (r: Option<&Json>)
        ensures
            r is Some <==> member(self@, key@) is Some,
            r matches Some(x) ==> member(self@, key@) == Some(x@),
    {
        match self {
            Json::Obj(m) => {
                let ghost ks = self@->Obj_0;
                let ghost vs = self@->Obj_1;
                let mut i: usize = 0;
                while i < m.len()
                    invariant
                        i <= m@.len() == ks.len() == vs.len(),
                        self@ == JsonV::Obj(ks, vs),
                        forall|j: int| 0 <= j < m@.len() ==> ks[j] == (#[trigger] m@[j]).0@,
                        forall|j: int| 0 <= j < m@.len() ==> vs[j] == (#[trigger] m@[j]).1@,
                        find_key(ks, key@, i as int) == find_key(ks, key@, 0),
                    decreases m@.len() - i,
                {
                    if crate::text::str_eq(m[i].0.as_str(), key) {
                        return Some(&m[i].1);
                    }
                    i = i + 1;
                }
                None
            },
            _ => None,
        }
    }

    /// Element `i` of an array; `None` for other values.
    pub fn idx(&self, i: usize) -> (r: Option<&Json>)
        ensures
            r is Some <==> element(self@, i as int) is Some,
            r matches Some(x) ==> element(self@, i as int) == Some(x@),
    {
        match self {
            Json::Arr(xs) => {
                if i < xs.len() {
                    Some(&xs[i])
                } else {
                    None
                }
            },
            _ => None,
        }
    }

    /// The contents of a string value.
    pub fn as_str(&self) -> (r: Option<&str>)
        ensures
            r is Some <==> self@ is Str,
            r matches Some(s) ==> self@ == JsonV::Str(s@),
    {
        match self {
            Json::Str(s) => Some(s.as_str()),
            _ => None,
        }
    }

    /// The number of a number value.
    pub fn as_num(&self) -> (r: Option<Num>)
        ensures
            r is Some <==> self@ is Num,
            r matches Some(n) ==> self@ == JsonV::Num(n@),
    {
        match self {
            Json::Num(n) => Some(n.copy()),
            _ => None,
        }
    }

    /// Whether the value is an object.
    pub fn is_obj(&self) -> (r: bool)
        ensures
            r == self@ is Obj,
    {
        match self {
            Json::Obj(_) => true,
            _ => false,
        }
    }

    /// A string value.
    pub fn str(s: &str) -> (r: Json)
        ensures
            r@ == JsonV::Str(s@),
    {
        Json::Str(string_of(s))
    }
}

} // verus!

verus! {

/// A copy of a JSON value.
#[verifier::loop_isolation(false)]
pub fn copy_json(j: &Json) -> (r: Json)
    ensures
        r@ == j@,
    decreases j,
{
    match j {
        Json::Null => Json::Null,
        Json::Bool(b) => Json::Bool(*b),
        Json::Num(n) => Json::Num(n.copy()),
        Json::Str(s) => Json::Str(s.clone()),
        Json::Arr(xs) => {
            let mut out: Vec<Json> = Vec::new();
            let mut i: usize = 0;
            while i < xs.len()
                invariant
                    i <= xs@.len(),
                    out@.len() == i,
                    forall|q: int| 0 <= q < i ==> (#[trigger] out@[q])@ == xs@[q]@,
                decreases xs@.len() - i,
            {
                proof {
                    assert(decreases_to!(*j => *xs));
                    assert(decreases_to!(*xs => xs@));
                    assert(decreases_to!(xs@ => xs@[i as int]));
                }
                out.push(copy_json(&xs[i]));
                i = i + 1;
            }
            let r = Json::Arr(out);
            proof {
                assert(r@->Arr_0 =~= j@->Arr_0);
            }
            r
        },
        Json::Obj(m) => {
            let mut out: Vec<(String, Json)> = Vec::new();
            let mut i: usize = 0;
            while i < m.len()
                invariant
                    i <= m@.len(),
                    out@.len() == i,
                    forall|q: int| 0 <= q < i ==> (#[trigger] out@[q]).0@ == m@[q].0@ && out@[q].1@ == m@[q].1@,
                decreases m@.len() - i,
            {
                let k = m[i].0.clone();
                proof {
                    assert(decreases_to!(*j => *m));
                    assert(decreases_to!(*m => m@));
                    assert(decreases_to!(m@ => m@[i as int]));
                    assert(decreases_to!(m@[i as int] => m@[i as int].1));
                }
                let v = copy_json(&m[i].1);
                out.push((k, v));
                i = i + 1;
            }
            let r = Json::Obj(out);
            proof {
                assert(r@->Obj_0 =~= j@->Obj_0);
                assert(r@->Obj_1 =~= j@->Obj_1);
            }
            r
        },
    }
}

} // verus!

verus! {

proof fn lemma_escape_front(c: char, s: Seq<char>)
    ensures
        escape_v(seq![c] + s) == esc_char(c) + escape_v(s),
    decreases s.len(),
{
    let t = seq![c] + s;
    if s.len() == 0 {
        assert(t =~= seq![c]);
        assert(t.drop_last() =~= Seq::<char>::empty());
        assert(escape_v(t) == escape_v(t.drop_last()) + esc_char(t.last()));
        assert(escape_v(Seq::<char>::empty()) =~= Seq::<char>::empty());
        assert(escape_v(t) =~= esc_char(c));
        assert(esc_char(c) + escape_v(s) =~= esc_char(c));
    } else {
        assert(t.drop_last() =~= seq![c] + s.drop_last());
        assert(t.last() == s.last());
        lemma_escape_front(c, s.drop_last());
        assert(escape_v(t) == escape_v(t.drop_last()) + esc_char(t.last()));
        assert(escape_v(s) == escape_v(s.drop_last()) + esc_char(s.last()));
        assert(esc_char(c) + escape_v(s) =~= esc_char(c) + escape_v(s.drop_last()) + esc_char(s.last()));
    }
}

proof fn lemma_hex_digit(d: nat)
    requires
        d < 16,
    ensures
        is_hex(hex_digit(d)),
        hex_val(hex_digit(d)) == d,
{
}

/// Reading back one escaped character.
proof fn lemma_p_chars_step(t: Seq<char>, i: int, c: char, acc: Seq<char>)
    requires
        0 <= i,
        i + esc_char(c).len() < t.len(),
        t.subrange(i, i + esc_char(c).len()) == esc_char(c),
    ensures
        p_chars(t, i, acc) == p_chars(t, i + esc_char(c).len(), acc.push(c)),
{
    let e = esc_char(c);
    assert(t[i] == e[0]);
    if c == '"' || c == '\\' || c == '\n' || c == '\r' || c == '\t' {
        assert(t[i + 1] == e[1]);
    } else if (c as u32) < 0x20 {
        let cp = c as u32;
        assert(t[i + 1] == e[1]);
        assert(t[i + 2] == e[2]);
        assert(t[i + 3] == e[3]);
        assert(t[i + 4] == e[4]);
        assert(t[i + 5] == e[5]);
        lemma_hex_digit((cp / 16) as nat);
        lemma_hex_digit((cp % 16) as nat);
        assert(hex4_ok(t, i + 2));
        assert(hex4_val(t, i + 2) == cp);
        assert(u_char(hex4_val(t, i + 2)) == c);
    }
}

/// Reading back an escaped string up to its closing quote.
proof fn lemma_p_chars_escape(t: Seq<char>, i: int, s: Seq<char>, acc: Seq<char>)
    requires
        0 <= i,
        i + escape_v(s).len() < t.len(),
        t.subrange(i, i + escape_v(s).len()) == escape_v(s),
        t[i + escape_v(s).len()] == '"',
    ensures
        p_chars(t, i, acc) == SRes::Parsed(acc + s, i + escape_v(s).len() + 1),
    decreases s.len(),
{
    if s.len() == 0 {
        assert(acc + s =~= acc);
    } else {
        let c = s[0];
        let rest = s.drop_first();
        assert(s =~= seq![c] + rest);
        lemma_escape_front(c, rest);
        let n = esc_char(c).len();
        assert(t.subrange(i, i + n) =~= esc_char(c)) by {
            assert forall|q: int| 0 <= q < n implies t.subrange(i, i + n)[q] == esc_char(c)[q] by {
                assert(t.subrange(i, i + escape_v(s).len())[q] == escape_v(s)[q]);
            }
        }
        lemma_p_chars_step(t, i, c, acc);
        assert(t.subrange(i + n, i + n + escape_v(rest).len()) =~= escape_v(rest)) by {
            assert forall|q: int| 0 <= q < escape_v(rest).len() implies t.subrange(
                i + n,
                i + n + escape_v(rest).len(),
            )[q] == escape_v(rest)[q] by {
                assert(t.subrange(i, i + escape_v(s).len())[n + q] == escape_v(s)[n + q]);
            }
        }
        lemma_p_chars_escape(t, i + n, rest, acc.push(c));
        assert(acc.push(c) + rest =~= acc + s);
    }
}

/// What `dumps` writes for a string, `parse` reads back as that string.
pub proof fn law_strings_round_trip(s: Seq<char>)
    ensures
        parse_v(dumps_v(JsonV::Str(s))) == Ok::<JsonV, Seq<char>>(JsonV::Str(s)),
{
    let e = escape_v(s);
    let t = quote(e);
    assert(t[0] == '"');
    assert(t.subrange(1, 1 + e.len() as int) =~= e);
    assert(t[1 + e.len() as int] == '"');
    lemma_p_chars_escape(t, 1, s, Seq::empty());
    assert(Seq::<char>::empty() + s =~= s);
    assert(skip_ws(t, 0) == 0);
    assert(p_string(t, 0) == SRes::Parsed(s, t.len() as int));
    assert(skip_ws(t, t.len() as int) == t.len());
}

} // verus!

verus! {

/// `dumps` writes `n` as a number token that `parse` reads back as `n`.
pub open spec fn num_reads_back(n: NumV) -> bool {
    let s = display_v(n);
    &&& s.len() > 0
    &&& forall|i: int| 0 <= i < s.len() ==> is_num_char(#[trigger] s[i])
    &&& lit_ok(s)
    &&& lit_value(s) == n
}

/// Every number in `v` is finite and in the canonical form that `parse`
/// gives numbers, and every object has one key per value.
pub open spec fn wf_json(v: JsonV) -> bool
    decreases v, 0nat,
{
    match v {
        JsonV::Num(n) => n is Fin && canonical(n),
        JsonV::Arr(xs) => all_wf(xs, xs.len()),
        JsonV::Obj(ks, vs) => ks.len() == vs.len() && all_wf(vs, vs.len()),
        _ => true,
    }
}

/// The first `n` of `xs` satisfy `wf_json`.
pub open spec fn all_wf(xs: Seq<JsonV>, n: nat) -> bool
    decreases xs, n,
{
    if n == 0 || n > xs.len() {
        n == 0
    } else {
        all_wf(xs, (n - 1) as nat) && wf_json(xs[n - 1])
    }
}

proof fn lemma_all_wf(xs: Seq<JsonV>, n: nat, m: int)
    requires
        all_wf(xs, n),
        0 <= m < n,
    ensures
        wf_json(xs[m]),
    decreases n,
{
    if m < n - 1 {
        lemma_all_wf(xs, (n - 1) as nat, m);
    }
}

/// `t[a..]` starts with `y + z`, so it starts with `y`, then `z`.
proof fn lemma_split_at(t: Seq<char>, a: int, y: Seq<char>, z: Seq<char>)
    requires
        0 <= a,
        a + y.len() + z.len() <= t.len(),
        t.subrange(a, a + y.len() + z.len()) == y + z,
    ensures
        t.subrange(a, a + y.len()) == y,
        t.subrange(a + y.len(), a + y.len() + z.len()) == z,
{
    assert forall|q: int| 0 <= q < y.len() implies t.subrange(a, a + y.len())[q] == y[q] by {
        assert(t.subrange(a, a + y.len() + z.len())[q] == (y + z)[q]);
    }
    assert forall|q: int| 0 <= q < z.len() implies t.subrange(a + y.len(), a + y.len() + z.len())[q] == z[q] by {
        let r: int = y.len() + q;
        assert(t.subrange(a, a + y.len() + z.len())[r] == (y + z)[r]);
        assert(t.subrange(a, a + y.len() + z.len())[r] == t[a + r]);
        assert((y + z)[r] == z[q]);
        assert(t.subrange(a + y.len(), a + y.len() + z.len())[q] == t[a + r]);
    }
    assert(t.subrange(a, a + y.len()) =~= y);
    assert(t.subrange(a + y.len(), a + y.len() + z.len()) =~= z);
}

proof fn lemma_at(t: Seq<char>, a: int, y: Seq<char>, q: int)
    requires
        0 <= a,
        a + y.len() <= t.len(),
        t.subrange(a, a + y.len()) == y,
        0 <= q < y.len(),
    ensures
        t[a + q] == y[q],
{
    assert(t.subrange(a, a + y.len())[q] == t[a + q]);
}

proof fn lemma_dumps_first(v: JsonV)
    requires
        wf_json(v),
    ensures
        dumps_v(v).len() > 0,
        !is_json_ws(dumps_v(v)[0]),
        dumps_v(v)[0] != ']' && dumps_v(v)[0] != '}' && dumps_v(v)[0] != ',',
        dumps_v(v)[0] == '"' <==> v is Str,
        dumps_v(v)[0] == '[' <==> v is Arr,
        dumps_v(v)[0] == '{' <==> v is Obj,
        dumps_v(v)[0] == 't' <==> v == JsonV::Bool(true),
        dumps_v(v)[0] == 'f' <==> v == JsonV::Bool(false),
        dumps_v(v)[0] == 'n' <==> v is Null,
{
    match v {
        JsonV::Num(n) => {
            lemma_display_reads_back(n);
            assert(is_num_char(display_v(n)[0]));
        },
        JsonV::Str(s) => {},
        JsonV::Arr(xs) => {},
        JsonV::Obj(ks, vs) => {},
        JsonV::Bool(b) => {},
        JsonV::Null => {},
    }
}

proof fn lemma_items_step(xs: Seq<JsonV>, m: nat)
    requires
        1 <= m < xs.len(),
    ensures
        items_v(xs, m + 1) == items_v(xs, m) + seq![',', ' '] + dumps_v(xs[m as int]),
{
}

proof fn lemma_items_prefix(xs: Seq<JsonV>, m: nat, n: nat)
    requires
        m <= n <= xs.len(),
    ensures
        items_v(xs, m).len() <= items_v(xs, n).len(),
        items_v(xs, n).subrange(0, items_v(xs, m).len() as int) == items_v(xs, m),
    decreases n,
{
    if m < n {
        lemma_items_prefix(xs, m, (n - 1) as nat);
        let a = items_v(xs, (n - 1) as nat);
        let b = items_v(xs, n);
        if n >= 2 {
            assert(b == a + seq![',', ' '] + dumps_v(xs[n - 1]));
        }
        assert(b.subrange(0, a.len() as int) =~= a) by {
            if n >= 2 {
                assert forall|q: int| 0 <= q < a.len() implies b[q] == a[q] by {
                    assert((a + seq![',', ' '] + dumps_v(xs[n - 1]))[q] == a[q]);
                }
            }
        }
        assert(b.subrange(0, items_v(xs, m).len() as int) =~= a.subrange(0, items_v(xs, m).len() as int));
    } else {
        assert(items_v(xs, n).subrange(0, items_v(xs, n).len() as int) =~= items_v(xs, n));
    }
}

} // verus!

verus! {

/// One `"key": value` entry.
pub open spec fn entry_v(ks: Seq<Seq<char>>, vs: Seq<JsonV>, m: int) -> Seq<char> {
    quote(escape_v(ks[m])) + seq![':', ' '] + dumps_v(vs[m])
}

proof fn lemma_entries_step(ks: Seq<Seq<char>>, vs: Seq<JsonV>, m: nat)
    requires
        m < vs.len(),
    ensures
        m == 0 ==> entries_v(ks, vs, 1) == entry_v(ks, vs, 0),
        m >= 1 ==> entries_v(ks, vs, m + 1) == entries_v(ks, vs, m) + seq![',', ' '] + entry_v(ks, vs, m as int),
{
    if m >= 1 {
        assert(entries_v(ks, vs, m + 1) =~= entries_v(ks, vs, m) + seq![',', ' '] + entry_v(ks, vs, m as int));
    }
}

proof fn lemma_entries_prefix(ks: Seq<Seq<char>>, vs: Seq<JsonV>, m: nat, n: nat)
    requires
        m <= n <= vs.len(),
    ensures
        entries_v(ks, vs, m).len() <= entries_v(ks, vs, n).len(),
        entries_v(ks, vs, n).subrange(0, entries_v(ks, vs, m).len() as int) == entries_v(ks, vs, m),
    decreases n,
{
    if m < n {
        lemma_entries_prefix(ks, vs, m, (n - 1) as nat);
        lemma_entries_step(ks, vs, (n - 1) as nat);
        let a = entries_v(ks, vs, (n - 1) as nat);
        let b = entries_v(ks, vs, n);
        assert(b.subrange(0, a.len() as int) =~= a) by {
            if n >= 2 {
                assert forall|q: int| 0 <= q < a.len() implies b[q] == a[q] by {
                    assert((a + seq![',', ' '] + entry_v(ks, vs, n - 1))[q] == a[q]);
                }
            }
        }
        assert(b.subrange(0, entries_v(ks, vs, m).len() as int) =~= a.subrange(
            0,
            entries_v(ks, vs, m).len() as int,
        ));
    } else {
        assert(entries_v(ks, vs, n).subrange(0, entries_v(ks, vs, n).len() as int) =~= entries_v(ks, vs, n));
    }
}

/// `t[a..]` starts with `x`, and `x` starts with `y`.
proof fn lemma_sub_prefix(t: Seq<char>, a: int, x: Seq<char>, y: Seq<char>)
    requires
        0 <= a,
        a + x.len() <= t.len(),
        t.subrange(a, a + x.len()) == x,
        y.len() <= x.len(),
        x.subrange(0, y.len() as int) == y,
    ensures
        t.subrange(a, a + y.len()) == y,
{
    assert forall|q: int| 0 <= q < y.len() implies t.subrange(a, a + y.len())[q] == y[q] by {
        assert(x.subrange(0, y.len() as int)[q] == x[q]);
        assert(t.subrange(a, a + x.len())[q] == t[a + q]);
    }
    assert(t.subrange(a, a + y.len()) =~= y);
}

proof fn lemma_num_end_at(t: Seq<char>, j: int, e: int)
    requires
        0 <= j <= e <= t.len(),
        forall|q: int| j <= q < e ==> is_num_char(#[trigger] t[q]),
        e == t.len() || !is_num_char(t[e]),
    ensures
        num_end(t, j) == e,
    decreases e - j,
{
    if j < e {
        lemma_num_end_at(t, j + 1, e);
    }
}

proof fn lemma_skip_one(t: Seq<char>, p: int)
    requires
        0 <= p,
        p + 1 < t.len(),
        t[p] == ' ',
        !is_json_ws(t[p + 1]),
    ensures
        skip_ws(t, p) == p + 1,
{
    assert(skip_ws(t, p + 1) == p + 1);
}

} // verus!

verus! {

/// A value written at `j`, after whitespace from `i`, and followed by
/// something that cannot continue a number, is read back whole.
#[verifier::spinoff_prover]
#[verifier::rlimit(60)]
proof fn lemma_value_reads_back(v: JsonV, t: Seq<char>, i: int, j: int)
    requires
        wf_json(v),
        0 <= i <= j,
        skip_ws(t, i) == j,
        j + dumps_v(v).len() <= t.len(),
        t.subrange(j, j + dumps_v(v).len()) == dumps_v(v),
        j + dumps_v(v).len() == t.len() || !is_num_char(t[j + dumps_v(v).len()]),
    ensures
        p_value(t, i) == PRes::Parsed(v, j + dumps_v(v).len()),
    decreases v, 0nat,
{
    let d = dumps_v(v);
    let e = j + d.len();
    lemma_dumps_first(v);
    lemma_at(t, j, d, 0);
    lemma_skip_ws(t, i);
    match v {
        JsonV::Null => {
            reveal_strlit("null");
            assert(d =~= "null"@);
        },
        JsonV::Bool(b) => {
            reveal_strlit("true");
            reveal_strlit("false");
            if b {
                assert(d =~= "true"@);
            } else {
                assert(d =~= "false"@);
            }
        },
        JsonV::Num(n) => {
            lemma_display_reads_back(n);
            assert forall|q: int| j <= q < e implies is_num_char(#[trigger] t[q]) by {
                lemma_at(t, j, d, q - j);
            }
            lemma_num_end_at(t, j, e);
        },
        JsonV::Str(s) => {
            let es = escape_v(s);
            assert(d == seq!['"'] + es + seq!['"']);
            lemma_split_at(t, j, seq!['"'] + es, seq!['"']);
            lemma_split_at(t, j, seq!['"'], es);
            lemma_at(t, j + 1 + es.len(), seq!['"'], 0);
            assert(skip_ws(t, j) == j);
            lemma_p_chars_escape(t, j + 1, s, Seq::empty());
            assert(Seq::<char>::empty() + s =~= s);
        },
        JsonV::Arr(xs) => {
            let body = items_v(xs, xs.len());
            assert(d == seq!['['] + body + seq![']']);
            lemma_split_at(t, j, seq!['['] + body, seq![']']);
            lemma_split_at(t, j, seq!['['], body);
            lemma_at(t, j + 1 + body.len(), seq![']'], 0);
            if xs.len() == 0 {
                assert(body.len() == 0);
                assert(skip_ws(t, j + 1) == j + 1);
                assert(xs =~= Seq::<JsonV>::empty());
            } else {
                lemma_items_prefix(xs, 1, xs.len());
                lemma_sub_prefix(t, j + 1, body, dumps_v(xs[0]));
                lemma_all_wf(xs, xs.len(), 0);
                lemma_dumps_first(xs[0]);
                lemma_at(t, j + 1, dumps_v(xs[0]), 0);
                assert(skip_ws(t, j + 1) == j + 1);
                lemma_elems_read_back(xs, t, j + 1, 0);
                assert(xs.take(0) =~= Seq::<JsonV>::empty());
            }
        },
        JsonV::Obj(ks, vs) => {
            let body = entries_v(ks, vs, vs.len());
            assert(d == seq!['{'] + body + seq!['}']);
            lemma_split_at(t, j, seq!['{'] + body, seq!['}']);
            lemma_split_at(t, j, seq!['{'], body);
            lemma_at(t, j + 1 + body.len(), seq!['}'], 0);
            if vs.len() == 0 {
                assert(body.len() == 0);
                assert(skip_ws(t, j + 1) == j + 1);
                assert(vs =~= Seq::<JsonV>::empty());
                assert(ks =~= Seq::<Seq<char>>::empty());
            } else {
                lemma_entries_prefix(ks, vs, 1, vs.len());
                lemma_entries_step(ks, vs, 0);
                lemma_sub_prefix(t, j + 1, body, entry_v(ks, vs, 0));
                lemma_at(t, j + 1, entry_v(ks, vs, 0), 0);
                assert(skip_ws(t, j + 1) == j + 1);
                lemma_members_read_back(ks, vs, t, j + 1, 0);
                assert(ks.take(0) =~= Seq::<Seq<char>>::empty());
                assert(vs.take(0) =~= Seq::<JsonV>::empty());
            }
        },
    }
}

/// The elements of an array written at `base`, from element `m` on.
proof fn lemma_elems_read_back(xs: Seq<JsonV>, t: Seq<char>, base: int, m: nat)
    requires
        all_wf(xs, xs.len()),
        m < xs.len(),
        0 <= base,
        base + items_v(xs, xs.len()).len() < t.len(),
        t.subrange(base, base + items_v(xs, xs.len()).len()) == items_v(xs, xs.len()),
        t[base + items_v(xs, xs.len()).len()] == ']',
    ensures
        p_elems(
            t,
            if m == 0 {
                base
            } else {
                base + items_v(xs, m).len() + 1
            },
            xs.take(m as int),
        ) == PRes::Parsed(JsonV::Arr(xs), base + items_v(xs, xs.len()).len() + 1),
    decreases xs, (xs.len() - m) as nat,
{
    let n = xs.len();
    let all = items_v(xs, n);
    let p = items_v(xs, m + 1);
    let x = xs[m as int];
    let dx = dumps_v(x);
    lemma_items_prefix(xs, m + 1, n);
    lemma_sub_prefix(t, base, all, p);
    lemma_all_wf(xs, n, m as int);
    lemma_dumps_first(x);
    let pos = if m == 0 {
        base
    } else {
        base + items_v(xs, m).len() + 1
    };
    let j = if m == 0 {
        base
    } else {
        base + items_v(xs, m).len() + 2
    };
    if m == 0 {
        assert(p == dx);
        lemma_at(t, base, dx, 0);
        assert(skip_ws(t, base) == base);
    } else {
        lemma_items_step(xs, m);
        let q = items_v(xs, m);
        lemma_split_at(t, base, q + seq![',', ' '], dx);
        lemma_split_at(t, base, q, seq![',', ' ']);
        lemma_at(t, base + q.len(), seq![',', ' '], 1);
        lemma_at(t, base + q.len() + 2, dx, 0);
        lemma_skip_one(t, pos);
    }
    assert(t.subrange(j, j + dx.len()) == dx) by {
        if m == 0 {
        } else {
            let q = items_v(xs, m);
            lemma_split_at(t, base, q + seq![',', ' '], dx);
        }
    }
    let e = base + p.len();
    assert(j + dx.len() == e);
    if m + 1 < n {
        lemma_items_prefix(xs, m + 2, n);
        lemma_sub_prefix(t, base, all, items_v(xs, m + 2));
        lemma_items_step(xs, m + 1);
        lemma_at(t, base, items_v(xs, m + 2), p.len() as int);
        assert(t[e] == ',');
    } else {
        assert(p == all);
        assert(t[e] == ']');
    }
    lemma_value_reads_back(x, t, pos, j);
    assert(skip_ws(t, e) == e);
    assert(xs.take(m as int).push(x) =~= xs.take(m + 1int));
    if m + 1 < n {
        lemma_elems_read_back(xs, t, base, m + 1);
    } else {
        assert(xs.take(m + 1int) =~= xs);
    }
}

/// The members of an object written at `base`, from member `m` on.
#[verifier::spinoff_prover]
#[verifier::rlimit(60)]
proof fn lemma_members_read_back(ks: Seq<Seq<char>>, vs: Seq<JsonV>, t: Seq<char>, base: int, m: nat)
    requires
        ks.len() == vs.len(),
        all_wf(vs, vs.len()),
        m < vs.len(),
        0 <= base,
        base + entries_v(ks, vs, vs.len()).len() < t.len(),
        t.subrange(base, base + entries_v(ks, vs, vs.len()).len()) == entries_v(ks, vs, vs.len()),
        t[base + entries_v(ks, vs, vs.len()).len()] == '}',
    ensures
        p_members(
            t,
            if m == 0 {
                base
            } else {
                base + entries_v(ks, vs, m).len() + 1
            },
            ks.take(m as int),
            vs.take(m as int),
        ) == PRes::Parsed(JsonV::Obj(ks, vs), base + entries_v(ks, vs, vs.len()).len() + 1),
    decreases vs, (vs.len() - m) as nat,
{
    let n = vs.len();
    let all = entries_v(ks, vs, n);
    let p = entries_v(ks, vs, m + 1);
    let x = vs[m as int];
    let dx = dumps_v(x);
    let key = ks[m as int];
    let ek = escape_v(key);
    let en = entry_v(ks, vs, m as int);
    lemma_entries_prefix(ks, vs, m + 1, n);
    lemma_sub_prefix(t, base, all, p);
    lemma_all_wf(vs, n, m as int);
    lemma_dumps_first(x);
    lemma_entries_step(ks, vs, m);
    let pos = if m == 0 {
        base
    } else {
        base + entries_v(ks, vs, m).len() + 1
    };
    let j = if m == 0 {
        base
    } else {
        base + entries_v(ks, vs, m).len() + 2
    };
    if m == 0 {
        assert(p == en);
    } else {
        let q = entries_v(ks, vs, m);
        lemma_split_at(t, base, q + seq![',', ' '], en);
        lemma_split_at(t, base, q, seq![',', ' ']);
        lemma_at(t, base + q.len(), seq![',', ' '], 1);
    }
    assert(t.subrange(j, j + en.len()) == en) by {
        if m > 0 {
            let q = entries_v(ks, vs, m);
            lemma_split_at(t, base, q + seq![',', ' '], en);
        }
    }
    // the entry: `"` escaped key `"` `: ` value
    assert(en == seq!['"'] + ek + seq!['"'] + seq![':', ' '] + dx);
    lemma_split_at(t, j, seq!['"'] + ek + seq!['"'] + seq![':', ' '], dx);
    lemma_split_at(t, j, seq!['"'] + ek + seq!['"'], seq![':', ' ']);
    lemma_split_at(t, j, seq!['"'] + ek, seq!['"']);
    lemma_split_at(t, j, seq!['"'], ek);
    lemma_at(t, j, seq!['"'], 0);
    lemma_at(t, j + 1 + ek.len(), seq!['"'], 0);
    lemma_at(t, j + 2 + ek.len(), seq![':', ' '], 0);
    lemma_at(t, j + 2 + ek.len(), seq![':', ' '], 1);
    let k1 = j + 2 + ek.len();
    let vj = k1 + 2;
    lemma_at(t, vj, dx, 0);
    if m == 0 {
        assert(skip_ws(t, base) == base);
    } else {
        lemma_skip_one(t, pos);
    }
    lemma_p_chars_escape(t, j + 1, key, Seq::empty());
    assert(Seq::<char>::empty() + key =~= key);
    assert(p_string(t, pos) == SRes::Parsed(key, k1));
    assert(skip_ws(t, k1) == k1);
    lemma_skip_one(t, k1 + 1);
    let e = base + p.len();
    assert(vj + dx.len() == e);
    if m + 1 < n {
        lemma_entries_prefix(ks, vs, m + 2, n);
        lemma_sub_prefix(t, base, all, entries_v(ks, vs, m + 2));
        lemma_entries_step(ks, vs, m + 1);
        lemma_at(t, base, entries_v(ks, vs, m + 2), p.len() as int);
        assert(t[e] == ',');
    } else {
        assert(p == all);
        assert(t[e] == '}');
    }
    lemma_value_reads_back(x, t, k1 + 1, vj);
    assert(skip_ws(t, e) == e);
    assert(ks.take(m as int).push(key) =~= ks.take(m + 1int));
    assert(vs.take(m as int).push(x) =~= vs.take(m + 1int));
    if m + 1 < n {
        lemma_members_read_back(ks, vs, t, base, m + 1);
    } else {
        assert(ks.take(m + 1int) =~= ks);
        assert(vs.take(m + 1int) =~= vs);
    }
}

/// What `dumps` writes, `parse` reads back as the same value: for every
/// value whose numbers are finite and in canonical form (as `parse` makes
/// them) and whose objects have one key per value.
pub proof fn law_dumps_then_parse_is_identity(v: JsonV)
    requires
        wf_json(v),
    ensures
        parse_v(dumps_v(v)) == Ok::<JsonV, Seq<char>>(v),
{
    let t = dumps_v(v);
    lemma_dumps_first(v);
    assert(t.subrange(0, t.len() as int) =~= t);
    assert(skip_ws(t, 0) == 0);
    lemma_value_reads_back(v, t, 0, 0);
    assert(skip_ws(t, t.len() as int) == t.len());
}

} // verus!

verus! {

proof fn lemma_digits_end_at(t: Seq<char>, i: int, p: int)
    requires
        0 <= i <= p <= t.len(),
        forall|q: int| i <= q < p ==> is_digit(#[trigger] t[q]),
        p == t.len() || !is_digit(t[p]),
    ensures
        digits_end(t, i) == p,
    decreases p - i,
{
    if i < p {
        lemma_digits_end_at(t, i + 1, p);
    }
}

#[verifier::spinoff_prover]
#[verifier::rlimit(60)]
proof fn lemma_display_zero(neg: bool, d: Seq<u8>, e: int)
    requires
        canonical(NumV::Fin(neg, d, e)),
        d.len() == 0,
    ensures
        num_reads_back(NumV::Fin(neg, d, e)),
{
    let n = NumV::Fin(neg, d, e);
    let s = display_v(n);
    let sg = sign_str(neg);
    let i0: int = if neg { 1 } else { 0 };
    crate::digits::lemma_le_digits_val(d);
    assert(s == seq!['0']);
    assert(!neg && e == 0);
    lemma_digits_end_at(s, 0, 1);
    lemma_digits_end_at(s, 1, 1);
    assert(s[0] == '0');
    assert(be_val(s, 0, 0) == 0);
    assert(crate::decimal::digit_of('0') == 0);
    assert(be_val(s, 0, 1) == be_val(s, 0, 0) * 10 + crate::decimal::digit_of(s[0]));
    assert(d =~= Seq::<u8>::empty());
    assert(crate::digits::val(d) == 0);
    lemma_num_of_canonical(neg, d, e);
    assert(crate::digits::pow10(0) == 1);
}

#[verifier::spinoff_prover]
#[verifier::rlimit(60)]
proof fn lemma_display_whole(neg: bool, d: Seq<u8>, e: int)
    requires
        canonical(NumV::Fin(neg, d, e)),
        d.len() > 0,
        e >= 0,
    ensures
        num_reads_back(NumV::Fin(neg, d, e)),
{
    let n = NumV::Fin(neg, d, e);
    let s = display_v(n);
    let sg = sign_str(neg);
    let i0: int = if neg { 1 } else { 0 };
    crate::digits::lemma_le_digits_val(d);
    let ee = e as nat;
    let big = crate::digits::zeros(ee) + d;
    let ds = crate::text::digit_str(big);
    assert(d + crate::digits::zeros(0) =~= d);
    assert(s =~= sg + ds) by {
        let zs = Seq::new(ee, |i: int| '0');
        assert(crate::text::digit_str(d) + zs =~= ds) by {
            assert forall|i: int| 0 <= i < ds.len() implies (crate::text::digit_str(d) + zs)[i] == ds[i] by {
                if i < d.len() {
                    assert(big[big.len() - 1 - i] == d[d.len() - 1 - i]);
                } else {
                    assert(big[big.len() - 1 - i] == 0);
                    assert(crate::text::digit_char(0) == '0');
                }
            }
        }
    }
    assert(crate::digits::all_digits(big)) by {
        assert forall|i: int| 0 <= i < big.len() implies #[trigger] big[i] <= 9 by {
            if i >= ee {
                assert(big[i] == d[i - ee]);
            }
        }
    }
    let len = s.len() as int;
    assert(s.subrange(i0, len) =~= ds);
    lemma_be_val_digit_str(s, i0, big);
    if !neg {
        assert(is_digit(s[0]));
    }
    assert(sign_len(s, 0) == i0);
    lemma_digits_end_at(s, i0, len);
    lemma_digits_end_at(s, len, len);
    crate::digits::lemma_val_zeros_prefix(ee, d);
    assert(crate::digits::pow10(0) == 1);
    assert(be_val(s, len, len) == 0);
    lemma_num_of_whole(neg, d, e);
    assert(crate::digits::pow10(ee) * crate::digits::val(d) == crate::digits::val(d) * crate::digits::pow10(ee));
    assert forall|i: int| 0 <= i < s.len() implies is_num_char(#[trigger] s[i]) by {
        if i >= i0 {
            assert(is_digit(s[i]));
        }
    }
}

#[verifier::spinoff_prover]
#[verifier::rlimit(60)]
proof fn lemma_display_point(neg: bool, d: Seq<u8>, e: int)
    requires
        canonical(NumV::Fin(neg, d, e)),
        e < 0,
        d.len() > -e,
    ensures
        num_reads_back(NumV::Fin(neg, d, e)),
{
    let n = NumV::Fin(neg, d, e);
    let s = display_v(n);
    let sg = sign_str(neg);
    let i0: int = if neg { 1 } else { 0 };
    crate::digits::lemma_le_digits_val(d);
    let k = (-e) as nat;
    let hi = d.subrange(k as int, d.len() as int);
    let lo = d.subrange(0, k as int);
    let sh = crate::text::digit_str(hi);
    let sl = crate::text::digit_str(lo);
    assert(s == sg + sh + seq!['.'] + sl);
    let a = i0 + hi.len();
    let len = s.len() as int;
    assert(s.subrange(i0, a) =~= sh);
    assert(s.subrange(a + 1, len) =~= sl);
    assert(s[a] == '.');
    assert(crate::digits::all_digits(hi)) by {
        assert forall|i: int| 0 <= i < hi.len() implies #[trigger] hi[i] <= 9 by {
            assert(hi[i] == d[i + k]);
        }
    }
    assert(crate::digits::all_digits(lo)) by {
        assert forall|i: int| 0 <= i < lo.len() implies #[trigger] lo[i] <= 9 by {
            assert(lo[i] == d[i]);
        }
    }
    lemma_be_val_digit_str(s, i0, hi);
    lemma_be_val_digit_str(s, a + 1, lo);
    if !neg {
        assert(is_digit(s[0]));
    }
    assert(sign_len(s, 0) == i0);
    lemma_digits_end_at(s, i0, a);
    lemma_digits_end_at(s, a + 1, len);
    lemma_digits_end_at(s, len, len);
    assert(be_val(s, len, len) == 0);
    crate::digits::lemma_val_split(d, k as int);
    lemma_num_of_canonical(neg, d, e);
    assert forall|i: int| 0 <= i < s.len() implies is_num_char(#[trigger] s[i]) by {
        if i0 <= i < a {
            assert(is_digit(s[i]));
        } else if i > a {
            assert(is_digit(s[i]));
        }
    }
}

#[verifier::spinoff_prover]
#[verifier::rlimit(60)]
proof fn lemma_display_small(neg: bool, d: Seq<u8>, e: int)
    requires
        canonical(NumV::Fin(neg, d, e)),
        e < 0,
        d.len() <= -e,
    ensures
        num_reads_back(NumV::Fin(neg, d, e)),
{
    let n = NumV::Fin(neg, d, e);
    let s = display_v(n);
    let sg = sign_str(neg);
    let i0: int = if neg { 1 } else { 0 };
    crate::digits::lemma_le_digits_val(d);
    let k = (-e) as nat;
    let z = (k - d.len()) as nat;
    let f = d + crate::digits::zeros(z);
    let sf = crate::text::digit_str(f);
    let zs = Seq::new(z, |i: int| '0');
    assert(s == sg + seq!['0', '.'] + zs + crate::text::digit_str(d));
    assert(zs + crate::text::digit_str(d) =~= sf) by {
        assert forall|i: int| 0 <= i < sf.len() implies (zs + crate::text::digit_str(d))[i] == sf[i] by {
            if i < z {
                assert(f[f.len() - 1 - i] == 0);
                assert(crate::text::digit_char(0) == '0');
            } else {
                assert(f[f.len() - 1 - i] == d[d.len() - 1 - (i - z)]);
            }
        }
    }
    assert(crate::digits::all_digits(f)) by {
        assert forall|i: int| 0 <= i < f.len() implies #[trigger] f[i] <= 9 by {
            if i < d.len() {
                assert(f[i] == d[i]);
            }
        }
    }
    let len = s.len() as int;
    let a = i0 + 1;
    assert(s[i0] == '0');
    assert(s[a] == '.');
    assert(s.subrange(a + 1, len) =~= sf);
    assert(sf.len() == k);
    lemma_be_val_digit_str(s, a + 1, f);
    assert(s.subrange(i0, a) =~= seq!['0']);
    if !neg {
        assert(is_digit(s[0]));
    }
    assert(sign_len(s, 0) == i0);
    lemma_digits_end_at(s, i0, a);
    lemma_digits_end_at(s, a + 1, len);
    lemma_digits_end_at(s, len, len);
    assert(be_val(s, len, len) == 0);
    assert(be_val(s, i0, a) == 0) by {
        assert(be_val(s, i0, i0) == 0);
    }
    crate::digits::lemma_val_split(f, d.len() as int);
    assert(f.subrange(0, d.len() as int) =~= d);
    assert(f.subrange(d.len() as int, f.len() as int) =~= crate::digits::zeros(z));
    lemma_val_zeros(z);
    lemma_num_of_canonical(neg, d, e);
    assert forall|i: int| 0 <= i < s.len() implies is_num_char(#[trigger] s[i]) by {
        if i > a {
            assert(is_digit(s[i]));
        }
    }
}

/// `dumps` writes a finite number in canonical form as a number token that
/// `parse` reads back as that number.
pub proof fn lemma_display_reads_back(n: NumV)
    requires
        n is Fin,
        canonical(n),
    ensures
        num_reads_back(n),
{
    match n {
        NumV::Fin(neg, d, e) => {
            if d.len() == 0 {
                lemma_display_zero(neg, d, e);
            } else if e >= 0 {
                lemma_display_whole(neg, d, e);
            } else if d.len() > -e {
                lemma_display_point(neg, d, e);
            } else {
                lemma_display_small(neg, d, e);
            }
        },
        _ => {},
    }
}

proof fn lemma_val_zeros(z: nat)
    ensures
        crate::digits::val(crate::digits::zeros(z)) == 0,
{
    crate::digits::lemma_val_zeros_prefix(z, Seq::<u8>::empty());
    assert(crate::digits::zeros(z) + Seq::<u8>::empty() =~= crate::digits::zeros(z));
    assert(crate::digits::val(Seq::<u8>::empty()) == 0);
    assert(crate::digits::pow10(z) * 0 == 0);
}

} // verus!

verus! {

/// No number in `v` is NaN, and every object has one key per value.
pub open spec fn no_nan(v: JsonV) -> bool
    decreases v, 0nat,
{
    match v {
        JsonV::Num(n) => n != NumV::NaN,
        JsonV::Arr(xs) => all_no_nan(xs, xs.len()),
        JsonV::Obj(ks, vs) => ks.len() == vs.len() && all_no_nan(vs, vs.len()),
        _ => true,
    }
}

/// The first `n` of `xs` have no NaN.
pub open spec fn all_no_nan(xs: Seq<JsonV>, n: nat) -> bool
    decreases xs, n,
{
    if n == 0 || n > xs.len() {
        n == 0
    } else {
        all_no_nan(xs, (n - 1) as nat) && no_nan(xs[n - 1])
    }
}

proof fn lemma_all_no_nan_push(xs: Seq<JsonV>, v: JsonV)
    requires
        all_no_nan(xs, xs.len()),
        no_nan(v),
    ensures
        all_no_nan(xs.push(v), xs.len() + 1),
{
    lemma_all_no_nan_prefix(xs, v, xs.len());
}

proof fn lemma_all_no_nan_prefix(xs: Seq<JsonV>, v: JsonV, n: nat)
    requires
        n <= xs.len(),
        all_no_nan(xs, n),
    ensures
        all_no_nan(xs.push(v), n),
    decreases n,
{
    if n > 0 {
        lemma_all_no_nan_prefix(xs, v, (n - 1) as nat);
        assert(xs.push(v)[n - 1] == xs[n - 1]);
    }
}

/// What `parse` reads holds no NaN.
pub proof fn lemma_parse_no_nan(t: Seq<char>, i: int)
    ensures
        p_value(t, i) matches PRes::Parsed(v, _) ==> no_nan(v),
    decreases t.len() - i, 2int,
{
    if 0 <= i <= t.len() {
        let j = skip_ws(t, i);
        lemma_skip_ws(t, i);
        if j < t.len() {
            if t[j] == '{' {
                lemma_obj_no_nan(t, j);
            } else if t[j] == '[' {
                lemma_arr_no_nan(t, j);
            } else {
                let k = num_end(t, j);
                let s = t.subrange(j, k);
                if lit_ok(s) {
                    crate::decimal::lemma_lit_value_not_nan(s);
                }
            }
        }
    }
}

proof fn lemma_obj_no_nan(t: Seq<char>, j: int)
    ensures
        p_obj(t, j) matches PRes::Parsed(v, _) ==> no_nan(v),
    decreases t.len() - j, 1int,
{
    if 0 <= j < t.len() {
        let k = skip_ws(t, j + 1);
        lemma_skip_ws(t, j + 1);
        if !(k < t.len() && t[k] == '}') {
            lemma_members_no_nan(t, k, Seq::empty(), Seq::empty());
        }
    }
}

proof fn lemma_arr_no_nan(t: Seq<char>, j: int)
    ensures
        p_arr(t, j) matches PRes::Parsed(v, _) ==> no_nan(v),
    decreases t.len() - j, 1int,
{
    if 0 <= j < t.len() {
        let k = skip_ws(t, j + 1);
        lemma_skip_ws(t, j + 1);
        if !(k < t.len() && t[k] == ']') {
            lemma_elems_no_nan(t, k, Seq::empty());
        }
    }
}

proof fn lemma_members_no_nan(t: Seq<char>, i: int, ks: Seq<Seq<char>>, vs: Seq<JsonV>)
    requires
        all_no_nan(vs, vs.len()),
        ks.len() == vs.len(),
    ensures
        p_members(t, i, ks, vs) matches PRes::Parsed(v, _) ==> no_nan(v),
    decreases t.len() - i, 3int,
{
    if 0 <= i <= t.len() {
        match p_string(t, i) {
            SRes::Parsed(key, k1) => if i < k1 <= t.len() {
                let k2 = skip_ws(t, k1);
                lemma_skip_ws(t, k1);
                if k2 < t.len() && t[k2] == ':' {
                    lemma_parse_no_nan(t, k2 + 1);
                    match p_value(t, k2 + 1) {
                        PRes::Parsed(v, k3) => if i <= k3 <= t.len() {
                            lemma_all_no_nan_push(vs, v);
                            let k4 = skip_ws(t, k3);
                            lemma_skip_ws(t, k3);
                            if k4 < t.len() && t[k4] == ',' {
                                lemma_members_no_nan(t, k4 + 1, ks.push(key), vs.push(v));
                            }
                        },
                        _ => {},
                    }
                }
            },
            _ => {},
        }
    }
}

proof fn lemma_elems_no_nan(t: Seq<char>, i: int, xs: Seq<JsonV>)
    requires
        all_no_nan(xs, xs.len()),
    ensures
        p_elems(t, i, xs) matches PRes::Parsed(v, _) ==> no_nan(v),
    decreases t.len() - i, 3int,
{
    if 0 <= i <= t.len() {
        lemma_parse_no_nan(t, i);
        match p_value(t, i) {
            PRes::Parsed(v, k) => if i <= k <= t.len() {
                lemma_all_no_nan_push(xs, v);
                let k2 = skip_ws(t, k);
                lemma_skip_ws(t, k);
                if k2 < t.len() && t[k2] == ',' {
                    lemma_elems_no_nan(t, k2 + 1, xs.push(v));
                }
            },
            _ => {},
        }
    }
}

/// A value parsed from text holds no NaN, and its objects have one key
/// per value.
pub proof fn law_parsed_values_hold_no_nan(t: Seq<char>)
    ensures
        parse_v(t) matches Ok(v) ==> no_nan(v),
{
    lemma_parse_no_nan(t, 0);
}

} // verus!

verus! {

/// A character that a JSON string literal holds as it is: no quote, no
/// backslash, no control character below U+0020.
pub open spec fn plain_char(c: char) -> bool {
    c != '"' && c != '\\' && (c as u32) >= 0x20
}

proof fn lemma_esc_char_no_control(c: char)
    ensures
        forall|i: int| 0 <= i < esc_char(c).len() ==> (#[trigger] esc_char(c)[i] as u32) >= 0x20,
        plain_char(c) ==> esc_char(c) == seq![c],
{
    if !(c == '"' || c == '\\' || c == '\n' || c == '\r' || c == '\t') && (c as u32) < 0x20 {
        let a = (c as u32 / 16) as nat;
        let b = (c as u32 % 16) as nat;
        assert(a < 16 && b < 16);
        assert((hex_digit(a) as u32) >= 0x20);
        assert((hex_digit(b) as u32) >= 0x20);
    }
}

/// `escape` writes no control character below U+0020, and leaves a string
/// that needs no escaping (no quote, no backslash, no control character)
/// as it is.
pub proof fn law_escape_output_is_printable(s: Seq<char>)
    ensures
        forall|i: int| 0 <= i < escape_v(s).len() ==> (#[trigger] escape_v(s)[i] as u32) >= 0x20,
        (forall|i: int| 0 <= i < s.len() ==> plain_char(#[trigger] s[i])) ==> escape_v(s) == s,
    decreases s.len(),
{
    if s.len() > 0 {
        let p = s.drop_last();
        law_escape_output_is_printable(p);
        lemma_esc_char_no_control(s.last());
        let a = escape_v(p);
        let b = esc_char(s.last());
        assert forall|i: int| 0 <= i < (a + b).len() implies ((a + b)[i] as u32) >= 0x20 by {
            if i < a.len() {
                assert((a + b)[i] == a[i]);
            } else {
                assert((a + b)[i] == b[i - a.len()]);
            }
        }
        if forall|i: int| 0 <= i < s.len() ==> plain_char(#[trigger] s[i]) {
            assert forall|i: int| 0 <= i < p.len() implies plain_char(#[trigger] p[i]) by {
                assert(p[i] == s[i]);
            }
            assert(plain_char(s[s.len() - 1]));
            assert(p.push(s.last()) =~= s);
            assert(a + b =~= p.push(s.last()));
        }
    }
}

/// `parse` accepts a text only when the value it reads is followed by
/// nothing but JSON whitespace (` `, `\t`, `\n`, `\r`).
pub proof fn law_parse_consumes_the_whole_text(t: Seq<char>)
    ensures
        parse_v(t) is Ok ==> exists|k: int|
            0 <= k <= t.len() && #[trigger] p_value(t, 0) == PRes::Parsed(parse_v(t)->Ok_0, k) && forall|q: int|
                k <= q < t.len() ==> is_json_ws(#[trigger] t[q]),
{
    if parse_v(t) is Ok {
        match p_value(t, 0) {
            PRes::Parsed(v, k) => {
                lemma_skip_ws_all(t, k);
            },
            PRes::Failed(_) => {},
        }
    }
}

proof fn lemma_skip_ws_all(t: Seq<char>, k: int)
    requires
        0 <= k <= t.len(),
        skip_ws(t, k) == t.len(),
    ensures
        forall|q: int| k <= q < t.len() ==> is_json_ws(#[trigger] t[q]),
    decreases t.len() - k,
{
    if k < t.len() {
        lemma_skip_ws_all(t, k + 1);
    }
}

} // verus!

verus! {

/// Every number in `v` is in canonical form, and every object has one key
/// per value (what every `Json` value holds).
pub open spec fn nums_canonical(v: JsonV) -> bool
    decreases v, 0nat,
{
    match v {
        JsonV::Num(n) => canonical(n),
        JsonV::Arr(xs) => all_canonical(xs, xs.len()),
        JsonV::Obj(ks, vs) => ks.len() == vs.len() && all_canonical(vs, vs.len()),
        _ => true,
    }
}

/// The first `n` of `xs` satisfy `nums_canonical`.
pub open spec fn all_canonical(xs: Seq<JsonV>, n: nat) -> bool
    decreases xs, n,
{
    if n == 0 || n > xs.len() {
        n == 0
    } else {
        all_canonical(xs, (n - 1) as nat) && nums_canonical(xs[n - 1])
    }
}

/// Every number in `v` is finite (no infinity, no NaN).
pub open spec fn nums_finite(v: JsonV) -> bool
    decreases v, 0nat,
{
    match v {
        JsonV::Num(n) => n is Fin,
        JsonV::Arr(xs) => all_finite(xs, xs.len()),
        JsonV::Obj(_, vs) => all_finite(vs, vs.len()),
        _ => true,
    }
}

/// The first `n` of `xs` satisfy `nums_finite`.
pub open spec fn all_finite(xs: Seq<JsonV>, n: nat) -> bool
    decreases xs, n,
{
    if n == 0 || n > xs.len() {
        n == 0
    } else {
        all_finite(xs, (n - 1) as nat) && nums_finite(xs[n - 1])
    }
}

proof fn lemma_wf_of_canonical_finite(v: JsonV)
    requires
        nums_canonical(v),
        nums_finite(v),
    ensures
        wf_json(v),
    decreases v, 0nat,
{
    match v {
        JsonV::Arr(xs) => lemma_all_wf_of(xs, xs.len()),
        JsonV::Obj(ks, vs) => lemma_all_wf_of(vs, vs.len()),
        _ => {},
    }
}

proof fn lemma_all_wf_of(xs: Seq<JsonV>, n: nat)
    requires
        all_canonical(xs, n),
        all_finite(xs, n),
    ensures
        all_wf(xs, n),
    decreases xs, n,
{
    if n > 0 && n <= xs.len() {
        lemma_all_wf_of(xs, (n - 1) as nat);
        lemma_wf_of_canonical_finite(xs[n - 1]);
    }
}

} // verus!
