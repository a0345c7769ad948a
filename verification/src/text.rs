//! Character and string helpers shared by the other modules.

use vstd::prelude::*;

verus! {

/// The characters of `s`, in order.
pub fn chars_of(s: &str) -> (v: Vec<char>)
    ensures
        v@ == s@,
{
    let mut v: Vec<char> = Vec::new();
    for c in it: s.chars()
        invariant
            v@ == it.seq().take(it.index() as int),
            it.seq() == s@,
    {
        v.push(c);
    }
    v
}

/// Appends one character to a string (`String::push`).
#[verifier::external_body]
pub(crate) fn push_char(s: &mut String, c: char)
    ensures
        final(s)@ == old(s)@.push(c),
{
    s.push(c);
}

/// Appends `t` to a string.
pub fn push_str(s: &mut String, t: &str)
    ensures
        final(s)@ == old(s)@ + t@,
{
    s.append(t);
}

/// The character of a decimal digit.
pub open spec fn digit_char(d: u8) -> char {
    ((d + 48) as u8) as char
}

/// The digits `d` as characters, most significant first (`d` is least
/// significant first).
pub open spec fn digit_str(d: Seq<u8>) -> Seq<char> {
    Seq::new(d.len(), |i: int| digit_char(d[d.len() - 1 - i]))
}

/// Appends the digits `d[lo..hi]`, most significant first.
pub fn push_digits(s: &mut String, d: &Vec<u8>, lo: usize, hi: usize)
    requires
        lo <= hi <= d@.len(),
        forall|i: int| 0 <= i < d@.len() ==> #[trigger] d@[i] <= 9,
    ensures
        final(s)@ == old(s)@ + digit_str(d@.subrange(lo as int, hi as int)),
{
    let ghost s0 = s@;
    let mut i = hi;
    while i > lo
        invariant
            lo <= i <= hi <= d@.len(),
            forall|j: int| 0 <= j < d@.len() ==> #[trigger] d@[j] <= 9,
            s@ == s0 + digit_str(d@.subrange(i as int, hi as int)),
        decreases i,
    {
        let c = (d[i - 1] + 48) as char;
        push_char(s, c);
        i = i - 1;
        proof {
            assert(digit_str(d@.subrange(i as int, hi as int)) =~= digit_str(
                d@.subrange(i + 1, hi as int),
            ).push(c));
        }
    }
}

/// Decimal notation of `n`.
pub open spec fn nat_str(n: nat) -> Seq<char> {
    if n == 0 {
        seq!['0']
    } else {
        digit_str(crate::digits::le_digits(n))
    }
}

/// Appends `nat_str(n)`.
pub fn push_usize(s: &mut String, n: usize)
    ensures
        final(s)@ == old(s)@ + nat_str(n as nat),
{
    if n == 0 {
        push_char(s, '0');
        return;
    }
    let mut d: Vec<u8> = Vec::new();
    let mut x = n;
    proof {
        crate::digits::lemma_le_digits_props(n as nat);
    }
    while x > 0
        invariant
            forall|i: int| 0 <= i < d@.len() ==> #[trigger] d@[i] <= 9,
            d@ + crate::digits::le_digits(x as nat) == crate::digits::le_digits(n as nat),
        decreases x,
    {
        let r = (x % 10) as u8;
        proof {
            assert(crate::digits::le_digits(x as nat) == seq![r] + crate::digits::le_digits(
                (x / 10) as nat,
            ));
            assert(d@.push(r) + crate::digits::le_digits((x / 10) as nat) =~= d@ + (seq![r]
                + crate::digits::le_digits((x / 10) as nat)));
        }
        d.push(r);
        x = x / 10;
    }
    proof {
        assert(d@ =~= crate::digits::le_digits(n as nat));
    }
    let l = d.len();
    push_digits(s, &d, 0, l);
    proof {
        assert(d@.subrange(0, l as int) =~= d@);
    }
}

/// `a == b` on string slices: their UTF-8 encodings are compared byte by
/// byte, and equal encodings decode to equal characters.
pub(crate) fn str_eq(a: &str, b: &str) -> (r: bool)
    ensures
        r == (a@ == b@),
{
    let x = a.as_bytes();
    let y = b.as_bytes();
    proof {
        vstd::utf8::encode_utf8_decode_utf8(a@);
        vstd::utf8::encode_utf8_decode_utf8(b@);
    }
    if x.len() != y.len() {
        return false;
    }
    let mut i: usize = 0;
    while i < x.len()
        invariant
            i <= x@.len() == y@.len(),
            x@ == vstd::utf8::encode_utf8(a@),
            y@ == vstd::utf8::encode_utf8(b@),
            forall|j: int| 0 <= j < i ==> x@[j] == y@[j],
        decreases x@.len() - i,
    {
        if x[i] != y[i] {
            return false;
        }
        i = i + 1;
    }
    proof {
        assert(x@ =~= y@);
    }
    true
}

} // verus!

verus! {

/// Number of bytes in the UTF-8 encoding of `c`.
pub open spec fn utf8_width(c: char) -> nat {
    if (c as u32) < 0x80 {
        1
    } else if (c as u32) < 0x800 {
        2
    } else if (c as u32) < 0x10000 {
        3
    } else {
        4
    }
}

/// Number of bytes in the UTF-8 encoding of `s`.
pub open spec fn byte_len(s: Seq<char>) -> nat
    decreases s.len(),
{
    if s.len() == 0 {
        0
    } else {
        byte_len(s.drop_last()) + utf8_width(s.last())
    }
}

/// Byte offset of the character at index `i` of `s`.
pub open spec fn byte_off(s: Seq<char>, i: int) -> nat {
    byte_len(s.take(i))
}

pub proof fn lemma_byte_off_step(s: Seq<char>, k: int)
    requires
        0 <= k < s.len(),
    ensures
        byte_off(s, k + 1) == byte_off(s, k) + utf8_width(s[k]),
{
    assert(s.take(k + 1).drop_last() =~= s.take(k));
}

pub proof fn lemma_byte_off_mono(s: Seq<char>, i: int, j: int)
    requires
        0 <= i <= j <= s.len(),
    ensures
        byte_off(s, i) <= byte_off(s, j),
    decreases j - i,
{
    if i < j {
        lemma_byte_off_mono(s, i, j - 1);
        lemma_byte_off_step(s, j - 1);
    }
}

pub proof fn lemma_byte_off_bound(s: Seq<char>, i: int)
    requires
        0 <= i <= s.len(),
    ensures
        byte_off(s, i) <= byte_len(s),
{
    lemma_byte_off_mono(s, i, s.len() as int);
    assert(s.take(s.len() as int) =~= s);
}

/// `byte_off(s, i)`, computed.
pub fn byte_offset(s: &Vec<char>, i: usize) -> (r: usize)
    requires
        i <= s@.len(),
        byte_len(s@) <= usize::MAX,
    ensures
        r == byte_off(s@, i as int),
{
    let mut k: usize = 0;
    let mut r: usize = 0;
    while k < i
        invariant
            k <= i <= s@.len(),
            byte_len(s@) <= usize::MAX,
            r == byte_off(s@, k as int),
        decreases i - k,
    {
        proof {
            lemma_byte_off_step(s@, k as int);
            lemma_byte_off_bound(s@, k + 1);
        }
        let c = s[k] as u32;
        let w: usize = if c < 0x80 {
            1
        } else if c < 0x800 {
            2
        } else if c < 0x10000 {
            3
        } else {
            4
        };
        r = r + w;
        k = k + 1;
    }
    r
}

/// `c.is_whitespace()`: the Unicode `White_Space` property.
pub open spec fn is_space(c: char) -> bool {
    let u = c as u32;
    (0x9 <= u <= 0xD) || u == 0x20 || u == 0x85 || u == 0xA0 || u == 0x1680 || (0x2000 <= u
        <= 0x200A) || u == 0x2028 || u == 0x2029 || u == 0x202F || u == 0x205F || u == 0x3000
}

pub fn char_is_space(c: char) -> (r: bool)
    ensures
        r == is_space(c),
{
    let u = c as u32;
    (0x9 <= u && u <= 0xD) || u == 0x20 || u == 0x85 || u == 0xA0 || u == 0x1680 || (0x2000 <= u
        && u <= 0x200A) || u == 0x2028 || u == 0x2029 || u == 0x202F || u == 0x205F || u == 0x3000
}

/// `s.trim().is_empty()`.
pub open spec fn is_blank(s: Seq<char>) -> bool {
    forall|i: int| 0 <= i < s.len() ==> is_space(#[trigger] s[i])
}

pub fn blank(s: &Vec<char>) -> (r: bool)
    ensures
        r == is_blank(s@),
{
    let mut i: usize = 0;
    while i < s.len()
        invariant
            i <= s@.len(),
            forall|j: int| 0 <= j < i ==> is_space(#[trigger] s@[j]),
        decreases s@.len() - i,
    {
        if !char_is_space(s[i]) {
            return false;
        }
        i = i + 1;
    }
    true
}

/// Index of the first `'\n'` at or after `i`, or `s.len()`.
pub open spec fn line_end(s: Seq<char>, i: int) -> int
    decreases s.len() - i,
{
    if i < 0 || i >= s.len() || s[i] == '\n' {
        i
    } else {
        line_end(s, i + 1)
    }
}

/// A line without its terminator: a `'\r'` before the `'\n'` goes too.
pub open spec fn strip_cr(line: Seq<char>, had_nl: bool) -> Seq<char> {
    if had_nl && line.len() > 0 && line.last() == '\r' {
        line.drop_last()
    } else {
        line
    }
}

/// `str::lines` on the text from index `i` on.
pub open spec fn lines_from(s: Seq<char>, i: int) -> Seq<Seq<char>>
    decreases s.len() - i,
{
    if i < 0 || i >= s.len() {
        Seq::empty()
    } else {
        let e = line_end(s, i);
        proof {
            lemma_line_end(s, i);
        }
        let line = strip_cr(s.subrange(i, e), e < s.len());
        if e >= s.len() {
            seq![line]
        } else {
            seq![line] + lines_from(s, e + 1)
        }
    }
}

/// `str::lines`: the text split at `"\n"` and `"\r\n"`; a final terminator
/// opens no empty line.
pub open spec fn lines_of(s: Seq<char>) -> Seq<Seq<char>> {
    lines_from(s, 0)
}

pub proof fn lemma_line_end(s: Seq<char>, i: int)
    requires
        0 <= i <= s.len(),
    ensures
        i <= line_end(s, i) <= s.len(),
        line_end(s, i) < s.len() ==> s[line_end(s, i)] == '\n',
        forall|j: int| i <= j < line_end(s, i) ==> s[j] != '\n',
    decreases s.len() - i,
{
    if i < s.len() && s[i] != '\n' {
        lemma_line_end(s, i + 1);
    }
}

/// The lines of `s` (`str::lines`), each as characters.
pub fn split_lines(s: &Vec<char>) -> (r: Vec<Vec<char>>)
    ensures
        r@.len() == lines_of(s@).len(),
        forall|k: int| 0 <= k < r@.len() ==> (#[trigger] r@[k])@ == lines_of(s@)[k],
{
    let mut r: Vec<Vec<char>> = Vec::new();
    let mut i: usize = 0;
    while i < s.len()
        invariant
            i <= s@.len(),
            r@.len() + lines_from(s@, i as int).len() == lines_of(s@).len(),
            forall|k: int| 0 <= k < r@.len() ==> (#[trigger] r@[k])@ == lines_of(s@)[k],
            forall|k: int|
                0 <= k < lines_from(s@, i as int).len() ==> lines_from(s@, i as int)[k]
                    == #[trigger] lines_of(s@)[r@.len() + k],
        decreases s@.len() - i,
    {
        proof {
            lemma_line_end(s@, i as int);
        }
        let ghost i0 = i as int;
        let mut line: Vec<char> = Vec::new();
        let mut e = i;
        while e < s.len() && s[e] != '\n'
            invariant
                i <= e <= line_end(s@, i as int) <= s@.len(),
                line@ == s@.subrange(i as int, e as int),
                forall|j: int| i <= j < line_end(s@, i as int) ==> s@[j] != '\n',
                line_end(s@, i as int) < s@.len() ==> s@[line_end(s@, i as int)] == '\n',
            decreases s@.len() - e,
        {
            line.push(s[e]);
            e = e + 1;
            assert(line@ =~= s@.subrange(i as int, e as int));
        }
        let had_nl = e < s.len();
        if had_nl && line.len() > 0 && line[line.len() - 1] == '\r' {
            line.pop();
        }
        let ghost rest = lines_from(s@, i as int);
        proof {
            assert(line@ =~= rest[0]);
            assert(rest.len() >= 1);
            let z: int = 0;
            assert(rest[z] == lines_of(s@)[r@.len() + z]);
            if had_nl {
                assert(rest =~= seq![rest[0]] + lines_from(s@, e + 1));
            }
        }
        r.push(line);
        i = if had_nl {
            e + 1
        } else {
            e
        };
        proof {
            assert forall|k: int| 0 <= k < lines_from(s@, i as int).len() implies lines_from(
                s@,
                i as int,
            )[k] == #[trigger] lines_of(s@)[r@.len() + k] by {
                assert(lines_from(s@, i as int)[k] == rest[k + 1]);
                assert(rest[k + 1] == lines_of(s@)[r@.len() - 1 + (k + 1)]);
            }
        }
    }
    r
}

} // verus!

verus! {

/// `char::from_u32`: the character with scalar value `v`, if `v` is one
/// (at most `0x10FFFF` and not a surrogate).
#[verifier::external_body]
pub(crate) fn char_from_u32(v: u32) -> (r: Option<char>)
    ensures
        r == (if v <= 0x10FFFF && !(0xD800 <= v <= 0xDFFF) {
            Some(v as char)
        } else {
            None
        }),
{
    char::from_u32(v)
}

/// A new string holding `s`.
pub fn string_of(s: &str) -> (r: String)
    ensures
        r@ == s@,
{
    let mut r = String::new();
    push_str(&mut r, s);
    proof {
        assert(r@ =~= s@);
    }
    r
}

/// Appends the characters `v[lo..hi]`.
pub fn push_chars(out: &mut String, v: &Vec<char>, lo: usize, hi: usize)
    requires
        lo <= hi <= v@.len(),
    ensures
        final(out)@ == old(out)@ + v@.subrange(lo as int, hi as int),
{
    let ghost o = out@;
    let mut k = lo;
    while k < hi
        invariant
            lo <= k <= hi <= v@.len(),
            out@ == o + v@.subrange(lo as int, k as int),
        decreases hi - k,
    {
        push_char(out, v[k]);
        k = k + 1;
        assert(out@ =~= o + v@.subrange(lo as int, k as int));
    }
}

} // verus!

verus! {

pub proof fn lemma_byte_len_concat(a: Seq<char>, b: Seq<char>)
    ensures
        byte_len(a + b) == byte_len(a) + byte_len(b),
    decreases b.len(),
{
    if b.len() == 0 {
        assert(a + b =~= a);
    } else {
        lemma_byte_len_concat(a, b.drop_last());
        assert((a + b).drop_last() =~= a + b.drop_last());
    }
}

pub proof fn lemma_byte_len_sub(s: Seq<char>, i: int, j: int)
    requires
        0 <= i <= j <= s.len(),
    ensures
        byte_len(s.subrange(i, j)) <= byte_len(s),
{
    assert(s.take(j) =~= s.take(i) + s.subrange(i, j));
    lemma_byte_len_concat(s.take(i), s.subrange(i, j));
    lemma_byte_off_bound(s, j);
}

pub proof fn lemma_lines_from_bound(s: Seq<char>, i: int)
    requires
        0 <= i <= s.len(),
    ensures
        forall|k: int|
            0 <= k < lines_from(s, i).len() ==> byte_len(#[trigger] lines_from(s, i)[k])
                <= byte_len(s),
    decreases s.len() - i,
{
    if i < s.len() {
        let e = line_end(s, i);
        lemma_line_end(s, i);
        let raw = s.subrange(i, e);
        lemma_byte_len_sub(s, i, e);
        let line = strip_cr(raw, e < s.len());
        assert(byte_len(line) <= byte_len(raw));
        if e < s.len() {
            lemma_lines_from_bound(s, e + 1);
            let rest = lines_from(s, e + 1);
            assert forall|k: int| 0 <= k < lines_from(s, i).len() implies byte_len(
                #[trigger] lines_from(s, i)[k],
            ) <= byte_len(s) by {
                if k > 0 {
                    assert(lines_from(s, i)[k] == rest[k - 1]);
                }
            }
        }
    }
}

} // verus!

verus! {

/// Index of the first non-whitespace character at or after `i`.
pub open spec fn trim_lo(s: Seq<char>, i: int) -> int
    decreases s.len() - i,
{
    if 0 <= i < s.len() && is_space(s[i]) {
        trim_lo(s, i + 1)
    } else {
        i
    }
}

/// One past the last non-whitespace character before `j`, not below `lo`.
pub open spec fn trim_hi(s: Seq<char>, lo: int, j: int) -> int
    decreases j - lo,
{
    if lo < j && j <= s.len() && is_space(s[j - 1]) {
        trim_hi(s, lo, j - 1)
    } else {
        j
    }
}

/// `str::trim`: leading and trailing whitespace removed.
pub open spec fn trim_v(s: Seq<char>) -> Seq<char> {
    let lo = trim_lo(s, 0);
    s.subrange(lo, trim_hi(s, lo, s.len() as int))
}

pub proof fn lemma_trim_lo(s: Seq<char>, i: int)
    requires
        0 <= i <= s.len(),
    ensures
        i <= trim_lo(s, i) <= s.len(),
    decreases s.len() - i,
{
    if i < s.len() && is_space(s[i]) {
        lemma_trim_lo(s, i + 1);
    }
}

pub proof fn lemma_trim_hi(s: Seq<char>, lo: int, j: int)
    requires
        0 <= lo <= j <= s.len(),
    ensures
        lo <= trim_hi(s, lo, j) <= j,
    decreases j - lo,
{
    if lo < j && is_space(s[j - 1]) {
        lemma_trim_hi(s, lo, j - 1);
    }
}

/// The characters `v[lo..hi]` with surrounding whitespace removed.
pub fn trim_range(v: &Vec<char>, lo: usize, hi: usize) -> (r: String)
    requires
        lo <= hi <= v@.len(),
    ensures
        r@ == trim_v(v@.subrange(lo as int, hi as int)),
{
    let ghost s = v@.subrange(lo as int, hi as int);
    let mut a = lo;
    while a < hi && char_is_space(v[a])
        invariant
            lo <= a <= hi <= v@.len(),
            s == v@.subrange(lo as int, hi as int),
            trim_lo(s, a - lo) == trim_lo(s, 0),
        decreases hi - a,
    {
        a = a + 1;
    }
    proof {
        lemma_trim_lo(s, 0);
    }
    let mut b = hi;
    while b > a && char_is_space(v[b - 1])
        invariant
            lo <= a <= b <= hi <= v@.len(),
            s == v@.subrange(lo as int, hi as int),
            a - lo == trim_lo(s, 0),
            trim_hi(s, a - lo, b - lo) == trim_hi(s, a - lo, s.len() as int),
        decreases b - a,
    {
        b = b - 1;
    }
    let mut r = String::new();
    push_chars(&mut r, v, a, b);
    proof {
        assert(r@ =~= trim_v(s));
    }
    r
}

} // verus!

verus! {

/// What `char::escape_debug` yields for `c`.
pub uninterp spec fn escape_debug_v(c: char) -> Seq<char>;

/// `char::escape_debug`, collected into a string. Its contract only names
/// the result: which characters the standard library escapes, and how,
/// rests on Unicode tables that are not restated here.
#[verifier::external_body]
fn char_escape_debug(c: char) -> (r: String)
    ensures
        r@ == escape_debug_v(c),
{
    c.escape_debug().collect::<String>()
}

/// How `Debug` writes one character inside a string: as `char::escape_debug`
/// does, except that a single quote stays as it is.
pub open spec fn str_char_debug(c: char) -> Seq<char> {
    if c == '\'' {
        seq!['\'']
    } else {
        escape_debug_v(c)
    }
}

/// The escaped characters of `s`.
pub open spec fn escaped_debug(s: Seq<char>) -> Seq<char>
    decreases s.len(),
{
    if s.len() == 0 {
        Seq::empty()
    } else {
        escaped_debug(s.drop_last()) + str_char_debug(s.last())
    }
}

/// How `Debug` writes a string: quoted, characters escaped.
pub open spec fn str_debug_v(s: Seq<char>) -> Seq<char> {
    seq!['"'] + escaped_debug(s) + seq!['"']
}

/// Appends `format!("{:?}", s)`.
pub fn push_str_debug(out: &mut String, s: &str)
    ensures
        final(out)@ == old(out)@ + str_debug_v(s@),
{
    let cs = chars_of(s);
    let ghost o = out@;
    push_char(out, '"');
    let mut i: usize = 0;
    while i < cs.len()
        invariant
            i <= cs@.len(),
            cs@ == s@,
            out@ == o + seq!['"'] + escaped_debug(cs@.subrange(0, i as int)),
        decreases cs@.len() - i,
    {
        let c = cs[i];
        if c == '\'' {
            push_char(out, '\'');
        } else {
            let e = char_escape_debug(c);
            push_str(out, e.as_str());
        }
        proof {
            assert(cs@.subrange(0, i + 1).drop_last() =~= cs@.subrange(0, i as int));
        }
        i = i + 1;
        assert(out@ =~= o + seq!['"'] + escaped_debug(cs@.subrange(0, i as int)));
    }
    push_char(out, '"');
    assert(cs@.subrange(0, i as int) =~= s@);
    assert(out@ =~= o + str_debug_v(s@));
}

/// Decimal notation of an integer, with a `-` when negative.
pub open spec fn int_str(n: int) -> Seq<char> {
    if n < 0 {
        seq!['-'] + nat_str((-n) as nat)
    } else {
        nat_str(n as nat)
    }
}

/// Appends `int_str(n)`.
pub fn push_i64(out: &mut String, n: i64)
    ensures
        final(out)@ == old(out)@ + int_str(n as int),
{
    if n < 0 {
        push_char(out, '-');
        let m: u64 = if n == i64::MIN {
            9223372036854775808u64
        } else {
            (-n) as u64
        };
        push_u64(out, m);
        assert(out@ =~= old(out)@ + int_str(n as int));
    } else {
        push_u64(out, n as u64);
    }
}

/// Appends `nat_str(n)`.
pub fn push_u64(s: &mut String, n: u64)
    ensures
        final(s)@ == old(s)@ + nat_str(n as nat),
{
    if n == 0 {
        push_char(s, '0');
        return;
    }
    let mut d: Vec<u8> = Vec::new();
    let mut x = n;
    proof {
        crate::digits::lemma_le_digits_props(n as nat);
    }
    while x > 0
        invariant
            forall|i: int| 0 <= i < d@.len() ==> #[trigger] d@[i] <= 9,
            d@ + crate::digits::le_digits(x as nat) == crate::digits::le_digits(n as nat),
        decreases x,
    {
        let r = (x % 10) as u8;
        proof {
            assert(crate::digits::le_digits(x as nat) == seq![r] + crate::digits::le_digits(
                (x / 10) as nat,
            ));
            assert(d@.push(r) + crate::digits::le_digits((x / 10) as nat) =~= d@ + (seq![r]
                + crate::digits::le_digits((x / 10) as nat)));
        }
        d.push(r);
        x = x / 10;
    }
    proof {
        assert(d@ =~= crate::digits::le_digits(n as nat));
    }
    let l = d.len();
    push_digits(s, &d, 0, l);
    proof {
        assert(d@.subrange(0, l as int) =~= d@);
    }
}

} // verus!

verus! {

/// What `str::to_lowercase` returns for `s`.
pub uninterp spec fn lowercase(s: Seq<char>) -> Seq<char>;

/// Every character is ASCII.
pub open spec fn all_ascii(s: Seq<char>) -> bool {
    forall|i: int| 0 <= i < s.len() ==> (#[trigger] s[i] as u32) < 128
}

/// ASCII lowercasing: `A`–`Z` become `a`–`z`, every other character stays.
pub open spec fn ascii_lower(s: Seq<char>) -> Seq<char> {
    Seq::new(
        s.len(),
        |i: int|
            if 'A' <= s[i] <= 'Z' {
                ((s[i] as u32) + 32) as char
            } else {
                s[i]
            },
    )
}

/// `str::to_lowercase`. Its contract names the result; of the Unicode
/// lowercase mapping it states only the ASCII part: on ASCII text the
/// result is the ASCII lowercasing (Unicode maps `A`–`Z` to `a`–`z` and
/// leaves the other ASCII characters as they are). The mapping of other
/// characters is not restated here.
#[verifier::external_body]
pub(crate) fn to_lowercase(s: &str) -> (r: String)
    ensures
        r@ == lowercase(s@),
        all_ascii(s@) ==> r@ == ascii_lower(s@),
{
    s.to_lowercase()
}

} // verus!

verus! {

/// `str::len`: the length of `s` in bytes, which for a `str` are the bytes
/// of its characters' UTF-8 encodings.
#[verifier::external_body]
pub(crate) fn str_byte_len(s: &str) -> (r: usize)
    ensures
        r as nat == byte_len(s@),
{
    s.len()
}

} // verus!
