//! Little-endian decimal digit strings and their integer values.
//!
//! A digit string `s` holds one decimal digit per element, least significant
//! first; `val(s)` is the natural number it denotes. These are the building
//! blocks of the exact decimal numbers in `decimal`.

use vstd::prelude::*;

verus! {

/// `10^n`.
pub open spec fn pow10(n: nat) -> nat
    decreases n,
{
    if n == 0 {
        1
    } else {
        10 * pow10((n - 1) as nat)
    }
}

/// Every element is a decimal digit.
pub open spec fn all_digits(s: Seq<u8>) -> bool {
    forall|i: int| 0 <= i < s.len() ==> #[trigger] s[i] <= 9
}

/// The `i`-th digit, reading zeros past the end.
pub open spec fn dig(s: Seq<u8>, i: int) -> nat {
    if 0 <= i < s.len() {
        s[i] as nat
    } else {
        0
    }
}

/// Value of the lowest `n` digits of `s` (zeros past the end).
pub open spec fn valn(s: Seq<u8>, n: nat) -> nat
    decreases n,
{
    if n == 0 {
        0
    } else {
        valn(s, (n - 1) as nat) + dig(s, n - 1) * pow10((n - 1) as nat)
    }
}

/// The natural number denoted by the little-endian digit string `s`.
pub open spec fn val(s: Seq<u8>) -> nat {
    valn(s, s.len())
}

/// No most-significant zero digit (the empty string denotes zero).
pub open spec fn no_high_zero(s: Seq<u8>) -> bool {
    s.len() == 0 || s[s.len() - 1] != 0
}

/// The canonical digit string of `m`: no high zeros.
pub open spec fn le_digits(m: nat) -> Seq<u8>
    decreases m,
{
    if m == 0 {
        Seq::<u8>::empty()
    } else {
        seq![(m % 10) as u8] + le_digits(m / 10)
    }
}

/// `k` zero digits.
pub open spec fn zeros(k: nat) -> Seq<u8> {
    Seq::new(k, |i: int| 0u8)
}

pub proof fn lemma_pow10_pos(n: nat)
    ensures
        pow10(n) >= 1,
    decreases n,
{
    if n > 0 {
        lemma_pow10_pos((n - 1) as nat);
    }
}

pub proof fn lemma_pow10_add(a: nat, b: nat)
    ensures
        pow10(a + b) == pow10(a) * pow10(b),
    decreases a,
{
    if a > 0 {
        let a1 = (a - 1) as nat;
        lemma_pow10_add(a1, b);
        assert(pow10(a + b) == 10 * pow10(a1 + b));
        let x = pow10(a1);
        let y = pow10(b);
        assert(10 * (x * y) == (10 * x) * y) by (nonlinear_arith);
        assert(pow10(a) == 10 * x);
        assert(pow10(a1 + b) == x * y);
        assert(pow10(a + b) == 10 * (x * y));
        assert(pow10(a + b) == pow10(a) * y);
    } else {
        assert(pow10(a) == 1);
        assert(a + b == b);
    }
}

pub proof fn lemma_pow10_mono(a: nat, b: nat)
    requires
        a <= b,
    ensures
        pow10(a) <= pow10(b),
    decreases b,
{
    if a < b {
        lemma_pow10_mono(a, (b - 1) as nat);
        lemma_pow10_pos((b - 1) as nat);
    }
}

/// Digits beyond `n` do not change the value of the lowest `n`.
pub proof fn lemma_valn_same(s: Seq<u8>, t: Seq<u8>, n: nat)
    requires
        forall|i: int| 0 <= i < n ==> dig(s, i) == dig(t, i),
    ensures
        valn(s, n) == valn(t, n),
    decreases n,
{
    if n > 0 {
        lemma_valn_same(s, t, (n - 1) as nat);
    }
}

/// Reading past the end adds nothing.
pub proof fn lemma_valn_ext(s: Seq<u8>, n: nat)
    requires
        n >= s.len(),
    ensures
        valn(s, n) == val(s),
    decreases n,
{
    if n > s.len() {
        lemma_valn_ext(s, (n - 1) as nat);
        assert(dig(s, n - 1) == 0);
        assert(valn(s, n) == valn(s, (n - 1) as nat) + dig(s, n - 1) * pow10((n - 1) as nat));
    }
}

pub proof fn lemma_valn_bound(s: Seq<u8>, n: nat)
    requires
        all_digits(s),
    ensures
        valn(s, n) < pow10(n),
    decreases n,
{
    if n > 0 {
        lemma_valn_bound(s, (n - 1) as nat);
        let p = pow10((n - 1) as nat);
        let d = dig(s, n - 1);
        assert(d <= 9);
        assert(d * p <= 9 * p) by (nonlinear_arith)
            requires
                d <= 9,
        ;
    }
}

pub proof fn lemma_val_bound(s: Seq<u8>)
    requires
        all_digits(s),
    ensures
        val(s) < pow10(s.len()),
{
    lemma_valn_bound(s, s.len());
}

/// A string whose top digit is nonzero is at least `10^(len-1)`.
pub proof fn lemma_val_lower(s: Seq<u8>)
    requires
        s.len() > 0,
        s[s.len() - 1] != 0,
    ensures
        val(s) >= pow10((s.len() - 1) as nat),
{
    let n = (s.len() - 1) as nat;
    let d = dig(s, n as int);
    assert(d >= 1);
    lemma_pow10_pos(n);
    assert(d * pow10(n) >= pow10(n)) by (nonlinear_arith)
        requires
            d >= 1,
    ;
}

/// Appending a digit at the high end.
pub proof fn lemma_val_push(s: Seq<u8>, d: u8)
    ensures
        val(s.push(d)) == val(s) + d * pow10(s.len()),
{
    let t = s.push(d);
    lemma_valn_same(s, t, s.len());
}

/// `val(s) = s[0] + 10 * val(s.drop_first())`, in terms of `valn`.
pub proof fn lemma_valn_first(s: Seq<u8>, n: nat)
    requires
        s.len() > 0,
    ensures
        valn(s, n + 1) == dig(s, 0) + 10 * valn(s.drop_first(), n),
    decreases n,
{
    let r = s.drop_first();
    if n == 0 {
        assert(pow10(0) == 1);
        assert(valn(s, 1) == valn(s, 0) + dig(s, 0) * pow10(0));
        assert(valn(r, 0) == 0);
    } else {
        let n1 = (n - 1) as nat;
        lemma_valn_first(s, n1);
        assert(dig(s, n as int) == dig(r, n - 1));
        let p = pow10(n1);
        let d = dig(r, n - 1);
        assert(d * pow10(n) == 10 * (d * p)) by (nonlinear_arith)
            requires
                pow10(n) == 10 * p,
        ;
        assert(n1 + 1 == n);
        assert(valn(s, n) == dig(s, 0) + 10 * valn(r, n1));
        assert(valn(s, n + 1) == valn(s, n) + dig(s, n as int) * pow10(n));
        assert(valn(r, n) == valn(r, n1) + d * p);
        assert(valn(s, n + 1) == dig(s, 0) + 10 * valn(r, n1) + 10 * (d * p));
    }
}

pub proof fn lemma_val_first(s: Seq<u8>)
    requires
        s.len() > 0,
    ensures
        val(s) == s[0] + 10 * val(s.drop_first()),
{
    lemma_valn_first(s, (s.len() - 1) as nat);
}

/// `val(s) % 10` is the lowest digit and `val(s) / 10` the rest.
pub proof fn lemma_val_divmod(s: Seq<u8>)
    requires
        s.len() > 0,
        all_digits(s),
    ensures
        val(s) % 10 == s[0],
        val(s) / 10 == val(s.drop_first()),
{
    lemma_val_first(s);
    let r = val(s.drop_first());
    let d = s[0] as nat;
    assert(d <= 9);
    assert((d + 10 * r) % 10 == d && (d + 10 * r) / 10 == r) by (nonlinear_arith)
        requires
            d <= 9,
    ;
}

/// Low zeros scale the value.
pub proof fn lemma_val_zeros_prefix(k: nat, s: Seq<u8>)
    ensures
        val(zeros(k) + s) == pow10(k) * val(s),
    decreases k,
{
    if k == 0 {
        assert(zeros(0) + s =~= s);
        assert(pow10(0) == 1);
    } else {
        let t = zeros(k) + s;
        assert(t.drop_first() =~= zeros((k - 1) as nat) + s);
        assert(t[0] == 0);
        lemma_val_first(t);
        lemma_val_zeros_prefix((k - 1) as nat, s);
        let x = pow10((k - 1) as nat);
        let y = val(s);
        assert(10 * (x * y) == (10 * x) * y) by (nonlinear_arith);
        assert(val(t) == 10 * val(t.drop_first()));
        assert(val(t.drop_first()) == x * y);
        assert(pow10(k) == 10 * x);
    }
}

/// The canonical digits of the value of a canonical digit string are itself.
pub proof fn lemma_le_digits_val(s: Seq<u8>)
    requires
        all_digits(s),
        no_high_zero(s),
    ensures
        le_digits(val(s)) == s,
    decreases s.len(),
{
    if s.len() == 0 {
        assert(le_digits(0) =~= s);
    } else {
        lemma_val_divmod(s);
        lemma_val_lower(s);
        lemma_pow10_pos((s.len() - 1) as nat);
        let r = s.drop_first();
        assert(all_digits(r));
        assert(no_high_zero(r));
        lemma_le_digits_val(r);
        assert(seq![s[0]] + r =~= s);
    }
}

/// Canonical digit strings are determined by their value.
pub proof fn lemma_val_injective(s: Seq<u8>, t: Seq<u8>)
    requires
        all_digits(s),
        no_high_zero(s),
        all_digits(t),
        no_high_zero(t),
        val(s) == val(t),
    ensures
        s == t,
{
    lemma_le_digits_val(s);
    lemma_le_digits_val(t);
}

pub proof fn lemma_le_digits_props(m: nat)
    ensures
        all_digits(le_digits(m)),
        no_high_zero(le_digits(m)),
        val(le_digits(m)) == m,
        m > 0 ==> le_digits(m).len() > 0,
    decreases m,
{
    if m > 0 {
        lemma_le_digits_props(m / 10);
        let r = le_digits(m / 10);
        let s = le_digits(m);
        assert(s == seq![(m % 10) as u8] + r);
        assert(s.drop_first() =~= r);
        lemma_val_first(s);
        assert(m == m % 10 + 10 * (m / 10));
        if r.len() == 0 {
            assert(m / 10 == 0);
            assert(m % 10 != 0);
        }
    }
}

pub proof fn lemma_val_zero(s: Seq<u8>)
    requires
        all_digits(s),
        no_high_zero(s),
    ensures
        val(s) == 0 <==> s.len() == 0,
{
    if s.len() > 0 {
        lemma_val_lower(s);
        lemma_pow10_pos((s.len() - 1) as nat);
    }
}

/// Splitting a digit string at position `k`.
pub proof fn lemma_val_split(s: Seq<u8>, k: int)
    requires
        0 <= k <= s.len(),
    ensures
        val(s) == val(s.subrange(0, k)) + pow10(k as nat) * val(s.subrange(k, s.len() as int)),
    decreases k,
{
    if k == 0 {
        assert(s.subrange(0, 0) =~= Seq::<u8>::empty());
        assert(s.subrange(0, s.len() as int) =~= s);
        assert(pow10(0) == 1);
        assert(val(Seq::<u8>::empty()) == 0);
        assert(1 * val(s) == val(s));
    } else {
        let k1 = k - 1;
        lemma_val_split(s, k1);
        let lo = s.subrange(0, k1);
        let hi = s.subrange(k1, s.len() as int);
        let lo2 = s.subrange(0, k);
        let hi2 = s.subrange(k, s.len() as int);
        assert(lo2 =~= lo.push(s[k1]));
        assert(hi.drop_first() =~= hi2);
        lemma_val_push(lo, s[k1]);
        lemma_val_first(hi);
        let p = pow10(k1 as nat);
        assert(pow10(k as nat) == 10 * p);
        let d = s[k1] as nat;
        let h2 = val(hi2);
        assert(p * (d + 10 * h2) == d * p + (10 * p) * h2) by (nonlinear_arith);
    }
}

/// A zero high digit adds nothing.
pub proof fn lemma_val_push_zero(s: Seq<u8>)
    ensures
        val(s.push(0)) == val(s),
{
    lemma_val_push(s, 0);
}

/// `k` nines.
pub open spec fn nines(k: nat) -> Seq<u8> {
    Seq::new(k, |i: int| 9u8)
}

pub proof fn lemma_val_nines(k: nat)
    ensures
        val(nines(k)) + 1 == pow10(k),
    decreases k,
{
    if k == 0 {
        assert(val(nines(0)) == 0);
    } else {
        let k1 = (k - 1) as nat;
        lemma_val_nines(k1);
        assert(nines(k) =~= nines(k1).push(9));
        lemma_val_push(nines(k1), 9);
    }
}

/// Copies `v[lo..hi]`.
pub fn vec_slice(v: &Vec<u8>, lo: usize, hi: usize) -> (r: Vec<u8>)
    requires
        lo <= hi <= v.len(),
    ensures
        r@ == v@.subrange(lo as int, hi as int),
{
    let mut r: Vec<u8> = Vec::new();
    let mut i = lo;
    while i < hi
        invariant
            lo <= i <= hi <= v.len(),
            r@ == v@.subrange(lo as int, i as int),
        decreases hi - i,
    {
        r.push(v[i]);
        i = i + 1;
    }
    r
}

/// `val(q) + 1`; a canonical input gives a canonical output at least as long.
pub fn digits_inc(q: &Vec<u8>) -> (r: Vec<u8>)
    requires
        all_digits(q@),
    ensures
        all_digits(r@),
        val(r@) == val(q@) + 1,
        no_high_zero(q@) ==> no_high_zero(r@),
        r@.len() >= q@.len(),
        r@.len() <= q@.len() + 1,
{
    let n = q.len();
    let mut i: usize = 0;
    while i < n && q[i] == 9
        invariant
            i <= n == q@.len(),
            forall|j: int| 0 <= j < i ==> q@[j] == 9,
        decreases n - i,
    {
        i = i + 1;
    }
    let mut r: Vec<u8> = Vec::new();
    let mut j: usize = 0;
    while j < i
        invariant
            j <= i <= n,
            r@ == zeros(j as nat),
        decreases i - j,
    {
        r.push(0);
        j = j + 1;
    }
    proof {
        assert(q@.subrange(0, i as int) =~= nines(i as nat));
        lemma_val_split(q@, i as int);
        lemma_val_nines(i as nat);
    }
    let ghost rest = q@.subrange(i as int, n as int);
    if i == n {
        r.push(1);
        proof {
            assert(r@ =~= zeros(n as nat) + seq![1u8]);
            lemma_val_zeros_prefix(n as nat, seq![1u8]);
            assert(seq![1u8].drop_first() =~= Seq::<u8>::empty());
            lemma_val_first(seq![1u8]);
            assert(rest =~= Seq::<u8>::empty());
            assert(val(rest) == 0);
            let p = pow10(n as nat);
            assert(p * 1 == p && p * 0 == 0) by (nonlinear_arith);
        }
    } else {
        let d = q[i] + 1;
        r.push(d);
        let mut k = i + 1;
        while k < n
            invariant
                i < k <= n == q@.len(),
                r@ == zeros(i as nat) + seq![d] + q@.subrange(i as int + 1, k as int),
            decreases n - k,
        {
            r.push(q[k]);
            k = k + 1;
        }
        proof {
            let rest2 = seq![d] + q@.subrange(i as int + 1, n as int);
            assert(r@ =~= zeros(i as nat) + rest2);
            lemma_val_zeros_prefix(i as nat, rest2);
            lemma_val_first(rest2);
            lemma_val_first(rest);
            assert(rest2.drop_first() =~= rest.drop_first());
            assert(r@[r@.len() - 1] == q@[n - 1] || n - 1 == i);
            let p = pow10(i as nat);
            let t = val(rest.drop_first());
            let dd = d as int;
            assert(p * (dd + 10 * t) == p * (dd - 1 + 10 * t) + p) by (nonlinear_arith);
        }
    }
    r
}

/// `zeros(k) + d`, i.e. `d · 10^k`.
pub fn digits_shift(d: &Vec<u8>, k: usize) -> (r: Vec<u8>)
    requires
        all_digits(d@),
    ensures
        r@ == zeros(k as nat) + d@,
        all_digits(r@),
        val(r@) == pow10(k as nat) * val(d@),
{
    let mut r: Vec<u8> = Vec::new();
    let mut i: usize = 0;
    while i < k
        invariant
            i <= k,
            r@ == zeros(i as nat),
        decreases k - i,
    {
        r.push(0);
        i = i + 1;
    }
    let mut j: usize = 0;
    while j < d.len()
        invariant
            j <= d@.len(),
            r@ == zeros(k as nat) + d@.subrange(0, j as int),
        decreases d@.len() - j,
    {
        r.push(d[j]);
        j = j + 1;
    }
    proof {
        assert(d@.subrange(0, d@.len() as int) =~= d@);
        lemma_val_zeros_prefix(k as nat, d@);
    }
    r
}

/// One step of a digit-wise operation: `valn` gains digit `i`.
proof fn lemma_valn_step(s: Seq<u8>, i: nat)
    ensures
        valn(s, i + 1) == valn(s, i) + dig(s, i as int) * pow10(i),
{
}

/// `val(a) + val(b)`.
pub fn digits_add(a: &Vec<u8>, b: &Vec<u8>) -> (r: Vec<u8>)
    requires
        all_digits(a@),
        all_digits(b@),
    ensures
        all_digits(r@),
        val(r@) == val(a@) + val(b@),
{
    let la = a.len();
    let lb = b.len();
    let n = if la > lb { la } else { lb };
    let mut r: Vec<u8> = Vec::new();
    let mut carry: u8 = 0;
    let mut i: usize = 0;
    while i < n
        invariant
            i <= n,
            n == if la > lb { la } else { lb },
            la == a@.len(),
            lb == b@.len(),
            all_digits(a@),
            all_digits(b@),
            all_digits(r@),
            r@.len() == i,
            carry <= 1,
            val(r@) + carry * pow10(i as nat) == valn(a@, i as nat) + valn(b@, i as nat),
        decreases n - i,
    {
        let da: u8 = if i < la { a[i] } else { 0 };
        let db: u8 = if i < lb { b[i] } else { 0 };
        let t: u8 = da + db + carry;
        let x: u8 = t % 10;
        let c2: u8 = t / 10;
        proof {
            lemma_val_push(r@, x);
            lemma_valn_step(a@, i as nat);
            lemma_valn_step(b@, i as nat);
            assert(dig(a@, i as int) == da);
            assert(dig(b@, i as int) == db);
            let p = pow10(i as nat);
            assert(pow10((i + 1) as nat) == 10 * p);
            assert(x + 10 * c2 == t);
            assert(x * p + c2 * (10 * p) == (da + db + carry) * p) by (nonlinear_arith)
                requires
                    x + 10 * c2 == da + db + carry,
            ;
            assert((da + db + carry) * p == da * p + db * p + carry * p) by (nonlinear_arith);
        }
        r.push(x);
        carry = c2;
        i = i + 1;
    }
    proof {
        lemma_valn_ext(a@, n as nat);
        lemma_valn_ext(b@, n as nat);
    }
    if carry == 1 {
        proof {
            lemma_val_push(r@, 1);
        }
        r.push(1);
    } else {
        proof {
            assert(carry == 0);
        }
    }
    r
}

/// `val(a) - val(b)` computed with a final borrow: `val(r) - borrow · 10^len`.
fn digits_sub_raw(a: &Vec<u8>, b: &Vec<u8>) -> (res: (Vec<u8>, bool))
    requires
        all_digits(a@),
        all_digits(b@),
    ensures
        all_digits(res.0@),
        val(res.0@) < pow10(res.0@.len()),
        val(res.0@) - (if res.1 { pow10(res.0@.len()) as int } else { 0 }) == val(a@) - val(b@),
{
    let la = a.len();
    let lb = b.len();
    let n = if la > lb { la } else { lb };
    let mut r: Vec<u8> = Vec::new();
    let mut borrow: u8 = 0;
    let mut i: usize = 0;
    while i < n
        invariant
            i <= n,
            n == if la > lb { la } else { lb },
            la == a@.len(),
            lb == b@.len(),
            all_digits(a@),
            all_digits(b@),
            all_digits(r@),
            r@.len() == i,
            borrow <= 1,
            val(r@) - borrow * pow10(i as nat) == valn(a@, i as nat) - valn(b@, i as nat),
        decreases n - i,
    {
        let da: u8 = if i < la { a[i] } else { 0 };
        let db: u8 = if i < lb { b[i] } else { 0 };
        let x: u8;
        let b2: u8;
        if da >= db + borrow {
            x = da - db - borrow;
            b2 = 0;
        } else {
            x = da + 10 - db - borrow;
            b2 = 1;
        }
        proof {
            lemma_val_push(r@, x);
            lemma_valn_step(a@, i as nat);
            lemma_valn_step(b@, i as nat);
            assert(dig(a@, i as int) == da);
            assert(dig(b@, i as int) == db);
            let p = pow10(i as nat);
            assert(pow10((i + 1) as nat) == 10 * p);
            assert(x - 10 * b2 == da - db - borrow);
            assert(x * p - b2 * (10 * p) == (da - db - borrow) * p) by (nonlinear_arith)
                requires
                    x - 10 * b2 == da - db - borrow,
            ;
            assert((da - db - borrow) * p == da * p - db * p - borrow * p) by (nonlinear_arith);
        }
        r.push(x);
        borrow = b2;
        i = i + 1;
    }
    proof {
        lemma_valn_ext(a@, n as nat);
        lemma_valn_ext(b@, n as nat);
        lemma_val_bound(r@);
    }
    (r, borrow == 1)
}

/// `|val(a) - val(b)|` and whether `val(a) < val(b)`.
pub fn digits_absdiff(a: &Vec<u8>, b: &Vec<u8>) -> (res: (Vec<u8>, bool))
    requires
        all_digits(a@),
        all_digits(b@),
    ensures
        all_digits(res.0@),
        res.1 <==> val(a@) < val(b@),
        res.1 ==> val(res.0@) == val(b@) - val(a@),
        !res.1 ==> val(res.0@) == val(a@) - val(b@),
{
    let (r, neg) = digits_sub_raw(a, b);
    if neg {
        let (r2, neg2) = digits_sub_raw(b, a);
        proof {
            lemma_pow10_pos(r2@.len());
            if neg2 {
                assert(false);
            }
        }
        (r2, true)
    } else {
        (r, false)
    }
}

} // verus!
