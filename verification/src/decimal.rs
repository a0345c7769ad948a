//! Decimal floating-point numbers for JSON values.
//!
//! A `Repr` is a finite decimal `±d · 10^e` whose significand `d` has at most
//! `SIG_DIGITS` digits (the precision that identifies every IEEE double), an
//! infinity, or NaN. Literals and sums are rounded to that precision, half to
//! even; magnitudes of `10^309` and above overflow to an infinity and nonzero
//! magnitudes below `10^-324` underflow to zero, the range of a double.

use vstd::prelude::*;
use crate::digits::{
    all_digits, digits_absdiff, digits_add, digits_inc, digits_shift, le_digits, lemma_le_digits_props, lemma_le_digits_val,
    lemma_pow10_add, lemma_pow10_mono, lemma_pow10_pos, lemma_val_bound, lemma_val_divmod,
    lemma_val_first, lemma_val_lower, lemma_val_push_zero, lemma_val_split, lemma_val_zero, lemma_val_zeros_prefix,
    no_high_zero, pow10, val, vec_slice, zeros,
};

verus! {

/// Significant decimal digits kept by a finite `Repr`.
pub const SIG_DIGITS: usize = 17;

/// The mathematical value of a `Repr`.
pub enum NumV {
    /// `±val(digits) · 10^exp`, digits least significant first.
    Fin(bool, Seq<u8>, int),
    Inf(bool),
    NaN,
}

pub open spec fn zero_v() -> NumV {
    NumV::Fin(false, Seq::<u8>::empty(), 0)
}

pub open spec fn signed(neg: bool, m: nat) -> int {
    if neg {
        -(m as int)
    } else {
        m as int
    }
}

pub open spec fn abs(n: int) -> nat {
    if n < 0 {
        (-n) as nat
    } else {
        n as nat
    }
}

/// Number of decimal digits of `m` (zero has none).
pub open spec fn ndigits(m: nat) -> nat {
    le_digits(m).len()
}

/// `m / 10^k` rounded half to even.
pub open spec fn round_div(m: nat, k: nat) -> nat {
    let p = pow10(k);
    let q = m / p;
    let r = m % p;
    if 2 * r > p || (2 * r == p && q % 2 == 1) {
        q + 1
    } else {
        q
    }
}

/// Moves trailing zero digits of `m` into the exponent.
pub open spec fn strip(m: nat, e: int) -> (nat, int)
    decreases m,
{
    if m > 0 && m % 10 == 0 {
        strip(m / 10, e + 1)
    } else {
        (m, e)
    }
}

/// The `Repr` value of the exact rational `n · 10^e`: rounded to
/// `SIG_DIGITS` significant digits, then overflowed or underflowed.
pub open spec fn num_of(n: int, e: int) -> NumV {
    let m = abs(n);
    let l = ndigits(m);
    let (m1, e1) = if l > SIG_DIGITS {
        (round_div(m, (l - SIG_DIGITS) as nat), e + l - SIG_DIGITS)
    } else {
        (m, e)
    };
    let (m2, e2) = strip(m1, e1);
    let l2 = ndigits(m2);
    if m2 == 0 {
        zero_v()
    } else if e2 + l2 > 309 {
        NumV::Inf(n < 0)
    } else if e2 + l2 < -323 {
        zero_v()
    } else {
        NumV::Fin(n < 0, le_digits(m2), e2)
    }
}

/// A finite value in canonical form, as produced by `num_of`.
pub open spec fn canonical(v: NumV) -> bool {
    match v {
        NumV::Fin(neg, d, e) => {
            &&& all_digits(d)
            &&& no_high_zero(d)
            &&& d.len() <= SIG_DIGITS
            &&& (d.len() == 0 ==> !neg && e == 0)
            &&& (d.len() > 0 ==> d[0] != 0 && e + d.len() <= 309 && e + d.len() >= -323)
        },
        _ => true,
    }
}

pub proof fn lemma_ndigits_bounds(m: nat)
    ensures
        m < pow10(ndigits(m)),
        m > 0 ==> pow10((ndigits(m) - 1) as nat) <= m,
        m > 0 ==> ndigits(m) >= 1,
        m == 0 ==> ndigits(m) == 0,
{
    lemma_le_digits_props(m);
    lemma_val_bound(le_digits(m));
    if m > 0 {
        lemma_val_lower(le_digits(m));
    }
}

/// The digit count is determined by the magnitude range.
pub proof fn lemma_ndigits_unique(m: nat, l: nat)
    requires
        m > 0,
        pow10((l - 1) as nat) <= m,
        m < pow10(l),
        l >= 1,
    ensures
        ndigits(m) == l,
{
    lemma_ndigits_bounds(m);
    let k = ndigits(m);
    if k < l {
        lemma_pow10_mono(k, (l - 1) as nat);
    } else if k > l {
        lemma_pow10_mono(l, (k - 1) as nat);
    }
}

pub proof fn lemma_ndigits_times10(m: nat)
    requires
        m > 0,
    ensures
        ndigits(10 * m) == ndigits(m) + 1,
{
    lemma_ndigits_bounds(m);
    let l = ndigits(m);
    assert(pow10(l + 1) == 10 * pow10(l));
    assert(pow10(l) == 10 * pow10((l - 1) as nat));
    lemma_ndigits_unique(10 * m, l + 1);
}

/// Stripping keeps the value, keeps `e + ndigits`, and leaves a last digit
/// that is nonzero.
pub proof fn lemma_strip(m: nat, e: int)
    ensures
        ({
            let (m2, e2) = strip(m, e);
            &&& m == 0 ==> m2 == 0 && e2 == e
            &&& m > 0 ==> m2 > 0 && m2 % 10 != 0 && e2 >= e
            &&& m > 0 ==> e2 + ndigits(m2) == e + ndigits(m)
            &&& m == m2 * pow10((e2 - e) as nat)
        }),
    decreases m,
{
    if m > 0 && m % 10 == 0 {
        let q = m / 10;
        assert(q > 0 && m == 10 * q);
        lemma_strip(q, e + 1);
        lemma_ndigits_times10(q);
        let (m2, e2) = strip(q, e + 1);
        let k = (e2 - (e + 1)) as nat;
        assert((e2 - e) as nat == k + 1);
        lemma_pow10_add(1, k);
        assert(pow10(0) == 1);
        assert(pow10(1) == 10);
        assert(m2 * pow10(k + 1) == 10 * (m2 * pow10(k))) by (nonlinear_arith)
            requires
                pow10(k + 1) == 10 * pow10(k),
        ;
        assert(q == m2 * pow10(k));
        assert(m == m2 * pow10((e2 - e) as nat));
        assert(strip(m, e) == strip(q, e + 1));
    } else {
        assert(pow10(0) == 1);
        assert(m * pow10(0) == m);
    }
}

/// Dividing out a power of ten that divides exactly reaches the same
/// stripped form.
pub proof fn lemma_strip_scaled(m: nat, k: nat, e: int)
    requires
        m > 0,
    ensures
        strip(m * pow10(k), e) == strip(m, e + k),
    decreases k,
{
    if k > 0 {
        let k1 = (k - 1) as nat;
        assert(pow10(k) == 10 * pow10(k1));
        let x = m * pow10(k1);
        lemma_pow10_pos(k1);
        assert(x >= 1) by (nonlinear_arith)
            requires
                x == m * pow10(k1),
                m >= 1,
                pow10(k1) >= 1,
        ;
        assert(m * pow10(k) == 10 * x) by (nonlinear_arith)
            requires
                pow10(k) == 10 * pow10(k1),
                x == m * pow10(k1),
        ;
        assert((10 * x) % 10 == 0 && (10 * x) / 10 == x) by (nonlinear_arith);
        lemma_strip_scaled(m, k1, e + 1);
        assert(e + 1 + k1 == e + k);
        assert(strip(10 * x, e) == strip(x, e + 1));
    } else {
        assert(pow10(0) == 1);
        assert(m * pow10(0) == m);
    }
}

/// A canonical finite value is its own `num_of`.
pub proof fn lemma_num_of_canonical(neg: bool, d: Seq<u8>, e: int)
    requires
        canonical(NumV::Fin(neg, d, e)),
    ensures
        num_of(signed(neg, val(d)), e) == NumV::Fin(neg, d, e),
{
    lemma_le_digits_val(d);
    lemma_val_zero(d);
    let m = val(d);
    assert(abs(signed(neg, m)) == m);
    assert(ndigits(m) == d.len());
    if d.len() > 0 {
        lemma_val_divmod(d);
        assert(m % 10 != 0);
        assert(strip(m, e) == (m, e));
        assert(signed(neg, m) < 0 <==> neg);
    }
}

/// Representation of a `Num`.
#[derive(Debug, Clone, PartialEq)]
pub enum Repr {
    /// `±val(mag) · 10^exp`, `mag` least significant digit first.
    Fin { neg: bool, mag: Vec<u8>, exp: i128 },
    Inf { neg: bool },
    NaN,
}

impl View for Repr {
    type V = NumV;

    open spec fn view(&self) -> NumV {
        match self {
            Repr::Fin { neg, mag, exp } => NumV::Fin(*neg, mag@, *exp as int),
            Repr::Inf { neg } => NumV::Inf(*neg),
            Repr::NaN => NumV::NaN,
        }
    }
}

/// Bound on exponents handed to `normalize`.
pub open spec fn exp_ok(e: int) -> bool {
    -0x1_0000_0000_0000_0000_0000_0000 <= e <= 0x1_0000_0000_0000_0000_0000_0000
}

/// Rounding `m = val(lo) + 10^k · val(hi)` half to even at position `k`.
proof fn lemma_round_split(s: Seq<u8>, k: int)
    requires
        all_digits(s),
        1 <= k < s.len(),
    ensures
        ({
            let lo = s.subrange(0, k);
            let hi = s.subrange(k, s.len() as int);
            let top = s[k - 1];
            let rest_nonzero = val(s.subrange(0, k - 1)) > 0;
            let up = top > 5 || (top == 5 && (rest_nonzero || hi[0] % 2 == 1));
            round_div(val(s), k as nat) == if up { val(hi) + 1 } else { val(hi) }
        }),
{
    let lo = s.subrange(0, k);
    let hi = s.subrange(k, s.len() as int);
    lemma_val_split(s, k);
    let p = pow10(k as nat);
    let vl = val(lo);
    let vh = val(hi);
    assert(all_digits(lo));
    lemma_val_bound(lo);
    assert(val(s) == vl + p * vh);
    assert((vl + p * vh) / p == vh && (vl + p * vh) % p == vl) by (nonlinear_arith)
        requires
            0 <= vl < p,
    ;
    let lo1 = s.subrange(0, k - 1);
    assert(lo =~= lo1.push(s[k - 1]));
    crate::digits::lemma_val_push(lo1, s[k - 1]);
    let p1 = pow10((k - 1) as nat);
    assert(p == 10 * p1);
    assert(all_digits(lo1));
    lemma_val_bound(lo1);
    let top = s[k - 1] as nat;
    let r = val(lo1);
    assert(vl == r + top * p1);
    assert(top <= 9);
    if top > 5 {
        assert(2 * (r + top * p1) > 10 * p1) by (nonlinear_arith)
            requires
                top >= 6,
                r >= 0,
                p1 >= 1,
        ;
        lemma_pow10_pos((k - 1) as nat);
    } else if top == 5 {
        assert(2 * (r + 5 * p1) == 10 * p1 + 2 * r);
    } else {
        assert(2 * (r + top * p1) < 10 * p1) by (nonlinear_arith)
            requires
                top <= 4,
                r < p1,
        ;
    }
    assert(all_digits(hi));
    if hi.len() > 0 {
        lemma_val_divmod(hi);
        assert(vh % 2 == (vh % 10) % 2) by (nonlinear_arith);
    }
}

/// The `Repr` denoting `±val(mag) · 10^exp` (see `num_of`).
#[verifier::rlimit(60)]
pub fn normalize(neg: bool, mag: Vec<u8>, exp: i128) -> (r: Repr)
    requires
        all_digits(mag@),
        exp_ok(exp as int),
    ensures
        r@ == num_of(signed(neg, val(mag@)), exp as int),
        canonical(r@),
{
    let ghost m0 = val(mag@);
    let mut mag = mag;
    // drop high zeros
    while mag.len() > 0 && mag[mag.len() - 1] == 0
        invariant
            all_digits(mag@),
            val(mag@) == m0,
        decreases mag.len(),
    {
        let ghost before = mag@;
        mag.pop();
        proof {
            assert(before =~= mag@.push(0));
            lemma_val_push_zero(mag@);
        }
    }
    let ghost m = val(mag@);
    proof {
        lemma_val_zero(mag@);
        lemma_le_digits_val(mag@);
    }
    if mag.len() == 0 {
        return Repr::Fin { neg: false, mag: Vec::new(), exp: 0 };
    }
    let l = mag.len();
    // round to SIG_DIGITS significant digits
    let mut e: i128 = exp;
    let mut q: Vec<u8>;
    if l > SIG_DIGITS {
        let k = l - SIG_DIGITS;
        let hi = vec_slice(&mag, k, l);
        let top = mag[k - 1];
        let mut rest_nonzero = false;
        let mut j: usize = 0;
        while j < k - 1
            invariant
                j <= k - 1,
                k < l == mag@.len(),
                rest_nonzero == (exists|t: int| 0 <= t < j && mag@[t] != 0),
            decreases k - 1 - j,
        {
            if mag[j] != 0 {
                rest_nonzero = true;
            }
            j = j + 1;
        }
        proof {
            let lo1 = mag@.subrange(0, k - 1);
            assert(all_digits(lo1));
            if rest_nonzero {
                let t = choose|t: int| 0 <= t < k - 1 && mag@[t] != 0;
                lemma_val_split(lo1, t);
                lemma_val_split(lo1.subrange(t, lo1.len() as int), 1);
                crate::digits::lemma_val_first(lo1.subrange(t, lo1.len() as int));
                lemma_pow10_pos(t as nat);
                let a = val(lo1.subrange(t, lo1.len() as int));
                assert(pow10(t as nat) * a >= 1) by (nonlinear_arith)
                    requires
                        pow10(t as nat) >= 1,
                        a >= 1,
                ;
            } else {
                assert(lo1 =~= zeros((k - 1) as nat) + Seq::<u8>::empty());
                lemma_val_zeros_prefix((k - 1) as nat, Seq::<u8>::empty());
                assert(pow10((k - 1) as nat) * 0 == 0) by (nonlinear_arith);
            }
            lemma_round_split(mag@, k as int);
        }
        let up = top > 5 || (top == 5 && (rest_nonzero || hi[0] % 2 == 1));
        if up {
            q = digits_inc(&hi);
        } else {
            q = hi;
        }
        e = exp + k as i128;
        proof {
            assert(no_high_zero(q@));
        }
    } else {
        q = mag;
    }
    let ghost m1 = val(q@);
    proof {
        lemma_ndigits_bounds(m);
        assert(ndigits(m) == l);
        assert(m1 > 0) by {
            if l > SIG_DIGITS {
                lemma_val_zero(q@);
            } else {
                lemma_val_zero(mag@);
            }
        }
        assert(q@.len() > 0);
    }
    // move low zeros into the exponent
    let n = q.len();
    let mut z: usize = 0;
    while z < n && q[z] == 0
        invariant
            z <= n == q@.len(),
            forall|t: int| 0 <= t < z ==> q@[t] == 0,
        decreases n - z,
    {
        z = z + 1;
    }
    proof {
        if z == n {
            assert(q@ =~= zeros(n as nat) + Seq::<u8>::empty());
            lemma_val_zeros_prefix(n as nat, Seq::<u8>::empty());
            assert(pow10(n as nat) * 0 == 0) by (nonlinear_arith);
        }
    }
    let d = vec_slice(&q, z, n);
    let e2 = e + z as i128;
    proof {
        assert(q@ =~= zeros(z as nat) + d@);
        lemma_val_zeros_prefix(z as nat, d@);
        assert(all_digits(d@));
        assert(no_high_zero(d@));
        lemma_val_zero(d@);
        lemma_val_divmod(d@);
        lemma_strip_scaled(val(d@), z as nat, e as int);
        assert(strip(val(d@), e2 as int) == (val(d@), e2 as int));
        lemma_le_digits_val(d@);
        let dl = d@.len();
        let vd = val(d@);
        let pz = pow10(z as nat);
        assert(pz * vd == vd * pz) by (nonlinear_arith);
        assert(m1 == vd * pz);
        assert(strip(m1, e as int) == (vd, e2 as int));
        assert(abs(signed(neg, m0)) == m0);
        assert(m0 == m);
        if l > SIG_DIGITS {
            assert(round_div(m, (l - SIG_DIGITS) as nat) == m1);
            assert(e == exp + l - SIG_DIGITS);
            // at most SIG_DIGITS digits remain
            lemma_val_bound(mag@.subrange((l - SIG_DIGITS) as int, l as int));
            assert(m1 <= pow10(17));
            if dl > SIG_DIGITS {
                lemma_val_lower(d@);
                lemma_pow10_mono(17, (dl - 1) as nat);
                assert(vd <= m1) by (nonlinear_arith)
                    requires
                        m1 == vd * pz,
                        pz >= 1,
                ;
                lemma_pow10_pos(z as nat);
                assert(vd == pow10(17));
                assert(pow10(17) == 10 * pow10(16));
                assert((10 * pow10(16)) % 10 == 0) by (nonlinear_arith);
                assert(false);
            }
        } else {
            assert(m1 == m && e == exp);
            assert(dl <= n);
        }
        assert(ndigits(vd) == dl);
        assert(signed(neg, m0) < 0 <==> neg);
    }
    let dl = d.len();
    if e2 + dl as i128 > 309 {
        Repr::Inf { neg }
    } else if e2 + (dl as i128) < -323 {
        Repr::Fin { neg: false, mag: Vec::new(), exp: 0 }
    } else {
        Repr::Fin { neg, mag: d, exp: e2 }
    }
}

/// Sum of two values, as IEEE arithmetic defines it for infinities and NaN.
pub open spec fn num_add(a: NumV, b: NumV) -> NumV {
    match (a, b) {
        (NumV::NaN, _) => NumV::NaN,
        (_, NumV::NaN) => NumV::NaN,
        (NumV::Inf(x), NumV::Inf(y)) => if x == y {
            NumV::Inf(x)
        } else {
            NumV::NaN
        },
        (NumV::Inf(x), _) => NumV::Inf(x),
        (_, NumV::Inf(y)) => NumV::Inf(y),
        (NumV::Fin(na, da, ea), NumV::Fin(nb, db, eb)) => {
            let m = if ea <= eb { ea } else { eb };
            num_of(
                signed(na, val(da)) * pow10((ea - m) as nat) + signed(nb, val(db)) * pow10(
                    (eb - m) as nat,
                ),
                m,
            )
        },
    }
}

/// The negated value (zero stays unsigned).
pub open spec fn num_neg(a: NumV) -> NumV {
    match a {
        NumV::Fin(n, d, e) => if d.len() == 0 {
            a
        } else {
            NumV::Fin(!n, d, e)
        },
        NumV::Inf(n) => NumV::Inf(!n),
        NumV::NaN => NumV::NaN,
    }
}

impl Repr {
    /// A copy of this number.
    pub fn copy(&self) -> (r: Repr)
        ensures
            r@ == self@,
    {
        match self {
            Repr::Fin { neg, mag, exp } => Repr::Fin { neg: *neg, mag: mag.clone(), exp: *exp },
            Repr::Inf { neg } => Repr::Inf { neg: *neg },
            Repr::NaN => Repr::NaN,
        }
    }

    /// The number zero.
    pub fn zero() -> (r: Repr)
        ensures
            r@ == zero_v(),
    {
        Repr::Fin { neg: false, mag: Vec::new(), exp: 0 }
    }

    /// The integer `n`.
    pub fn from_usize(n: usize) -> (r: Repr)
        ensures
            r@ == num_of(n as int, 0),
            canonical(r@),
    {
        Repr::from_u128(n as u128)
    }

    /// The integer `n`.
    pub fn from_u128(n: u128) -> (r: Repr)
        ensures
            r@ == num_of(n as int, 0),
            canonical(r@),
    {
        let mut mag: Vec<u8> = Vec::new();
        let mut x = n;
        let ghost mut p: nat = 1;
        proof {
            assert(pow10(0) == 1);
        }
        while x > 0
            invariant
                all_digits(mag@),
                p == pow10(mag@.len()),
                val(mag@) + p * x == n,
            decreases x,
        {
            let d = (x % 10) as u8;
            proof {
                crate::digits::lemma_val_push(mag@, d);
                assert(p * x == d * p + (10 * p) * (x / 10)) by (nonlinear_arith)
                    requires
                        d == x % 10,
                ;
                p = 10 * p;
            }
            mag.push(d);
            x = x / 10;
        }
        proof {
            assert(p * 0 == 0) by (nonlinear_arith);
        }
        normalize(false, mag, 0)
    }
}

/// `a + b`.
pub fn repr_add(a: &Repr, b: &Repr) -> (r: Repr)
    requires
        canonical(a@),
        canonical(b@),
    ensures
        r@ == num_add(a@, b@),
        canonical(r@),
{
    match (a, b) {
        (Repr::NaN, _) => Repr::NaN,
        (_, Repr::NaN) => Repr::NaN,
        (Repr::Inf { neg: x }, Repr::Inf { neg: y }) => if *x == *y {
            Repr::Inf { neg: *x }
        } else {
            Repr::NaN
        },
        (Repr::Inf { neg: x }, _) => Repr::Inf { neg: *x },
        (_, Repr::Inf { neg: y }) => Repr::Inf { neg: *y },
        (Repr::Fin { neg: na, mag: da, exp: ea }, Repr::Fin { neg: nb, mag: db, exp: eb }) => {
            let m = if *ea <= *eb { *ea } else { *eb };
            let ka = (*ea - m) as usize;
            let kb = (*eb - m) as usize;
            let sa = digits_shift(da, ka);
            let sb = digits_shift(db, kb);
            let ghost va = val(sa@);
            let ghost vb = val(sb@);
            let ghost total = signed(*na, val(da@)) * pow10(ka as nat) + signed(*nb, val(db@))
                * pow10(kb as nat);
            proof {
                let pa = pow10(ka as nat);
                let pb = pow10(kb as nat);
                let xa = val(da@);
                let xb = val(db@);
                assert(signed(*na, xa) * pa == signed(*na, pa * xa)) by (nonlinear_arith);
                assert(signed(*nb, xb) * pb == signed(*nb, pb * xb)) by (nonlinear_arith);
                assert(total == signed(*na, va) + signed(*nb, vb));
            }
            if *na == *nb {
                let s = digits_add(&sa, &sb);
                normalize(*na, s, m)
            } else {
                let (dd, a_lt_b) = digits_absdiff(&sa, &sb);
                if a_lt_b {
                    normalize(*nb, dd, m)
                } else {
                    normalize(*na, dd, m)
                }
            }
        },
    }
}

/// `-a`.
pub fn negate(a: &Repr) -> (r: Repr)
    requires
        canonical(a@),
    ensures
        r@ == num_neg(a@),
        canonical(r@),
{
    match a {
        Repr::Fin { neg, mag, exp } => if mag.len() == 0 {
            a.copy()
        } else {
            Repr::Fin { neg: !*neg, mag: mag.clone(), exp: *exp }
        },
        Repr::Inf { neg } => Repr::Inf { neg: !*neg },
        Repr::NaN => Repr::NaN,
    }
}

/// `f64::abs`.
pub open spec fn num_abs(a: NumV) -> NumV {
    match a {
        NumV::Fin(_, d, e) => NumV::Fin(false, d, e),
        NumV::Inf(_) => NumV::Inf(false),
        NumV::NaN => NumV::NaN,
    }
}

fn repr_abs(a: &Repr) -> (r: Repr)
    requires
        canonical(a@),
    ensures
        r@ == num_abs(a@),
        canonical(r@),
{
    match a {
        Repr::Fin { mag, exp, .. } => Repr::Fin { neg: false, mag: mag.clone(), exp: *exp },
        Repr::Inf { .. } => Repr::Inf { neg: false },
        Repr::NaN => Repr::NaN,
    }
}

/// Far-away exponents give infinity or zero whatever the digits.
pub proof fn lemma_num_of_extreme(n: int, e: int)
    requires
        n != 0,
    ensures
        e + ndigits(abs(n)) > 309 ==> num_of(n, e) == NumV::Inf(n < 0),
        e + ndigits(abs(n)) + 1 < -323 ==> num_of(n, e) == zero_v(),
{
    let m = abs(n);
    let l = ndigits(m);
    lemma_ndigits_bounds(m);
    if l > SIG_DIGITS {
        let k = (l - SIG_DIGITS) as nat;
        let p = pow10(k);
        let q = m / p;
        lemma_pow10_pos(k);
        lemma_pow10_add(16, k);
        lemma_pow10_add(17, k);
        assert(l - 1 == 16 + k);
        assert(pow10(16) * p <= m && m < pow10(17) * p);
        assert(pow10(16) <= q && q < pow10(17)) by (nonlinear_arith)
            requires
                pow10(16) * p <= m,
                m < pow10(17) * p,
                p >= 1,
                q == m / p,
        ;
        let m1 = round_div(m, k);
        assert(q <= m1 <= q + 1);
        assert(pow10(17) == 10 * pow10(16));
        assert(pow10(18) == 10 * pow10(17));
        lemma_pow10_pos(16);
        if m1 < pow10(17) {
            lemma_ndigits_unique(m1, 17);
        } else {
            lemma_ndigits_unique(m1, 18);
        }
        lemma_strip(m1, e + l - SIG_DIGITS);
    } else {
        lemma_strip(m, e);
    }
}

/// A decimal digit character.
pub open spec fn is_digit(c: char) -> bool {
    '0' <= c <= '9'
}

pub open spec fn digit_of(c: char) -> nat {
    (c as int - '0' as int) as nat
}

/// End of the run of digit characters starting at `i`.
pub open spec fn digits_end(t: Seq<char>, i: int) -> int
    decreases t.len() - i,
{
    if 0 <= i < t.len() && is_digit(t[i]) {
        digits_end(t, i + 1)
    } else {
        i
    }
}

/// Value of the digit characters `t[lo..hi]`, most significant first.
pub open spec fn be_val(t: Seq<char>, lo: int, hi: int) -> nat
    decreases hi - lo,
{
    if hi <= lo {
        0
    } else {
        be_val(t, lo, hi - 1) * 10 + digit_of(t[hi - 1])
    }
}

pub open spec fn sign_len(t: Seq<char>, i: int) -> int {
    if 0 <= i < t.len() && (t[i] == '+' || t[i] == '-') {
        1
    } else {
        0
    }
}

/// The positions of a float literal `[+-]digits[.digits][(e|E)[+-]digits]`:
/// integer digits `i0..i1`, fraction digits `i2..i3`, exponent `i4..i5`.
pub struct LitPos {
    pub i0: int,
    pub i1: int,
    pub i2: int,
    pub i3: int,
    pub i4: int,
    pub i5: int,
}

pub open spec fn lit_pos(t: Seq<char>) -> LitPos {
    let i0 = sign_len(t, 0);
    let i1 = digits_end(t, i0);
    let i2 = if i1 < t.len() && t[i1] == '.' {
        i1 + 1
    } else {
        i1
    };
    let i3 = digits_end(t, i2);
    let i4 = if i3 < t.len() && (t[i3] == 'e' || t[i3] == 'E') {
        i3 + 1 + sign_len(t, i3 + 1)
    } else {
        i3
    };
    let i5 = digits_end(t, i4);
    LitPos { i0, i1, i2, i3, i4, i5 }
}

/// `t` is a complete float literal, as Rust's `f64` parser accepts it.
pub open spec fn lit_ok(t: Seq<char>) -> bool {
    let p = lit_pos(t);
    &&& (p.i1 - p.i0) + (p.i3 - p.i2) > 0
    &&& p.i5 == t.len()
    &&& (p.i4 > p.i3 ==> p.i5 > p.i4)
}

/// The value of a float literal.
pub open spec fn lit_value(t: Seq<char>) -> NumV {
    let p = lit_pos(t);
    let f = p.i3 - p.i2;
    let mant = be_val(t, p.i0, p.i1) * pow10(f as nat) + be_val(t, p.i2, p.i3);
    let x = be_val(t, p.i4, p.i5) as int;
    let exp = if p.i4 > p.i3 && t[p.i4 - 1] == '-' {
        -x
    } else {
        x
    };
    num_of(signed(t.len() > 0 && t[0] == '-', mant), exp - f)
}

pub proof fn lemma_digits_end(t: Seq<char>, i: int)
    requires
        0 <= i <= t.len(),
    ensures
        i <= digits_end(t, i) <= t.len(),
        forall|j: int| i <= j < digits_end(t, i) ==> is_digit(#[trigger] t[j]),
        digits_end(t, i) < t.len() ==> !is_digit(t[digits_end(t, i)]),
    decreases t.len() - i,
{
    if i < t.len() && is_digit(t[i]) {
        lemma_digits_end(t, i + 1);
    }
}

/// Peeling the most significant digit.
pub proof fn lemma_be_val_front(t: Seq<char>, lo: int, hi: int)
    requires
        lo < hi,
    ensures
        be_val(t, lo, hi) == digit_of(t[lo]) * pow10((hi - lo - 1) as nat) + be_val(t, lo + 1, hi),
    decreases hi - lo,
{
    if hi - 1 > lo {
        lemma_be_val_front(t, lo, hi - 1);
        let p = pow10((hi - 1 - lo - 1) as nat);
        assert(pow10((hi - lo - 1) as nat) == 10 * p);
        let d = digit_of(t[lo]);
        let b = be_val(t, lo + 1, hi - 1);
        assert((d * p + b) * 10 == d * (10 * p) + b * 10) by (nonlinear_arith);
    } else {
        assert(pow10(0) == 1);
        assert(be_val(t, lo, lo) == 0);
        assert(be_val(t, lo + 1, hi) == 0);
        let d = digit_of(t[lo]);
        assert(d * 1 == d);
        assert(be_val(t, lo, hi) == be_val(t, lo, lo) * 10 + d);
    }
}

pub proof fn lemma_be_val_bound(t: Seq<char>, lo: int, hi: int)
    requires
        forall|j: int| lo <= j < hi ==> is_digit(#[trigger] t[j]),
    ensures
        be_val(t, lo, hi) < pow10(if hi > lo { (hi - lo) as nat } else { 0 }),
    decreases hi - lo,
{
    if hi > lo {
        lemma_be_val_bound(t, lo, hi - 1);
        let k = if hi - 1 > lo { (hi - 1 - lo) as nat } else { 0 };
        assert(pow10((hi - lo) as nat) == 10 * pow10(k));
        let b = be_val(t, lo, hi - 1);
        let d = digit_of(t[hi - 1]);
        assert(d <= 9);
        assert(b * 10 + d < 10 * pow10(k)) by (nonlinear_arith)
            requires
                b < pow10(k),
                d <= 9,
        ;
    }
}

/// Saturation bound for exponent literals.
pub const EXP_CAP: i128 = 10_000_000_000_000_000_000_000_000;

/// `digits_end(t, i)`.
fn scan_digits(t: &Vec<char>, i: usize) -> (r: usize)
    requires
        i <= t@.len(),
    ensures
        r == digits_end(t@, i as int),
{
    let mut k = i;
    while k < t.len() && '0' <= t[k] && t[k] <= '9'
        invariant
            i <= k <= t@.len(),
            digits_end(t@, i as int) == digits_end(t@, k as int),
        decreases t@.len() - k,
    {
        k = k + 1;
    }
    k
}

/// The digits `t[lo..hi]` as a number, capped at `EXP_CAP`.
fn capped_value(t: &Vec<char>, lo: usize, hi: usize) -> (x: i128)
    requires
        lo <= hi <= t@.len(),
        forall|j: int| lo <= j < hi ==> is_digit(#[trigger] t@[j]),
    ensures
        x == if be_val(t@, lo as int, hi as int) >= EXP_CAP { EXP_CAP as int } else {
            be_val(t@, lo as int, hi as int) as int
        },
{
    let mut x: i128 = 0;
    let mut i = lo;
    while i < hi
        invariant
            lo <= i <= hi <= t@.len(),
            forall|j: int| lo <= j < hi ==> is_digit(#[trigger] t@[j]),
            0 <= x <= EXP_CAP,
            x == if be_val(t@, lo as int, i as int) >= EXP_CAP { EXP_CAP as int } else {
                be_val(t@, lo as int, i as int) as int
            },
        decreases hi - i,
    {
        let d = (t[i] as u32 - '0' as u32) as i128;
        if x >= EXP_CAP / 10 {
            x = EXP_CAP;
        } else {
            x = x * 10 + d;
            if x > EXP_CAP {
                x = EXP_CAP;
            }
        }
        i = i + 1;
    }
    x
}

/// Significand digits of `t[i0..i1] t[i2..i3]`, least significant first.
fn mantissa(t: &Vec<char>, i0: usize, i1: usize, i2: usize, i3: usize) -> (mag: Vec<u8>)
    requires
        i0 <= i1 <= i2 <= i3 <= t@.len(),
        forall|k: int| i0 <= k < i1 ==> is_digit(#[trigger] t@[k]),
        forall|k: int| i2 <= k < i3 ==> is_digit(#[trigger] t@[k]),
    ensures
        all_digits(mag@),
        mag@.len() == (i1 - i0) + (i3 - i2),
        val(mag@) == be_val(t@, i0 as int, i1 as int) * pow10((i3 - i2) as nat) + be_val(
            t@,
            i2 as int,
            i3 as int,
        ),
{
    let ghost s = t@;
    let mut mag: Vec<u8> = Vec::new();
    let mut j = i3;
    proof {
        assert(pow10(0) == 1);
    }
    while j > i2
        invariant
            i2 <= j <= i3 <= s.len(),
            s == t@,
            forall|k: int| i2 <= k < i3 ==> is_digit(#[trigger] s[k]),
            all_digits(mag@),
            mag@.len() == i3 - j,
            val(mag@) == be_val(s, j as int, i3 as int),
        decreases j,
    {
        let d = (t[j - 1] as u32 - '0' as u32) as u8;
        proof {
            crate::digits::lemma_val_push(mag@, d);
            lemma_be_val_front(s, j - 1, i3 as int);
        }
        mag.push(d);
        j = j - 1;
    }
    let f = i3 - i2;
    let mut j = i1;
    proof {
        assert(be_val(s, i1 as int, i1 as int) == 0);
        assert(pow10(f as nat) * 0 == 0) by (nonlinear_arith);
    }
    while j > i0
        invariant
            i0 <= j <= i1 <= i2 <= i3 <= s.len(),
            s == t@,
            f == i3 - i2,
            forall|k: int| i0 <= k < i1 ==> is_digit(#[trigger] s[k]),
            all_digits(mag@),
            mag@.len() == f + (i1 - j),
            val(mag@) == be_val(s, i2 as int, i3 as int) + pow10(f as nat) * be_val(
                s,
                j as int,
                i1 as int,
            ),
        decreases j,
    {
        let d = (t[j - 1] as u32 - '0' as u32) as u8;
        proof {
            crate::digits::lemma_val_push(mag@, d);
            lemma_be_val_front(s, j - 1, i1 as int);
            let k = (i1 - j) as nat;
            lemma_pow10_add(f as nat, k);
            let pf = pow10(f as nat);
            let pk = pow10(k);
            let b = be_val(s, j as int, i1 as int);
            assert(pf * (d * pk + b) == d * (pf * pk) + pf * b) by (nonlinear_arith);
        }
        mag.push(d);
        j = j - 1;
    }
    proof {
        let pf = pow10(f as nat);
        let bi = be_val(s, i0 as int, i1 as int);
        assert(pf * bi == bi * pf) by (nonlinear_arith);
    }
    mag
}

/// Parses a complete float literal (Rust's `f64` grammar) to its value.
#[verifier::spinoff_prover]
#[verifier::rlimit(40)]
pub fn from_literal(t: &Vec<char>) -> (r: Option<Repr>)
    ensures
        r is Some <==> lit_ok(t@),
        r matches Some(n) ==> n@ == lit_value(t@) && canonical(n@),
{
    let ghost s = t@;
    let ghost p = lit_pos(s);
    let n = t.len();
    let neg = n > 0 && t[0] == '-';
    let i0: usize = if n > 0 && (t[0] == '+' || t[0] == '-') { 1 } else { 0 };
    let i1 = scan_digits(t, i0);
    proof {
        lemma_digits_end(s, i0 as int);
    }
    let i2 = if i1 < n && t[i1] == '.' { i1 + 1 } else { i1 };
    let i3 = scan_digits(t, i2);
    proof {
        lemma_digits_end(s, i2 as int);
    }
    if i1 - i0 + (i3 - i2) == 0 {
        return None;
    }
    let mut i4 = i3;
    let mut eneg = false;
    if i3 < n && (t[i3] == 'e' || t[i3] == 'E') {
        i4 = i3 + 1;
        if i4 < n && (t[i4] == '+' || t[i4] == '-') {
            eneg = t[i4] == '-';
            i4 = i4 + 1;
        }
    }
    let i5 = scan_digits(t, i4);
    proof {
        lemma_digits_end(s, i4 as int);
        assert(i4 == p.i4 && i5 == p.i5);
    }
    if i5 != n || (i4 > i3 && i5 == i4) {
        return None;
    }
    let x = capped_value(t, i4, i5);
    let mag = mantissa(t, i0, i1, i2, i3);
    let f = i3 - i2;
    let xs: i128 = if eneg { -x } else { x };
    let e: i128 = xs - f as i128;
    proof {
        let mant = val(mag@);
        let xtrue = be_val(s, p.i4, p.i5) as int;
        let etrue = if p.i4 > p.i3 && s[p.i4 - 1] == '-' {
            -xtrue
        } else {
            xtrue
        };
        assert(eneg <==> (p.i4 > p.i3 && s[p.i4 - 1] == '-'));
        assert(neg <==> (s.len() > 0 && s[0] == '-'));
        if x < EXP_CAP {
            assert(xs == etrue);
        } else if mant != 0 {
            // the cap only matters for values that overflow or vanish
            let nn = signed(neg, mant);
            lemma_ndigits_bounds(mant);
            lemma_val_bound(mag@);
            let l = ndigits(mant);
            if l > mag@.len() {
                lemma_pow10_mono(mag@.len(), (l - 1) as nat);
            }
            assert(l <= mag@.len());
            assert(abs(nn) == mant);
            lemma_num_of_extreme(nn, etrue - f);
            lemma_num_of_extreme(nn, xs - f);
        } else {
            assert(signed(neg, mant) == 0);
        }
    }
    Some(normalize(neg, mag, e))
}

/// `d` padded with high zeros to at least `n` digits.
pub open spec fn pad(d: Seq<u8>, n: nat) -> Seq<u8> {
    if d.len() >= n {
        d
    } else {
        d + crate::digits::zeros((n - d.len()) as nat)
    }
}

/// Pads `d` with high zeros to at least `n` digits.
fn pad_digits(d: &mut Vec<u8>, n: usize)
    requires
        all_digits(old(d)@),
    ensures
        final(d)@ == pad(old(d)@, n as nat),
        all_digits(final(d)@),
        val(final(d)@) == val(old(d)@),
{
    let ghost d0 = d@;
    while d.len() < n
        invariant
            all_digits(d@),
            val(d@) == val(d0),
            d0.len() <= d@.len(),
            d@ == d0 + crate::digits::zeros((d@.len() - d0.len()) as nat),
            d0.len() < n ==> d@.len() <= n,
            d0.len() >= n ==> d@.len() == d0.len(),
        decreases n - d@.len(),
    {
        proof {
            lemma_val_push_zero(d@);
        }
        d.push(0);
        proof {
            assert(d@ =~= d0 + crate::digits::zeros((d@.len() - d0.len()) as nat));
        }
    }
    proof {
        if d0.len() >= n {
            assert(d@ =~= d0);
        } else {
            assert(d@.len() == n);
        }
    }
}

/// `round_div(val(d), k)` as digits.
fn round_digits(d: &Vec<u8>, k: usize) -> (r: Vec<u8>)
    requires
        all_digits(d@),
        1 <= k < usize::MAX,
    ensures
        all_digits(r@),
        val(r@) == round_div(val(d@), k as nat),
{
    let mut w = d.clone();
    pad_digits(&mut w, k + 1);
    let l = w.len();
    let hi = vec_slice(&w, k, l);
    let top = w[k - 1];
    let mut rest_nonzero = false;
    let mut j: usize = 0;
    while j < k - 1
        invariant
            j <= k - 1,
            k < l == w@.len(),
            rest_nonzero == (exists|t: int| 0 <= t < j && w@[t] != 0),
        decreases k - 1 - j,
    {
        if w[j] != 0 {
            rest_nonzero = true;
        }
        j = j + 1;
    }
    proof {
        let lo1 = w@.subrange(0, k - 1);
        assert(all_digits(lo1));
        if rest_nonzero {
            let t = choose|t: int| 0 <= t < k - 1 && w@[t] != 0;
            lemma_val_split(lo1, t);
            lemma_val_split(lo1.subrange(t, lo1.len() as int), 1);
            crate::digits::lemma_val_first(lo1.subrange(t, lo1.len() as int));
            lemma_pow10_pos(t as nat);
            let a = val(lo1.subrange(t, lo1.len() as int));
            assert(pow10(t as nat) * a >= 1) by (nonlinear_arith)
                requires
                    pow10(t as nat) >= 1,
                    a >= 1,
            ;
        } else {
            assert(lo1 =~= zeros((k - 1) as nat) + Seq::<u8>::empty());
            lemma_val_zeros_prefix((k - 1) as nat, Seq::<u8>::empty());
            assert(pow10((k - 1) as nat) * 0 == 0) by (nonlinear_arith);
        }
        lemma_round_split(w@, k as int);
    }
    if top > 5 || (top == 5 && (rest_nonzero || hi[0] % 2 == 1)) {
        digits_inc(&hi)
    } else {
        hi
    }
}

/// Drops high zero digits.
fn trim_high(d: &mut Vec<u8>)
    requires
        all_digits(old(d)@),
    ensures
        all_digits(final(d)@),
        no_high_zero(final(d)@),
        val(final(d)@) == val(old(d)@),
{
    let ghost v0 = val(d@);
    while d.len() > 0 && d[d.len() - 1] == 0
        invariant
            all_digits(d@),
            val(d@) == v0,
        decreases d.len(),
    {
        let ghost before = d@;
        d.pop();
        proof {
            assert(before =~= d@.push(0));
            lemma_val_push_zero(d@);
        }
    }
}

pub open spec fn sign_str(neg: bool) -> Seq<char> {
    if neg {
        seq!['-']
    } else {
        Seq::<char>::empty()
    }
}

/// How Rust's `Display` prints an `f64` of this value: plain decimal
/// notation, `inf`, `-inf` or `NaN`.
pub open spec fn display_v(v: NumV) -> Seq<char> {
    match v {
        NumV::NaN => seq!['N', 'a', 'N'],
        NumV::Inf(neg) => sign_str(neg) + seq!['i', 'n', 'f'],
        NumV::Fin(neg, d, e) => if d.len() == 0 {
            seq!['0']
        } else if e >= 0 {
            sign_str(neg) + crate::text::digit_str(d + crate::digits::zeros(0)) + Seq::new(
                e as nat,
                |i: int| '0',
            )
        } else if d.len() > -e {
            sign_str(neg) + crate::text::digit_str(d.subrange(-e, d.len() as int)) + seq!['.']
                + crate::text::digit_str(d.subrange(0, -e))
        } else {
            sign_str(neg) + seq!['0', '.'] + Seq::new((-e - d.len()) as nat, |i: int| '0')
                + crate::text::digit_str(d)
        },
    }
}

/// How `format!("{:.k}")` prints an `f64` of this value: rounded half to
/// even to `k` decimals.
pub open spec fn fixed_v(v: NumV, k: nat) -> Seq<char> {
    match v {
        NumV::NaN => seq!['N', 'a', 'N'],
        NumV::Inf(neg) => sign_str(neg) + seq!['i', 'n', 'f'],
        NumV::Fin(neg, d, e) => {
            let q: nat = if e + k >= 0 {
                val(d) * pow10((e + k) as nat)
            } else {
                round_div(val(d), (-(e + k)) as nat)
            };
            let ds = pad(le_digits(q), k + 1);
            sign_str(neg) + crate::text::digit_str(ds.subrange(k as int, ds.len() as int)) + if k
                > 0 {
                seq!['.'] + crate::text::digit_str(ds.subrange(0, k as int))
            } else {
                Seq::<char>::empty()
            }
        },
    }
}

/// Appends `sign_str(neg)`.
fn push_sign(s: &mut String, neg: bool)
    ensures
        final(s)@ == old(s)@ + sign_str(neg),
{
    if neg {
        crate::text::push_char(s, '-');
    } else {
        assert(old(s)@ + sign_str(neg) =~= old(s)@);
    }
}

/// Appends `display_v(n@)`.
pub fn push_display(s: &mut String, n: &Repr)
    requires
        canonical(n@),
    ensures
        final(s)@ == old(s)@ + display_v(n@),
{
    let ghost s0 = s@;
    match n {
        Repr::NaN => {
            crate::text::push_char(s, 'N');
            crate::text::push_char(s, 'a');
            crate::text::push_char(s, 'N');
            assert(s@ =~= s0 + display_v(n@));
        },
        Repr::Inf { neg } => {
            push_sign(s, *neg);
            crate::text::push_char(s, 'i');
            crate::text::push_char(s, 'n');
            crate::text::push_char(s, 'f');
            assert(s@ =~= s0 + display_v(n@));
        },
        Repr::Fin { neg, mag, exp } => {
            push_display_fin(s, *neg, mag, *exp);
        },
    }
}

/// Appends `display_v` of a canonical finite value.
fn push_display_fin(s: &mut String, neg: bool, mag: &Vec<u8>, exp: i128)
    requires
        canonical(NumV::Fin(neg, mag@, exp as int)),
    ensures
        final(s)@ == old(s)@ + display_v(NumV::Fin(neg, mag@, exp as int)),
{
    let ghost s0 = s@;
    let ghost v = NumV::Fin(neg, mag@, exp as int);
    let l = mag.len();
    if l == 0 {
        crate::text::push_char(s, '0');
        assert(s@ =~= s0 + display_v(v));
    } else if exp >= 0 {
        push_sign(s, neg);
        crate::text::push_digits(s, mag, 0, l);
        let ghost s1 = s@;
        let mut i: i128 = 0;
        while i < exp
            invariant
                0 <= i <= exp,
                s@ == s1 + Seq::new(i as nat, |j: int| '0'),
            decreases exp - i,
        {
            crate::text::push_char(s, '0');
            i = i + 1;
            assert(s@ =~= s1 + Seq::new(i as nat, |j: int| '0'));
        }
        assert(mag@.subrange(0, l as int) =~= mag@ + crate::digits::zeros(0));
        assert(s@ =~= s0 + display_v(v));
    } else if (l as i128) > -exp {
        let k = (-exp) as usize;
        push_sign(s, neg);
        crate::text::push_digits(s, mag, k, l);
        crate::text::push_char(s, '.');
        crate::text::push_digits(s, mag, 0, k);
        assert(s@ =~= s0 + display_v(v));
    } else {
        push_sign(s, neg);
        crate::text::push_char(s, '0');
        crate::text::push_char(s, '.');
        let ghost s1 = s@;
        let z = -exp - l as i128;
        let mut i: i128 = 0;
        while i < z
            invariant
                0 <= i <= z,
                s@ == s1 + Seq::new(i as nat, |j: int| '0'),
            decreases z - i,
        {
            crate::text::push_char(s, '0');
            i = i + 1;
            assert(s@ =~= s1 + Seq::new(i as nat, |j: int| '0'));
        }
        crate::text::push_digits(s, mag, 0, l);
        assert(mag@.subrange(0, l as int) =~= mag@);
        assert(s@ =~= s0 + display_v(v));
    }
}

/// Appends `fixed_v(n@, k)`.
pub fn push_fixed(s: &mut String, n: &Repr, k: usize)
    requires
        canonical(n@),
        k < 1000,
    ensures
        final(s)@ == old(s)@ + fixed_v(n@, k as nat),
{
    let ghost s0 = s@;
    match n {
        Repr::NaN => {
            crate::text::push_char(s, 'N');
            crate::text::push_char(s, 'a');
            crate::text::push_char(s, 'N');
            assert(s@ =~= s0 + fixed_v(n@, k as nat));
        },
        Repr::Inf { neg } => {
            push_sign(s, *neg);
            crate::text::push_char(s, 'i');
            crate::text::push_char(s, 'n');
            crate::text::push_char(s, 'f');
            assert(s@ =~= s0 + fixed_v(n@, k as nat));
        },
        Repr::Fin { neg, mag, exp } => {
            let q = fixed_digits(mag, *exp, k);
            let l = q.len();
            push_sign(s, *neg);
            crate::text::push_digits(s, &q, k, l);
            if k > 0 {
                crate::text::push_char(s, '.');
                crate::text::push_digits(s, &q, 0, k);
            }
            assert(s@ =~= s0 + fixed_v(n@, k as nat));
        },
    }
}

/// The digits that `fixed_v` prints for `val(mag) · 10^exp` with `k` decimals.
fn fixed_digits(mag: &Vec<u8>, exp: i128, k: usize) -> (q: Vec<u8>)
    requires
        all_digits(mag@),
        -1000 <= exp <= 1000,
        k < 1000,
    ensures
        q@ == pad(
            le_digits(
                if exp + k >= 0 {
                    val(mag@) * pow10((exp + k) as nat)
                } else {
                    round_div(val(mag@), (-(exp + k)) as nat)
                },
            ),
            (k + 1) as nat,
        ),
        q@.len() >= k + 1,
        all_digits(q@),
{
    let sh: i128 = exp + k as i128;
    let mut q: Vec<u8>;
    if sh >= 0 {
        q = digits_shift(mag, sh as usize);
        proof {
            let a = pow10(sh as nat);
            let b = val(mag@);
            assert(a * b == b * a) by (nonlinear_arith);
        }
    } else {
        q = round_digits(mag, (-sh) as usize);
    }
    trim_high(&mut q);
    proof {
        lemma_le_digits_val(q@);
    }
    pad_digits(&mut q, k + 1);
    q
}

/// `==` on `f64`: NaN equals nothing, values compare exactly.
pub open spec fn num_eq(a: NumV, b: NumV) -> bool {
    a != NumV::NaN && b != NumV::NaN && a == b
}

/// `> 0.0`.
pub open spec fn num_is_pos(a: NumV) -> bool {
    match a {
        NumV::Fin(neg, d, e) => !neg && d.len() > 0,
        NumV::Inf(neg) => !neg,
        NumV::NaN => false,
    }
}

/// `abs() < 1e-12` (NaN is not below anything).
pub open spec fn num_is_tiny(a: NumV) -> bool {
    match a {
        NumV::Fin(neg, d, e) => d.len() == 0 || e + d.len() <= -12,
        _ => false,
    }
}

/// Canonical finite values are equal exactly when their values are.
pub proof fn lemma_canonical_unique(n1: bool, d1: Seq<u8>, e1: int, n2: bool, d2: Seq<u8>, e2: int)
    requires
        canonical(NumV::Fin(n1, d1, e1)),
        canonical(NumV::Fin(n2, d2, e2)),
        e1 <= e2,
        signed(n1, val(d1)) == signed(n2, val(d2)) * pow10((e2 - e1) as nat),
    ensures
        n1 == n2 && d1 == d2 && e1 == e2,
{
    let k = (e2 - e1) as nat;
    lemma_pow10_pos(k);
    lemma_val_zero(d1);
    lemma_val_zero(d2);
    let a = val(d1);
    let b = val(d2);
    let p = pow10(k);
    assert(signed(n2, b) * p == signed(n2, b * p)) by (nonlinear_arith);
    if b == 0 {
        assert(b * p == 0) by (nonlinear_arith)
            requires
                b == 0,
        ;
        assert(signed(n1, a) == 0);
        assert(a == 0);
        assert(d1.len() == 0 && d2.len() == 0);
        assert(d1 =~= d2);
    } else {
        assert(b * p >= 1) by (nonlinear_arith)
            requires
                b >= 1,
                p >= 1,
        ;
        assert(a == b * p);
        if k > 0 {
            let x = pow10((k - 1) as nat);
            assert(p == 10 * x);
            assert(a == 10 * (b * x)) by (nonlinear_arith)
                requires
                    a == b * p,
                    p == 10 * x,
            ;
            let y = b * x;
            assert((10 * y) % 10 == 0) by (nonlinear_arith);
            lemma_val_divmod(d1);
            assert(false);
        }
        assert(k == 0);
        assert(p == 1);
        assert(b * p == b) by (nonlinear_arith)
            requires
                p == 1,
        ;
        assert(a == b);
        lemma_le_digits_val(d1);
        lemma_le_digits_val(d2);
        assert(n1 == n2);
    }
}

/// Equality of digit vectors.
fn digits_equal(d1: &Vec<u8>, d2: &Vec<u8>) -> (r: bool)
    ensures
        r == (d1@ == d2@),
{
    if d1.len() != d2.len() {
        return false;
    }
    let mut i: usize = 0;
    while i < d1.len()
        invariant
            i <= d1@.len() == d2@.len(),
            forall|j: int| 0 <= j < i ==> d1@[j] == d2@[j],
        decreases d1@.len() - i,
    {
        if d1[i] != d2[i] {
            assert(d1@[i as int] != d2@[i as int]);
            return false;
        }
        i = i + 1;
    }
    assert(d1@ =~= d2@);
    true
}

/// `a == b` as `f64` comparison.
pub fn num_equal(a: &Repr, b: &Repr) -> (r: bool)
    ensures
        r == num_eq(a@, b@),
{
    match (a, b) {
        (Repr::Fin { neg: n1, mag: d1, exp: e1 }, Repr::Fin { neg: n2, mag: d2, exp: e2 }) => {
            if *n1 != *n2 || *e1 != *e2 || d1.len() != d2.len() {
                return false;
            }
            digits_equal(d1, d2)
        },
        (Repr::Inf { neg: n1 }, Repr::Inf { neg: n2 }) => *n1 == *n2,
        _ => false,
    }
}

/// `a > 0.0`.
pub fn num_positive(a: &Repr) -> (r: bool)
    ensures
        r == num_is_pos(a@),
{
    match a {
        Repr::Fin { neg, mag, .. } => !*neg && mag.len() > 0,
        Repr::Inf { neg } => !*neg,
        Repr::NaN => false,
    }
}

/// `a.abs() < 1e-12`.
pub fn num_tiny(a: &Repr) -> (r: bool)
    requires
        canonical(a@),
    ensures
        r == num_is_tiny(a@),
{
    match a {
        Repr::Fin { mag, exp, .. } => mag.len() == 0 || *exp + mag.len() as i128 <= -12,
        _ => false,
    }
}

/// A decimal floating-point number (see the module documentation). It is
/// always canonical, so equal values have equal representations.
#[derive(Debug, PartialEq)]
pub struct Num {
    r: Repr,
}

impl View for Num {
    type V = NumV;

    closed spec fn view(&self) -> NumV {
        self.r@
    }
}

impl Clone for Num {
    fn clone(&self) -> (r: Num)
        ensures
            r@ == self@,
    {
        self.copy()
    }
}

impl Num {
    #[verifier::type_invariant]
    spec fn inv(self) -> bool {
        canonical(self.r@)
    }

    /// A copy of this number.
    pub fn copy(&self) -> (r: Num)
        ensures
            r@ == self@,
    {
        proof {
            use_type_invariant(self);
        }
        Num { r: self.r.copy() }
    }

    /// The number zero.
    pub fn zero() -> (r: Num)
        ensures
            r@ == zero_v(),
    {
        Num { r: Repr::zero() }
    }

    /// The integer `n`.
    pub fn from_usize(n: usize) -> (r: Num)
        ensures
            r@ == num_of(n as int, 0),
    {
        Num { r: Repr::from_usize(n) }
    }

    /// The integer `n`.
    pub fn from_u128(n: u128) -> (r: Num)
        ensures
            r@ == num_of(n as int, 0),
    {
        Num { r: Repr::from_u128(n) }
    }

    /// Parses a complete float literal (Rust's `f64` grammar).
    pub fn parse_literal(t: &Vec<char>) -> (r: Option<Num>)
        ensures
            r is Some <==> lit_ok(t@),
            r matches Some(n) ==> n@ == lit_value(t@),
    {
        match from_literal(t) {
            Some(x) => Some(Num { r: x }),
            None => None,
        }
    }

    /// `self + other`.
    pub fn add(&self, other: &Num) -> (r: Num)
        ensures
            r@ == num_add(self@, other@),
    {
        proof {
            use_type_invariant(self);
            use_type_invariant(other);
        }
        Num { r: repr_add(&self.r, &other.r) }
    }

    /// `self - other`.
    pub fn sub(&self, other: &Num) -> (r: Num)
        ensures
            r@ == num_add(self@, num_neg(other@)),
    {
        proof {
            use_type_invariant(self);
            use_type_invariant(other);
        }
        let n = negate(&other.r);
        Num { r: repr_add(&self.r, &n) }
    }

    /// `-self`.
    pub fn neg(&self) -> (r: Num)
        ensures
            r@ == num_neg(self@),
    {
        proof {
            use_type_invariant(self);
        }
        Num { r: negate(&self.r) }
    }

    /// `self.abs()`.
    pub fn abs(&self) -> (r: Num)
        ensures
            r@ == num_abs(self@),
    {
        proof {
            use_type_invariant(self);
        }
        Num { r: repr_abs(&self.r) }
    }

    /// `self.is_nan()`.
    pub fn is_nan(&self) -> (r: bool)
        ensures
            r == (self@ == NumV::NaN),
    {
        match &self.r {
            Repr::NaN => true,
            _ => false,
        }
    }

    /// `self == other` as `f64` comparison.
    pub fn equal(&self, other: &Num) -> (r: bool)
        ensures
            r == num_eq(self@, other@),
    {
        num_equal(&self.r, &other.r)
    }

    /// `self > 0.0`.
    pub fn is_positive(&self) -> (r: bool)
        ensures
            r == num_is_pos(self@),
    {
        num_positive(&self.r)
    }

    /// `self.abs() < 1e-12`.
    pub fn is_tiny(&self) -> (r: bool)
        ensures
            r == num_is_tiny(self@),
    {
        proof {
            use_type_invariant(self);
        }
        num_tiny(&self.r)
    }

    /// Appends `format!("{}", self)`.
    pub fn write_display(&self, s: &mut String)
        ensures
            final(s)@ == old(s)@ + display_v(self@),
            canonical(self@),
    {
        proof {
            use_type_invariant(self);
        }
        push_display(s, &self.r)
    }

    /// Appends `format!("{:.k$}", self)`.
    pub fn write_fixed(&self, s: &mut String, k: usize)
        requires
            k < 1000,
        ensures
            final(s)@ == old(s)@ + fixed_v(self@, k as nat),
    {
        proof {
            use_type_invariant(self);
        }
        push_fixed(s, &self.r, k)
    }
}

} // verus!

verus! {

/// How Rust's `Debug` prints an `f64` of this value: like `Display` with at
/// least one decimal (`1.0`) when `1e-4 <= |x| < 1e16` or `x == 0`, and in
/// exponent notation (`1e16`, `1.5e-5`) otherwise.
pub open spec fn debug_v(v: NumV) -> Seq<char> {
    match v {
        NumV::Fin(neg, d, e) => if d.len() == 0 {
            seq!['0', '.', '0']
        } else if -4 <= e + d.len() - 1 <= 15 {
            display_v(v) + if e >= 0 {
                seq!['.', '0']
            } else {
                Seq::<char>::empty()
            }
        } else {
            let x = e + d.len() - 1;
            sign_str(neg) + crate::text::digit_str(d.subrange(d.len() - 1, d.len() as int)) + (if d.len()
                > 1 {
                seq!['.'] + crate::text::digit_str(d.subrange(0, d.len() - 1))
            } else {
                Seq::<char>::empty()
            }) + seq!['e'] + sign_str(x < 0) + crate::text::nat_str(abs(x))
        },
        _ => display_v(v),
    }
}

impl Num {
    /// Appends `format!("{:?}", self)`.
    pub fn write_debug(&self, s: &mut String)
        ensures
            final(s)@ == old(s)@ + debug_v(self@),
    {
        proof {
            use_type_invariant(self);
        }
        let ghost s0 = s@;
        match &self.r {
            Repr::Fin { neg, mag, exp } => {
                let l = mag.len();
                if l == 0 {
                    crate::text::push_char(s, '0');
                    crate::text::push_char(s, '.');
                    crate::text::push_char(s, '0');
                    assert(s@ =~= s0 + debug_v(self@));
                } else {
                    let x: i128 = *exp + l as i128 - 1;
                    if -4 <= x && x <= 15 {
                        push_display(s, &self.r);
                        if *exp >= 0 {
                            crate::text::push_char(s, '.');
                            crate::text::push_char(s, '0');
                        }
                        assert(s@ =~= s0 + debug_v(self@));
                    } else {
                        push_sign(s, *neg);
                        crate::text::push_digits(s, mag, l - 1, l);
                        if l > 1 {
                            crate::text::push_char(s, '.');
                            crate::text::push_digits(s, mag, 0, l - 1);
                        }
                        crate::text::push_char(s, 'e');
                        push_sign(s, x < 0);
                        let ax: i128 = if x < 0 {
                            -x
                        } else {
                            x
                        };
                        assert(ax <= 400);
                        crate::text::push_usize(s, ax as usize);
                        assert(s@ =~= s0 + debug_v(self@));
                    }
                }
            },
            _ => {
                push_display(s, &self.r);
            },
        }
    }
}

} // verus!

verus! {

/// What `x as usize` gives for a float `x`: the value truncated toward
/// zero, saturated to `0..=usize::MAX`, with NaN giving 0.
pub open spec fn usize_cast(n: NumV) -> nat {
    match n {
        NumV::NaN => 0,
        NumV::Inf(neg) => if neg {
            0
        } else {
            usize::MAX as nat
        },
        NumV::Fin(neg, d, e) => if neg {
            0
        } else {
            let t: nat = if e >= 0 {
                val(d) * pow10(e as nat)
            } else {
                val(d) / pow10((-e) as nat)
            };
            if t > usize::MAX {
                usize::MAX as nat
            } else {
                t
            }
        },
    }
}

/// The digit string's value, read from the most significant digit.
fn mag_value(mag: &Vec<u8>) -> (r: u128)
    requires
        all_digits(mag@),
        mag@.len() <= SIG_DIGITS,
    ensures
        r as nat == val(mag@),
        r < 100000000000000000,
{
    let n = mag.len();
    let mut i: usize = n;
    let mut m: u128 = 0;
    proof {
        assert(mag@.subrange(n as int, n as int) =~= Seq::<u8>::empty());
        assert(val(Seq::<u8>::empty()) == 0);
        crate::digits::lemma_pow10_mono(0, SIG_DIGITS as nat);
    }
    while i > 0
        invariant
            i <= n == mag@.len() <= SIG_DIGITS,
            all_digits(mag@),
            m as nat == val(mag@.subrange(i as int, n as int)),
        decreases i,
    {
        let ghost s = mag@.subrange(i - 1, n as int);
        proof {
            assert(s.drop_first() =~= mag@.subrange(i as int, n as int));
            assert(s[0] == mag@[i - 1]);
            crate::digits::lemma_val_first(s);
            assert(all_digits(mag@.subrange(i as int, n as int)));
            crate::digits::lemma_val_bound(mag@.subrange(i as int, n as int));
            crate::digits::lemma_pow10_mono((n - i) as nat, SIG_DIGITS as nat);
            assert(pow10(SIG_DIGITS as nat) == 100000000000000000) by {
                reveal_with_fuel(pow10, 18);
            }
        }
        m = m * 10 + mag[i - 1] as u128;
        i = i - 1;
    }
    proof {
        assert(mag@.subrange(0, n as int) =~= mag@);
        crate::digits::lemma_val_bound(mag@);
        crate::digits::lemma_pow10_mono(n as nat, SIG_DIGITS as nat);
        assert(pow10(SIG_DIGITS as nat) == 100000000000000000) by {
            reveal_with_fuel(pow10, 18);
        }
    }
    m
}

impl Num {
    /// `x as usize`: truncated toward zero and saturated; NaN gives 0.
    pub fn to_usize(&self) -> (r: usize)
        ensures
            r as nat == usize_cast(self@),
    {
        proof {
            use_type_invariant(self);
        }
        match &self.r {
            Repr::NaN => 0,
            Repr::Inf { neg } => if *neg {
                0
            } else {
                usize::MAX
            },
            Repr::Fin { neg, mag, exp } => {
                if *neg {
                    return 0;
                }
                let v = mag_value(mag);
                let ghost vn = val(mag@);
                let mut m: u128 = v;
                if *exp >= 0 {
                    let e = *exp;
                    let mut k: i128 = 0;
                    let mut sat = false;
                    proof {
                        assert(pow10(0) == 1);
                        assert(vn * 1 == vn);
                    }
                    while k < e
                        invariant
                            0 <= k <= e,
                            e >= 0,
                            !sat ==> m as nat == vn * pow10(k as nat),
                            sat ==> vn * pow10(e as nat) > usize::MAX,
                            !sat ==> m <= 0x1_0000_0000_0000_0000_0000,
                        decreases e - k,
                    {
                        if sat {
                            k = k + 1;
                        } else if m > usize::MAX as u128 {
                            proof {
                                crate::digits::lemma_pow10_mono(k as nat, e as nat);
                                let pk = pow10(k as nat);
                                let pe = pow10(e as nat);
                                assert(vn * pk <= vn * pe) by (nonlinear_arith)
                                    requires
                                        pk <= pe,
                                ;
                            }
                            sat = true;
                            k = k + 1;
                        } else {
                            proof {
                                assert(pow10((k + 1) as nat) == 10 * pow10(k as nat));
                                assert(vn * (10 * pow10(k as nat)) == 10 * (vn * pow10(k as nat))) by (nonlinear_arith);
                            }
                            m = m * 10;
                            k = k + 1;
                        }
                    }
                    if sat || m > usize::MAX as u128 {
                        usize::MAX
                    } else {
                        m as usize
                    }
                } else {
                    let e = *exp;
                    let mut k: i128 = 0;
                    proof {
                        assert(pow10(0) == 1);
                        assert(vn / 1 == vn) by (nonlinear_arith);
                        assert(m as nat == vn / pow10(0));
                    }
                    while k < -e
                        invariant
                            0 <= k <= -e,
                            e < 0,
                            e >= -400,
                            m as nat == vn / pow10(k as nat),
                        decreases -e - k,
                    {
                        proof {
                            crate::digits::lemma_pow10_pos(k as nat);
                            vstd::arithmetic::div_mod::lemma_div_denominator(vn as int, pow10(k as nat) as int, 10);
                            assert(pow10((k + 1) as nat) == pow10(k as nat) * 10);
                        }
                        m = m / 10;
                        k = k + 1;
                    }
                    if m > usize::MAX as u128 {
                        usize::MAX
                    } else {
                        m as usize
                    }
                }
            },
        }
    }
}

} // verus!

verus! {

/// A whole number below `10^17` is held exactly, with a nonnegative
/// exponent.
pub proof fn lemma_num_of_small(n: nat)
    requires
        0 < n < 100_000_000_000_000_000,
    ensures
        num_of(n as int, 0) matches NumV::Fin(neg, d, e) && !neg && e >= 0 && val(d) * pow10(e as nat) == n,
{
    assert(pow10(17) == 100_000_000_000_000_000) by {
        reveal_with_fuel(pow10, 18);
    }
    lemma_ndigits_bounds(n);
    let l = ndigits(n);
    if l > 17 {
        lemma_pow10_mono(17, (l - 1) as nat);
    }
    assert(abs(n as int) == n);
    lemma_strip(n, 0);
    let (m2, e2) = strip(n, 0);
    lemma_le_digits_props(m2);
    assert(ndigits(m2) >= 1);
}

/// Adding one to a whole number below `10^17 - 1` is exact.
#[verifier::spinoff_prover]
pub proof fn lemma_num_succ(j: nat)
    requires
        1 <= j,
        j + 1 < 100_000_000_000_000_000,
    ensures
        num_add(num_of(j as int, 0), num_of(1, 0)) == num_of(j + 1int, 0),
{
    lemma_num_of_small(j);
    lemma_num_of_small(1);
    let (da, ea) = match num_of(j as int, 0) {
        NumV::Fin(_, d, e) => (d, e),
        _ => (Seq::empty(), 0),
    };
    let (db, eb) = match num_of(1, 0) {
        NumV::Fin(_, d, e) => (d, e),
        _ => (Seq::empty(), 0),
    };
    if eb > 0 {
        lemma_pow10_mono(1, eb as nat);
        assert(pow10(1) == 10) by {
            reveal_with_fuel(pow10, 2);
        }
        assert(val(db) * pow10(eb as nat) >= 10) by (nonlinear_arith)
            requires
                val(db) * pow10(eb as nat) == 1,
                pow10(eb as nat) >= 10,
        ;
    }
    assert(eb == 0);
    assert(pow10(0) == 1);
    assert(val(db) * pow10(eb as nat) == 1);
    assert(val(db) * pow10(0) == 1);
    assert(val(db) == 1) by (nonlinear_arith)
        requires
            val(db) * pow10(0) == 1,
            pow10(0) == 1,
    ;
    assert(signed(false, val(da)) * pow10((ea - 0) as nat) + signed(false, val(db)) * pow10(0) == j + 1);
}

} // verus!

verus! {

proof fn lemma_ndigits_scaled(x: nat, k: nat)
    requires
        x > 0,
    ensures
        ndigits(x * pow10(k)) == ndigits(x) + k,
        x * pow10(k) > 0,
    decreases k,
{
    if k == 0 {
        assert(pow10(0) == 1);
        assert(x * 1 == x);
    } else {
        let k1 = (k - 1) as nat;
        lemma_ndigits_scaled(x, k1);
        let y = x * pow10(k1);
        assert(pow10(k) == 10 * pow10(k1));
        assert(x * pow10(k) == 10 * y) by (nonlinear_arith)
            requires
                pow10(k) == 10 * pow10(k1),
                y == x * pow10(k1),
        ;
        lemma_ndigits_times10(y);
    }
}

/// A canonical value with a nonnegative exponent is what its whole-number
/// value reads as.
pub proof fn lemma_num_of_whole(neg: bool, d: Seq<u8>, e: int)
    requires
        canonical(NumV::Fin(neg, d, e)),
        d.len() > 0,
        e >= 0,
    ensures
        num_of(signed(neg, val(d) * pow10(e as nat)), 0) == NumV::Fin(neg, d, e),
{
    let x = val(d);
    let ee = e as nat;
    lemma_le_digits_val(d);
    lemma_val_zero(d);
    lemma_val_divmod(d);
    assert(x > 0);
    assert(ndigits(x) == d.len());
    lemma_ndigits_scaled(x, ee);
    let m = x * pow10(ee);
    assert(abs(signed(neg, m)) == m);
    let l = ndigits(m);
    assert(l == d.len() + ee);
    assert(x % 10 != 0);
    assert(strip(x, e) == (x, e));
    if l > SIG_DIGITS {
        let k = (l - SIG_DIGITS) as nat;
        assert(k <= ee);
        let r = (ee - k) as nat;
        lemma_pow10_add(r, k);
        lemma_pow10_pos(k);
        lemma_pow10_pos(r);
        let q = x * pow10(r);
        let p = pow10(k);
        assert(m == q * p) by (nonlinear_arith)
            requires
                m == x * pow10(ee),
                pow10(ee) == pow10(r) * pow10(k),
                q == x * pow10(r),
                p == pow10(k),
                ee == r + k,
        ;
        assert(m / p == q && m % p == 0) by (nonlinear_arith)
            requires
                m == q * p,
                p >= 1,
        ;
        assert(round_div(m, k) == q);
        lemma_ndigits_scaled(x, r);
        lemma_strip_scaled(x, r, k as int);
        assert(k + r == e);
    } else {
        lemma_strip_scaled(x, ee, 0);
    }
}

} // verus!

verus! {

/// Characters that spell the digits `x`, most significant first, read as
/// the number `val(x)`.
pub proof fn lemma_be_val_digit_str(s: Seq<char>, lo: int, x: Seq<u8>)
    requires
        all_digits(x),
        0 <= lo,
        lo + x.len() <= s.len(),
        s.subrange(lo, lo + x.len()) == crate::text::digit_str(x),
    ensures
        be_val(s, lo, lo + x.len()) == val(x),
        forall|q: int| lo <= q < lo + x.len() ==> is_digit(#[trigger] s[q]),
    decreases x.len(),
{
    let n = x.len() as int;
    if n == 0 {
        assert(val(x) == 0);
    } else {
        let y = x.drop_first();
        assert(all_digits(y)) by {
            assert forall|i: int| 0 <= i < y.len() implies #[trigger] y[i] <= 9 by {
                assert(y[i] == x[i + 1]);
            }
        }
        assert(s.subrange(lo, lo + n - 1) =~= crate::text::digit_str(y)) by {
            assert forall|i: int| 0 <= i < n - 1 implies s.subrange(lo, lo + n - 1)[i] == crate::text::digit_str(y)[i] by {
                assert(s.subrange(lo, lo + n)[i] == crate::text::digit_str(x)[i]);
                assert(y[n - 2 - i] == x[n - 1 - i]);
            }
        }
        lemma_be_val_digit_str(s, lo, y);
        assert(s.subrange(lo, lo + n)[n - 1] == crate::text::digit_str(x)[n - 1]);
        let c = s[lo + n - 1];
        assert(c == crate::text::digit_char(x[0]));
        let d0 = x[0];
        assert(d0 <= 9);
        assert(digit_of(c) == d0 as nat && is_digit(c)) by {
            assert(((d0 + 48) as u8) as char == c);
            assert((c as u32) == (d0 + 48) as u32);
        }
        lemma_val_first(x);
        assert forall|q: int| lo <= q < lo + n implies is_digit(#[trigger] s[q]) by {
            if q < lo + n - 1 {
            } else {
                assert(q == lo + n - 1);
            }
        }
    }
}

} // verus!

verus! {

/// A literal's value is never NaN.
pub proof fn lemma_lit_value_not_nan(s: Seq<char>)
    ensures
        lit_value(s) != NumV::NaN,
{
}

} // verus!
