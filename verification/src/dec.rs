use vstd::prelude::*;

verus! {

use crate::err::Error;

/// Largest scale (count of fractional digits) a decimal can carry.
pub const DEC_SCALE_MAX: u32 = 28;

/// Largest mantissa magnitude: 28 nines.
pub const DEC_MANTISSA_MAX: i128 = 9999999999999999999999999999;

/// 10^k, the weight of a digit k places up.
pub open spec fn pow10(k: nat) -> int
    decreases k,
{
    if k == 0 {
        1
    } else {
        10 * pow10((k - 1) as nat)
    }
}

pub proof fn lemma_pow10_pos(k: nat)
    ensures
        pow10(k) >= 1,
    decreases k,
{
    if k > 0 {
        lemma_pow10_pos((k - 1) as nat);
    }
}

pub proof fn lemma_pow10_add(a: nat, b: nat)
    ensures
        pow10(a + b) == pow10(a) * pow10(b),
    decreases a,
{
    if a == 0 {
        assert(pow10(0 + b) == 1 * pow10(b));
    } else {
        lemma_pow10_add((a - 1) as nat, b);
        assert(pow10(a + b) == 10 * pow10((a + b - 1) as nat));
        assert(pow10((a - 1) as nat + b) == pow10((a - 1) as nat) * pow10(b));
        assert(10 * (pow10((a - 1) as nat) * pow10(b)) == (10 * pow10((a - 1) as nat)) * pow10(b))
            by (nonlinear_arith);
    }
}

pub proof fn lemma_pow10_mono(a: nat, b: nat)
    requires
        a <= b,
    ensures
        pow10(a) <= pow10(b),
{
    lemma_pow10_add(a, (b - a) as nat);
    lemma_pow10_pos(a);
    lemma_pow10_pos((b - a) as nat);
    assert(pow10(a) * 1 <= pow10(a) * pow10((b - a) as nat)) by (nonlinear_arith)
        requires
            pow10(a) >= 1,
            pow10((b - a) as nat) >= 1,
    ;
}

/// A decimal number: the value `m / 10^e`.
///
/// Well-formed values keep the mantissa within 28 decimal digits, the
/// scale within 28, and carry no trailing zero in the mantissa unless
/// the scale is already zero, so each value has exactly one
/// representation.
#[derive(Clone, Copy, Debug, PartialEq, Eq, Structural)]
pub struct Dec {
    pub m: i128,
    pub e: u32,
}

impl Dec {
    /// The representation invariant: bounded, and normalized.
    pub open spec fn wf(self) -> bool {
        &&& -DEC_MANTISSA_MAX <= self.m <= DEC_MANTISSA_MAX
        &&& self.e <= DEC_SCALE_MAX
        &&& (self.e == 0 || self.m % 10 != 0)
    }

    /// The value scaled to a common fixed base: `self` as a count of
    /// units of 10^-28. Exact for every well-formed decimal.
    pub open spec fn val28(self) -> int {
        self.m * pow10((DEC_SCALE_MAX - self.e) as nat)
    }

    /// The well-formed representation of zero.
    pub open spec fn zero_spec() -> Dec {
        Dec { m: 0, e: 0 }
    }
}

/// Two well-formed decimals with one value are one representation.
pub proof fn lemma_val28_injective(a: Dec, b: Dec)
    requires
        a.wf(),
        b.wf(),
        a.val28() == b.val28(),
    ensures
        a == b,
{
    if a.e == b.e {
        let p = pow10((DEC_SCALE_MAX - a.e) as nat);
        lemma_pow10_pos((DEC_SCALE_MAX - a.e) as nat);
        assert(a.m == b.m) by (nonlinear_arith)
            requires
                a.m * p == b.m * p,
                p >= 1,
        ;
    } else {
        // Symmetric: name the finer-scaled one `x`.
        let (x, y) = if a.e > b.e { (a, b) } else { (b, a) };
        let d = (x.e - y.e) as nat;
        let px = pow10((DEC_SCALE_MAX - x.e) as nat);
        let py = pow10((DEC_SCALE_MAX - y.e) as nat);
        lemma_pow10_add((DEC_SCALE_MAX - x.e) as nat, d);
        assert(py == px * pow10(d));
        lemma_pow10_pos((DEC_SCALE_MAX - x.e) as nat);
        // x.m * px == y.m * (px * pow10(d))  ==>  x.m == y.m * pow10(d)
        assert(x.m == y.m * pow10(d)) by (nonlinear_arith)
            requires
                x.m * px == y.m * (px * pow10(d)),
                px >= 1,
        ;
        // d >= 1, so 10 divides x.m; but x is normalized with x.e > 0.
        lemma_pow10_add((d - 1) as nat, 1);
        assert(pow10(d) == pow10((d - 1) as nat) * 10);
        assert(y.m * (pow10((d - 1) as nat) * 10) == (y.m * pow10((d - 1) as nat)) * 10)
            by (nonlinear_arith);
        vstd::arithmetic::div_mod::lemma_mod_multiples_basic(y.m * pow10((d - 1) as nat), 10);
        assert(x.m % 10 == 0);
        assert(false);
    }
}

/// Normalization at the specification level: the unique well-formed
/// representation of `m / 10^e`.
pub open spec fn norm_spec(m: int, e: nat) -> Dec
    decreases e,
{
    if e > 0 && m % 10 == 0 {
        norm_spec(m / 10, (e - 1) as nat)
    } else {
        Dec { m: m as i128, e: e as u32 }
    }
}

pub proof fn lemma_norm_spec(m: int, e: nat)
    requires
        -DEC_MANTISSA_MAX <= m <= DEC_MANTISSA_MAX,
        e <= DEC_SCALE_MAX,
    ensures
        norm_spec(m, e).wf(),
        norm_spec(m, e).val28() == m * pow10((DEC_SCALE_MAX - e) as nat),
    decreases e,
{
    if e > 0 && m % 10 == 0 {
        vstd::arithmetic::div_mod::lemma_fundamental_div_mod(m, 10);
        assert(m == 10 * (m / 10));
        vstd::arithmetic::div_mod::lemma_div_is_ordered(-DEC_MANTISSA_MAX as int, m, 10);
        vstd::arithmetic::div_mod::lemma_div_is_ordered(m, DEC_MANTISSA_MAX as int, 10);
        assert((-DEC_MANTISSA_MAX as int) / 10 >= -DEC_MANTISSA_MAX);
        assert((DEC_MANTISSA_MAX as int) / 10 <= DEC_MANTISSA_MAX);
        lemma_norm_spec(m / 10, (e - 1) as nat);
        let k = (DEC_SCALE_MAX - e) as nat;
        lemma_pow10_add(k, 1);
        assert((m / 10) * (pow10(k) * 10) == (10 * (m / 10)) * pow10(k)) by (nonlinear_arith);
    }
}

/// What dividing by ten yields: truncation toward zero.
pub open spec fn div10_spec(x: int) -> int {
    if x >= 0 {
        x / 10
    } else {
        -((-x) / 10)
    }
}

/// Divides by ten, truncating toward zero.
fn div10(x: i128) -> (r: i128)
    requires
        -(DEC_MANTISSA_MAX + DEC_MANTISSA_MAX) <= x <= DEC_MANTISSA_MAX + DEC_MANTISSA_MAX,
    ensures
        r == div10_spec(x as int),
        -DEC_MANTISSA_MAX <= r <= DEC_MANTISSA_MAX,
        x >= 0 ==> r >= 0,
        x <= 0 ==> r <= 0,
{
    proof {
        vstd::arithmetic::div_mod::lemma_div_is_ordered(
            x as int,
            DEC_MANTISSA_MAX + DEC_MANTISSA_MAX,
            10,
        );
        vstd::arithmetic::div_mod::lemma_div_is_ordered(
            -x as int,
            DEC_MANTISSA_MAX + DEC_MANTISSA_MAX,
            10,
        );
        if x >= 0 {
            vstd::arithmetic::div_mod::lemma_div_pos_is_pos(x as int, 10);
        } else {
            vstd::arithmetic::div_mod::lemma_div_pos_is_pos(-x as int, 10);
        }
    }
    if x >= 0 {
        x / 10
    } else {
        -((-x) / 10)
    }
}

/// Strips trailing zeros from a nonnegative mantissa, keeping the value.
fn norm_mag(m0: i128, e0: u32) -> (r: Dec)
    requires
        0 <= m0 <= DEC_MANTISSA_MAX,
        e0 <= DEC_SCALE_MAX,
    ensures
        r.wf(),
        r.m >= 0,
        r.val28() == m0 * pow10((DEC_SCALE_MAX - e0) as nat),
{
    let mut m: i128 = m0;
    let mut e: u32 = e0;
    while e > 0 && m % 10 == 0
        invariant
            0 <= m <= DEC_MANTISSA_MAX,
            e <= e0 <= DEC_SCALE_MAX,
            m * pow10((DEC_SCALE_MAX - e) as nat) == m0 * pow10((DEC_SCALE_MAX - e0) as nat),
        decreases e,
    {
        proof {
            let k = (DEC_SCALE_MAX - e) as nat;
            lemma_pow10_add(k, 1);
            assert(pow10(k + 1) == pow10(k) * 10);
            vstd::arithmetic::div_mod::lemma_fundamental_div_mod(m as int, 10);
            assert(m == 10 * (m as int / 10));
            assert((m as int / 10) * (pow10(k) * 10) == (10 * (m as int / 10)) * pow10(k))
                by (nonlinear_arith);
        }
        m = m / 10;
        e = e - 1;
    }
    Dec { m, e }
}

/// Strips trailing zeros from the mantissa, keeping the value.
fn norm(m0: i128, e0: u32) -> (r: Dec)
    requires
        -DEC_MANTISSA_MAX <= m0 <= DEC_MANTISSA_MAX,
        e0 <= DEC_SCALE_MAX,
    ensures
        r.wf(),
        r.val28() == m0 * pow10((DEC_SCALE_MAX - e0) as nat),
        m0 >= 0 ==> r.m >= 0,
        m0 <= 0 ==> r.m <= 0,
        r == norm_spec(m0 as int, e0 as nat),
{
    let r = norm_inner(m0, e0);
    proof {
        lemma_norm_spec(m0 as int, e0 as nat);
        lemma_val28_injective(r, norm_spec(m0 as int, e0 as nat));
    }
    r
}

/// The body of `norm`, stated over `val28` alone.
fn norm_inner(m0: i128, e0: u32) -> (r: Dec)
    requires
        -DEC_MANTISSA_MAX <= m0 <= DEC_MANTISSA_MAX,
        e0 <= DEC_SCALE_MAX,
    ensures
        r.wf(),
        r.val28() == m0 * pow10((DEC_SCALE_MAX - e0) as nat),
        m0 >= 0 ==> r.m >= 0,
        m0 <= 0 ==> r.m <= 0,
{
    if m0 >= 0 {
        let d = norm_mag(m0, e0);
        proof {
            if m0 == 0 {
                let p = pow10((DEC_SCALE_MAX - d.e) as nat);
                lemma_pow10_pos((DEC_SCALE_MAX - d.e) as nat);
                assert(d.m == 0) by (nonlinear_arith)
                    requires
                        d.m * p == 0,
                        p >= 1,
                ;
            }
        }
        d
    } else {
        let d = norm_mag(-m0, e0);
        proof {
            let k = (DEC_SCALE_MAX - d.e) as nat;
            let k0 = (DEC_SCALE_MAX - e0) as nat;
            assert((-d.m) * pow10(k) == -(d.m * pow10(k))) by (nonlinear_arith);
            assert((-m0) * pow10(k0) == -(m0 * pow10(k0))) by (nonlinear_arith);
            // Normalization is kept under negation: 10 cannot divide -d.m
            // unless it divides d.m.
            if d.e != 0 {
                vstd::arithmetic::div_mod::lemma_fundamental_div_mod(-(d.m) as int, 10);
                if (-(d.m) as int) % 10 == 0 {
                    let q = (-(d.m) as int) / 10;
                    assert(-(d.m) as int == 10 * q);
                    assert(d.m == (-q) * 10) by (nonlinear_arith)
                        requires
                            -(d.m) as int == 10 * q,
                    ;
                    vstd::arithmetic::div_mod::lemma_mod_multiples_basic(-q, 10);
                    assert(false);
                }
            }
        }
        Dec { m: -d.m, e: d.e }
    }
}

/// Raises a mantissa from scale `le` toward scale `he` while the
/// range allows, keeping the value.
pub open spec fn raise_mant(lm: int, le: nat, he: nat) -> (int, nat)
    decreases he - le,
{
    if le < he && -(DEC_MANTISSA_MAX / 10) <= lm <= DEC_MANTISSA_MAX / 10 {
        raise_mant(lm * 10, le + 1, he)
    } else {
        (lm, le)
    }
}

/// Lowers a mantissa from scale `he` down to scale `le`, shedding one
/// digit per step.
pub open spec fn lower_mant(hm: int, he: nat, le: nat) -> int
    decreases he - le,
{
    if he > le {
        lower_mant(div10_spec(hm), (he - 1) as nat, le)
    } else {
        hm
    }
}

/// Raising stays in range, raises the scale no further than asked,
/// and keeps the value.
pub proof fn lemma_raise_props(lm: int, le: nat, he: nat)
    requires
        -DEC_MANTISSA_MAX <= lm <= DEC_MANTISSA_MAX,
        le <= he,
    ensures
        ({
            let (lm2, le2) = raise_mant(lm, le, he);
            &&& -DEC_MANTISSA_MAX <= lm2 <= DEC_MANTISSA_MAX
            &&& le <= le2 <= he
            &&& lm2 == lm * pow10((le2 - le) as nat)
            &&& (le2 < he ==> (lm2 > DEC_MANTISSA_MAX / 10 || lm2 < -(DEC_MANTISSA_MAX / 10)))
        }),
    decreases he - le,
{
    if le < he && -(DEC_MANTISSA_MAX / 10) <= lm <= DEC_MANTISSA_MAX / 10 {
        lemma_raise_props(lm * 10, le + 1, he);
        let (lm2, le2) = raise_mant(lm, le, he);
        lemma_pow10_add(1, (le2 - le - 1) as nat);
        assert((lm * 10) * pow10((le2 - le - 1) as nat) == lm * (10 * pow10((le2 - le - 1) as nat)))
            by (nonlinear_arith);
    } else {
        assert(pow10(0) == 1);
    }
}

/// Lowering stays in range.
pub proof fn lemma_lower_props(hm: int, he: nat, le: nat)
    requires
        -DEC_MANTISSA_MAX <= hm <= DEC_MANTISSA_MAX,
        le <= he,
    ensures
        -DEC_MANTISSA_MAX <= lower_mant(hm, he, le) <= DEC_MANTISSA_MAX,
    decreases he - le,
{
    if he > le {
        vstd::arithmetic::div_mod::lemma_div_is_ordered(hm, DEC_MANTISSA_MAX as int, 10);
        vstd::arithmetic::div_mod::lemma_div_is_ordered(-hm, DEC_MANTISSA_MAX as int, 10);
        if hm >= 0 {
            vstd::arithmetic::div_mod::lemma_div_pos_is_pos(hm, 10);
        } else {
            vstd::arithmetic::div_mod::lemma_div_pos_is_pos(-hm, 10);
        }
        lemma_lower_props(div10_spec(hm), (he - 1) as nat, le);
    }
}

/// Bounds kept by shedding one digit from a doubled-range sum.
proof fn lemma_div10_spec_bound(x: int)
    requires
        -(DEC_MANTISSA_MAX + DEC_MANTISSA_MAX) <= x <= DEC_MANTISSA_MAX + DEC_MANTISSA_MAX,
    ensures
        -DEC_MANTISSA_MAX <= div10_spec(x) <= DEC_MANTISSA_MAX,
{
    vstd::arithmetic::div_mod::lemma_div_is_ordered(
        x,
        DEC_MANTISSA_MAX + DEC_MANTISSA_MAX,
        10,
    );
    vstd::arithmetic::div_mod::lemma_div_is_ordered(
        -x,
        DEC_MANTISSA_MAX + DEC_MANTISSA_MAX,
        10,
    );
    if x >= 0 {
        vstd::arithmetic::div_mod::lemma_div_pos_is_pos(x, 10);
    } else {
        vstd::arithmetic::div_mod::lemma_div_pos_is_pos(-x, 10);
    }
}

/// The sum of two well-formed decimals is well-formed.
pub proof fn lemma_add_spec_wf(a: Dec, b: Dec)
    requires
        a.wf(),
        b.wf(),
    ensures
        a.add_spec(b).wf(),
{
    let hm0 = if a.e >= b.e {
        a.m as int
    } else {
        b.m as int
    };
    let he = if a.e >= b.e {
        a.e as nat
    } else {
        b.e as nat
    };
    let lm0 = if a.e >= b.e {
        b.m as int
    } else {
        a.m as int
    };
    let le0 = if a.e >= b.e {
        b.e as nat
    } else {
        a.e as nat
    };
    lemma_raise_props(lm0, le0, he);
    let (lm, le) = raise_mant(lm0, le0, he);
    lemma_lower_props(hm0, he, le);
    let hm = lower_mant(hm0, he, le);
    let s = hm + lm;
    if s > DEC_MANTISSA_MAX || s < -DEC_MANTISSA_MAX {
        if le > 0 {
            lemma_div10_spec_bound(s);
            lemma_norm_spec(div10_spec(s), (le - 1) as nat);
        } else {
            lemma_norm_spec(DEC_MANTISSA_MAX as int, 0);
            lemma_norm_spec(-DEC_MANTISSA_MAX as int, 0);
        }
    } else {
        lemma_norm_spec(s, le);
    }
}

/// Where the addends can be brought to one scale in range, `add_spec`
/// is the exact sum of the values.
pub proof fn lemma_add_spec_exact(a: Dec, b: Dec)
    requires
        a.wf(),
        b.wf(),
        a.add_exact_ok(b),
    ensures
        a.add_spec(b).wf(),
        a.add_spec(b).val28() == a.val28() + b.val28(),
{
    lemma_add_spec_wf(a, b);
    let hm0 = if a.e >= b.e {
        a.m as int
    } else {
        b.m as int
    };
    let he = if a.e >= b.e {
        a.e as nat
    } else {
        b.e as nat
    };
    let lm0 = if a.e >= b.e {
        b.m as int
    } else {
        a.m as int
    };
    let le0 = if a.e >= b.e {
        b.e as nat
    } else {
        a.e as nat
    };
    let d = (he - le0) as nat;
    lemma_raise_props(lm0, le0, he);
    let (lm, le) = raise_mant(lm0, le0, he);
    if le < he {
        // stuck raising contradicts the exact-range premise
        let j = (le - le0) as nat;
        let rest = (he - le) as nat;
        lemma_pow10_add(j, rest);
        assert(lm0 * pow10(d) == (lm0 * pow10(j)) * pow10(rest)) by (nonlinear_arith)
            requires
                pow10(d) == pow10(j) * pow10(rest),
        ;
        lemma_pow10_add(1, (rest - 1) as nat);
        lemma_pow10_pos((rest - 1) as nat);
        assert(pow10(rest) >= 10);
        assert(lm * pow10(rest) > DEC_MANTISSA_MAX || lm * pow10(rest) < -DEC_MANTISSA_MAX)
            by (nonlinear_arith)
            requires
                lm > DEC_MANTISSA_MAX / 10 || lm < -(DEC_MANTISSA_MAX / 10),
                pow10(rest) >= 10,
                DEC_MANTISSA_MAX == 9999999999999999999999999999i128,
        ;
        assert(false);
    }
    let s = hm0 + lm;
    assert(lower_mant(hm0, he, le) == hm0);
    assert(-DEC_MANTISSA_MAX <= s <= DEC_MANTISSA_MAX);
    lemma_norm_spec(s, le);
    let k = (DEC_SCALE_MAX - he) as nat;
    lemma_pow10_add(d, k);
    assert((hm0 + lm) * pow10(k) == hm0 * pow10(k) + (lm0 * pow10(d)) * pow10(k))
        by (nonlinear_arith)
        requires
            lm == lm0 * pow10(d),
    ;
    assert((lm0 * pow10(d)) * pow10(k) == lm0 * pow10(d + k)) by (nonlinear_arith)
        requires
            pow10(d + k) == pow10(d) * pow10(k),
    ;
}

/// Raises a mantissa to the finest scale it can hold, keeping the value.
pub open spec fn scale_up(m: int, e: nat) -> (int, nat)
    decreases DEC_SCALE_MAX - e,
{
    if e < DEC_SCALE_MAX && -(DEC_MANTISSA_MAX / 10) <= m <= DEC_MANTISSA_MAX / 10 {
        scale_up(m * 10, e + 1)
    } else {
        (m, e)
    }
}

/// Division truncating toward zero, for a positive divisor.
pub open spec fn div_trunc(a: int, b: int) -> int {
    if a >= 0 {
        a / b
    } else {
        -((-a) / b)
    }
}

/// What `checked_div_int` returns: the numerator raised to the finest
/// scale it can hold, divided truncating toward zero.
pub open spec fn div_int_spec(a: Dec, d: int) -> Dec {
    norm_spec(
        div_trunc(scale_up(a.m as int, a.e as nat).0, d),
        scale_up(a.m as int, a.e as nat).1,
    )
}

pub proof fn lemma_norm_spec_zero(e: nat)
    requires
        e <= DEC_SCALE_MAX,
    ensures
        norm_spec(0, e) == Dec::zero_spec(),
    decreases e,
{
    if e > 0 {
        lemma_norm_spec_zero((e - 1) as nat);
    }
}

/// 10^k as a 128-bit integer.
fn pow10_i128(k: u32) -> (r: i128)
    requires
        k <= DEC_SCALE_MAX,
    ensures
        r == pow10(k as nat),
        r >= 1,
{
    proof {
        lemma_pow10_le_cap(k as nat);
    }
    let mut r: i128 = 1;
    let mut x: u32 = 0;
    while x < k
        invariant
            x <= k <= DEC_SCALE_MAX,
            r == pow10(x as nat),
            1 <= r,
        decreases k - x,
    {
        proof {
            lemma_pow10_add(x as nat, 1);
            lemma_pow10_mono((x + 1) as nat, DEC_SCALE_MAX as nat);
            lemma_pow10_le_cap(DEC_SCALE_MAX as nat);
        }
        r = r * 10;
        x = x + 1;
    }
    r
}

/// 10^k stays within one digit above the mantissa cap.
pub proof fn lemma_pow10_le_cap(k: nat)
    requires
        k <= DEC_SCALE_MAX,
    ensures
        pow10(k) <= DEC_MANTISSA_MAX + 1,
{
    lemma_pow10_mono(k, DEC_SCALE_MAX as nat);
    lemma_pow10_28();
}

/// The concrete weight of the 28th place.
pub proof fn lemma_pow10_28()
    ensures
        pow10(DEC_SCALE_MAX as nat) == DEC_MANTISSA_MAX + 1,
{
    reveal_with_fuel(pow10, 29);
    assert(pow10(28) == 10000000000000000000000000000);
}

/// Compares two nonnegative mantissa/scale pairs by value: integer
/// parts first, then the fractions aligned to the finer scale.
fn lt_mag(am: i128, ae: u32, bm: i128, be: u32) -> (r: bool)
    requires
        0 <= am <= DEC_MANTISSA_MAX,
        0 <= bm <= DEC_MANTISSA_MAX,
        ae <= DEC_SCALE_MAX,
        be <= DEC_SCALE_MAX,
    ensures
        r == (am * pow10((DEC_SCALE_MAX - ae) as nat) < bm * pow10((DEC_SCALE_MAX - be) as nat)),
{
    let pa = pow10_i128(ae);
    let pb = pow10_i128(be);
    let ia = am / pa;
    let ib = bm / pb;
    let fa = am % pa;
    let fb = bm % pb;
    proof {
        lemma_lt_mag_parts(am as int, ae as nat, bm as int, be as nat);
    }
    if ia != ib {
        ia < ib
    } else if ae <= be {
        proof {
            lemma_frac_raise(fa as int, ae as nat, be as nat);
        }
        let fa2 = fa * pow10_i128(be - ae);
        fa2 < fb
    } else {
        proof {
            lemma_frac_raise(fb as int, be as nat, ae as nat);
        }
        let fb2 = fb * pow10_i128(ae - be);
        fa < fb2
    }
}

/// A fraction below 10^e, raised to a coarser scale, stays below 10^f.
proof fn lemma_frac_raise(x: int, e: nat, f: nat)
    requires
        0 <= x < pow10(e),
        e <= f <= DEC_SCALE_MAX,
    ensures
        0 <= x * pow10((f - e) as nat) < pow10(f),
        x * pow10((f - e) as nat) <= DEC_MANTISSA_MAX + 1,
{
    let d = (f - e) as nat;
    lemma_pow10_add(e, d);
    lemma_pow10_pos(d);
    assert(x * pow10(d) < pow10(e) * pow10(d)) by (nonlinear_arith)
        requires
            0 <= x < pow10(e),
            pow10(d) >= 1,
    ;
    assert(x * pow10(d) >= 0) by (nonlinear_arith)
        requires
            x >= 0,
            pow10(d) >= 1,
    ;
    lemma_pow10_le_cap(f);
}

/// Splitting a value at the decimal point: the integer parts order
/// the values unless equal, and then the aligned fractions do.
proof fn lemma_lt_mag_parts(am: int, ae: nat, bm: int, be: nat)
    requires
        0 <= am <= DEC_MANTISSA_MAX,
        0 <= bm <= DEC_MANTISSA_MAX,
        ae <= DEC_SCALE_MAX,
        be <= DEC_SCALE_MAX,
    ensures
        ({
            let pa = pow10(ae);
            let pb = pow10(be);
            let ia = am / pa;
            let ib = bm / pb;
            let fa = am % pa;
            let fb = bm % pb;
            let va = am * pow10((DEC_SCALE_MAX - ae) as nat);
            let vb = bm * pow10((DEC_SCALE_MAX - be) as nat);
            &&& va == ia * pow10(DEC_SCALE_MAX as nat) + fa * pow10((DEC_SCALE_MAX - ae) as nat)
            &&& vb == ib * pow10(DEC_SCALE_MAX as nat) + fb * pow10((DEC_SCALE_MAX - be) as nat)
            &&& 0 <= fa * pow10((DEC_SCALE_MAX - ae) as nat) < pow10(DEC_SCALE_MAX as nat)
            &&& 0 <= fb * pow10((DEC_SCALE_MAX - be) as nat) < pow10(DEC_SCALE_MAX as nat)
            &&& 0 <= ia
            &&& 0 <= ib
            &&& (ia != ib ==> ((va < vb) == (ia < ib)))
            &&& (ia == ib ==> ((va < vb) == (fa * pow10((DEC_SCALE_MAX - ae) as nat) < fb * pow10(
                (DEC_SCALE_MAX - be) as nat))))
            &&& (ae <= be ==> fa * pow10((DEC_SCALE_MAX - ae) as nat) == (fa * pow10(
                (be - ae) as nat,
            )) * pow10((DEC_SCALE_MAX - be) as nat))
            &&& (be <= ae ==> fb * pow10((DEC_SCALE_MAX - be) as nat) == (fb * pow10(
                (ae - be) as nat,
            )) * pow10((DEC_SCALE_MAX - ae) as nat))
            &&& (ae <= be ==> (((fa * pow10((be - ae) as nat)) * pow10((DEC_SCALE_MAX - be) as nat)
                < fb * pow10((DEC_SCALE_MAX - be) as nat)) == (fa * pow10((be - ae) as nat) < fb)))
            &&& (be <= ae ==> ((fa * pow10((DEC_SCALE_MAX - ae) as nat) < (fb * pow10(
                (ae - be) as nat,
            )) * pow10((DEC_SCALE_MAX - ae) as nat)) == (fa < fb * pow10((ae - be) as nat))))
        }),
{
    let pa = pow10(ae);
    let pb = pow10(be);
    let ka = (DEC_SCALE_MAX - ae) as nat;
    let kb = (DEC_SCALE_MAX - be) as nat;
    lemma_pow10_pos(ae);
    lemma_pow10_pos(be);
    lemma_pow10_pos(ka);
    lemma_pow10_pos(kb);
    vstd::arithmetic::div_mod::lemma_fundamental_div_mod(am, pa);
    vstd::arithmetic::div_mod::lemma_fundamental_div_mod(bm, pb);
    vstd::arithmetic::div_mod::lemma_div_pos_is_pos(am, pa);
    vstd::arithmetic::div_mod::lemma_div_pos_is_pos(bm, pb);
    let ia = am / pa;
    let ib = bm / pb;
    let fa = am % pa;
    let fb = bm % pb;
    lemma_pow10_add(ae, ka);
    lemma_pow10_add(be, kb);
    assert(am * pow10(ka) == ia * (pa * pow10(ka)) + fa * pow10(ka)) by (nonlinear_arith)
        requires
            am == pa * ia + fa,
    ;
    assert(bm * pow10(kb) == ib * (pb * pow10(kb)) + fb * pow10(kb)) by (nonlinear_arith)
        requires
            bm == pb * ib + fb,
    ;
    let p28 = pow10(DEC_SCALE_MAX as nat);
    assert(0 <= fa * pow10(ka) < pa * pow10(ka)) by (nonlinear_arith)
        requires
            0 <= fa < pa,
            pow10(ka) >= 1,
    ;
    assert(0 <= fb * pow10(kb) < pb * pow10(kb)) by (nonlinear_arith)
        requires
            0 <= fb < pb,
            pow10(kb) >= 1,
    ;
    let va = ia * p28 + fa * pow10(ka);
    let vb = ib * p28 + fb * pow10(kb);
    assert(p28 >= 1) by {
        lemma_pow10_pos(DEC_SCALE_MAX as nat);
    }
    if ia != ib {
        assert((va < vb) == (ia < ib)) by (nonlinear_arith)
            requires
                va == ia * p28 + fa * pow10(ka),
                vb == ib * p28 + fb * pow10(kb),
                0 <= fa * pow10(ka) < p28,
                0 <= fb * pow10(kb) < p28,
                ia != ib,
                p28 >= 1,
        ;
    }
    if ae <= be {
        let d = (be - ae) as nat;
        lemma_pow10_add(d, kb);
        assert(fa * pow10(ka) == (fa * pow10(d)) * pow10(kb)) by (nonlinear_arith)
            requires
                pow10(ka) == pow10(d) * pow10(kb),
        ;
        assert(((fa * pow10(d)) * pow10(kb) < fb * pow10(kb)) == (fa * pow10(d) < fb))
            by (nonlinear_arith)
            requires
                pow10(kb) >= 1,
        ;
    }
    if be <= ae {
        let d = (ae - be) as nat;
        lemma_pow10_add(d, ka);
        assert(fb * pow10(kb) == (fb * pow10(d)) * pow10(ka)) by (nonlinear_arith)
            requires
                pow10(kb) == pow10(d) * pow10(ka),
        ;
        assert((fa * pow10(ka) < (fb * pow10(d)) * pow10(ka)) == (fa < fb * pow10(d)))
            by (nonlinear_arith)
            requires
                pow10(ka) >= 1,
        ;
    }
}

/// A decimal digit.
pub open spec fn is_digit(c: char) -> bool {
    '0' <= c && c <= '9'
}

/// The numeric value of a decimal digit.
pub open spec fn digit_val(c: char) -> int {
    c as int - '0' as int
}

/// Every character of `s` is a decimal digit.
pub open spec fn all_digits(s: Seq<char>) -> bool {
    forall|i: int| 0 <= i < s.len() ==> is_digit(#[trigger] s[i])
}

/// The number a digit string denotes, most significant digit first.
pub open spec fn digits_num(s: Seq<char>) -> int
    decreases s.len(),
{
    if s.len() == 0 {
        0
    } else {
        digits_num(s.drop_last()) * 10 + digit_val(s.last())
    }
}

pub proof fn lemma_digits_nonneg(s: Seq<char>)
    requires
        all_digits(s),
    ensures
        digits_num(s) >= 0,
    decreases s.len(),
{
    if s.len() > 0 {
        assert(all_digits(s.drop_last())) by {
            assert(forall|i: int| 0 <= i < s.len() - 1 ==> s.drop_last()[i] == s[i]);
        }
        lemma_digits_nonneg(s.drop_last());
        assert(digits_num(s.drop_last()) * 10 >= 0) by (nonlinear_arith)
            requires
                digits_num(s.drop_last()) >= 0,
        ;
    }
}

pub proof fn lemma_digits_take_step(s: Seq<char>, i: int)
    requires
        0 <= i < s.len(),
    ensures
        digits_num(s.take(i + 1)) == digits_num(s.take(i)) * 10 + digit_val(s[i]),
{
    assert(s.take(i + 1).drop_last() =~= s.take(i));
    assert(s.take(i + 1).last() == s[i]);
}

/// A digit string denotes at least what any of its prefixes denotes.
pub proof fn lemma_digits_prefix_le(s: Seq<char>, i: int)
    requires
        all_digits(s),
        0 <= i <= s.len(),
    ensures
        digits_num(s.take(i)) <= digits_num(s),
    decreases s.len() - i,
{
    if i < s.len() {
        lemma_digits_take_step(s, i);
        assert(all_digits(s.take(i))) by {
            assert(forall|k: int| 0 <= k < i ==> s.take(i)[k] == s[k]);
        }
        lemma_digits_nonneg(s.take(i));
        assert(digits_num(s.take(i)) * 10 >= digits_num(s.take(i))) by (nonlinear_arith)
            requires
                digits_num(s.take(i)) >= 0,
        ;
        lemma_digits_prefix_le(s, i + 1);
    } else {
        assert(s.take(i) =~= s);
    }
}

/// The sign-stripped part of a decimal string.
pub open spec fn dec_str_body(s: Seq<char>) -> Seq<char> {
    if s.len() > 0 && (s[0] == '+' || s[0] == '-') {
        s.skip(1)
    } else {
        s
    }
}

/// Whether a decimal string denotes a negative number.
pub open spec fn dec_str_neg(s: Seq<char>) -> bool {
    s.len() > 0 && s[0] == '-'
}

/// `i` cuts the body into a nonempty run of integer digits and,
/// if anything follows, a dot with a nonempty run of fraction digits.
pub open spec fn body_split_ok(b: Seq<char>, i: int) -> bool {
    &&& 1 <= i <= b.len()
    &&& all_digits(b.take(i))
    &&& (i == b.len() || (b[i] == '.' && i + 2 <= b.len() && all_digits(b.skip(i + 1))))
}

/// The body follows the decimal grammar: `digits [ '.' digits ]`.
pub open spec fn valid_dec_body(b: Seq<char>) -> bool {
    exists|i: int| body_split_ok(b, i)
}

/// The cut point of a valid body (unique; see `lemma_split_unique`).
pub open spec fn split_of(b: Seq<char>) -> int {
    choose|i: int| body_split_ok(b, i)
}

pub proof fn lemma_split_unique(b: Seq<char>, i: int, j: int)
    requires
        body_split_ok(b, i),
        body_split_ok(b, j),
    ensures
        i == j,
{
    if i < j {
        assert(is_digit(b.take(j)[i]));
        assert(b[i] == '.');
    } else if j < i {
        assert(is_digit(b.take(i)[j]));
        assert(b[j] == '.');
    }
}

/// The fraction digits of a valid body, truncated to the largest scale.
pub open spec fn frac_eff(b: Seq<char>) -> Seq<char> {
    let i = split_of(b);
    if i == b.len() {
        Seq::<char>::empty()
    } else {
        let f = b.skip(i + 1);
        if f.len() <= DEC_SCALE_MAX {
            f
        } else {
            f.take(DEC_SCALE_MAX as int)
        }
    }
}

/// The digits a valid body retains: integer digits, then the kept
/// fraction digits.
pub open spec fn kept_digits(b: Seq<char>) -> Seq<char> {
    b.take(split_of(b)) + frac_eff(b)
}

/// What parsing a decimal string yields: the normalized value of the
/// retained digits at the fraction's scale, negated under a leading
/// minus; `None` where the grammar is broken or the digits do not fit.
pub open spec fn parse_dec(s: Seq<char>) -> Option<Dec> {
    let b = dec_str_body(s);
    if valid_dec_body(b) && digits_num(kept_digits(b)) <= DEC_MANTISSA_MAX {
        let mag = digits_num(kept_digits(b));
        let m = if dec_str_neg(s) {
            -mag
        } else {
            mag
        };
        Some(norm_spec(m, frac_eff(b).len()))
    } else {
        None
    }
}

/// Whatever parses is well-formed.
pub proof fn lemma_parse_dec_wf(s: Seq<char>)
    ensures
        parse_dec(s) matches Some(d) ==> d.wf(),
{
    let b = dec_str_body(s);
    if valid_dec_body(b) && digits_num(kept_digits(b)) <= DEC_MANTISSA_MAX {
        lemma_kept_digits_all_pub(b);
        lemma_digits_nonneg(kept_digits(b));
        let mag = digits_num(kept_digits(b));
        let m = if dec_str_neg(s) {
            -mag
        } else {
            mag
        };
        lemma_norm_spec(m, frac_eff(b).len());
    }
}

/// The digits a valid body keeps are all digits (public face).
pub proof fn lemma_kept_digits_all_pub(b: Seq<char>)
    requires
        valid_dec_body(b),
    ensures
        all_digits(kept_digits(b)),
{
    lemma_kept_digits_all(b);
}

/// Decides `is_digit`.
pub(crate) fn is_digit_exec(c: char) -> (r: bool)
    ensures
        r == is_digit(c),
{
    c >= '0' && c <= '9'
}

/// The numeric value of a digit character.
fn digit_of(c: char) -> (r: u32)
    requires
        is_digit(c),
    ensures
        r == digit_val(c),
{
    (c as u32) - ('0' as u32)
}

/// No cut point can exist once a character that is neither a digit
/// nor a dot follows a run of digits.
proof fn lemma_no_split(b: Seq<char>, i: int)
    requires
        0 <= i < b.len(),
        all_digits(b.take(i)),
        !is_digit(b[i]),
        b[i] != '.',
    ensures
        !valid_dec_body(b),
{
    assert forall|k: int| !body_split_ok(b, k) by {
        if body_split_ok(b, k) {
            if k <= i {
                if k < b.len() {
                    if k < i {
                        assert(is_digit(b.take(i)[k]));
                        assert(b[k] == '.');
                        assert(false);
                    } else {
                        assert(b[i] == '.');
                        assert(false);
                    }
                } else {
                    assert(false);
                }
            } else {
                assert(is_digit(b.take(k)[i]));
                assert(false);
            }
        }
    }
}

/// With digits up to a dot at `i`, the only possible cut point is `i`.
proof fn lemma_only_split_at_dot(b: Seq<char>, i: int)
    requires
        0 <= i < b.len(),
        all_digits(b.take(i)),
        b[i] == '.',
    ensures
        forall|k: int| body_split_ok(b, k) ==> k == i,
{
    assert forall|k: int| body_split_ok(b, k) implies k == i by {
        if k < i {
            assert(is_digit(b.take(i)[k]));
            assert(b[k] == '.');
            assert(!is_digit('.'));
            assert(false);
        } else if k > i {
            assert(is_digit(b.take(k)[i]));
            assert(!is_digit('.'));
            assert(false);
        }
    }
}

/// The digits a valid body keeps are all digits.
proof fn lemma_kept_digits_all(b: Seq<char>)
    requires
        valid_dec_body(b),
    ensures
        all_digits(kept_digits(b)),
{
    let k = split_of(b);
    assert(body_split_ok(b, k));
    assert forall|idx: int| 0 <= idx < kept_digits(b).len() implies is_digit(
        #[trigger] kept_digits(b)[idx],
    ) by {
        if idx < k {
            assert(kept_digits(b)[idx] == b.take(k)[idx]);
            assert(is_digit(b.take(k)[idx]));
        } else {
            assert(kept_digits(b)[idx] == frac_eff(b)[idx - k]);
            assert(frac_eff(b)[idx - k] == b.skip(k + 1)[idx - k]);
            assert(is_digit(b.skip(k + 1)[idx - k]));
        }
    }
}

/// Once 28 integer digits are in hand and a character follows, the
/// kept digits can no longer fit the representable range.
proof fn lemma_overflow_none(b: Seq<char>, i: int, m: int)
    requires
        0 <= i < b.len(),
        all_digits(b.take(i)),
        m == digits_num(b.take(i)),
        m > (DEC_MANTISSA_MAX - 9) / 10,
    ensures
        !(valid_dec_body(b) && digits_num(kept_digits(b)) <= DEC_MANTISSA_MAX),
{
    if valid_dec_body(b) {
        let k = split_of(b);
        assert(body_split_ok(b, k));
        lemma_kept_digits_all(b);
        let kept = kept_digits(b);
        if k < i {
            // the cut's dot would sit among the integer digits
            assert(is_digit(b.take(i)[k]));
            assert(b[k] == '.');
            assert(false);
        } else if k == i {
            // a dot here forces at least one kept fraction digit
            assert(b[i] == '.');
            assert(frac_eff(b).len() >= 1);
            assert(kept.take(i) =~= b.take(i));
            lemma_digits_take_step(kept, i);
            lemma_digits_prefix_le(kept, i + 1);
            assert(digits_num(kept) > DEC_MANTISSA_MAX);
        } else {
            // the next integer digit alone overflows the range
            assert(is_digit(b.take(k)[i]));
            assert(kept.take(i + 1) =~= b.take(i + 1));
            assert(kept.take(i + 1).take(i) =~= b.take(i));
            lemma_digits_take_step(kept, i);
            assert(kept.take(i) =~= b.take(i));
            lemma_digits_prefix_le(kept, i + 1);
            assert(digits_num(kept) > DEC_MANTISSA_MAX);
        }
    }
}

/// Once the held mantissa fills 28 digits and another fraction digit
/// must still be kept, the kept digits can no longer fit.
proof fn lemma_frac_overflow_none(b: Seq<char>, isplit: int, j: int, m: int)
    requires
        0 <= isplit < j < b.len(),
        all_digits(b.take(isplit)),
        b[isplit] == '.',
        all_digits(b.subrange(isplit + 1, j)),
        is_digit(b[j]),
        j - isplit - 1 < DEC_SCALE_MAX,
        m == digits_num(b.take(isplit) + b.subrange(isplit + 1, j)),
        m > (DEC_MANTISSA_MAX - 9) / 10,
    ensures
        !(valid_dec_body(b) && digits_num(kept_digits(b)) <= DEC_MANTISSA_MAX),
{
    if valid_dec_body(b) {
        let k = split_of(b);
        assert(body_split_ok(b, k));
        lemma_only_split_at_dot(b, isplit);
        assert(k == isplit);
        lemma_kept_digits_all(b);
        let kept = kept_digits(b);
        let fe = j - isplit - 1;
        let ln = isplit + fe;
        assert(frac_eff(b).len() >= fe + 1) by {
            assert(b.skip(isplit + 1).len() == b.len() - isplit - 1 >= fe + 1);
        }
        assert(kept.take(ln) =~= b.take(isplit) + b.subrange(isplit + 1, j)) by {
            assert forall|t: int| 0 <= t < ln implies (kept.take(ln)[t] == (b.take(isplit)
                + b.subrange(isplit + 1, j))[t]) by {
                if t >= isplit {
                    assert(kept[t] == frac_eff(b)[t - isplit]);
                    assert(frac_eff(b)[t - isplit] == b.skip(isplit + 1)[t - isplit]);
                    assert(b.subrange(isplit + 1, j)[t - isplit] == b[isplit + 1 + t - isplit]);
                }
            }
        }
        assert(kept[ln] == frac_eff(b)[fe]);
        assert(frac_eff(b)[fe] == b.skip(isplit + 1)[fe]);
        assert(b.skip(isplit + 1)[fe] == b[j]);
        lemma_digits_take_step(kept, ln);
        lemma_digits_prefix_le(kept, ln + 1);
        assert(digits_num(kept.take(ln + 1)) == m * 10 + digit_val(b[j]));
        assert(digits_num(kept) > DEC_MANTISSA_MAX);
    }
}

impl Dec {
    /// Parses a decimal string: an optional sign, integer digits, and
    /// optionally a dot with fraction digits, of which the first 28
    /// are kept. Fails where the grammar is broken or the digits
    /// exceed the representable range (see `parse_dec`).
    pub fn from_str(s: &str) -> (r: Result<Dec, Error>)
        ensures
            match parse_dec(s@) {
                Some(d) => r == Ok::<Dec, Error>(d),
                None => r == Err::<Dec, Error>(Error::InvalidDecimal),
            },
    {
        let n: usize = s.unicode_len();
        if n == 0 {
            proof {
                assert(forall|k: int| !body_split_ok(dec_str_body(s@), k));
            }
            return Err(Error::InvalidDecimal);
        }
        let c0: char = s.get_char(0);
        let neg: bool = c0 == '-';
        let start: usize = if c0 == '-' || c0 == '+' {
            1
        } else {
            0
        };
        if start == n {
            // just a sign
            proof {
                assert(dec_str_body(s@) =~= s@.skip(1));
                assert(forall|k: int| !body_split_ok(dec_str_body(s@), k));
            }
            return Err(Error::InvalidDecimal);
        }
        let body_s: &str = s.substring_char(start, n);
        let bn: usize = n - start;
        let ghost b = dec_str_body(s@);
        proof {
            if start == 1 {
                assert(b =~= s@.subrange(1, n as int));
            } else {
                assert(b =~= s@.subrange(0, n as int));
            }
            assert(body_s@ == b);
        }
        let lim: i128 = (DEC_MANTISSA_MAX - 9) / 10;
        let mut i: usize = 0;
        let mut m: i128 = 0;
        while i < bn && m <= lim && is_digit_exec(body_s.get_char(i))
            invariant
                0 <= i <= bn,
                bn == b.len(),
                body_s@ == b,
                all_digits(b.take(i as int)),
                m == digits_num(b.take(i as int)),
                0 <= m <= DEC_MANTISSA_MAX,
                lim == (DEC_MANTISSA_MAX - 9) / 10,
            decreases bn - i,
        {
            let c = body_s.get_char(i);
            let d = digit_of(c);
            proof {
                lemma_digits_take_step(b, i as int);
                assert forall|k: int| 0 <= k < i + 1 implies is_digit(
                    #[trigger] b.take(i as int + 1)[k],
                ) by {
                    if k < i {
                        assert(b.take(i as int)[k] == b[k]);
                    }
                }
            }
            m = m * 10 + (d as i128);
            i = i + 1;
        }
        if i == 0 {
            // the body starts with no digit at all
            proof {
                assert(!is_digit(b[0]));
                assert forall|k: int| !body_split_ok(b, k) by {
                    if body_split_ok(b, k) {
                        assert(is_digit(b.take(k)[0]));
                    }
                }
            }
            return Err(Error::InvalidDecimal);
        }
        if i < bn && m > lim {
            // 28 integer digits are already in hand and more follows:
            // whatever follows, the kept digits cannot fit.
            let ghost cnext = b[i as int];
            proof {
                lemma_overflow_none(b, i as int, m as int);
            }
            return Err(Error::InvalidDecimal);
        }
        if i == bn {
            let mf: i128 = if neg {
                -m
            } else {
                m
            };
            let r = norm(mf, 0);
            proof {
                assert(b.take(bn as int) =~= b);
                assert(body_split_ok(b, bn as int));
                assert(body_split_ok(b, split_of(b)));
                lemma_split_unique(b, split_of(b), bn as int);
                assert(kept_digits(b) =~= b);
            }
            return Ok(r);
        }
        let cdot = body_s.get_char(i);
        if cdot != '.' {
            proof {
                lemma_no_split(b, i as int);
            }
            return Err(Error::InvalidDecimal);
        }
        let isplit: usize = i;
        let fs: usize = i + 1;
        if fs == bn {
            // a dot with nothing after it
            proof {
                lemma_only_split_at_dot(b, isplit as int);
                assert(!body_split_ok(b, isplit as int));
            }
            return Err(Error::InvalidDecimal);
        }
        let mut j: usize = fs;
        let mut fe: u32 = 0;
        while j < bn && fe < DEC_SCALE_MAX && m <= lim && is_digit_exec(body_s.get_char(j))
            invariant
                fs <= j <= bn,
                fs == isplit + 1,
                isplit < bn,
                1 <= isplit,
                bn == b.len(),
                body_s@ == b,
                fe == j - fs,
                fe <= DEC_SCALE_MAX,
                all_digits(b.take(isplit as int)),
                b[isplit as int] == '.',
                all_digits(b.subrange(fs as int, j as int)),
                m == digits_num(b.take(isplit as int) + b.subrange(fs as int, j as int)),
                0 <= m <= DEC_MANTISSA_MAX,
                lim == (DEC_MANTISSA_MAX - 9) / 10,
            decreases bn - j,
        {
            let c = body_s.get_char(j);
            let d = digit_of(c);
            proof {
                let t1 = b.take(isplit as int) + b.subrange(fs as int, j as int);
                let t2 = b.take(isplit as int) + b.subrange(fs as int, j as int + 1);
                assert(t2.drop_last() =~= t1);
                assert(t2.last() == b[j as int]);
                assert forall|k: int| 0 <= k < j + 1 - fs implies is_digit(
                    #[trigger] b.subrange(fs as int, j as int + 1)[k],
                ) by {
                    if k < j - fs {
                        assert(b.subrange(fs as int, j as int)[k] == b[fs + k]);
                    }
                }
            }
            m = m * 10 + (d as i128);
            fe = fe + 1;
            j = j + 1;
        }
        if j < bn {
            let cj = body_s.get_char(j);
            if !is_digit_exec(cj) {
                // a stray character among the fraction digits
                proof {
                    lemma_only_split_at_dot(b, isplit as int);
                    assert(b.skip(isplit as int + 1)[j - isplit - 1] == b[j as int]);
                    assert(!body_split_ok(b, isplit as int));
                }
                return Err(Error::InvalidDecimal);
            }
            if fe < DEC_SCALE_MAX {
                // more digits must be kept, but they cannot fit
                proof {
                    lemma_frac_overflow_none(b, isplit as int, j as int, m as int);
                }
                return Err(Error::InvalidDecimal);
            }
            // beyond the kept scale: the rest only needs to be digits
            while j < bn && is_digit_exec(body_s.get_char(j))
                invariant
                    fs <= j <= bn,
                    fs == isplit + 1,
                    isplit < bn,
                    bn == b.len(),
                    body_s@ == b,
                    all_digits(b.take(isplit as int)),
                    b[isplit as int] == '.',
                    all_digits(b.subrange(fs as int, j as int)),
                decreases bn - j,
            {
                proof {
                    assert forall|k: int| 0 <= k < j + 1 - fs implies is_digit(
                        #[trigger] b.subrange(fs as int, j as int + 1)[k],
                    ) by {
                        if k < j - fs {
                            assert(b.subrange(fs as int, j as int)[k] == b[fs + k]);
                        }
                    }
                }
                j = j + 1;
            }
            if j < bn {
                proof {
                    lemma_only_split_at_dot(b, isplit as int);
                    assert(b.skip(isplit as int + 1)[j - isplit - 1] == b[j as int]);
                    assert(!body_split_ok(b, isplit as int));
                }
                return Err(Error::InvalidDecimal);
            }
        }
        // the whole fraction was scanned; `fe` digits of it are kept
        let mf: i128 = if neg {
            -m
        } else {
            m
        };
        let r = norm(mf, fe);
        proof {
            assert forall|k: int| 0 <= k < bn - fs implies is_digit(
                #[trigger] b.skip(fs as int)[k],
            ) by {
                assert(b.subrange(fs as int, bn as int)[k] == b[fs + k]);
            }
            assert(body_split_ok(b, isplit as int));
            assert(body_split_ok(b, split_of(b)));
            lemma_split_unique(b, split_of(b), isplit as int);
            let f = b.skip(isplit as int + 1);
            if f.len() <= DEC_SCALE_MAX {
                assert(frac_eff(b) =~= b.subrange(fs as int, bn as int));
                assert(fe == f.len());
            } else {
                assert(frac_eff(b) =~= b.subrange(fs as int, fs as int + DEC_SCALE_MAX as int));
                assert(fe == DEC_SCALE_MAX);
            }
            assert(kept_digits(b) =~= b.take(isplit as int) + b.subrange(
                fs as int,
                fs as int + fe as int,
            ));
        }
        Ok(r)
    }

    /// A decimal from a mantissa and a scale, as `num / 10^scale`.
    pub fn new(num: i64, scale: u32) -> (r: Dec)
        requires
            scale <= DEC_SCALE_MAX,
        ensures
            r.wf(),
            r.val28() == num * pow10((DEC_SCALE_MAX - scale) as nat),
            r == norm_spec(num as int, scale as nat),
    {
        norm(num as i128, scale)
    }

    /// A whole decimal from an unsigned count.
    pub fn from_u64(num: u64) -> (r: Dec)
        ensures
            r.wf(),
            r.val28() == num * pow10(DEC_SCALE_MAX as nat),
            r == norm_spec(num as int, 0),
    {
        norm(num as i128, 0)
    }

    /// The zero value.
    pub fn zero() -> (r: Dec)
        ensures
            r == Dec::zero_spec(),
            r.wf(),
            r.val28() == 0,
    {
        Dec { m: 0, e: 0 }
    }

    /// What `saturating_add` returns, in full: the lower-scale addend
    /// is raised as far as the range allows, the other is lowered to
    /// meet it, the mantissas are summed, and an out-of-range sum
    /// sheds one digit or caps at the range's edge.
    pub open spec fn add_spec(self, other: Dec) -> Dec {
        let hm0 = if self.e >= other.e {
            self.m as int
        } else {
            other.m as int
        };
        let he = if self.e >= other.e {
            self.e as nat
        } else {
            other.e as nat
        };
        let lm0 = if self.e >= other.e {
            other.m as int
        } else {
            self.m as int
        };
        let le0 = if self.e >= other.e {
            other.e as nat
        } else {
            self.e as nat
        };
        let (lm, le) = raise_mant(lm0, le0, he);
        let hm = lower_mant(hm0, he, le);
        let s = hm + lm;
        if s > DEC_MANTISSA_MAX {
            if le > 0 {
                norm_spec(div10_spec(s), (le - 1) as nat)
            } else {
                norm_spec(DEC_MANTISSA_MAX as int, 0)
            }
        } else if s < -DEC_MANTISSA_MAX {
            if le > 0 {
                norm_spec(div10_spec(s), (le - 1) as nat)
            } else {
                norm_spec(-DEC_MANTISSA_MAX as int, 0)
            }
        } else {
            norm_spec(s, le)
        }
    }

    /// The two addends can be brought to one scale and summed without
    /// leaving the representable range; on such inputs addition is exact.
    pub open spec fn add_exact_ok(self, other: Dec) -> bool {
        let hi = if self.e >= other.e {
            self
        } else {
            other
        };
        let lo = if self.e >= other.e {
            other
        } else {
            self
        };
        let d = (hi.e - lo.e) as nat;
        &&& -DEC_MANTISSA_MAX <= lo.m * pow10(d) <= DEC_MANTISSA_MAX
        &&& -DEC_MANTISSA_MAX <= hi.m + lo.m * pow10(d) <= DEC_MANTISSA_MAX
    }

    /// Adds two decimals without ever panicking: where the exact sum
    /// leaves the representable range, precision is shed one digit at
    /// a time and the result finally caps at the range's edge.
    pub fn saturating_add(self, other: Dec) -> (r: Dec)
        requires
            self.wf(),
            other.wf(),
        ensures
            r == self.add_spec(other),
            r.wf(),
            self.add_exact_ok(other) ==> r.val28() == self.val28() + other.val28(),
    {
        let ghost hi = if self.e >= other.e { self } else { other };
        let ghost lo = if self.e >= other.e { other } else { self };
        let (hm, he, lm0, le0): (i128, u32, i128, u32) = if self.e >= other.e {
            (self.m, self.e, other.m, other.e)
        } else {
            (other.m, other.e, self.m, self.e)
        };
        let cap10: i128 = DEC_MANTISSA_MAX / 10;
        let mut lm: i128 = lm0;
        let mut le: u32 = le0;
        while le < he && -cap10 <= lm && lm <= cap10
            invariant
                le0 <= le <= he <= DEC_SCALE_MAX,
                -DEC_MANTISSA_MAX <= lm <= DEC_MANTISSA_MAX,
                lm == lm0 * pow10((le - le0) as nat),
                cap10 == DEC_MANTISSA_MAX / 10,
                raise_mant(lm as int, le as nat, he as nat) == raise_mant(
                    lm0 as int,
                    le0 as nat,
                    he as nat,
                ),
            decreases he - le,
        {
            proof {
                let j = (le - le0) as nat;
                lemma_pow10_add(j, 1);
                assert(lm0 * (pow10(j) * 10) == (lm0 * pow10(j)) * 10) by (nonlinear_arith);
            }
            lm = lm * 10;
            le = le + 1;
        }
        proof {
            if le < he {
                // Raising got stuck: the fully raised mantissa cannot fit,
                // so the exact case is off the table.
                let j = (le - le0) as nat;
                let rest = (he - le) as nat;
                let d = (he - le0) as nat;
                lemma_pow10_add(j, rest);
                assert(lm0 * pow10(d) == (lm0 * pow10(j)) * pow10(rest)) by (nonlinear_arith)
                    requires
                        pow10(d) == pow10(j) * pow10(rest),
                ;
                lemma_pow10_add(1, (rest - 1) as nat);
                lemma_pow10_pos((rest - 1) as nat);
                assert(pow10(rest) >= 10);
                assert(lm * pow10(rest) > DEC_MANTISSA_MAX || lm * pow10(rest) < -DEC_MANTISSA_MAX)
                    by (nonlinear_arith)
                    requires
                        lm > DEC_MANTISSA_MAX / 10 || lm < -(DEC_MANTISSA_MAX / 10),
                        pow10(rest) >= 10,
                        DEC_MANTISSA_MAX == 9999999999999999999999999999i128,
                ;
                assert(!self.add_exact_ok(other));
            }
        }
        let mut hm2: i128 = hm;
        let mut he2: u32 = he;
        while he2 > le
            invariant
                le <= he2 <= he,
                -DEC_MANTISSA_MAX <= hm2 <= DEC_MANTISSA_MAX,
                le == he ==> he2 == he && hm2 == hm,
                lower_mant(hm2 as int, he2 as nat, le as nat) == lower_mant(
                    hm as int,
                    he as nat,
                    le as nat,
                ),
            decreases he2 - le,
        {
            hm2 = div10(hm2);
            he2 = he2 - 1;
        }
        let s: i128 = hm2 + lm;
        proof {
            if self.add_exact_ok(other) {
                assert(le == he && he2 == he && hm2 == hm);
                let d = (he - le0) as nat;
                assert(lm == lm0 * pow10(d));
                assert(-DEC_MANTISSA_MAX <= s <= DEC_MANTISSA_MAX);
            }
        }
        let (rm, re): (i128, u32) = if s > DEC_MANTISSA_MAX || s < -DEC_MANTISSA_MAX {
            if le > 0 {
                (div10(s), le - 1)
            } else {
                if s > 0 {
                    (DEC_MANTISSA_MAX, 0)
                } else {
                    (-DEC_MANTISSA_MAX, 0)
                }
            }
        } else {
            (s, le)
        };
        let r = norm(rm, re);
        proof {
            if self.add_exact_ok(other) {
                // r.val28 == (hi.m + lo.m * 10^d) * 10^(28 - he)
                //         == hi.val28 + lo.val28
                let d = (he - le0) as nat;
                let k = (DEC_SCALE_MAX - he) as nat;
                lemma_pow10_add(d, k);
                assert((hm + lm) * pow10(k) == hm * pow10(k) + (lm0 * pow10(d)) * pow10(k))
                    by (nonlinear_arith)
                    requires
                        lm == lm0 * pow10(d),
                ;
                assert((lm0 * pow10(d)) * pow10(k) == lm0 * pow10(d + k)) by (nonlinear_arith)
                    requires
                        pow10(d + k) == pow10(d) * pow10(k),
                ;
                assert(hi.val28() == hm * pow10(k));
                assert(lo.val28() == lm0 * pow10(d + k));
                assert(hi.val28() + lo.val28() == self.val28() + other.val28());
            }
            assert(raise_mant(lm0 as int, le0 as nat, he as nat) == (lm as int, le as nat));
            assert(lower_mant(hm as int, he as nat, le as nat) == hm2 as int);
            assert(r == self.add_spec(other));
        }
        r
    }

    /// Divides by a positive whole count, truncating toward zero at
    /// the finest scale the representation can hold: the quotient's
    /// mantissa is `scale_up(m, e).0 / d` at scale `scale_up(m, e).1`.
    pub fn checked_div_int(self, d: i64) -> (r: Dec)
        requires
            self.wf(),
            d > 0,
        ensures
            r.wf(),
            r == div_int_spec(self, d as int),
            self.m == 0 ==> r == Dec::zero_spec(),
    {
        let lim: i128 = DEC_MANTISSA_MAX / 10;
        let mut m: i128 = self.m;
        let mut e: u32 = self.e;
        while e < DEC_SCALE_MAX && -lim <= m && m <= lim
            invariant
                -DEC_MANTISSA_MAX <= m <= DEC_MANTISSA_MAX,
                e <= DEC_SCALE_MAX,
                lim == DEC_MANTISSA_MAX / 10,
                scale_up(m as int, e as nat) == scale_up(self.m as int, self.e as nat),
                self.m == 0 ==> m == 0,
            decreases DEC_SCALE_MAX - e,
        {
            m = m * 10;
            e = e + 1;
        }
        let q: i128 = if m >= 0 {
            m / (d as i128)
        } else {
            -((-m) / (d as i128))
        };
        proof {
            if m >= 0 {
                vstd::arithmetic::div_mod::lemma_div_nonincreasing(m as int, d as int);
                vstd::arithmetic::div_mod::lemma_div_pos_is_pos(m as int, d as int);
            } else {
                vstd::arithmetic::div_mod::lemma_div_nonincreasing(-m as int, d as int);
                vstd::arithmetic::div_mod::lemma_div_pos_is_pos(-m as int, d as int);
            }
            if self.m == 0 {
                lemma_norm_spec_zero(e as nat);
            }
        }
        norm(q, e)
    }

    /// True exactly where this value is below the other.
    pub fn lt(&self, other: &Dec) -> (r: bool)
        requires
            self.wf(),
            other.wf(),
        ensures
            r == (self.val28() < other.val28()),
    {
        proof {
            lemma_pow10_pos((DEC_SCALE_MAX - self.e) as nat);
            lemma_pow10_pos((DEC_SCALE_MAX - other.e) as nat);
            let pa = pow10((DEC_SCALE_MAX - self.e) as nat);
            let pb = pow10((DEC_SCALE_MAX - other.e) as nat);
            assert(self.m >= 0 ==> self.m * pa >= 0) by (nonlinear_arith)
                requires
                    pa >= 1,
            ;
            assert(self.m < 0 ==> self.m * pa < 0) by (nonlinear_arith)
                requires
                    pa >= 1,
            ;
            assert(other.m >= 0 ==> other.m * pb >= 0) by (nonlinear_arith)
                requires
                    pb >= 1,
            ;
            assert(other.m < 0 ==> other.m * pb < 0) by (nonlinear_arith)
                requires
                    pb >= 1,
            ;
            assert((-self.m) * pa == -(self.m * pa)) by (nonlinear_arith);
            assert((-other.m) * pb == -(other.m * pb)) by (nonlinear_arith);
        }
        if self.m >= 0 && other.m < 0 {
            false
        } else if self.m < 0 && other.m >= 0 {
            true
        } else if self.m >= 0 {
            lt_mag(self.m, self.e, other.m, other.e)
        } else {
            lt_mag(-other.m, other.e, -self.m, self.e)
        }
    }

    /// The larger of the two values.
    pub fn max_dec(self, other: Dec) -> (r: Dec)
        requires
            self.wf(),
            other.wf(),
        ensures
            r.wf(),
            r == if self.val28() < other.val28() {
                other
            } else {
                self
            },
    {
        if self.lt(&other) {
            other
        } else {
            self
        }
    }

    /// The smaller of the two values.
    pub fn min_dec(self, other: Dec) -> (r: Dec)
        requires
            self.wf(),
            other.wf(),
        ensures
            r.wf(),
            r == if other.val28() < self.val28() {
                other
            } else {
                self
            },
    {
        if other.lt(&self) {
            other
        } else {
            self
        }
    }

    /// True exactly on the zero value.
    pub fn is_zero(&self) -> (r: bool)
        requires
            self.wf(),
        ensures
            r == (self.val28() == 0),
    {
        proof {
            lemma_pow10_pos((DEC_SCALE_MAX - self.e) as nat);
            let p = pow10((DEC_SCALE_MAX - self.e) as nat);
            assert((self.m * p == 0) == (self.m == 0)) by (nonlinear_arith)
                requires
                    p >= 1,
            ;
        }
        self.m == 0
    }
}

} // verus!
