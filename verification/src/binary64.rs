//! Exact integer model of binary64 (IEEE double precision) rounding.
//!
//! The duration grammar scales a term's fractional digits by
//! `unit / 10^k` in binary64 arithmetic, so the parser must reproduce
//! binary64 results bit for bit.  A positive binary64 value is modelled as a
//! mantissa `m` with `2^52 <= m < 2^53` and an exponent `e`, standing for
//! the rational `m * 2^e`.  Rounding is to nearest, ties to even.  The model
//! keeps an unbounded exponent range; the one overflow that matters — the
//! power-of-ten scale growing past the largest finite binary64 — is modelled
//! explicitly, and values small enough to be subnormal only ever feed a
//! truncation that yields zero either way.

use vstd::prelude::*;
use vstd::arithmetic::power2::{
    pow2, lemma_pow2_adds, lemma_pow2_pos, lemma_pow2_strictly_increases, lemma2_to64, lemma2_to64_rest,
};
use vstd::arithmetic::div_mod::{lemma_div_is_ordered, lemma_div_multiples_vanish};
use vstd::arithmetic::mul::{
    lemma_mul_inequality, lemma_mul_left_inequality, lemma_mul_strict_upper_bound,
};

verus! {

/// Double the numerator (and lower the exponent) until `num / den`
/// reaches `2^52`.
pub open spec fn shift_up(num: nat, den: nat, e: int) -> (nat, int)
    decreases den * 0x20_0000_0000_0000 - num,
        when 1 <= num && 1 <= den
{
    if num >= den * 0x10_0000_0000_0000 {
        (num, e)
    } else {
        shift_up(num * 2, den, e - 1)
    }
}

/// Double the denominator (and raise the exponent) until `num / den`
/// drops below `2^53`.
pub open spec fn shift_down(num: nat, den: nat, e: int) -> (nat, int)
    decreases num - den,
        when 1 <= den && num >= den
{
    if num >= den * 0x20_0000_0000_0000 {
        shift_down(num, den * 2, e + 1)
    } else {
        (den, e)
    }
}

/// Round the quotient `q` with remainder `r` over `den` to the nearest
/// integer, ties to even.
pub open spec fn round_half_even(q: nat, r: nat, den: nat) -> nat {
    if 2 * r > den || (2 * r == den && q % 2 == 1) {
        q + 1
    } else {
        q
    }
}

/// The binary64 rounding of the positive rational `u / s`, as a
/// mantissa/exponent pair with the mantissa in `[2^52, 2^53)`.
pub open spec fn spec_div64(u: nat, s: nat) -> (nat, int) {
    let (num, e1) = shift_up(u, s, 0);
    let (den, e2) = shift_down(num, s, e1);
    let m = round_half_even(num / den, num % den, den);
    if m == 0x20_0000_0000_0000 {
        (0x10_0000_0000_0000 as nat, e2 + 1)
    } else {
        (m, e2)
    }
}

/// The binary64 value of the positive integer `n` (an `as f64` conversion).
pub open spec fn spec_int64(n: nat) -> (nat, int) {
    spec_div64(n, 1)
}

/// The binary64 product of two values given as mantissa/exponent pairs.
pub open spec fn spec_mul64(mx: nat, ex: int, my: nat, ey: int) -> (nat, int) {
    let (m, e) = spec_div64(mx * my, 1);
    (m, ex + ey + e)
}

/// Truncation of `m * 2^e` toward zero into an unsigned 64-bit integer,
/// saturating at `u64::MAX` (an `as u64` cast of a positive binary64 value).
pub open spec fn spec_trunc_sat(m: nat, e: int) -> nat
    recommends
        0x10_0000_0000_0000 <= m < 0x20_0000_0000_0000,
{
    if e >= 12 {
        u64::MAX as nat
    } else if e >= 0 {
        m * pow2(e as nat)
    } else if e <= -64 {
        0
    } else {
        m / pow2((-e) as nat)
    }
}

/// The binary64 mantissa/exponent of ten: `10 == 5629499534213120 * 2^-49`.
pub const TEN_MANT: u64 = 5629499534213120;

/// Exponent that pairs with `TEN_MANT`.
pub const TEN_EXP: i64 = -49;

/// The value of the running scale after `k` multiplications of `1.0` by
/// ten in binary64; `None` once the scale has overflowed to infinity.
pub open spec fn spec_scale(k: nat) -> Option<(nat, int)>
    decreases k,
{
    if k == 0 {
        Some((0x10_0000_0000_0000 as nat, -52int))
    } else {
        match spec_scale((k - 1) as nat) {
            None => None,
            Some((m, e)) => {
                let (m2, e2) = spec_mul64(m, e, TEN_MANT as nat, TEN_EXP as int);
                if e2 >= 972 {
                    None
                } else {
                    Some((m2, e2))
                }
            },
        }
    }
}

/// Nanoseconds contributed by fractional digits with value `f` and count
/// `k` under a unit of `unit` nanoseconds: the truncation of
/// `f64(f) * (f64(unit) / scale(k))`.
pub open spec fn spec_frac_ns(f: nat, unit: nat, k: nat) -> nat
    recommends
        1 <= f,
        1 <= unit,
{
    match spec_scale(k) {
        None => 0,
        Some((ms, es)) => {
            let (mx, ex) = spec_int64(f);
            let (mq, eq) = spec_div64(unit, ms);
            let (mp, ep) = spec_mul64(mx, ex, mq, eq - es);
            spec_trunc_sat(mp, ep)
        },
    }
}

/// `shift_up` multiplies the numerator by a power of two and stops in
/// `[den * 2^52, den * 2^53)` unless it never ran.
pub proof fn lemma_shift_up(num: nat, den: nat, e: int)
    requires
        1 <= num,
        1 <= den,
    ensures
        ({
            let (n2, e2) = shift_up(num, den, e);
            &&& e2 <= e
            &&& n2 == num * pow2((e - e2) as nat)
            &&& n2 >= den * 0x10_0000_0000_0000
            &&& (e2 == e || n2 < den * 0x20_0000_0000_0000)
        }),
    decreases den * 0x20_0000_0000_0000 - num,
{
    if num >= den * 0x10_0000_0000_0000 {
        assert(num * pow2(0) == num) by {
            lemma2_to64();
            lemma2_to64_rest();
        }
    } else {
        lemma_shift_up(num * 2, den, e - 1);
        let (n2, e2) = shift_up(num * 2, den, e - 1);
        assert(shift_up(num, den, e) == (n2, e2));
        lemma2_to64();
        lemma2_to64_rest();
        assert(e2 <= e - 1);
        assert(n2 == num * 2 * pow2((e - 1 - e2) as nat));
        assert(n2 == num * pow2((e - e2) as nat)) by {
            lemma_pow2_adds(1, (e - 1 - e2) as nat);
            assert(pow2(1) == 2);
            assert((e - e2) as nat == 1 + (e - 1 - e2) as nat);
            assert(num * 2 * pow2((e - 1 - e2) as nat) == num * (2 * pow2((e - 1 - e2) as nat)))
                by (nonlinear_arith);
        }
        if e2 == e - 1 {
            assert(pow2(0) == 1);
            assert(n2 == num * 2);
            assert(num * 2 < den * 0x10_0000_0000_0000 * 2) by (nonlinear_arith)
                requires
                    num < den * 0x10_0000_0000_0000,
            ;
            assert(den * 0x10_0000_0000_0000 * 2 == den * 0x20_0000_0000_0000)
                by (nonlinear_arith);
        }
    }
}

/// `shift_down` multiplies the denominator by a power of two and stops
/// with the quotient in `[2^52, 2^53)`.
pub proof fn lemma_shift_down(num: nat, den: nat, e: int)
    requires
        1 <= den,
        num >= den * 0x10_0000_0000_0000,
    ensures
        ({
            let (d2, e2) = shift_down(num, den, e);
            &&& e2 >= e
            &&& d2 == den * pow2((e2 - e) as nat)
            &&& d2 * 0x10_0000_0000_0000 <= num
            &&& num < d2 * 0x20_0000_0000_0000
        }),
    decreases num - den,
{
    assert(num >= den) by (nonlinear_arith)
        requires
            num >= den * 0x10_0000_0000_0000,
            den >= 1,
    ;
    if num >= den * 0x20_0000_0000_0000 {
        assert(den * 2 * 0x10_0000_0000_0000 == den * 0x20_0000_0000_0000) by (nonlinear_arith);
        lemma_shift_down(num, den * 2, e + 1);
        let (d2, e2) = shift_down(num, den * 2, e + 1);
        assert(shift_down(num, den, e) == (d2, e2));
        assert(d2 == den * pow2((e2 - e) as nat)) by {
            lemma_pow2_adds(1, (e2 - e - 1) as nat);
            lemma2_to64();
            lemma2_to64_rest();
            assert(den * 2 * pow2((e2 - e - 1) as nat) == den * (2 * pow2((e2 - e - 1) as nat)))
                by (nonlinear_arith);
        }
    } else {
        assert(den * pow2(0) == den) by {
            lemma2_to64();
            lemma2_to64_rest();
        }
    }
}

/// The mantissa returned by `spec_div64` is normalized.
pub proof fn lemma_div64_mantissa(u: nat, s: nat)
    requires
        1 <= u,
        1 <= s,
    ensures
        0x10_0000_0000_0000 <= spec_div64(u, s).0 < 0x20_0000_0000_0000,
{
    lemma_shift_up(u, s, 0);
    let (num, e1) = shift_up(u, s, 0);
    lemma_shift_down(num, s, e1);
    let (den, e2) = shift_down(num, s, e1);
    lemma_pow2_pos((e2 - e1) as nat);
    assert(den >= 1) by (nonlinear_arith)
        requires
            den == s * pow2((e2 - e1) as nat),
            s >= 1,
            pow2((e2 - e1) as nat) >= 1,
    ;
    lemma_quotient_bounds(num, den);
}

/// `2^a <= 2^b` implies `a <= b`.
proof fn lemma_pow2_le_converse(a: nat, b: nat)
    requires
        pow2(a) <= pow2(b),
    ensures
        a <= b,
{
    if a > b {
        lemma_pow2_strictly_increases(b, a);
    }
}

/// Once the scale has overflowed, it stays overflowed.
pub proof fn lemma_scale_none(j: nat, k: nat)
    requires
        j <= k,
        spec_scale(j) is None,
    ensures
        spec_scale(k) is None,
    decreases k - j,
{
    if j < k {
        lemma_scale_none(j, (k - 1) as nat);
    }
}

/// Bounds on `num / den` when `num` lies in `[den * 2^52, den * 2^53)`.
proof fn lemma_quotient_bounds(num: nat, den: nat)
    requires
        1 <= den,
        den * 0x10_0000_0000_0000 <= num,
        num < den * 0x20_0000_0000_0000,
    ensures
        0x10_0000_0000_0000 <= num / den < 0x20_0000_0000_0000,
{
    assert((den * 0x10_0000_0000_0000) / den == 0x10_0000_0000_0000) by {
        lemma_div_multiples_vanish(0x10_0000_0000_0000, den as int);
    }
    lemma_div_is_ordered((den * 0x10_0000_0000_0000) as int, num as int, den as int);
    assert(num / den < 0x20_0000_0000_0000) by (nonlinear_arith)
        requires
            1 <= den,
            num < den * 0x20_0000_0000_0000,
            num >= 0,
    ;
}

/// If `den * factor` stays below `cap` while `bound * factor` reaches it,
/// then `den` is below `bound`.
proof fn lemma_factor_cap(den: nat, factor: nat, cap: nat, bound: nat)
    requires
        1 <= factor,
        den * factor < cap,
        bound * factor >= cap,
    ensures
        den < bound,
{
    if den >= bound {
        lemma_mul_inequality(bound as int, den as int, factor as int);
    }
}

/// `spec_div64` of an integer in `[2^104, 2^106)` has exponent 52 to 54.
proof fn lemma_div64_int_e_range(p: nat)
    requires
        0x100_0000_0000_0000_0000_0000_0000 <= p,
        p < 0x400_0000_0000_0000_0000_0000_0000,
    ensures
        52 <= spec_div64(p, 1).1 <= 54,
{
    lemma2_to64();
    lemma2_to64_rest();
    assert(shift_up(p, 1, 0) == (p, 0int));
    lemma_shift_down(p, 1, 0);
    let (den, e2) = shift_down(p, 1, 0);
    assert(den == pow2(e2 as nat)) by {
        assert(1 * pow2((e2 - 0) as nat) == pow2(e2 as nat));
    }
    assert(pow2((e2 + 52) as nat) == den * 0x10_0000_0000_0000) by {
        lemma_pow2_adds(e2 as nat, 52);
        assert(pow2(52) == 0x10_0000_0000_0000);
    }
    assert(pow2((e2 + 53) as nat) == den * 0x20_0000_0000_0000) by {
        lemma_pow2_adds(e2 as nat, 53);
        assert(pow2(53) == 0x20_0000_0000_0000);
    }
    assert(pow2(106) == 0x400_0000_0000_0000_0000_0000_0000) by {
        lemma_pow2_adds(53, 53);
    }
    assert(pow2(105) == 0x200_0000_0000_0000_0000_0000_0000) by {
        lemma_pow2_adds(53, 52);
    }
    assert(e2 <= 53) by {
        assert(pow2((e2 + 52) as nat) < pow2(106));
        lemma_pow2_le_converse((e2 + 52) as nat, 106);
        assert(e2 + 52 != 106);
    }
    assert(e2 >= 52) by {
        assert(pow2(104) == 0x100_0000_0000_0000_0000_0000_0000) by {
            lemma_pow2_adds(52, 52);
        }
        assert(pow2(104) < pow2((e2 + 53) as nat));
        lemma_pow2_le_converse(104, (e2 + 53) as nat);
        assert(e2 + 53 != 104);
    }
}

/// Rounding is exact on ratios that a 53-bit mantissa can represent: if
/// `u / s` equals `v * 2^(b - a)` with `v` normalized, the result is
/// exactly that pair.
pub proof fn lemma_div64_exact(u: nat, s: nat, v: nat, a: nat, b: nat)
    requires
        1 <= u,
        1 <= s,
        0x10_0000_0000_0000 <= v < 0x20_0000_0000_0000,
        u * pow2(a) == s * v * pow2(b),
    ensures
        spec_div64(u, s) == (v, b - a),
{
    lemma2_to64();
    lemma2_to64_rest();
    lemma_shift_up(u, s, 0);
    let (num, e1) = shift_up(u, s, 0);
    lemma_shift_down(num, s, e1);
    let (den, e2) = shift_down(num, s, e1);
    let al = (0 - e1) as nat;
    let be = (e2 - e1) as nat;
    assert(num == u * pow2(al));
    assert(den == s * pow2(be));
    let x = a + be;
    let y = b + al;
    assert(num * pow2(x) == den * v * pow2(y)) by {
        lemma_pow2_adds(al, x);
        lemma_pow2_adds(be, y);
        assert((u * pow2(al)) * pow2(x) == u * (pow2(al) * pow2(x))) by (nonlinear_arith);
        assert(u * pow2(al + x) == (u * pow2(a)) * pow2(al + be)) by {
            lemma_pow2_adds(a, al + be);
            assert(u * (pow2(a) * pow2(al + be)) == (u * pow2(a)) * pow2(al + be))
                by (nonlinear_arith);
        }
        assert((s * pow2(be)) * v * pow2(y) == (s * v * pow2(b)) * pow2(al + be)) by {
            lemma_pow2_adds(b, al + be);
            lemma_pow2_adds(be, b + al);
            assert(s * pow2(be) * v * pow2(b + al) == (s * v) * (pow2(be) * pow2(b + al)))
                by (nonlinear_arith);
            assert((s * v * pow2(b)) * pow2(al + be) == (s * v) * (pow2(b) * pow2(al + be)))
                by (nonlinear_arith);
        }
    }
    if x > y {
        lemma_pow2_adds((x - y) as nat, y);
        assert(num * pow2((x - y) as nat) * pow2(y) == num * pow2(x)) by (nonlinear_arith)
            requires
                pow2((x - y) as nat) * pow2(y) == pow2(x),
        ;
        assert(num * pow2((x - y) as nat) == den * v) by {
            lemma_pow2_pos(y);
            assert((num * pow2((x - y) as nat)) * pow2(y) == pow2(y) * (num * pow2(
                (x - y) as nat,
            ))) by (nonlinear_arith);
            assert((den * v * pow2(y)) == pow2(y) * (den * v)) by (nonlinear_arith);
            assert(pow2(y) * (num * pow2((x - y) as nat)) == pow2(y) * (den * v));
            vstd::arithmetic::mul::lemma_mul_equality_converse(
                pow2(y) as int,
                (num * pow2((x - y) as nat)) as int,
                (den * v) as int,
            );
        }
        assert(pow2((x - y) as nat) >= 2) by {
            lemma_pow2_strictly_increases(0, (x - y) as nat);
        }
        assert(num * 2 <= den * v) by {
            lemma_mul_left_inequality(num as int, 2, pow2((x - y) as nat) as int);
        }
        assert(den * v < den * 0x20_0000_0000_0000) by {
            lemma_mul_left_inequality(den as int, v as int, 0x20_0000_0000_0000);
            assert(den >= 1);
        }
        assert(num * 2 < den * 0x20_0000_0000_0000);
        assert(den * 0x10_0000_0000_0000 * 2 == den * 0x20_0000_0000_0000) by (nonlinear_arith);
        assert(num < den * 0x10_0000_0000_0000) by (nonlinear_arith)
            requires
                num * 2 < den * 0x10_0000_0000_0000 * 2,
        ;
        assert(false);
    }
    if y > x {
        lemma_pow2_adds((y - x) as nat, x);
        assert(den * v * pow2((y - x) as nat) * pow2(x) == den * v * pow2(y)) by (nonlinear_arith)
            requires
                pow2((y - x) as nat) * pow2(x) == pow2(y),
        ;
        assert(num == den * v * pow2((y - x) as nat)) by {
            lemma_pow2_pos(x);
            assert(num * pow2(x) == pow2(x) * num) by (nonlinear_arith);
            assert(den * v * pow2((y - x) as nat) * pow2(x) == pow2(x) * (den * v * pow2(
                (y - x) as nat,
            ))) by (nonlinear_arith);
            assert(pow2(x) * num == pow2(x) * (den * v * pow2((y - x) as nat)));
            vstd::arithmetic::mul::lemma_mul_equality_converse(
                pow2(x) as int,
                num as int,
                (den * v * pow2((y - x) as nat)) as int,
            );
        }
        assert(pow2((y - x) as nat) >= 2) by {
            lemma_pow2_strictly_increases(0, (y - x) as nat);
        }
        assert(num >= den * 0x20_0000_0000_0000) by (nonlinear_arith)
            requires
                num == den * v * pow2((y - x) as nat),
                v >= 0x10_0000_0000_0000,
                pow2((y - x) as nat) >= 2,
                den >= 1,
        ;
        assert(false);
    }
    assert(x == y);
    assert(num == den * v) by {
        lemma_pow2_pos(x);
        assert(num * pow2(x) == pow2(x) * num) by (nonlinear_arith);
        assert(den * v * pow2(x) == pow2(x) * (den * v)) by (nonlinear_arith);
        assert(pow2(x) * num == pow2(x) * (den * v));
        vstd::arithmetic::mul::lemma_mul_equality_converse(
            pow2(x) as int,
            num as int,
            (den * v) as int,
        );
    }
    assert(e2 == b - a) by {
        assert(a + be == b + al);
    }
    assert(num / den == v && num % den == 0) by {
        lemma_div_multiples_vanish(v as int, den as int);
        vstd::arithmetic::div_mod::lemma_mod_multiples_basic(v as int, den as int);
        assert(den * v == v * den) by (nonlinear_arith);
    }
    assert(round_half_even(v, 0, den) == v);
    assert(v != 0x20_0000_0000_0000);
}

/// The normalization of a positive integer below `2^53`: `shift_up`
/// doubles it into `[2^52, 2^53)`, and converting it to binary64 yields
/// exactly that pair.
pub proof fn lemma_int64_exact(w: nat)
    requires
        1 <= w < 0x20_0000_0000_0000,
    ensures
        ({
            let (m, e) = shift_up(w, 1, 0);
            &&& spec_int64(w) == (m, e)
            &&& e <= 0
            &&& m == w * pow2((0 - e) as nat)
            &&& 0x10_0000_0000_0000 <= m < 0x20_0000_0000_0000
        }),
{
    lemma2_to64();
    lemma2_to64_rest();
    lemma_shift_up(w, 1, 0);
    let (m, e) = shift_up(w, 1, 0);
    assert(m < 0x20_0000_0000_0000) by {
        if e == 0 {
            assert(m == w * pow2(0));
        }
    }
    lemma_div64_exact(w, 1, m, (0 - e) as nat, 0);
    assert(1 * m * pow2(0) == m) by {
        assert(pow2(0) == 1);
    }
}

/// For `k` at most fifteen, the running scale is exactly ten to the `k`,
/// held as the normalization that `shift_up` gives it.
pub proof fn lemma_scale_exact(k: nat)
    requires
        k <= 15,
    ensures
        spec_scale(k) is Some,
        ({
            let (ms, es) = spec_scale(k).unwrap();
            &&& es <= 0
            &&& ms == crate::digits::pow10(k) * pow2((0 - es) as nat)
            &&& 0x10_0000_0000_0000 <= ms < 0x20_0000_0000_0000
        }),
    decreases k,
{
    lemma2_to64();
    lemma2_to64_rest();
    crate::digits::lemma_pow10_pos(k);
    if k == 0 {
        assert(spec_scale(0) == Some((0x10_0000_0000_0000 as nat, -52int)));
        assert(crate::digits::pow10(0) * pow2(52) == 0x10_0000_0000_0000);
    } else {
        lemma_scale_exact((k - 1) as nat);
        let (m, e) = spec_scale((k - 1) as nat).unwrap();
        let ce = (0 - e) as nat;
        let pk1 = crate::digits::pow10((k - 1) as nat);
        let pk = crate::digits::pow10(k);
        assert(pk == 10 * pk1);
        assert(pk < 0x10_0000_0000_0000) by {
            crate::digits::lemma_pow10_mono(k, 15);
            assert(crate::digits::pow10(15) == 1000000000000000) by {
                reveal_with_fuel(crate::digits::pow10, 17);
            }
        }
        crate::digits::lemma_pow10_pos((k - 1) as nat);
        lemma_shift_up(pk, 1, 0);
        let (mm, ee) = shift_up(pk, 1, 0);
        assert(ee < 0) by {
            if ee == 0 {
                assert(mm == pk * pow2(0));
            }
        }
        let cc = (0 - ee) as nat;
        assert(mm == pk * pow2(cc));
        assert(mm < 0x20_0000_0000_0000);
        let p2 = m * (TEN_MANT as nat);
        assert(TEN_MANT as nat == 5 * pow2(50));
        // p2 * 2^(cc + 1) == mm * 2^(ce + 50)
        assert(p2 * pow2(cc + 1) == mm * pow2(ce + 50)) by {
            assert(p2 == (pk1 * 5) * pow2(ce + 50)) by {
                lemma_pow2_adds(ce, 50);
                assert((pk1 * pow2(ce)) * (5 * pow2(50)) == (pk1 * 5) * (pow2(ce) * pow2(50)))
                    by (nonlinear_arith);
            }
            assert(pk == (pk1 * 5) * 2) by (nonlinear_arith)
                requires
                    pk == 10 * pk1,
            ;
            assert(p2 * pow2(cc + 1) == ((pk1 * 5) * 2) * (pow2(ce + 50) * pow2(cc))) by {
                lemma_pow2_adds(cc, 1);
                assert(pow2(1) == 2);
                assert(((pk1 * 5) * pow2(ce + 50)) * (pow2(cc) * 2) == ((pk1 * 5) * 2) * (pow2(
                    ce + 50,
                ) * pow2(cc))) by (nonlinear_arith);
            }
            assert(mm * pow2(ce + 50) == (pk * pow2(cc)) * pow2(ce + 50));
            assert((pk * pow2(cc)) * pow2(ce + 50) == pk * (pow2(ce + 50) * pow2(cc)))
                by (nonlinear_arith);
            assert(((pk1 * 5) * 2) * (pow2(ce + 50) * pow2(cc)) == pk * (pow2(ce + 50) * pow2(
                cc,
            ))) by (nonlinear_arith)
                requires
                    pk == (pk1 * 5) * 2,
            ;
        }
        assert(p2 >= 1) by {
            assert(m >= 1 && TEN_MANT >= 1);
            assert(m * (TEN_MANT as nat) >= 1 * 1) by (nonlinear_arith)
                requires
                    m >= 1,
                    (TEN_MANT as nat) >= 1,
            ;
        }
        lemma_div64_exact(p2, 1, mm, cc + 1, ce + 50);
        assert(1 * mm * pow2(ce + 50) == mm * pow2(ce + 50));
        assert(spec_div64(p2, 1) == (mm, (ce + 50) - (cc + 1)));
        let e2 = e + TEN_EXP + ((ce + 50) - (cc + 1));
        assert(e2 == ee);
        assert(spec_mul64(m, e, TEN_MANT as nat, TEN_EXP as int) == (mm, ee));
        assert(spec_scale(k) == Some((mm, ee)));
    }
}

/// The fraction scaling is exact when the unit is a power of ten at least
/// as large as the fraction's own power: the contribution is the fraction
/// value scaled up by the difference of the powers.
pub proof fn lemma_frac_ns_exact(f: nat, p: nat, k: nat)
    requires
        1 <= f,
        1 <= k <= p <= 9,
        f < crate::digits::pow10(k),
    ensures
        spec_frac_ns(f, crate::digits::pow10(p), k) == f * crate::digits::pow10((p - k) as nat),
{
    lemma2_to64();
    lemma2_to64_rest();
    lemma_scale_exact(k);
    let (ms, es) = spec_scale(k).unwrap();
    let cs = (0 - es) as nat;
    let pk = crate::digits::pow10(k);
    let pp = crate::digits::pow10(p);
    let pd = crate::digits::pow10((p - k) as nat);
    crate::digits::lemma_pow10_pos(k);
    crate::digits::lemma_pow10_pos(p);
    crate::digits::lemma_pow10_pos((p - k) as nat);
    assert(pk * pd == pp) by {
        crate::digits::lemma_pow10_adds(k, (p - k) as nat);
    }
    assert(pp <= 1000000000) by {
        crate::digits::lemma_pow10_mono(p, 9);
        assert(crate::digits::pow10(9) == 1000000000) by {
            reveal_with_fuel(crate::digits::pow10, 11);
        }
    }
    // the quotient unit / scale is exactly 10^(p-k)
    lemma_shift_up(pd, 1, 0);
    let (mw, ew) = shift_up(pd, 1, 0);
    assert(ew < 0) by {
        if ew == 0 {
            assert(mw == pd * pow2(0));
        }
        assert(pd <= 1000000000) by {
            crate::digits::lemma_pow10_mono((p - k) as nat, 9);
            assert(crate::digits::pow10(9) == 1000000000) by {
                reveal_with_fuel(crate::digits::pow10, 11);
            }
        }
    }
    let cw = (0 - ew) as nat;
    assert(mw == pd * pow2(cw));
    assert(mw < 0x20_0000_0000_0000);
    assert(pp * pow2(cs + cw) == ms * mw * pow2(0)) by {
        assert(pow2(0) == 1);
        assert(ms * mw * 1 == ms * mw) by (nonlinear_arith);
        assert(ms * mw == (pk * pow2(cs)) * (pd * pow2(cw)));
        lemma_pow2_adds(cs, cw);
        assert((pk * pow2(cs)) * (pd * pow2(cw)) == (pk * pd) * (pow2(cs) * pow2(cw)))
            by (nonlinear_arith);
    }
    lemma_div64_exact(pp, ms, mw, cs + cw, 0);
    assert(spec_div64(pp, ms) == (mw, 0 - (cs + cw)));
    // the integer f converts exactly
    assert(f < 0x20_0000_0000_0000) by {
        assert(pk <= pk * pd) by (nonlinear_arith)
            requires
                pd >= 1,
                pk >= 0,
        ;
    }
    lemma_int64_exact(f);
    let (mf, ef) = shift_up(f, 1, 0);
    let cf = (0 - ef) as nat;
    assert(spec_int64(f) == (mf, ef));
    assert(mf == f * pow2(cf));
    // the product is the exact integer f * 10^(p-k)
    let w = f * pd;
    assert(1 <= w && w < 0x10_0000_0000_0000) by {
        assert(w >= 1 * 1) by (nonlinear_arith)
            requires
                w == f * pd,
                f >= 1,
                pd >= 1,
        ;
        assert(w < pk * pd) by {
            vstd::arithmetic::mul::lemma_mul_strict_inequality(f as int, pk as int, pd as int);
        }
        assert(pp <= 1000000000);
    }
    lemma_shift_up(w, 1, 0);
    let (mw2, ew2) = shift_up(w, 1, 0);
    assert(ew2 < 0) by {
        if ew2 == 0 {
            assert(mw2 == w * pow2(0));
        }
    }
    let cw2 = (0 - ew2) as nat;
    assert(mw2 == w * pow2(cw2));
    assert(mw2 < 0x20_0000_0000_0000);
    let p2 = mf * mw;
    assert(p2 == w * pow2(cf + cw)) by {
        lemma_pow2_adds(cf, cw);
        assert((f * pow2(cf)) * (pd * pow2(cw)) == (f * pd) * (pow2(cf) * pow2(cw)))
            by (nonlinear_arith);
    }
    assert(p2 >= 1) by {
        lemma_pow2_pos(cf + cw);
        assert(w * pow2(cf + cw) >= 1 * 1) by (nonlinear_arith)
            requires
                w >= 1,
                pow2(cf + cw) >= 1,
        ;
    }
    // p2 * 2^a == mw2 * 2^b with a chosen by the exponents' order
    if cf + cw >= cw2 {
        assert(p2 * pow2(0) == 1 * mw2 * pow2((cf + cw - cw2) as nat)) by {
            assert(pow2(0) == 1);
            lemma_pow2_adds(cw2, (cf + cw - cw2) as nat);
            assert((w * pow2(cw2)) * pow2((cf + cw - cw2) as nat) == w * (pow2(cw2) * pow2(
                (cf + cw - cw2) as nat,
            ))) by (nonlinear_arith);
            assert(p2 * 1 == p2) by (nonlinear_arith);
            assert(1 * mw2 * pow2((cf + cw - cw2) as nat) == mw2 * pow2((cf + cw - cw2) as nat))
                by (nonlinear_arith);
        }
        lemma_div64_exact(p2, 1, mw2, 0, (cf + cw - cw2) as nat);
        assert(spec_div64(p2, 1) == (mw2, (cf + cw - cw2) as nat - 0));
    } else {
        assert(p2 * pow2((cw2 - cf - cw) as nat) == 1 * mw2 * pow2(0)) by {
            assert(pow2(0) == 1);
            lemma_pow2_adds(cf + cw, (cw2 - cf - cw) as nat);
            assert((w * pow2(cf + cw)) * pow2((cw2 - cf - cw) as nat) == w * (pow2(cf + cw)
                * pow2((cw2 - cf - cw) as nat))) by (nonlinear_arith);
            assert(1 * mw2 * 1 == mw2) by (nonlinear_arith);
        }
        lemma_div64_exact(p2, 1, mw2, (cw2 - cf - cw) as nat, 0);
        assert(spec_div64(p2, 1) == (mw2, 0 - (cw2 - cf - cw) as nat));
    }
    let eq = 0 - (cs + cw);
    let ep = ef + (eq - es) + spec_div64(p2, 1).1;
    assert(spec_mul64(mf, ef, mw, eq - es) == (mw2, ep));
    assert(ep == ew2);
    // truncating mw2 * 2^ew2 recovers w
    assert(cw2 <= 52) by {
        assert(pow2(cw2) <= mw2) by (nonlinear_arith)
            requires
                mw2 == w * pow2(cw2),
                w >= 1,
                pow2(cw2) >= 0,
        ;
        assert(pow2(53) == 0x20_0000_0000_0000);
        assert(pow2(cw2) < pow2(53));
        lemma_pow2_le_converse(cw2, 53);
        if cw2 == 53 {
            assert(false);
        }
    }
    assert(spec_trunc_sat(mw2, ew2) == w) by {
        if ew2 == 0 {
            assert(pow2(0) == 1);
            assert(mw2 * pow2(0) == mw2);
            assert(mw2 == w * 1) by (nonlinear_arith)
                requires
                    mw2 == w * pow2(cw2),
                    pow2(cw2) == 1,
            ;
        } else {
            assert(0 - 64 < ew2 < 0);
            assert(mw2 / pow2(cw2) == w) by {
                lemma_pow2_pos(cw2);
                lemma_div_multiples_vanish(w as int, pow2(cw2) as int);
                assert(pow2(cw2) * w == w * pow2(cw2)) by (nonlinear_arith);
            }
        }
    }
    assert(spec_frac_ns(f, pp, k) == w);
}

/// Binary64 division of `u / s`, rounding to nearest, ties to even.
pub(crate) fn div64(u: u128, s: u128) -> (r: (u64, i64))
    requires
        1 <= u,
        (u as nat) < 0x800_0000_0000_0000_0000_0000_0000,
        1 <= s,
        (s as nat) < 0x20_0000_0000_0000,
    ensures
        (r.0 as nat, r.1 as int) == spec_div64(u as nat, s as nat),
        0x10_0000_0000_0000 <= r.0 < 0x20_0000_0000_0000,
        -106 <= r.1 <= 55,
{
    proof {
        lemma2_to64();
        lemma2_to64_rest();
        assert(pow2(106) == 0x400_0000_0000_0000_0000_0000_0000) by {
            lemma_pow2_adds(53, 53);
        }
    }
    let mut num: u128 = u;
    let mut e: i64 = 0;
    proof {
        assert(pow2((0 - e) as nat) == 1);
        assert(num as nat == (u as nat) * pow2((0 - e) as nat));
    }
    while num < s * 0x10_0000_0000_0000
        invariant
            1 <= num,
            1 <= s,
            (s as nat) < 0x20_0000_0000_0000,
            1 <= u,
            (u as nat) < 0x800_0000_0000_0000_0000_0000_0000,
            shift_up(u as nat, s as nat, 0) == shift_up(num as nat, s as nat, e as int),
            e <= 0,
            num as nat == (u as nat) * pow2((0 - e) as nat),
            0 - e <= 105,
            e == 0 || (num as nat) < (s as nat) * 0x20_0000_0000_0000,
        decreases (s as nat) * 0x20_0000_0000_0000 - (num as nat),
    {
        proof {
            lemma2_to64();
            lemma2_to64_rest();
            assert((num as nat) * 2 < 0x400_0000_0000_0000_0000_0000_0000) by (nonlinear_arith)
                requires
                    (num as nat) < (s as nat) * 0x10_0000_0000_0000,
                    (s as nat) < 0x20_0000_0000_0000,
            ;
            assert((num as nat) * 2 < (s as nat) * 0x20_0000_0000_0000) by (nonlinear_arith)
                requires
                    (num as nat) < (s as nat) * 0x10_0000_0000_0000,
            ;
            assert(pow2((0 - e) as nat) <= num as nat) by (nonlinear_arith)
                requires
                    num as nat == (u as nat) * pow2((0 - e) as nat),
                    1 <= u,
                    pow2((0 - e) as nat) >= 0,
            ;
            assert(pow2(105) == 0x200_0000_0000_0000_0000_0000_0000) by {
                lemma_pow2_adds(53, 52);
            }
            assert((num as nat) < 0x200_0000_0000_0000_0000_0000_0000) by (nonlinear_arith)
                requires
                    (num as nat) < (s as nat) * 0x10_0000_0000_0000,
                    (s as nat) < 0x20_0000_0000_0000,
            ;
            assert(0 - e <= 104) by {
                lemma_pow2_le_converse((0 - e) as nat, 105);
                if 0 - e == 105 {
                    assert(false);
                }
            }
            assert((num as nat) * 2 == (u as nat) * pow2((0 - (e - 1)) as nat)) by {
                lemma_pow2_adds(1, (0 - e) as nat);
                assert(pow2(1) == 2);
                assert((u as nat) * (2 * pow2((0 - e) as nat)) == ((u as nat) * pow2(
                    (0 - e) as nat,
                )) * 2) by (nonlinear_arith);
            }
            assert(shift_up(num as nat, s as nat, e as int) == shift_up(
                (num as nat) * 2,
                s as nat,
                e as int - 1,
            ));
        }
        num = num * 2;
        e = e - 1;
    }
    proof {
        lemma2_to64();
        lemma2_to64_rest();
        assert(shift_up(u as nat, s as nat, 0) == (num as nat, e as int));
        assert((num as nat) < 0x800_0000_0000_0000_0000_0000_0000) by {
            if e < 0 {
                assert((num as nat) < (s as nat) * 0x20_0000_0000_0000);
                assert((s as nat) * 0x20_0000_0000_0000 < 0x20_0000_0000_0000
                    * 0x20_0000_0000_0000) by (nonlinear_arith)
                    requires
                        (s as nat) < 0x20_0000_0000_0000,
                ;
            }
        }
    }
    let ghost num1 = num as nat;
    let ghost e1 = e as int;
    let mut den: u128 = s;
    while num >= den * 0x20_0000_0000_0000
        invariant
            1 <= den,
            num as nat == num1,
            (num as nat) < 0x800_0000_0000_0000_0000_0000_0000,
            (den as nat) * 0x10_0000_0000_0000 <= (num as nat),
            shift_down(num1, s as nat, e1) == shift_down(num as nat, den as nat, e as int),
            den as nat == (s as nat) * pow2((e - e1) as nat),
            e >= e1,
            e1 <= 0,
            -106 <= e1,
        decreases (num as nat) - (den as nat),
    {
        proof {
            lemma2_to64();
            lemma2_to64_rest();
            assert((den as nat) * 2 * 0x10_0000_0000_0000 == (den as nat)
                * 0x20_0000_0000_0000) by (nonlinear_arith);
            assert((den as nat) < 0x40_0000_0000_0000) by {
                lemma_factor_cap(
                    den as nat,
                    0x20_0000_0000_0000,
                    0x800_0000_0000_0000_0000_0000_0000,
                    0x40_0000_0000_0000,
                );
            }
            assert((den as nat) * 2 == (s as nat) * pow2((e + 1 - e1) as nat)) by {
                lemma_pow2_adds(1, (e - e1) as nat);
                assert(pow2(1) == 2);
                assert((s as nat) * (2 * pow2((e - e1) as nat)) == ((s as nat) * pow2(
                    (e - e1) as nat,
                )) * 2) by (nonlinear_arith);
            }
            assert(pow2((e - e1) as nat) <= den as nat) by (nonlinear_arith)
                requires
                    den as nat == (s as nat) * pow2((e - e1) as nat),
                    1 <= s,
                    pow2((e - e1) as nat) >= 0,
            ;
            assert(e - e1 <= 54) by {
                if e - e1 > 54 {
                    assert(pow2(55) == 0x80_0000_0000_0000) by {
                        lemma_pow2_adds(53, 2);
                    }
                    lemma_pow2_strictly_increases(55, (e - e1) as nat);
                }
            }
            assert(shift_down(num as nat, den as nat, e as int) == shift_down(
                num as nat,
                (den as nat) * 2,
                e as int + 1,
            ));
        }
        den = den * 2;
        e = e + 1;
    }
    proof {
        lemma2_to64();
        lemma2_to64_rest();
        assert(shift_down(num1, s as nat, e1) == (den as nat, e as int));
        assert(pow2((e - e1) as nat) <= den as nat) by (nonlinear_arith)
            requires
                den as nat == (s as nat) * pow2((e - e1) as nat),
                1 <= s,
                pow2((e - e1) as nat) >= 0,
        ;
        assert((den as nat) < 0x100_0000_0000_0000) by {
            lemma_factor_cap(
                den as nat,
                0x10_0000_0000_0000,
                0x800_0000_0000_0000_0000_0000_0000,
                0x100_0000_0000_0000,
            );
        }
        assert(e - e1 <= 55) by {
            if e - e1 > 55 {
                assert(pow2(56) == 0x100_0000_0000_0000) by {
                    lemma_pow2_adds(53, 3);
                }
                lemma_pow2_strictly_increases(56, (e - e1) as nat);
            }
        }
        lemma_quotient_bounds(num as nat, den as nat);
    }
    let q: u128 = num / den;
    let r: u128 = num % den;
    let m0: u128 = if 2 * r > den || (2 * r == den && q % 2 == 1) {
        q + 1
    } else {
        q
    };
    if m0 == 0x20_0000_0000_0000 {
        proof {
            assert((0x10_0000_0000_0000 as nat, e as int + 1) == spec_div64(u as nat, s as nat));
        }
        (0x10_0000_0000_0000u64, e + 1)
    } else {
        proof {
            assert((m0 as nat, e as int) == spec_div64(u as nat, s as nat));
        }
        (m0 as u64, e)
    }
}

/// Binary64 conversion of a positive integer (`n as f64`).
pub(crate) fn int_to_f(n: u64) -> (r: (u64, i64))
    requires
        1 <= n,
    ensures
        (r.0 as nat, r.1 as int) == spec_int64(n as nat),
        0x10_0000_0000_0000 <= r.0 < 0x20_0000_0000_0000,
        -106 <= r.1 <= 55,
{
    div64(n as u128, 1)
}

/// Binary64 multiplication of two normalized mantissa/exponent pairs.
pub(crate) fn mul64(mx: u64, ex: i64, my: u64, ey: i64) -> (r: (u64, i64))
    requires
        0x10_0000_0000_0000 <= mx < 0x20_0000_0000_0000,
        0x10_0000_0000_0000 <= my < 0x20_0000_0000_0000,
        -100000 <= ex <= 100000,
        -100000 <= ey <= 100000,
    ensures
        (r.0 as nat, r.1 as int) == spec_mul64(mx as nat, ex as int, my as nat, ey as int),
        0x10_0000_0000_0000 <= r.0 < 0x20_0000_0000_0000,
        ex + ey + 52 <= r.1 <= ex + ey + 54,
{
    proof {
        assert((mx as nat) * (my as nat) >= 0x100_0000_0000_0000_0000_0000_0000) by {
            lemma_mul_inequality(0x10_0000_0000_0000, mx as int, my as int);
            lemma_mul_left_inequality(0x10_0000_0000_0000, 0x10_0000_0000_0000, my as int);
        }
        assert((mx as nat) * (my as nat) < 0x400_0000_0000_0000_0000_0000_0000) by {
            lemma_mul_strict_upper_bound(
                mx as int,
                0x20_0000_0000_0000,
                my as int,
                0x20_0000_0000_0000,
            );
        }
    }
    let p: u128 = (mx as u128) * (my as u128);
    let (m, e) = div64(p, 1);
    proof {
        lemma_div64_int_e_range(p as nat);
    }
    (m, ex + ey + e)
}

/// Truncation toward zero of `m * 2^e` into a `u64`, saturating at
/// `u64::MAX` (the behaviour of an `as u64` cast).
pub(crate) fn trunc_sat(m: u64, e: i64) -> (r: u64)
    requires
        0x10_0000_0000_0000 <= m < 0x20_0000_0000_0000,
    ensures
        r as nat == spec_trunc_sat(m as nat, e as int),
{
    proof {
        lemma2_to64();
        lemma2_to64_rest();
    }
    if e >= 12 {
        u64::MAX
    } else if e >= 0 {
        let mut r: u64 = m;
        let mut i: i64 = 0;
        proof {
            assert(r == m);
            assert(i == 0);
            assert(pow2(0) == 1);
            assert((m as nat) * pow2(0) == m as nat);
            assert(r as nat == (m as nat) * pow2(i as nat));
        }
        while i < e
            invariant
                0 <= i <= e,
                e <= 11,
                m < 0x20_0000_0000_0000,
                r as nat == (m as nat) * pow2(i as nat),
            decreases e - i,
        {
            proof {
                lemma2_to64();
                lemma2_to64_rest();
                assert(pow2(i as nat) <= pow2(10)) by {
                    if (i as nat) < 10 {
                        lemma_pow2_strictly_increases(i as nat, 10);
                    }
                }
                assert((r as nat) * 2 <= u64::MAX) by (nonlinear_arith)
                    requires
                        r as nat == (m as nat) * pow2(i as nat),
                        m < 0x20_0000_0000_0000,
                        pow2(i as nat) <= 1024,
                ;
                assert((m as nat) * pow2(i as nat) * 2 == (m as nat) * pow2((i + 1) as nat)) by {
                    lemma_pow2_adds(i as nat, 1);
                    assert(pow2(1) == 2);
                    assert((m as nat) * (pow2(i as nat) * 2) == (m as nat) * pow2(i as nat) * 2)
                        by (nonlinear_arith);
                }
            }
            r = r * 2;
            i = i + 1;
        }
        r
    } else if e <= -64 {
        0
    } else {
        let c: i64 = 0 - e;
        let mut r: u64 = m;
        let mut i: i64 = 0;
        proof {
            assert(r == m);
            assert(i == 0);
            assert(pow2(0) == 1);
            assert((m as nat) / pow2(0) == m as nat);
            assert(r as nat == (m as nat) / pow2(i as nat));
        }
        while i < c
            invariant
                0 <= i <= c,
                c <= 63,
                r as nat == (m as nat) / pow2(i as nat),
            decreases c - i,
        {
            proof {
                lemma_pow2_pos(i as nat);
                assert((m as nat) / pow2(i as nat) / 2 == (m as nat) / pow2((i + 1) as nat)) by {
                    vstd::arithmetic::div_mod::lemma_div_denominator(
                        m as int,
                        pow2(i as nat) as int,
                        2,
                    );
                    lemma_pow2_adds(i as nat, 1);
                    lemma2_to64();
                    lemma2_to64_rest();
                }
            }
            r = r / 2;
            i = i + 1;
        }
        r
    }
}

/// Nanoseconds contributed by a term's fraction: the binary64 computation
/// `f64(f) * (f64(unit) / scale)` truncated into a `u64`, where the scale
/// is `1.0` multiplied `k` times by ten.
pub(crate) fn frac_scale_ns(f: u64, unit: u64, k: usize) -> (r: u64)
    requires
        1 <= f,
        f <= 0x7fff_ffff_ffff_ffff,
        1 <= unit,
        unit <= 604800000000000,
    ensures
        r as nat == spec_frac_ns(f as nat, unit as nat, k as nat),
{
    let mut ms: u64 = 0x10_0000_0000_0000;
    let mut es: i64 = -52;
    let mut i: usize = 0;
    while i < k
        invariant
            i <= k,
            spec_scale(i as nat) == Some((ms as nat, es as int)),
            0x10_0000_0000_0000 <= ms < 0x20_0000_0000_0000,
            -52 <= es < 972,
        decreases k - i,
    {
        let (m2, e2) = mul64(ms, es, TEN_MANT, TEN_EXP);
        if e2 >= 972 {
            proof {
                assert(spec_scale((i + 1) as nat) is None);
                lemma_scale_none((i + 1) as nat, k as nat);
            }
            return 0;
        }
        ms = m2;
        es = e2;
        i = i + 1;
    }
    let (mx, ex) = int_to_f(f);
    let (mq, eq) = div64(unit as u128, ms as u128);
    let (mp, ep) = mul64(mx, ex, mq, eq - es);
    trunc_sat(mp, ep)
}

} // verus!
