//! The round-trip law: parsing the canonical rendering of any duration
//! yields exactly the original nanosecond count.

use vstd::prelude::*;
use vstd::arithmetic::div_mod::{lemma_fundamental_div_mod, lemma_mod_bound};
use vstd::arithmetic::mul::lemma_mul_inequality;
use crate::binary64::{lemma_frac_ns_exact, spec_frac_ns};
use crate::digits::{
    all_digits, digit_run_len, digit_val, digits_val, int_str, is_digit, lemma_digits_val_bound,
    lemma_digits_val_mono, lemma_digits_val_step, lemma_int_str_val, pad_str, pow10, trim_zeros,
};
use crate::duration::{
    fmt_pos, fmt_spec, frac_part, frac_scan, is_unit_char, parse_spec, parse_terms, strip_sign,
    unit_mult, unit_run_len, Error,
};

verus! {

/// A run of digits over `[i, l)` followed by a non-digit or the end is
/// exactly the maximal digit run at `i`.
proof fn lemma_digit_run_exact(s: Seq<char>, i: int, l: int)
    requires
        0 <= i <= l <= s.len(),
        forall|j: int| i <= j < l ==> is_digit(s[j]),
        l == s.len() || !is_digit(s[l]),
    ensures
        digit_run_len(s, i) == l - i,
    decreases l - i,
{
    if i < l {
        lemma_digit_run_exact(s, i + 1, l);
    }
}

/// A run of unit characters over `[i, l)` followed by something else or
/// the end is exactly the maximal unit run at `i`.
proof fn lemma_unit_run_exact(s: Seq<char>, i: int, l: int)
    requires
        0 <= i <= l <= s.len(),
        forall|j: int| i <= j < l ==> is_unit_char(s[j]),
        l == s.len() || !is_unit_char(s[l]),
    ensures
        unit_run_len(s, i) == l - i,
    decreases l - i,
{
    if i < l {
        lemma_unit_run_exact(s, i + 1, l);
    }
}

/// Scanning a digit run whose value fits in the signed 64-bit range never
/// freezes: it returns the full value and the full digit count.
proof fn lemma_frac_scan_all(s: Seq<char>, i: int)
    requires
        0 <= i <= s.len(),
        all_digits(s),
        digits_val(s) <= i64::MAX,
    ensures
        frac_scan(s, i, digits_val(s.subrange(0, i)), i as nat) == (digits_val(s), s.len()),
    decreases s.len() - i,
{
    if i < s.len() {
        lemma_digits_val_step(s, i);
        lemma_digits_val_mono(s, i + 1, s.len() as int);
        assert(s.subrange(0, s.len() as int) =~= s);
        lemma_frac_scan_all(s, i + 1);
    } else {
        assert(s.subrange(0, s.len() as int) =~= s);
    }
}

/// A factor bounded through a product is bounded through the quotient.
proof fn lemma_le_div_from_mul(a: nat, b: nat, c: nat)
    requires
        1 <= b,
        a * b <= c,
    ensures
        a <= c / b,
{
    if a > c / b {
        lemma_fundamental_div_mod(c as int, b as int);
        lemma_mod_bound(c as int, b as int);
        lemma_mul_inequality((c / b + 1) as int, a as int, b as int);
        assert((c / b + 1) * b == (c / b) * b + b) by (nonlinear_arith);
        assert((c as int / b as int) * (b as int) == c - c % b);
    }
}

/// The zero-padded digits of `v` read back as `v` modulo the padding.
proof fn lemma_pad_str_val(v: nat, prec: nat)
    ensures
        pad_str(v, prec).len() == prec,
        all_digits(pad_str(v, prec)),
        digits_val(pad_str(v, prec)) == v % pow10(prec),
    decreases prec,
{
    crate::digits::lemma_pow10_pos(prec);
    if prec == 0 {
        assert(v % 1 == 0);
    } else {
        lemma_pad_str_val(v / 10, (prec - 1) as nat);
        let t = pad_str(v, prec);
        assert(t.drop_last() =~= pad_str(v / 10, (prec - 1) as nat));
        assert(t.last() == crate::digits::digit_char(v % 10));
        assert(is_digit(t.last()) && digit_val(t.last()) == v % 10) by {
            assert(v % 10 < 10);
        }
        crate::digits::lemma_pow10_pos((prec - 1) as nat);
        assert(v % pow10(prec) == 10 * ((v / 10) % pow10((prec - 1) as nat)) + v % 10) by {
            vstd::arithmetic::div_mod::lemma_breakdown(
                v as int,
                10,
                pow10((prec - 1) as nat) as int,
            );
            assert(pow10(prec) == 10 * pow10((prec - 1) as nat));
        }
        assert(digits_val(t) == digits_val(t.drop_last()) * 10 + digit_val(t.last()));
        assert(((v / 10) % pow10((prec - 1) as nat)) * 10 == 10 * ((v / 10) % pow10(
            (prec - 1) as nat,
        ))) by (nonlinear_arith);
        assert(forall|j: int| 0 <= j < prec - 1 ==> t[j] == t.drop_last()[j]);
    }
}

/// Trimming the padded digits of `v` keeps its value modulo the padding:
/// the trimmed run is scaled by the powers of ten that were dropped.
proof fn lemma_trim_pad(v: nat, prec: nat)
    ensures
        ({
            let t = trim_zeros(pad_str(v, prec));
            &&& t.len() <= prec
            &&& all_digits(t)
            &&& digits_val(t) * pow10((prec - t.len()) as nat) == v % pow10(prec)
            &&& digits_val(t) < pow10(t.len())
            &&& (t.len() > 0 ==> digit_val(t.last()) >= 1)
        }),
    decreases prec,
{
    let pad = pad_str(v, prec);
    let t = trim_zeros(pad);
    lemma_pad_str_val(v, prec);
    crate::digits::lemma_pow10_pos(prec);
    if prec == 0 {
        assert(t =~= Seq::<char>::empty());
        assert(v % 1 == 0);
        assert(digits_val(t) * pow10(0) == 0);
    } else {
        assert(pad.last() == crate::digits::digit_char(v % 10));
        if v % 10 == 0 {
            assert(pad.last() == '0');
            assert(t == trim_zeros(pad.drop_last()));
            assert(pad.drop_last() =~= pad_str(v / 10, (prec - 1) as nat));
            lemma_trim_pad(v / 10, (prec - 1) as nat);
            let k = t.len();
            assert(digits_val(t) * pow10(((prec - 1) - k as int) as nat) == (v / 10) % pow10(
                (prec - 1) as nat,
            ));
            assert(v % pow10(prec) == 10 * ((v / 10) % pow10((prec - 1) as nat)) + v % 10) by {
                vstd::arithmetic::div_mod::lemma_breakdown(
                    v as int,
                    10,
                    pow10((prec - 1) as nat) as int,
                );
                assert(pow10(prec) == 10 * pow10((prec - 1) as nat));
            }
            assert(digits_val(t) * pow10((prec - k as int) as nat) == 10 * (digits_val(t) * pow10(
                ((prec - 1) - k as int) as nat,
            ))) by {
                assert(pow10((prec - k as int) as nat) == 10 * pow10(
                    ((prec - 1) - k as int) as nat,
                ));
                assert(digits_val(t) * (10 * pow10(((prec - 1) - k as int) as nat)) == 10 * (
                digits_val(t) * pow10(((prec - 1) - k as int) as nat))) by (nonlinear_arith);
            }
        } else {
            assert(digit_val(pad.last()) == v % 10);
            assert(pad.last() != '0');
            assert(t == pad);
            assert(pow10(0) == 1);
            assert(digits_val(t) * pow10(0) == digits_val(t));
            lemma_digits_val_bound(pad);
        }
    }
}

/// Parsing one well-formed term: leading digits, an optional dotted
/// fraction, and a unit token consume exactly themselves and add the
/// term's nanosecond value to the accumulator.
#[verifier::rlimit(100)]
proof fn lemma_parse_term(d: Seq<char>, dot: bool, f: Seq<char>, u: Seq<char>, r: Seq<char>, acc: nat)
    requires
        d.len() >= 1,
        all_digits(d),
        digits_val(d) <= u64::MAX,
        dot ==> f.len() >= 1,
        !dot ==> f.len() == 0,
        all_digits(f),
        digits_val(f) <= i64::MAX,
        u.len() >= 1,
        forall|j: int| 0 <= j < u.len() ==> is_unit_char(u[j]),
        unit_mult(u) >= 1,
        r.len() == 0 || is_digit(r[0]),
        digits_val(d) * unit_mult(u) <= 0x8000_0000_0000_0000,
        digits_val(d) * unit_mult(u) + (if digits_val(f) > 0 {
            spec_frac_ns(digits_val(f), unit_mult(u), f.len())
        } else {
            0
        }) <= u64::MAX,
        acc + digits_val(d) * unit_mult(u) + (if digits_val(f) > 0 {
            spec_frac_ns(digits_val(f), unit_mult(u), f.len())
        } else {
            0
        }) <= 0x8000_0000_0000_0000,
    ensures
        parse_terms((if dot {
            d + seq!['.'] + f
        } else {
            d
        }) + u + r, acc) == parse_terms(
            r,
            acc + digits_val(d) * unit_mult(u) + (if digits_val(f) > 0 {
                spec_frac_ns(digits_val(f), unit_mult(u), f.len())
            } else {
                0
            }),
        ),
{
    let head = if dot {
        d + seq!['.'] + f
    } else {
        d
    };
    let s = head + u + r;
    let dl = d.len() as int;
    assert(s[0] == d[0]);
    assert(is_digit(s[0]));
    assert(forall|j: int| 0 <= j < dl ==> s[j] == d[j]);
    assert(!is_digit('.')) by {
        assert('.' as u32 == 46);
    }
    if dot {
        assert(s[dl] == '.');
    } else {
        assert(s[dl] == u[0]);
        assert(!is_digit(s[dl]));
    }
    lemma_digit_run_exact(s, 0, dl);
    let ni = digit_run_len(s, 0);
    assert(ni == d.len());
    assert(s.subrange(0, dl) =~= d);
    let iv = digits_val(d);
    let s1 = s.skip(dl);
    assert(s1.len() > 0);
    let has_dot = s1[0] == '.';
    assert(has_dot == dot) by {
        if dot {
            assert(s1[0] == s[dl]);
        } else {
            assert(s1[0] == u[0]);
            assert(is_unit_char(u[0]));
        }
    }
    let s2 = if has_dot {
        s1.skip(1)
    } else {
        s1
    };
    assert(s2 =~= f + u + r) by {
        if dot {
            assert(forall|j: int|
                0 <= j < s2.len() ==> s2[j] == s[dl + 1 + j] && s2[j] == (f + u + r)[j]);
        } else {
            assert(forall|j: int|
                0 <= j < s2.len() ==> s2[j] == s[dl + j] && s2[j] == (f + u + r)[j]);
        }
    }
    let fl = f.len() as int;
    assert(forall|j: int| 0 <= j < fl ==> s2[j] == f[j]);
    assert(s2[fl] == u[0]);
    assert(!is_digit(s2[fl]));
    lemma_digit_run_exact(s2, 0, fl);
    let nf = if has_dot {
        digit_run_len(s2, 0)
    } else {
        0nat
    };
    assert(nf == (if dot {
        f.len()
    } else {
        0nat
    }));
    assert(s2.subrange(0, nf as int) =~= (if dot {
        f
    } else {
        Seq::<char>::empty()
    }));
    let fk = frac_scan(s2.subrange(0, nf as int), 0, 0, 0);
    assert(fk == (digits_val(f), f.len())) by {
        if dot {
            lemma_frac_scan_all(f, 0);
            assert(f.subrange(0, 0) =~= Seq::<char>::empty());
        } else {
            assert(s2.subrange(0, 0) =~= Seq::<char>::empty());
            assert(digits_val(Seq::<char>::empty()) == 0);
        }
    }
    let s3 = s2.skip(nf as int);
    assert(s3 =~= u + r) by {
        if dot {
            assert(forall|j: int| 0 <= j < s3.len() ==> s3[j] == s2[fl + j]);
        }
    }
    let ul = u.len() as int;
    assert(forall|j: int| 0 <= j < ul ==> s3[j] == u[j]);
    if r.len() > 0 {
        assert(s3[ul] == r[0]);
        assert(!is_unit_char(s3[ul]));
    }
    lemma_unit_run_exact(s3, 0, ul);
    let nu = unit_run_len(s3, 0);
    assert(nu == u.len());
    assert(nu >= 1);
    assert(s3.subrange(0, ul) =~= u);
    let mult = unit_mult(u);
    assert(mult >= 1);
    assert(iv <= (0x8000_0000_0000_0000 as nat) / mult) by {
        lemma_le_div_from_mul(iv, mult, 0x8000_0000_0000_0000 as nat);
    }
    let v0 = iv * mult;
    let frac_add = if digits_val(f) > 0 {
        spec_frac_ns(digits_val(f), mult, f.len())
    } else {
        0nat
    };
    let v = if fk.0 > 0 {
        v0 + spec_frac_ns(fk.0, mult, fk.1)
    } else {
        v0
    };
    assert(v == v0 + frac_add);
    assert(s3.skip(ul) =~= r);
    assert(parse_terms(s, acc) == parse_terms(r, acc + v));
}

/// Parsing a term whose unit is ten to the `p` nanoseconds and whose
/// fraction is the trimmed low `p` digits of `v` adds the whole part
/// scaled by the unit plus `v`'s low digits.
#[verifier::rlimit(100)]
proof fn lemma_parse_scaled_term(whole: nat, v: nat, p: nat, u: Seq<char>, r: Seq<char>, acc: nat)
    requires
        p <= 9,
        unit_mult(u) == pow10(p),
        u.len() >= 1,
        forall|j: int| 0 <= j < u.len() ==> is_unit_char(u[j]),
        r.len() == 0 || is_digit(r[0]),
        whole <= u64::MAX,
        whole * pow10(p) <= 0x8000_0000_0000_0000,
        acc + whole * pow10(p) + v % pow10(p) <= 0x8000_0000_0000_0000,
    ensures
        parse_terms(int_str(whole) + frac_part(v, p) + u + r, acc) == parse_terms(
            r,
            acc + whole * pow10(p) + v % pow10(p),
        ),
{
    lemma_int_str_val(whole);
    lemma_trim_pad(v, p);
    crate::digits::lemma_pow10_pos(p);
    let t = trim_zeros(pad_str(v, p));
    let ft = digits_val(t);
    let k = t.len();
    assert(pow10(9) == 1000000000) by {
        reveal_with_fuel(pow10, 11);
    }
    assert(pow10(p) >= 1);
    assert(unit_mult(u) >= 1);
    assert(v % pow10(p) < pow10(p)) by {
        lemma_mod_bound(v as int, pow10(p) as int);
    }
    assert(pow10(p) <= 1000000000) by {
        crate::digits::lemma_pow10_mono(p, 9);
    }
    if k == 0 {
        assert(ft == 0) by {
            assert(t =~= Seq::<char>::empty());
        }
        assert(pow10((p - k as int) as nat) == pow10(p));
        assert(v % pow10(p) == 0) by {
            assert(0 * pow10(p) == 0) by (nonlinear_arith);
        }
        assert(frac_part(v, p) =~= Seq::<char>::empty());
        assert(int_str(whole) + frac_part(v, p) + u + r =~= int_str(whole) + u + r);
        lemma_parse_term(int_str(whole), false, Seq::<char>::empty(), u, r, acc);
        assert(digits_val(Seq::<char>::empty()) == 0);
    } else {
        assert(ft >= 1) by {
            assert(digits_val(t) == digits_val(t.drop_last()) * 10 + digit_val(t.last()));
        }
        assert(k >= 1);
        assert(k <= p);
        assert(p >= 1);
        assert(ft < pow10(k));
        assert(frac_part(v, p) == seq!['.'] + t);
        assert(int_str(whole) + frac_part(v, p) + u + r =~= (int_str(whole) + seq!['.'] + t) + u
            + r);
        lemma_frac_ns_exact(ft, p, k);
        assert(spec_frac_ns(ft, pow10(p), k) == ft * pow10((p - k as int) as nat));
        assert(ft * pow10((p - k as int) as nat) == v % pow10(p));
        assert(ft <= i64::MAX) by {
            crate::digits::lemma_pow10_mono(k, 9);
        }
        lemma_parse_term(int_str(whole), true, t, u, r, acc);
    }
}

/// Parsing the rendering of a positive magnitude recovers the magnitude.
proof fn lemma_parse_fmt_pos(u: nat)
    requires
        1 <= u <= 0x8000_0000_0000_0000,
    ensures
        parse_terms(fmt_pos(u), 0) == Ok::<nat, Error>(u),
{
    if u < 1000 {
        lemma_parse_fmt_pos_ns(u);
    } else if u < 1000000 {
        lemma_parse_fmt_pos_us(u);
    } else if u < 1000000000 {
        lemma_parse_fmt_pos_ms(u);
    } else {
        lemma_parse_fmt_pos_large(u);
    }
}

/// Parsing the nanosecond rendering of a magnitude below one microsecond.
#[verifier::rlimit(100)]
proof fn lemma_parse_fmt_pos_ns(u: nat)
    requires
        1 <= u < 1000,
    ensures
        parse_terms(fmt_pos(u), 0) == Ok::<nat, Error>(u),
{
    lemma2_pow10_table();
    assert(!is_digit('n') && 'n' != '.') by {
        assert('n' as u32 == 110);
    }
    assert(!is_digit('s') && 's' != '.') by {
        assert('s' as u32 == 115);
    }
    let us = seq!['n', 's'];
    assert(unit_mult(us) == 1);
    assert(unit_mult(us) == pow10(0));
    assert(fmt_pos(u) =~= int_str(u) + frac_part(u, 0) + us + Seq::<char>::empty()) by {
        assert(pad_str(u, 0) =~= Seq::<char>::empty());
        assert(frac_part(u, 0) =~= Seq::<char>::empty());
    }
    lemma_parse_scaled_term(u, u, 0, us, Seq::<char>::empty(), 0);
    assert(u * pow10(0) == u) by {
        assert(pow10(0) == 1);
    }
    assert(u % pow10(0) == 0) by {
        assert(pow10(0) == 1);
    }
}

/// Parsing the microsecond rendering of a magnitude below one millisecond.
#[verifier::rlimit(100)]
proof fn lemma_parse_fmt_pos_us(u: nat)
    requires
        1000 <= u < 1000000,
    ensures
        parse_terms(fmt_pos(u), 0) == Ok::<nat, Error>(u),
{
    lemma2_pow10_table();
    assert(!is_digit('u') && 'u' != '.') by {
        assert('u' as u32 == 117);
    }
    assert(!is_digit('s') && 's' != '.') by {
        assert('s' as u32 == 115);
    }
    let us = seq!['u', 's'];
    assert(unit_mult(us) == 1000);
    assert(unit_mult(us) == pow10(3));
    assert(fmt_pos(u) =~= int_str(u / 1000) + frac_part(u, 3) + us + Seq::<char>::empty());
    lemma_parse_scaled_term(u / 1000, u, 3, us, Seq::<char>::empty(), 0);
    lemma_fundamental_div_mod(u as int, 1000);
    assert((u / 1000) * 1000 == 1000 * (u / 1000)) by (nonlinear_arith);
}

/// Parsing the millisecond rendering of a magnitude below one second.
#[verifier::rlimit(100)]
proof fn lemma_parse_fmt_pos_ms(u: nat)
    requires
        1000000 <= u < 1000000000,
    ensures
        parse_terms(fmt_pos(u), 0) == Ok::<nat, Error>(u),
{
    lemma2_pow10_table();
    assert(!is_digit('m') && 'm' != '.') by {
        assert('m' as u32 == 109);
    }
    assert(!is_digit('s') && 's' != '.') by {
        assert('s' as u32 == 115);
    }
    let us = seq!['m', 's'];
    assert(unit_mult(us) == 1000000);
    assert(unit_mult(us) == pow10(6));
    assert(fmt_pos(u) =~= int_str(u / 1000000) + frac_part(u, 6) + us + Seq::<char>::empty());
    lemma_parse_scaled_term(u / 1000000, u, 6, us, Seq::<char>::empty(), 0);
    lemma_fundamental_div_mod(u as int, 1000000);
    assert((u / 1000000) * 1000000 == 1000000 * (u / 1000000)) by (nonlinear_arith);
}

/// Parsing the rendering of a magnitude of one second or more recovers it.
#[verifier::rlimit(100)]
proof fn lemma_parse_fmt_pos_large(u: nat)
    requires
        1000000000 <= u <= 0x8000_0000_0000_0000,
    ensures
        parse_terms(fmt_pos(u), 0) == Ok::<nat, Error>(u),
{
    lemma2_pow10_table();
    assert(!is_digit('m') && 'm' != '.') by {
        assert('m' as u32 == 109);
    }
    assert(!is_digit('s') && 's' != '.') by {
        assert('s' as u32 == 115);
    }
    assert(!is_digit('h') && 'h' != '.') by {
        assert('h' as u32 == 104);
    }
    {
        let secs = u / 1000000000;
        let mins = secs / 60;
        let hours = mins / 60;
        let hu = seq!['h'];
        let mu = seq!['m'];
        let su = seq!['s'];
        assert(unit_mult(hu) == 3600000000000);
        assert(unit_mult(mu) == 60000000000);
        assert(unit_mult(su) == 1000000000);
        let sec_here = u % 1000000000 != 0 || secs % 60 != 0;
        let sec_part = if u % 1000000000 != 0 {
            int_str(secs % 60) + frac_part(u, 9) + su
        } else if secs % 60 != 0 {
            int_str(secs % 60) + su
        } else {
            Seq::<char>::empty()
        };
        let min_part = if mins > 0 && mins % 60 != 0 {
            int_str(mins % 60) + mu
        } else {
            Seq::<char>::empty()
        };
        let hour_part = if hours > 0 {
            int_str(hours) + hu
        } else {
            Seq::<char>::empty()
        };
        assert(fmt_pos(u) == hour_part + min_part + sec_part);
        // the decomposition identity
        lemma_fundamental_div_mod(u as int, 1000000000);
        lemma_fundamental_div_mod(secs as int, 60);
        lemma_fundamental_div_mod(mins as int, 60);
        lemma_mod_bound(u as int, 1000000000);
        lemma_mod_bound(secs as int, 60);
        lemma_mod_bound(mins as int, 60);
        assert(u == hours * 3600000000000 + (mins % 60) * 60000000000 + (secs % 60) * 1000000000
            + u % 1000000000) by (nonlinear_arith)
            requires
                u == 1000000000 * secs + u % 1000000000,
                secs == 60 * mins + secs % 60,
                mins == 60 * hours + mins % 60,
        ;
        let a1 = hours * 3600000000000;
        let a2 = a1 + (mins % 60) * 60000000000;
        let a3 = a2 + (secs % 60) * 1000000000 + u % 1000000000;
        assert(a3 == u);
        lemma_int_str_val(hours);
        lemma_int_str_val(mins % 60);
        lemma_int_str_val(secs % 60);
        // the rest after each part starts with a digit or ends the input
        assert(min_part + sec_part =~= (min_part + sec_part));
        let rest1 = min_part + sec_part;
        assert(rest1.len() == 0 || is_digit(rest1[0])) by {
            if min_part.len() > 0 {
                assert(rest1[0] == int_str(mins % 60)[0]);
            } else if sec_part.len() > 0 {
                assert(rest1[0] == sec_part[0]);
                assert(sec_part[0] == int_str(secs % 60)[0]);
            }
        }
        assert(sec_part.len() == 0 || is_digit(sec_part[0])) by {
            if sec_part.len() > 0 {
                assert(sec_part[0] == int_str(secs % 60)[0]);
            }
        }
        // hours
        assert(parse_terms(fmt_pos(u), 0) == parse_terms(rest1, a1)) by {
            if hours > 0 {
                assert(hours <= u64::MAX);
                assert(fmt_pos(u) =~= (int_str(hours) + hu) + rest1);
                assert((int_str(hours) + hu) + rest1 =~= int_str(hours) + hu + rest1);
                lemma_parse_term(
                    int_str(hours),
                    false,
                    Seq::<char>::empty(),
                    hu,
                    rest1,
                    0,
                );
                assert(digits_val(Seq::<char>::empty()) == 0);
            } else {
                assert(fmt_pos(u) =~= rest1);
            }
        }
        // minutes
        assert(parse_terms(rest1, a1) == parse_terms(sec_part, a2)) by {
            if mins > 0 && mins % 60 != 0 {
                assert(mins % 60 <= u64::MAX);
                assert((mins % 60) * 60000000000 <= 60 * 60000000000) by {
                    lemma_mul_inequality((mins % 60) as int, 60, 60000000000);
                }
                assert(rest1 =~= (int_str(mins % 60) + mu) + sec_part);
                assert((int_str(mins % 60) + mu) + sec_part =~= int_str(mins % 60) + mu
                    + sec_part);
                lemma_parse_term(
                    int_str(mins % 60),
                    false,
                    Seq::<char>::empty(),
                    mu,
                    sec_part,
                    a1,
                );
                assert(digits_val(Seq::<char>::empty()) == 0);
            } else {
                assert(rest1 =~= sec_part);
                assert((mins % 60) * 60000000000 == 0) by (nonlinear_arith)
                    requires
                        mins == 0 || mins % 60 == 0,
                ;
            }
        }
        // seconds
        assert(parse_terms(sec_part, a2) == Ok::<nat, Error>(u)) by {
            if sec_here {
                assert((secs % 60) * 1000000000 <= 60 * 1000000000) by {
                    lemma_mul_inequality((secs % 60) as int, 60, 1000000000);
                }
                assert(u % pow10(9) == u % 1000000000);
                assert(sec_part =~= int_str(secs % 60) + frac_part(u, 9) + su
                    + Seq::<char>::empty()) by {
                    if u % 1000000000 == 0 {
                        lemma_trim_pad(u, 9);
                        let t = trim_zeros(pad_str(u, 9));
                        if t.len() > 0 {
                            assert(digits_val(t) >= 1) by {
                                assert(digits_val(t) == digits_val(t.drop_last()) * 10
                                    + digit_val(t.last()));
                            }
                            crate::digits::lemma_pow10_pos((9 - t.len()) as nat);
                            assert(digits_val(t) * pow10((9 - t.len()) as nat) >= 1 * 1)
                                by (nonlinear_arith)
                                requires
                                    digits_val(t) >= 1,
                                    pow10((9 - t.len()) as nat) >= 1,
                            ;
                        }
                        assert(frac_part(u, 9) =~= Seq::<char>::empty());
                    }
                }
                lemma_parse_scaled_term(secs % 60, u, 9, su, Seq::<char>::empty(), a2);
                assert(a2 + (secs % 60) * pow10(9) + u % pow10(9) == u);
            } else {
                assert(sec_part =~= Seq::<char>::empty());
                assert((secs % 60) * 1000000000 == 0) by (nonlinear_arith)
                    requires
                        secs % 60 == 0,
                ;
                assert(a2 == u);
            }
        }
    }
}

/// The digit of the zero rendering.
proof fn lemma_zero_digit()
    ensures
        is_digit('0'),
        digit_val('0') == 0,
{
    assert('0' as u32 == 48);
}

/// Concrete values of the small powers of ten.
proof fn lemma2_pow10_table()
    ensures
        pow10(0) == 1,
        pow10(3) == 1000,
        pow10(6) == 1000000,
        pow10(9) == 1000000000,
{
    reveal_with_fuel(pow10, 11);
}

/// The round-trip law: re-parsing the canonical rendering of any signed
/// nanosecond count yields exactly that count.
pub proof fn lemma_format_parse_round_trip(n: i64)
    ensures
        parse_spec(fmt_spec(n as int)) == Ok::<int, Error>(n as int),
{
    let s = fmt_spec(n as int);
    if n == 0 {
        assert(s == seq!['0', 's']);
        assert(s[0] == '0' && s[0] != '-' && s[0] != '+') by {
            assert('0' as u32 == 48);
        }
        assert(strip_sign(s) == (false, s));
        assert(s.len() == 2);
        lemma_parse_fmt_pos_zero(s);
    } else {
        let u = if n < 0 {
            (-(n as int)) as nat
        } else {
            n as nat
        };
        assert(1 <= u <= 0x8000_0000_0000_0000);
        lemma_parse_fmt_pos(u);
        lemma_fmt_pos_shape(u);
        if n < 0 {
            assert(s == seq!['-'] + fmt_pos(u));
            assert(s.len() > 0 && s[0] == '-');
            assert(strip_sign(s) == (true, s.skip(1)));
            assert(s.skip(1) =~= fmt_pos(u));
            assert(!(fmt_pos(u).len() == 1 && fmt_pos(u)[0] == '0'));
            assert(fmt_pos(u).len() > 0);
            assert(parse_spec(s) == Ok::<int, Error>(-(u as int)));
        } else {
            assert(s == fmt_pos(u));
            assert(s[0] != '-' && s[0] != '+');
            assert(strip_sign(s) == (false, s));
            assert(!(s.len() == 1 && s[0] == '0'));
            assert(u <= i64::MAX);
            assert(parse_spec(s) == Ok::<int, Error>(u as int));
        }
    }
}

/// The rendering of a positive magnitude is non-empty, at least two
/// characters, starts with a digit, and ends with a unit letter.
proof fn lemma_fmt_pos_shape(u: nat)
    requires
        1 <= u <= 0x8000_0000_0000_0000,
    ensures
        fmt_pos(u).len() >= 2,
        is_digit(fmt_pos(u)[0]),
        fmt_pos(u)[0] != '-' && fmt_pos(u)[0] != '+',
{
    let s = fmt_pos(u);
    if u < 1000000000 {
        lemma_int_str_val(u);
        lemma_int_str_val(u / 1000);
        lemma_int_str_val(u / 1000000);
        assert(is_digit(s[0]));
    } else {
        let secs = u / 1000000000;
        let mins = secs / 60;
        let hours = mins / 60;
        lemma_int_str_val(hours);
        lemma_int_str_val(mins % 60);
        lemma_int_str_val(secs % 60);
        if hours > 0 {
            assert(s[0] == int_str(hours)[0]);
        } else if mins > 0 && mins % 60 != 0 {
            assert(s[0] == int_str(mins % 60)[0]);
        } else {
            assert(u % 1000000000 != 0 || secs % 60 != 0) by {
                if u % 1000000000 == 0 && secs % 60 == 0 {
                    lemma_fundamental_div_mod(u as int, 1000000000);
                    lemma_fundamental_div_mod(secs as int, 60);
                    lemma_fundamental_div_mod(mins as int, 60);
                    assert(u == 1000000000 * secs);
                    assert(secs == 60 * mins);
                    assert(mins == 60 * hours);
                    assert(u == 0) by (nonlinear_arith)
                        requires
                            u == 1000000000 * secs,
                            secs == 60 * mins,
                            mins == 60 * hours,
                            hours == 0,
                    ;
                }
            }
            assert(s[0] == int_str(secs % 60)[0]);
        }
        assert(is_digit(s[0]));
    }
    assert(s[0] != '-') by {
        assert('-' as u32 == 45);
    }
    assert(s[0] != '+') by {
        assert('+' as u32 == 43);
    }
}

/// The two-character rendering of zero parses back to zero.
proof fn lemma_parse_fmt_pos_zero(s: Seq<char>)
    requires
        s == seq!['0', 's'],
    ensures
        parse_spec(s) == Ok::<int, Error>(0),
{
    assert(strip_sign(s) == (false, s)) by {
        assert('0' as u32 == 48);
    }
    assert(!(s.len() == 1));
    assert(is_digit(s[0]));
    assert(!is_digit('s') && 's' != '.') by {
        assert('s' as u32 == 115);
    }
    let d = seq!['0'];
    let su = seq!['s'];
    lemma_zero_digit();
    assert(d[0] == '0');
    assert(all_digits(d));
    assert(digits_val(d) == 0) by {
        assert(d.drop_last() =~= Seq::<char>::empty());
        assert(d.last() == '0');
        assert(digits_val(Seq::<char>::empty()) == 0);
        assert(0 * 10 == 0) by (nonlinear_arith);
    }
    assert(unit_mult(su) == 1000000000);
    assert(s =~= d + su + Seq::<char>::empty());
    lemma_parse_term(d, false, Seq::<char>::empty(), su, Seq::<char>::empty(), 0);
    assert(digits_val(Seq::<char>::empty()) == 0);
    assert(0 * 1000000000 == 0) by (nonlinear_arith);
    assert(parse_terms(s, 0) == Ok::<nat, Error>(0));
}

} // verus!
