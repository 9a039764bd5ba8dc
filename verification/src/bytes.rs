//! Parsing and formatting of human-readable byte sizes.
//!
//! `bytes` and `ibytes` render a byte count with SI (`"42MB"`) or IEC
//! (`"42MiB"`) units, one decimal at most, rounding to nearest.
//! `parse_bytes` reads a decimal number with an optional fraction followed
//! by an optional unit, case-insensitively.

use vstd::prelude::*;
use vstd::arithmetic::mul::lemma_mul_left_inequality;
use crate::digits::{
    digit_char, digits_val, int_str, is_digit, lemma_digits_val_mono, lemma_digits_val_step,
    pow10, push_digit, push_int,
};

verus! {

/// Why a byte-size string was rejected.
#[derive(Eq, PartialEq, Debug, Copy, Clone, Structural)]
pub enum Error {
    /// The leading number is empty or malformed.
    InvalidNumber,
    /// The unit suffix is not in the unit table.
    UnknownUnit,
}

/// A character that can appear in the leading number: a digit or a dot.
pub open spec fn is_num_char(c: char) -> bool {
    is_digit(c) || c == '.'
}

/// Length of the maximal run of number characters starting at index `i`.
pub open spec fn num_run_len(s: Seq<char>, i: int) -> nat
    decreases s.len() - i,
{
    if 0 <= i < s.len() && is_num_char(s[i]) {
        (1 + num_run_len(s, i + 1)) as nat
    } else {
        0
    }
}

/// The maximal number run: every character in it is a digit or dot, and it
/// is followed by the end of the sequence or another kind of character.
pub proof fn lemma_num_run_len(s: Seq<char>, i: int)
    requires
        0 <= i <= s.len(),
    ensures
        i + num_run_len(s, i) <= s.len(),
        forall|j: int| i <= j < i + num_run_len(s, i) ==> is_num_char(s[j]),
        i + num_run_len(s, i) == s.len() || !is_num_char(s[i + num_run_len(s, i)]),
    decreases s.len() - i,
{
    if i < s.len() && is_num_char(s[i]) {
        lemma_num_run_len(s, i + 1);
    }
}

/// An ASCII whitespace character, as trimmed around the unit token.
pub open spec fn is_space(c: char) -> bool {
    c == ' ' || c == '\t' || c == '\n' || c == '\r' || (c as u32) == 11 || (c as u32) == 12
}

/// Length of the maximal run of whitespace starting at index `i`.
pub open spec fn space_run_len(s: Seq<char>, i: int) -> nat
    decreases s.len() - i,
{
    if 0 <= i < s.len() && is_space(s[i]) {
        (1 + space_run_len(s, i + 1)) as nat
    } else {
        0
    }
}

/// The maximal whitespace run at `i`.
pub proof fn lemma_space_run_len(s: Seq<char>, i: int)
    requires
        0 <= i <= s.len(),
    ensures
        i + space_run_len(s, i) <= s.len(),
        forall|j: int| i <= j < i + space_run_len(s, i) ==> is_space(s[j]),
        i + space_run_len(s, i) == s.len() || !is_space(s[i + space_run_len(s, i)]),
    decreases s.len() - i,
{
    if i < s.len() && is_space(s[i]) {
        lemma_space_run_len(s, i + 1);
    }
}

/// Count of trailing whitespace characters.
pub open spec fn back_spaces(s: Seq<char>) -> nat
    decreases s.len(),
{
    if s.len() > 0 && is_space(s.last()) {
        1 + back_spaces(s.drop_last())
    } else {
        0
    }
}

/// Trailing whitespace: it is whitespace and what precedes it is not.
pub proof fn lemma_back_spaces(s: Seq<char>)
    ensures
        back_spaces(s) <= s.len(),
        forall|j: int| s.len() - back_spaces(s) <= j < s.len() ==> is_space(s[j]),
        back_spaces(s) == s.len() || !is_space(s[s.len() - back_spaces(s) - 1]),
    decreases s.len(),
{
    if s.len() > 0 && is_space(s.last()) {
        lemma_back_spaces(s.drop_last());
        assert(forall|j: int| 0 <= j < s.len() - 1 ==> s.drop_last()[j] == s[j]);
    }
}

/// `s` with leading and trailing whitespace removed.
pub open spec fn trim_spaces(s: Seq<char>) -> Seq<char> {
    let t = s.skip(space_run_len(s, 0) as int);
    t.take(t.len() - back_spaces(t))
}

/// Count of dots in `s`.
pub open spec fn dot_count(s: Seq<char>) -> nat
    decreases s.len(),
{
    if s.len() == 0 {
        0
    } else {
        dot_count(s.drop_last()) + (if s.last() == '.' {
            1nat
        } else {
            0nat
        })
    }
}

/// Index of the first dot in `s`, or its length if there is none.
pub open spec fn dot_pos(s: Seq<char>) -> nat
    decreases s.len(),
{
    if s.len() == 0 {
        0
    } else if s[0] == '.' {
        0
    } else {
        1 + dot_pos(s.skip(1))
    }
}

/// A well-formed number: non-empty, at most one dot, at least one digit.
pub open spec fn valid_number(p: Seq<char>) -> bool {
    p.len() > 0 && dot_count(p) <= 1 && dot_count(p) < p.len()
}

/// Value of the integer part of the number `p`.
pub open spec fn int_part_val(p: Seq<char>) -> nat {
    digits_val(p.subrange(0, dot_pos(p) as int))
}

/// The fraction digits of `p`, truncated to at most nineteen digits.
pub open spec fn frac_digit_count(p: Seq<char>) -> nat {
    if dot_pos(p) < p.len() {
        let fl = (p.len() - dot_pos(p) - 1) as nat;
        if fl <= 19 {
            fl
        } else {
            19
        }
    } else {
        0
    }
}

/// Value of the (truncated) fraction digits of `p`.
pub open spec fn frac_part_val(p: Seq<char>) -> nat {
    if dot_pos(p) < p.len() {
        digits_val(p.subrange(dot_pos(p) as int + 1, dot_pos(p) as int + 1 + frac_digit_count(
            p,
        ) as int))
    } else {
        0
    }
}

/// Fold an upper-case ASCII letter to lower case, as a code point.
pub open spec fn lower_u32(c: char) -> int {
    if 65 <= (c as u32) && (c as u32) <= 90 {
        (c as u32) + 32
    } else {
        (c as u32) as int
    }
}

/// The byte multiplier of a unit token, compared case-insensitively:
/// SI prefixes (and a bare letter, or a `B` suffix) scale by powers of
/// 1000, `i`-suffixed prefixes by powers of 1024.  `None` for a token
/// that is not in the table.
pub open spec fn size_scale(u: Seq<char>) -> Option<nat> {
    if u.len() == 0 {
        Some(1nat)
    } else if u.len() == 1 {
        si_letter_scale(lower_u32(u[0]), 1000)
    } else if u.len() == 2 && lower_u32(u[1]) == 98 {
        prefix_pow(lower_u32(u[0]), 1000)
    } else if u.len() == 2 && lower_u32(u[1]) == 105 {
        prefix_pow(lower_u32(u[0]), 1024)
    } else if u.len() == 3 && lower_u32(u[1]) == 105 && lower_u32(u[2]) == 98 {
        prefix_pow(lower_u32(u[0]), 1024)
    } else {
        None
    }
}

/// Scale for a single letter: `b` is one byte, the rest are SI prefixes.
pub open spec fn si_letter_scale(l: int, base: nat) -> Option<nat> {
    if l == 98 {
        Some(1nat)
    } else {
        prefix_pow(l, base)
    }
}

/// The power of `base` selected by a prefix letter `k`/`m`/`g`/`t`/`p`/`e`.
pub open spec fn prefix_pow(l: int, base: nat) -> Option<nat> {
    if l == 107 {
        Some(base)
    } else if l == 109 {
        Some(base * base)
    } else if l == 103 {
        Some(base * base * base)
    } else if l == 116 {
        Some(base * base * base * base)
    } else if l == 112 {
        Some(base * base * base * base * base)
    } else if l == 101 {
        Some(base * base * base * base * base * base)
    } else {
        None
    }
}

/// The meaning of a byte-size string: the number's exact decimal value
/// (its fraction truncated to nineteen digits) scaled by the unit's
/// multiplier, rounded down, saturating at `usize::MAX`; or the error the
/// grammar assigns to it.
pub open spec fn parse_bytes_spec(input: Seq<char>) -> Result<nat, Error> {
    let n = num_run_len(input, 0) as int;
    let p = input.take(n);
    let unit = trim_spaces(input.skip(n));
    if !valid_number(p) {
        Err(Error::InvalidNumber)
    } else {
        match size_scale(unit) {
            None => Err(Error::UnknownUnit),
            Some(scale) => {
                let k = frac_digit_count(p);
                let total = int_part_val(p) * scale + (frac_part_val(p) * scale) / pow10(k);
                Ok(
                    if total > usize::MAX {
                        usize::MAX as nat
                    } else {
                        total
                    },
                )
            },
        }
    }
}

/// Repeated multiplication by `base`.
pub open spec fn pow_base(base: nat, e: nat) -> nat
    decreases e,
{
    if e == 0 {
        1
    } else {
        base * pow_base(base, (e - 1) as nat)
    }
}

/// The exponent of the largest power of `base`, at most the sixth, that
/// does not exceed `s`.
pub open spec fn size_exp(s: nat, base: nat) -> nat {
    if s >= pow_base(base, 6) {
        6
    } else if s >= pow_base(base, 5) {
        5
    } else if s >= pow_base(base, 4) {
        4
    } else if s >= pow_base(base, 3) {
        3
    } else if s >= pow_base(base, 2) {
        2
    } else if s >= pow_base(base, 1) {
        1
    } else {
        0
    }
}

/// Unit suffix for exponent `e`: SI names for base 1000, IEC names for
/// base 1024.
pub open spec fn suffix_str(base: nat, e: nat) -> Seq<char> {
    if e == 0 {
        seq!['B']
    } else if base == 1000 {
        if e == 1 {
            seq!['k', 'B']
        } else if e == 2 {
            seq!['M', 'B']
        } else if e == 3 {
            seq!['G', 'B']
        } else if e == 4 {
            seq!['T', 'B']
        } else if e == 5 {
            seq!['P', 'B']
        } else {
            seq!['E', 'B']
        }
    } else {
        if e == 1 {
            seq!['K', 'i', 'B']
        } else if e == 2 {
            seq!['M', 'i', 'B']
        } else if e == 3 {
            seq!['G', 'i', 'B']
        } else if e == 4 {
            seq!['T', 'i', 'B']
        } else if e == 5 {
            seq!['P', 'i', 'B']
        } else {
            seq!['E', 'i', 'B']
        }
    }
}

/// The rendering of a byte count `s` under `base`: counts below ten are
/// plain bytes; otherwise the count is scaled by the largest power of
/// `base` it reaches, rounded to one decimal, with the trailing `.0`
/// omitted.
pub open spec fn humanate_spec(s: nat, base: nat) -> Seq<char> {
    if s < 10 {
        int_str(s) + seq!['B']
    } else {
        let e = size_exp(s, base);
        let p = pow_base(base, e);
        let r = (20 * s + p) / (2 * p);
        int_str(r / 10) + (if r % 10 != 0 {
            seq!['.'] + seq![digit_char(r % 10)]
        } else {
            Seq::<char>::empty()
        }) + suffix_str(base, e)
    }
}

/// parse_bytes parses a string representation of bytes into the count it
/// stands for: `parse_bytes("42 MB")` is `Ok(42000000)` and
/// `parse_bytes("42 MiB")` is `Ok(44040192)`.
#[verifier::rlimit(100)]
pub fn parse_bytes(input: &str) -> (r: Result<usize, Error>)
    ensures
        parse_bytes_spec(input@) matches Ok(v) ==> (r matches Ok(x) && x as nat == v),
        parse_bytes_spec(input@) matches Err(e) ==> r == Err::<usize, Error>(e),
{
    let len = input.unicode_len();
    let n = num_run_end(input, 0);
    proof {
        lemma_num_run_len(input@, 0);
    }
    let ghost p = input@.take(n as int);
    proof {
        assert(p.len() == n);
        assert(forall|j: int| 0 <= j < n ==> p[j] == input@[j] && is_num_char(input@[j]));
    }
    let mut dots: usize = 0;
    let mut dp: usize = n;
    let mut i: usize = 0;
    while i < n
        invariant
            0 <= i <= n <= len,
            len == input@.len(),
            p == input@.take(n as int),
            p.len() == n,
            forall|j: int| 0 <= j < n ==> p[j] == input@[j],
            dots as nat == dot_count(p.take(i as int)),
            dots <= i,
            dp == n || (dp < i && p[dp as int] == '.'),
            forall|j: int| 0 <= j < i && j < dp ==> p[j] != '.',
            dp == n ==> forall|j: int| 0 <= j < i ==> p[j] != '.',
        decreases n - i,
    {
        let c = input.get_char(i);
        proof {
            assert(p[i as int] == input@[i as int]);
            assert(p.take(i as int + 1).drop_last() =~= p.take(i as int));
            assert(p.take(i as int + 1).last() == p[i as int]);
        }
        if c == '.' {
            if dp == n {
                dp = i;
            }
            dots = dots + 1;
        }
        i = i + 1;
    }
    proof {
        assert(p.take(n as int) =~= p);
        if dp == n {
            lemma_dot_pos(p, n as int);
        } else {
            lemma_dot_pos(p, dp as int);
        }
        assert(dp as nat == dot_pos(p));
    }
    if !(n > 0 && dots <= 1 && dots < n) {
        return Err(Error::InvalidNumber);
    }
    proof {
        assert(valid_number(p));
        assert(forall|j: int| 0 <= j < dp ==> is_digit(p[j])) by {
            assert(forall|j: int|
                0 <= j < dp ==> is_num_char(p[j]) && p[j] != '.' && is_digit(p[j]));
        }
        if dp < n {
            assert(forall|j: int| dp < j < n ==> p[j] != '.') by {
                assert forall|j: int| dp < j < n implies p[j] != '.' by {
                    if p[j] == '.' {
                        lemma_dot_count_pair(p, dp as int, j);
                    }
                }
            }
            assert(forall|j: int| dp < j < n ==> is_digit(p[j]));
        }
    }
    let mut x: u64 = 0;
    let mut big = false;
    let mut i2: usize = 0;
    while i2 < dp
        invariant
            0 <= i2 <= dp <= n <= len,
            len == input@.len(),
            p == input@.take(n as int),
            p.len() == n,
            forall|j: int| 0 <= j < n ==> p[j] == input@[j],
            forall|j: int| 0 <= j < dp ==> is_digit(p[j]),
            !big ==> x as nat == digits_val(p.subrange(0, i2 as int)),
            big ==> digits_val(p.subrange(0, dp as int)) > u64::MAX,
        decreases dp - i2,
    {
        let c = input.get_char(i2);
        let cu = c as u32;
        proof {
            assert(is_digit(p[i2 as int]));
            lemma_digits_val_step(p, i2 as int);
            lemma_digits_val_mono(p, i2 as int + 1, dp as int);
        }
        let d = (cu - 48) as u64;
        if !big {
            if x > u64::MAX / 10 {
                proof {
                    assert(x * 10 + d > u64::MAX) by (nonlinear_arith)
                        requires
                            x > u64::MAX / 10,
                            d >= 0,
                    ;
                }
                big = true;
            } else {
                let y = x * 10;
                if d > u64::MAX - y {
                    big = true;
                } else {
                    x = y + d;
                }
            }
        }
        i2 = i2 + 1;
    }
    let fl: usize = if dp < n {
        n - dp - 1
    } else {
        0
    };
    let kk: usize = if fl > 19 {
        19
    } else {
        fl
    };
    proof {
        assert(kk as nat == frac_digit_count(p));
        assert(pow10(19) == 10000000000000000000) by {
            reveal_with_fuel(pow10, 21);
        }
    }
    let mut fv: u64 = 0;
    let mut j: usize = 0;
    while j < kk
        invariant
            0 <= j <= kk,
            dp < n || kk == 0,
            kk <= 19,
            n <= len,
            dp <= n,
            dp == n || dp + 1 + kk <= n,
            len == input@.len(),
            p == input@.take(n as int),
            p.len() == n,
            forall|jj: int| 0 <= jj < n ==> p[jj] == input@[jj],
            forall|jj: int| dp < jj < n ==> is_digit(p[jj]),
            dp < n ==> fv as nat == digits_val(p.subrange(dp as int + 1, dp as int + 1 + j as int)),
            dp == n ==> fv == 0,
            (fv as nat) < pow10(j as nat),
            pow10(19) == 10000000000000000000,
        decreases kk - j,
    {
        let c = input.get_char(dp + 1 + j);
        let cu = c as u32;
        proof {
            assert(is_digit(p[dp as int + 1 + j as int]));
            let t = p.subrange(dp as int + 1, dp as int + 1 + j as int + 1);
            assert(t.drop_last() =~= p.subrange(dp as int + 1, dp as int + 1 + j as int));
            assert(t.last() == p[dp as int + 1 + j as int]);
            crate::digits::lemma_pow10_mono(j as nat + 1, 19);
            assert(pow10(j as nat + 1) == 10 * pow10(j as nat));
        }
        let d = (cu - 48) as u64;
        fv = fv * 10 + d;
        j = j + 1;
    }
    let rest = input.substring_char(n, len);
    let front = space_run_end(rest, 0);
    let rlen = rest.unicode_len();
    let t1 = rest.substring_char(front, rlen);
    let t1len = t1.unicode_len();
    let mut b = t1len;
    proof {
        assert(t1@.take(t1len as int) =~= t1@);
    }
    loop
        invariant
            b <= t1len,
            t1len == t1@.len(),
            back_spaces(t1@) == back_spaces(t1@.take(b as int)) + (t1len - b),
        ensures
            b <= t1len,
            back_spaces(t1@) == t1@.len() - b,
        decreases b,
    {
        if b == 0 {
            proof {
                assert(t1@.take(0) =~= Seq::<char>::empty());
            }
            break ;
        }
        let c = t1.get_char(b - 1);
        if !is_space_char(c) {
            proof {
                assert(t1@.take(b as int).last() == t1@[b as int - 1]);
                assert(back_spaces(t1@.take(b as int)) == 0);
            }
            break ;
        }
        proof {
            assert(t1@.take(b as int).last() == t1@[b as int - 1]);
            assert(t1@.take(b as int).drop_last() =~= t1@.take(b as int - 1));
            assert(back_spaces(t1@.take(b as int)) == 1 + back_spaces(t1@.take(b as int - 1)));
        }
        b = b - 1;
    }
    let unit = t1.substring_char(0, b);
    proof {
        assert(rest@ == input@.skip(n as int));
        assert(t1@ == rest@.skip(front as int));
        assert(unit@ =~= t1@.take(t1@.len() - back_spaces(t1@)));
        assert(unit@ == trim_spaces(input@.skip(n as int)));
    }
    let scale = match calculate_scale(unit) {
        Some(v) => v,
        None => {
            return Err(Error::UnknownUnit);
        },
    };
    let p10 = pow10_u64(kk as u64);
    if big {
        proof {
            let iv = int_part_val(p);
            assert(iv * (scale as nat) >= iv * 1) by {
                lemma_mul_left_inequality(iv as int, 1, scale as int);
            }
            assert(iv * 1 == iv);
        }
        return Ok(usize::MAX);
    }
    proof {
        assert((x as nat) * (scale as nat) <= 0xffff_ffff_ffff_ffff * 0x1000_0000_0000_0000) by {
            vstd::arithmetic::mul::lemma_mul_upper_bound(
                x as int,
                0xffff_ffff_ffff_ffff,
                scale as int,
                0x1000_0000_0000_0000,
            );
        }
        assert((fv as nat) * (scale as nat) <= 0xffff_ffff_ffff_ffff * 0x1000_0000_0000_0000) by {
            vstd::arithmetic::mul::lemma_mul_upper_bound(
                fv as int,
                0xffff_ffff_ffff_ffff,
                scale as int,
                0x1000_0000_0000_0000,
            );
        }
    }
    let total: u128 = (x as u128) * (scale as u128) + ((fv as u128) * (scale as u128)) / (
    p10 as u128);
    if total > (usize::MAX as u128) {
        Ok(usize::MAX)
    } else {
        Ok(total as usize)
    }
}

/// Render a byte count with one decimal and the right unit under `base`.
#[verifier::rlimit(50)]
fn humanate_bytes(s: usize, base: u64) -> (r: String)
    requires
        base == 1000 || base == 1024,
    ensures
        r@ == humanate_spec(s as nat, base as nat),
{
    let mut out = String::new();
    if s < 10 {
        push_int(&mut out, s as u64);
        out.push('B');
        proof {
            assert(out@ =~= humanate_spec(s as nat, base as nat));
        }
        return out;
    }
    let s64: u64 = s as u64;
    let p1: u64 = base;
    let p2: u64 = p1 * base;
    let p3: u64 = p2 * base;
    let p4: u64 = p3 * base;
    let p5: u64 = p4 * base;
    let p6: u64 = p5 * base;
    proof {
        reveal_with_fuel(pow_base, 8);
        assert(pow_base(base as nat, 1) == p1);
        assert(pow_base(base as nat, 2) == p2);
        assert(pow_base(base as nat, 3) == p3);
        assert(pow_base(base as nat, 4) == p4);
        assert(pow_base(base as nat, 5) == p5);
        assert(pow_base(base as nat, 6) == p6);
    }
    let (e, p): (u64, u64) = if s64 >= p6 {
        (6, p6)
    } else if s64 >= p5 {
        (5, p5)
    } else if s64 >= p4 {
        (4, p4)
    } else if s64 >= p3 {
        (3, p3)
    } else if s64 >= p2 {
        (2, p2)
    } else if s64 >= p1 {
        (1, p1)
    } else {
        (0, 1)
    };
    proof {
        assert(size_exp(s as nat, base as nat) == e);
        assert(pow_base(base as nat, e as nat) == p) by {
            reveal_with_fuel(pow_base, 8);
        }
    }
    let num: u128 = 20u128 * (s64 as u128) + (p as u128);
    let den: u128 = 2u128 * (p as u128);
    let r128: u128 = num / den;
    proof {
        assert(r128 < 0x1_0000_0000_0000_0000) by {
            if e == 6 {
                assert((den as nat) * 0x1_0000_0000_0000_0000 > num as nat) by (nonlinear_arith)
                    requires
                        den as nat >= 2000000000000000000,
                        (num as nat) < 0x200_0000_0000_0000_0000,
                ;
            } else {
                assert(s64 < p * base);
                assert((num as nat) < (den as nat) * 20000) by (nonlinear_arith)
                    requires
                        (s64 as nat) < (p as nat) * (base as nat),
                        num as nat == 20 * (s64 as nat) + p as nat,
                        den as nat == 2 * (p as nat),
                        base <= 1024,
                        p >= 1,
                ;
            }
            assert((num as nat) / (den as nat) < 0x1_0000_0000_0000_0000) by (nonlinear_arith)
                requires
                    den as nat >= 1,
                    (den as nat) * 0x1_0000_0000_0000_0000 > num as nat || (num as nat) < ((
                    den) as nat) * 20000,
            ;
        }
    }
    let rr: u64 = r128 as u64;
    push_int(&mut out, rr / 10);
    if rr % 10 != 0 {
        out.push('.');
        push_digit(&mut out, rr % 10);
    }
    if e == 0 {
        out.push('B');
    } else if base == 1000 {
        if e == 1 {
            out.push('k');
        } else if e == 2 {
            out.push('M');
        } else if e == 3 {
            out.push('G');
        } else if e == 4 {
            out.push('T');
        } else if e == 5 {
            out.push('P');
        } else {
            out.push('E');
        }
        out.push('B');
    } else {
        if e == 1 {
            out.push('K');
        } else if e == 2 {
            out.push('M');
        } else if e == 3 {
            out.push('G');
        } else if e == 4 {
            out.push('T');
        } else if e == 5 {
            out.push('P');
        } else {
            out.push('E');
        }
        out.push('i');
        out.push('B');
    }
    proof {
        assert(out@ =~= humanate_spec(s as nat, base as nat));
    }
    out
}

/// bytes produces a human-readable rendering of an SI size:
/// `bytes(82854982)` is `"82.9MB"`.
#[must_use]
pub fn bytes(s: usize) -> (r: String)
    ensures
        r@ == humanate_spec(s as nat, 1000),
{
    humanate_bytes(s, 1000)
}

/// ibytes produces a human-readable rendering of an IEC size:
/// `ibytes(82854982)` is `"79MiB"`.
#[must_use]
pub fn ibytes(s: usize) -> (r: String)
    ensures
        r@ == humanate_spec(s as nat, 1024),
{
    humanate_bytes(s, 1024)
}

/// An index `j` bounds the first dot exactly when everything before it
/// is not a dot and it holds a dot or ends the sequence.
proof fn lemma_dot_pos(p: Seq<char>, j: int)
    requires
        0 <= j <= p.len(),
        forall|i: int| 0 <= i < j ==> p[i] != '.',
        j == p.len() || p[j] == '.',
    ensures
        dot_pos(p) == j,
    decreases j,
{
    if j > 0 {
        assert(p[0] != '.');
        let q = p.skip(1);
        assert(forall|i: int| 0 <= i < j - 1 ==> q[i] == p[i + 1] && p[i + 1] != '.');
        assert(j - 1 == q.len() || q[j - 1] == p[j]);
        lemma_dot_pos(q, j - 1);
    } else {
        if p.len() > 0 {
            assert(p[0] == '.');
        }
    }
}

/// A dot at some index makes the dot count positive.
proof fn lemma_dot_count_one(p: Seq<char>, a: int)
    requires
        0 <= a < p.len(),
        p[a] == '.',
    ensures
        dot_count(p) >= 1,
    decreases p.len(),
{
    if a == p.len() - 1 {
    } else {
        assert(p.drop_last()[a] == p[a]);
        lemma_dot_count_one(p.drop_last(), a);
    }
}

/// Two dots at distinct indices make the dot count at least two.
proof fn lemma_dot_count_pair(p: Seq<char>, a: int, b: int)
    requires
        0 <= a < b < p.len(),
        p[a] == '.',
        p[b] == '.',
    ensures
        dot_count(p) >= 2,
    decreases p.len(),
{
    if b == p.len() - 1 {
        assert(p.drop_last()[a] == p[a]);
        lemma_dot_count_one(p.drop_last(), a);
    } else {
        assert(p.drop_last()[a] == p[a]);
        assert(p.drop_last()[b] == p[b]);
        lemma_dot_count_pair(p.drop_last(), a, b);
    }
}

/// Index just past the run of number characters starting at `from`.
fn num_run_end(s: &str, from: usize) -> (r: usize)
    requires
        from <= s@.len(),
    ensures
        r == from + num_run_len(s@, from as int),
        r <= s@.len(),
{
    let len = s.unicode_len();
    let mut i: usize = from;
    loop
        invariant
            from <= i <= len,
            len == s@.len(),
            num_run_len(s@, from as int) == i - from + num_run_len(s@, i as int),
        ensures
            from <= i <= len,
            i - from == num_run_len(s@, from as int),
        decreases len - i,
    {
        if i >= len {
            proof {
                assert(num_run_len(s@, i as int) == 0);
            }
            break ;
        }
        let c = s.get_char(i);
        let cu = c as u32;
        if !((48 <= cu && cu <= 57) || c == '.') {
            proof {
                assert(!is_num_char(s@[i as int]));
                assert(num_run_len(s@, i as int) == 0);
            }
            break ;
        }
        proof {
            assert(is_num_char(s@[i as int]));
            assert(num_run_len(s@, i as int) == 1 + num_run_len(s@, i as int + 1));
            lemma_num_run_len(s@, i as int + 1);
        }
        i = i + 1;
    }
    i
}

/// Whether `c` is trimmed as whitespace around a unit token.
fn is_space_char(c: char) -> (r: bool)
    ensures
        r == is_space(c),
{
    let cu = c as u32;
    c == ' ' || cu == 9 || cu == 10 || cu == 13 || cu == 11 || cu == 12
}

/// Index just past the run of whitespace starting at `from`.
fn space_run_end(s: &str, from: usize) -> (r: usize)
    requires
        from <= s@.len(),
    ensures
        r == from + space_run_len(s@, from as int),
        r <= s@.len(),
{
    let len = s.unicode_len();
    let mut i: usize = from;
    loop
        invariant
            from <= i <= len,
            len == s@.len(),
            space_run_len(s@, from as int) == i - from + space_run_len(s@, i as int),
        ensures
            from <= i <= len,
            i - from == space_run_len(s@, from as int),
        decreases len - i,
    {
        if i >= len {
            proof {
                assert(space_run_len(s@, i as int) == 0);
            }
            break ;
        }
        let c = s.get_char(i);
        if !is_space_char(c) {
            proof {
                assert(!is_space(s@[i as int]));
                assert(space_run_len(s@, i as int) == 0);
            }
            break ;
        }
        proof {
            assert(is_space(s@[i as int]));
            assert(space_run_len(s@, i as int) == 1 + space_run_len(s@, i as int + 1));
            lemma_space_run_len(s@, i as int + 1);
        }
        i = i + 1;
    }
    i
}

/// Ten to the power `k`.
fn pow10_u64(k: u64) -> (r: u64)
    requires
        k <= 19,
    ensures
        r as nat == pow10(k as nat),
        r >= 1,
{
    proof {
        assert(pow10(19) == 10000000000000000000) by {
            reveal_with_fuel(pow10, 21);
        }
    }
    let mut r: u64 = 1;
    let mut i: u64 = 0;
    while i < k
        invariant
            i <= k <= 19,
            r as nat == pow10(i as nat),
            pow10(19) == 10000000000000000000,
        decreases k - i,
    {
        proof {
            crate::digits::lemma_pow10_mono(i as nat + 1, 19);
        }
        r = r * 10;
        i = i + 1;
    }
    proof {
        crate::digits::lemma_pow10_pos(k as nat);
    }
    r
}

/// Fold an upper-case ASCII letter to lower case, as a code point.
fn lower_of(c: char) -> (r: u32)
    ensures
        r as int == lower_u32(c),
{
    let cu = c as u32;
    if 65 <= cu && cu <= 90 {
        cu + 32
    } else {
        cu
    }
}

/// The power of `base` selected by a prefix letter.
fn prefix_pow_of(l: u32, base: u64) -> (r: Option<u64>)
    requires
        base == 1000 || base == 1024,
    ensures
        (match r {
            Some(v) => prefix_pow(l as int, base as nat) == Some(v as nat) && 1 <= v
                <= 0x1000_0000_0000_0000,
            None => prefix_pow(l as int, base as nat) is None,
        }),
{
    let e: u64 = if l == 107 {
        1
    } else if l == 109 {
        2
    } else if l == 103 {
        3
    } else if l == 116 {
        4
    } else if l == 112 {
        5
    } else if l == 101 {
        6
    } else {
        0
    };
    if e == 0 {
        return None;
    }
    if base == 1000 {
        if e == 1 {
            Some(1000)
        } else if e == 2 {
            Some(1000000)
        } else if e == 3 {
            Some(1000000000)
        } else if e == 4 {
            Some(1000000000000)
        } else if e == 5 {
            Some(1000000000000000)
        } else {
            Some(1000000000000000000)
        }
    } else {
        if e == 1 {
            Some(1024)
        } else if e == 2 {
            Some(1048576)
        } else if e == 3 {
            Some(1073741824)
        } else if e == 4 {
            Some(1099511627776)
        } else if e == 5 {
            Some(1125899906842624)
        } else {
            Some(1152921504606846976)
        }
    }
}

/// calculate_scale resolves a unit token, compared without regard to
/// ASCII case, into its byte multiplier.
pub fn calculate_scale(unit: &str) -> (r: Option<u64>)
    ensures
        (match r {
            Some(v) => size_scale(unit@) == Some(v as nat) && 1 <= v <= 0x1000_0000_0000_0000,
            None => size_scale(unit@) is None,
        }),
{
    let n = unit.unicode_len();
    if n == 0 {
        Some(1)
    } else if n == 1 {
        let l = lower_of(unit.get_char(0));
        if l == 98 {
            Some(1)
        } else {
            prefix_pow_of(l, 1000)
        }
    } else if n == 2 {
        let l1 = lower_of(unit.get_char(1));
        if l1 == 98 {
            prefix_pow_of(lower_of(unit.get_char(0)), 1000)
        } else if l1 == 105 {
            prefix_pow_of(lower_of(unit.get_char(0)), 1024)
        } else {
            None
        }
    } else if n == 3 {
        if lower_of(unit.get_char(1)) == 105 && lower_of(unit.get_char(2)) == 98 {
            prefix_pow_of(lower_of(unit.get_char(0)), 1024)
        } else {
            None
        }
    } else {
        None
    }
}

} // verus!
