//! Parsing and formatting of human-readable durations.
//!
//! A duration string is a possibly signed sequence of decimal numbers, each
//! with an optional fraction and a unit suffix, such as `"300ms"`, `"-1.5h"`
//! or `"2h45m"`.  Valid units are `"ns"`, `"us"` (or the micro sign in
//! either of its two Unicode encodings), `"ms"`, `"s"`, `"m"`, `"h"`,
//! `"d"` and `"w"`.  A duration is a signed count of nanoseconds.

use vstd::prelude::*;
use vstd::arithmetic::div_mod::{lemma_fundamental_div_mod, lemma_mod_bound};
use vstd::arithmetic::mul::lemma_mul_inequality;
use crate::binary64::{frac_scale_ns, spec_frac_ns};
use crate::digits::{
    digit_char, digit_run_len, digit_val, digits_val, int_str, is_digit, lemma_digit_run_len,
    lemma_digits_val_mono, lemma_digits_val_step, lemma_div10_step, pad_str, pow10, push_int,
    push_pad, trim_zeros,
};

verus! {

/// One nanosecond, the base unit.
pub const NANOSECOND: u64 = 1;

/// Nanoseconds in a microsecond.
pub const MICROSECOND: u64 = 1000 * NANOSECOND;

/// Nanoseconds in a millisecond.
pub const MILLISECOND: u64 = 1000 * MICROSECOND;

/// Nanoseconds in a second.
pub const SECOND: u64 = 1000 * MILLISECOND;

/// Nanoseconds in a minute.
pub const MINUTE: u64 = 60 * SECOND;

/// Nanoseconds in an hour.
pub const HOUR: u64 = 60 * MINUTE;

/// Nanoseconds in a day.
pub const DAY: u64 = 24 * HOUR;

/// Nanoseconds in a week.
pub const WEEK: u64 = 7 * DAY;

/// One more than the largest magnitude the parser accumulates: `2^63`.
pub const MAGNITUDE_LIMIT: u64 = 9223372036854775808;

/// Why a duration string was rejected.
#[derive(Eq, PartialEq, Debug, Copy, Clone, Structural)]
pub enum Error {
    /// A digit run before a decimal point does not fit in an unsigned
    /// 64-bit integer.
    BadInteger,
    /// A malformed term, or an overflow past the 64-bit nanosecond range.
    InvalidDuration,
    /// A term's digits are followed by the end of the input instead of a
    /// unit token.
    MissingUnit,
    /// A non-empty unit token that is not in the unit table.
    UnknownUnit,
}

impl Error {
    /// A short description of the error.
    pub fn message(&self) -> (r: &'static str)
        ensures
            r@ == (match self {
                Error::BadInteger => "bad integer"@,
                Error::InvalidDuration => "invalid duration"@,
                Error::MissingUnit => "missing unit"@,
                Error::UnknownUnit => "unknown unit"@,
            }),
    {
        match self {
            Error::BadInteger => "bad integer",
            Error::InvalidDuration => "invalid duration",
            Error::MissingUnit => "missing unit",
            Error::UnknownUnit => "unknown unit",
        }
    }
}

/// A signed nanosecond-resolution duration.
#[derive(Eq, PartialEq, Debug, Copy, Clone, Structural)]
pub struct Duration {
    /// The signed count of nanoseconds.
    pub nanos: i64,
}

impl Duration {
    /// The duration of `n` nanoseconds, reduced into the signed range as
    /// a two's-complement reinterpretation.
    pub fn from_nanos(n: u64) -> (r: Duration)
        ensures
            r.nanos as int == (if n <= i64::MAX { n as int } else { n - 0x1_0000_0000_0000_0000 }),
    {
        if n <= 0x7fff_ffff_ffff_ffff {
            Duration { nanos: n as i64 }
        } else {
            Duration { nanos: (0i64 - 1) - ((u64::MAX - n) as i64) }
        }
    }

    /// The signed count of nanoseconds.
    pub fn as_nanos(&self) -> (r: i64)
        ensures
            r == self.nanos,
    {
        self.nanos
    }
}

/// A character that continues a unit token: anything but a digit or a dot.
pub open spec fn is_unit_char(c: char) -> bool {
    !is_digit(c) && c != '.'
}

/// Nanosecond multiplier of a unit token; zero for an unknown token.
pub open spec fn unit_mult(u: Seq<char>) -> nat {
    if u.len() == 2 && u[0] == 'n' && u[1] == 's' {
        1
    } else if u.len() == 2 && u[0] == 'u' && u[1] == 's' {
        1000
    } else if u.len() == 2 && u[0] == '\u{00b5}' && u[1] == 's' {
        1000
    } else if u.len() == 2 && u[0] == '\u{03bc}' && u[1] == 's' {
        1000
    } else if u.len() == 2 && u[0] == 'm' && u[1] == 's' {
        1000000
    } else if u.len() == 1 && u[0] == 's' {
        1000000000
    } else if u.len() == 1 && u[0] == 'm' {
        60000000000
    } else if u.len() == 1 && u[0] == 'h' {
        3600000000000
    } else if u.len() == 1 && u[0] == 'd' {
        86400000000000
    } else if u.len() == 1 && u[0] == 'w' {
        604800000000000
    } else {
        0
    }
}

/// Length of the maximal run of unit characters starting at index `i`.
pub open spec fn unit_run_len(s: Seq<char>, i: int) -> nat
    decreases s.len() - i,
{
    if 0 <= i < s.len() && is_unit_char(s[i]) {
        (1 + unit_run_len(s, i + 1)) as nat
    } else {
        0
    }
}

/// The maximal unit run: every character in it is a unit character, and
/// it is followed by the end of the sequence or a digit or dot.
pub proof fn lemma_unit_run_len(s: Seq<char>, i: int)
    requires
        0 <= i <= s.len(),
    ensures
        i + unit_run_len(s, i) <= s.len(),
        forall|j: int| i <= j < i + unit_run_len(s, i) ==> is_unit_char(s[j]),
        i + unit_run_len(s, i) == s.len() || !is_unit_char(s[i + unit_run_len(s, i)]),
    decreases s.len() - i,
{
    if i < s.len() && is_unit_char(s[i]) {
        lemma_unit_run_len(s, i + 1);
    }
}

/// Greedy scan of fraction digits: digits are folded into the accumulator
/// while the value stays within the signed 64-bit range; the first digit
/// that would overflow freezes the value and the count of kept digits.
pub open spec fn frac_scan(s: Seq<char>, i: int, x: nat, k: nat) -> (nat, nat)
    decreases s.len() - i,
{
    if 0 <= i < s.len() {
        let y = x * 10 + digit_val(s[i]);
        if y <= i64::MAX {
            frac_scan(s, i + 1, y, k + 1)
        } else {
            (x, k)
        }
    } else {
        (x, k)
    }
}

/// The sign prefix, if any, and the rest of the input.
pub open spec fn strip_sign(s: Seq<char>) -> (bool, Seq<char>) {
    if s.len() > 0 && (s[0] == '-' || s[0] == '+') {
        (s[0] == '-', s.skip(1))
    } else {
        (false, s)
    }
}

/// One term after another: `term := int? ('.' frac?)? unit`, each term
/// checked-multiplied into nanoseconds and checked-added onto `acc`, with
/// every overflow past `2^63` rejected.
pub open spec fn parse_terms(s: Seq<char>, acc: nat) -> Result<nat, Error>
    decreases s.len(),
        via parse_terms_decreases
{
    if s.len() == 0 {
        Ok(acc)
    } else if !(is_digit(s[0]) || s[0] == '.') {
        Err(Error::InvalidDuration)
    } else {
        let ni = digit_run_len(s, 0);
        let iv = digits_val(s.subrange(0, ni as int));
        if iv > u64::MAX {
            Err(Error::BadInteger)
        } else {
            let s1 = s.skip(ni as int);
            let has_dot = s1.len() > 0 && s1[0] == '.';
            let s2 = if has_dot {
                s1.skip(1)
            } else {
                s1
            };
            let nf = if has_dot {
                digit_run_len(s2, 0)
            } else {
                0
            };
            let fk = frac_scan(s2.subrange(0, nf as int), 0, 0, 0);
            let s3 = s2.skip(nf as int);
            if ni == 0 && nf == 0 {
                Err(Error::InvalidDuration)
            } else {
                let nu = unit_run_len(s3, 0);
                if nu == 0 {
                    Err(Error::MissingUnit)
                } else {
                    let mult = unit_mult(s3.subrange(0, nu as int));
                    if mult == 0 {
                        Err(Error::UnknownUnit)
                    } else if iv > (MAGNITUDE_LIMIT as nat) / mult {
                        Err(Error::InvalidDuration)
                    } else {
                        let v0 = iv * mult;
                        let v = if fk.0 > 0 {
                            v0 + spec_frac_ns(fk.0, mult, fk.1)
                        } else {
                            v0
                        };
                        if v > u64::MAX {
                            Err(Error::InvalidDuration)
                        } else if acc + v > MAGNITUDE_LIMIT {
                            Err(Error::InvalidDuration)
                        } else {
                            parse_terms(s3.skip(nu as int), acc + v)
                        }
                    }
                }
            }
        }
    }
}

#[via_fn]
proof fn parse_terms_decreases(s: Seq<char>, acc: nat) {
    if s.len() > 0 {
        lemma_digit_run_len(s, 0);
        let ni = digit_run_len(s, 0);
        let s1 = s.skip(ni as int);
        let has_dot = s1.len() > 0 && s1[0] == '.';
        let s2 = if has_dot {
            s1.skip(1)
        } else {
            s1
        };
        lemma_digit_run_len(s2, 0);
        let nf = if has_dot {
            digit_run_len(s2, 0)
        } else {
            0
        };
        let s3 = s2.skip(nf as int);
        lemma_unit_run_len(s3, 0);
    }
}

/// The meaning of a whole duration string: its signed nanosecond count,
/// or the error the grammar assigns to it.
pub open spec fn parse_spec(text: Seq<char>) -> Result<int, Error> {
    let (neg, s) = strip_sign(text);
    if s.len() == 1 && s[0] == '0' {
        Ok(0)
    } else if s.len() == 0 {
        Err(Error::InvalidDuration)
    } else {
        match parse_terms(s, 0) {
            Ok(d) => if neg {
                Ok(-(d as int))
            } else if d <= i64::MAX {
                Ok(d as int)
            } else {
                Err(Error::InvalidDuration)
            },
            Err(e) => Err(e),
        }
    }
}

/// Index just past the run of decimal digits starting at `from`.
fn digit_run_end(s: &str, from: usize) -> (r: usize)
    requires
        from <= s@.len(),
    ensures
        r == from + digit_run_len(s@, from as int),
        r <= s@.len(),
{
    let len = s.unicode_len();
    let mut i: usize = from;
    loop
        invariant
            from <= i <= len,
            len == s@.len(),
            digit_run_len(s@, from as int) == i - from + digit_run_len(s@, i as int),
        ensures
            from <= i <= len,
            i - from == digit_run_len(s@, from as int),
        decreases len - i,
    {
        if i >= len {
            proof {
                assert(digit_run_len(s@, i as int) == 0);
            }
            break ;
        }
        let c = s.get_char(i);
        let cu = c as u32;
        if !(48 <= cu && cu <= 57) {
            proof {
                assert(!is_digit(s@[i as int]));
                assert(digit_run_len(s@, i as int) == 0);
            }
            break ;
        }
        proof {
            assert(is_digit(s@[i as int]));
            assert(digit_run_len(s@, i as int) == 1 + digit_run_len(s@, i as int + 1));
            lemma_digit_run_len(s@, i as int + 1);
        }
        i = i + 1;
    }
    i
}

/// Consume the leading run of decimal digits of `s` and return its value
/// and the rest of the input; fail with `BadInteger` if the value does
/// not fit in a `u64`.
pub fn leading_int<'a>(s: &'a str) -> (r: Result<(u64, &'a str), Error>)
    ensures
        ({
            let n = digit_run_len(s@, 0) as int;
            let v = digits_val(s@.subrange(0, n));
            match r {
                Ok(p) => v <= u64::MAX && p.0 == v && p.1@ == s@.skip(n),
                Err(e) => e == Error::BadInteger && v > u64::MAX,
            }
        }),
{
    let len = s.unicode_len();
    let n = digit_run_end(s, 0);
    proof {
        lemma_digit_run_len(s@, 0);
    }
    let mut i: usize = 0;
    let mut x: u64 = 0;
    while i < n
        invariant
            0 <= i <= n,
            n <= len,
            len == s@.len(),
            n == digit_run_len(s@, 0),
            forall|j: int| 0 <= j < n ==> is_digit(s@[j]),
            x == digits_val(s@.subrange(0, i as int)),
        decreases n - i,
    {
        let c = s.get_char(i);
        let cu = c as u32;
        proof {
            assert(is_digit(s@[i as int]));
        }
        let d = (cu - 48) as u64;
        proof {
            assert(digits_val(s@.subrange(0, i as int + 1)) == x * 10 + d) by {
                lemma_digits_val_step(s@, i as int);
            }
            lemma_digits_val_mono(s@, i as int + 1, n as int);
        }
        if x > u64::MAX / 10 {
            proof {
                assert(x * 10 + d > u64::MAX) by (nonlinear_arith)
                    requires
                        x > u64::MAX / 10,
                        d >= 0,
                ;
            }
            return Err(Error::BadInteger);
        }
        let y = x * 10;
        if d > u64::MAX - y {
            return Err(Error::BadInteger);
        }
        x = y + d;
        i = i + 1;
    }
    Ok((x, s.substring_char(n, len)))
}

/// Consume the leading run of digits after a decimal point.  The value
/// freezes rather than overflowing: digits past the one that would push
/// it over the signed 64-bit range are consumed but dropped.  Returns the
/// frozen value, the count of digits kept, and the rest of the input.
pub fn leading_fraction<'a>(s: &'a str) -> (r: (i64, usize, &'a str))
    ensures
        ({
            let n = digit_run_len(s@, 0) as int;
            let fk = frac_scan(s@.subrange(0, n), 0, 0, 0);
            &&& r.0 >= 0
            &&& r.0 as nat == fk.0
            &&& r.1 as nat == fk.1
            &&& r.2@ == s@.skip(n)
        }),
{
    let len = s.unicode_len();
    let n = digit_run_end(s, 0);
    proof {
        lemma_digit_run_len(s@, 0);
    }
    let ghost run = s@.subrange(0, n as int);
    let mut i: usize = 0;
    let mut x: i64 = 0;
    let mut k: usize = 0;
    let mut frozen = false;
    while i < n
        invariant
            0 <= i <= n,
            n <= len,
            len == s@.len(),
            n == digit_run_len(s@, 0),
            run == s@.subrange(0, n as int),
            forall|j: int| 0 <= j < n ==> is_digit(s@[j]),
            0 <= x,
            k <= i,
            frozen ==> frac_scan(run, 0, 0, 0) == (x as nat, k as nat),
            !frozen ==> frac_scan(run, 0, 0, 0) == frac_scan(run, i as int, x as nat, k as nat),
        decreases n - i,
    {
        let c = s.get_char(i);
        let cu = c as u32;
        proof {
            assert(is_digit(s@[i as int]));
            assert(run[i as int] == s@[i as int]);
        }
        let d = (cu - 48) as i64;
        if !frozen {
            if x > i64::MAX / 10 {
                proof {
                    assert((x as nat) * 10 + d > i64::MAX) by (nonlinear_arith)
                        requires
                            x > i64::MAX / 10,
                            d >= 0,
                    ;
                    assert(frac_scan(run, i as int, x as nat, k as nat) == (x as nat, k as nat));
                }
                frozen = true;
            } else {
                let y = x * 10;
                if d > i64::MAX - y {
                    proof {
                        assert(frac_scan(run, i as int, x as nat, k as nat) == (
                            x as nat,
                            k as nat,
                        ));
                    }
                    frozen = true;
                } else {
                    proof {
                        assert(frac_scan(run, i as int, x as nat, k as nat) == frac_scan(
                            run,
                            i as int + 1,
                            (y + d) as nat,
                            k as nat + 1,
                        ));
                    }
                    x = y + d;
                    k = k + 1;
                }
            }
        }
        i = i + 1;
    }
    proof {
        if !frozen {
            assert(frac_scan(run, n as int, x as nat, k as nat) == (x as nat, k as nat));
        }
    }
    (x, k, s.substring_char(n, len))
}

/// Index just past the run of unit characters starting at `from`.
fn unit_run_end(s: &str, from: usize) -> (r: usize)
    requires
        from <= s@.len(),
    ensures
        r == from + unit_run_len(s@, from as int),
        r <= s@.len(),
{
    let len = s.unicode_len();
    let mut i: usize = from;
    loop
        invariant
            from <= i <= len,
            len == s@.len(),
            unit_run_len(s@, from as int) == i - from + unit_run_len(s@, i as int),
        ensures
            from <= i <= len,
            i - from == unit_run_len(s@, from as int),
        decreases len - i,
    {
        if i >= len {
            proof {
                assert(unit_run_len(s@, i as int) == 0);
            }
            break ;
        }
        let c = s.get_char(i);
        let cu = c as u32;
        if (48 <= cu && cu <= 57) || c == '.' {
            proof {
                assert(!is_unit_char(s@[i as int]));
                assert(unit_run_len(s@, i as int) == 0);
            }
            break ;
        }
        proof {
            assert(is_unit_char(s@[i as int]));
            assert(unit_run_len(s@, i as int) == 1 + unit_run_len(s@, i as int + 1));
            lemma_unit_run_len(s@, i as int + 1);
        }
        i = i + 1;
    }
    i
}

/// Nanosecond multiplier of a unit token; zero for an unknown token.
fn unit_multiplier(u: &str) -> (r: u64)
    ensures
        r as nat == unit_mult(u@),
{
    let n = u.unicode_len();
    if n == 1 {
        let c = u.get_char(0);
        if c == 's' {
            SECOND
        } else if c == 'm' {
            MINUTE
        } else if c == 'h' {
            HOUR
        } else if c == 'd' {
            DAY
        } else if c == 'w' {
            WEEK
        } else {
            0
        }
    } else if n == 2 {
        let c0 = u.get_char(0);
        let c1 = u.get_char(1);
        if c1 == 's' {
            if c0 == 'n' {
                NANOSECOND
            } else if c0 == 'u' || c0 == '\u{00b5}' || c0 == '\u{03bc}' {
                MICROSECOND
            } else if c0 == 'm' {
                MILLISECOND
            } else {
                0
            }
        } else {
            0
        }
    } else {
        0
    }
}

/// A value at most `2^63 / mult` scaled by `mult` stays at most `2^63`.
proof fn lemma_scaled_bound(iv: nat, mult: nat)
    requires
        1 <= mult,
        iv <= (MAGNITUDE_LIMIT as nat) / mult,
    ensures
        iv * mult <= MAGNITUDE_LIMIT,
{
    let q = (MAGNITUDE_LIMIT as nat) / mult;
    lemma_mul_inequality(iv as int, q as int, mult as int);
    lemma_fundamental_div_mod(MAGNITUDE_LIMIT as int, mult as int);
    lemma_mod_bound(MAGNITUDE_LIMIT as int, mult as int);
    assert(MAGNITUDE_LIMIT == mult * q + (MAGNITUDE_LIMIT as nat) % mult);
    assert(q * mult == mult * q) by (nonlinear_arith);
    assert(q * mult <= MAGNITUDE_LIMIT);
    assert(iv * mult <= q * mult);
}

/// Parse a duration string into a signed nanosecond count.
#[verifier::rlimit(50)]
pub fn parse(text: &str) -> (r: Result<i64, Error>)
    ensures
        parse_spec(text@) matches Ok(n) ==> (r matches Ok(v) && v as int == n),
        parse_spec(text@) matches Err(e) ==> r == Err::<i64, Error>(e),
{
    let mut s: &str = text;
    let mut neg = false;
    let len = s.unicode_len();
    if len >= 1 {
        let c = s.get_char(0);
        if c == '-' || c == '+' {
            neg = c == '-';
            s = s.substring_char(1, len);
        }
    }
    proof {
        assert(strip_sign(text@) == (neg, s@));
    }
    let slen = s.unicode_len();
    if slen == 1 {
        let c0 = s.get_char(0);
        if c0 == '0' {
            return Ok(0);
        }
    }
    if slen == 0 {
        return Err(Error::InvalidDuration);
    }
    let ghost s0 = s@;
    let mut d: u64 = 0;
    while s.unicode_len() > 0
        invariant
            strip_sign(text@) == (neg, s0),
            !(s0.len() == 1 && s0[0] == '0'),
            s0.len() > 0,
            parse_terms(s0, 0) == parse_terms(s@, d as nat),
            d <= MAGNITUDE_LIMIT,
        decreases s@.len(),
    {
        let ghost st = s@;
        let ghost acc0 = d as nat;
        let c = s.get_char(0);
        let cu = c as u32;
        if !(c == '.' || (48 <= cu && cu <= 57)) {
            proof {
                assert(parse_terms(st, acc0) == Err::<nat, Error>(Error::InvalidDuration));
            }
            return Err(Error::InvalidDuration);
        }
        let pl = s.unicode_len();
        let li = leading_int(s);
        let ghost ni = digit_run_len(st, 0) as int;
        let (iv, s1) = match li {
            Ok(p) => p,
            Err(e) => {
                proof {
                    assert(parse_terms(st, acc0) == Err::<nat, Error>(Error::BadInteger));
                }
                return Err(e);
            },
        };
        let pre = pl != s1.unicode_len();
        s = s1;
        let ghost sp1 = st.skip(ni);
        proof {
            lemma_digit_run_len(st, 0);
        }
        let mut f: i64 = 0;
        let mut k: usize = 0;
        let mut post = false;
        let ghost has_dot = sp1.len() > 0 && sp1[0] == '.';
        let ghost sp2 = if has_dot {
            sp1.skip(1)
        } else {
            sp1
        };
        let ghost nf = if has_dot {
            digit_run_len(sp2, 0) as int
        } else {
            0
        };
        let ghost fk = frac_scan(sp2.subrange(0, nf), 0, 0, 0);
        let ghost sp3 = sp2.skip(nf);
        let l1 = s.unicode_len();
        if l1 > 0 {
            let c2 = s.get_char(0);
            if c2 == '.' {
                let s_dot = s.substring_char(1, l1);
                proof {
                    assert(has_dot);
                    assert(s_dot@ == sp2);
                }
                proof {
                    lemma_digit_run_len(s_dot@, 0);
                }
                let fr = leading_fraction(s_dot);
                let dl = s_dot.unicode_len();
                f = fr.0;
                k = fr.1;
                post = dl != fr.2.unicode_len();
                s = fr.2;
                proof {
                    assert(f as nat == fk.0 && k as nat == fk.1);
                    assert(s@ == sp3);
                    assert(post == (nf != 0));
                }
            }
        }
        proof {
            if !has_dot {
                assert(sp2.subrange(0, 0) =~= Seq::<char>::empty());
                assert(fk == (0nat, 0nat));
                assert(sp3 =~= sp2);
            }
            assert(s@ == sp3);
            assert(f as nat == fk.0 && k as nat == fk.1);
            assert(pre == (ni != 0));
            assert(post == (nf != 0));
        }
        if !pre && !post {
            proof {
                assert(parse_terms(st, acc0) == Err::<nat, Error>(Error::InvalidDuration));
            }
            return Err(Error::InvalidDuration);
        }
        let l3 = s.unicode_len();
        let ue = unit_run_end(s, 0);
        let ghost nu = unit_run_len(sp3, 0) as int;
        if ue == 0 {
            proof {
                assert(parse_terms(st, acc0) == Err::<nat, Error>(Error::MissingUnit));
            }
            return Err(Error::MissingUnit);
        }
        let u = s.substring_char(0, ue);
        let rest = s.substring_char(ue, l3);
        let mult = unit_multiplier(u);
        proof {
            assert(u@ == sp3.subrange(0, nu));
            assert(rest@ == sp3.skip(nu));
        }
        if mult == 0 {
            proof {
                assert(parse_terms(st, acc0) == Err::<nat, Error>(Error::UnknownUnit));
            }
            return Err(Error::UnknownUnit);
        }
        if iv > MAGNITUDE_LIMIT / mult {
            proof {
                assert(parse_terms(st, acc0) == Err::<nat, Error>(Error::InvalidDuration));
            }
            return Err(Error::InvalidDuration);
        }
        proof {
            lemma_scaled_bound(iv as nat, mult as nat);
        }
        let mut v: u64 = iv * mult;
        let ghost v0 = (iv as nat) * (mult as nat);
        if f > 0 {
            proof {
                assert(unit_mult(u@) <= 604800000000000);
            }
            let fns = frac_scale_ns(f as u64, mult, k);
            if fns > u64::MAX - v {
                proof {
                    assert(v0 + spec_frac_ns(fk.0, mult as nat, fk.1) > u64::MAX);
                    assert(parse_terms(st, acc0) == Err::<nat, Error>(Error::InvalidDuration));
                }
                return Err(Error::InvalidDuration);
            }
            v = v + fns;
        }
        let ghost vs = if fk.0 > 0 {
            v0 + spec_frac_ns(fk.0, mult as nat, fk.1)
        } else {
            v0
        };
        proof {
            assert(v as nat == vs);
        }
        if v > u64::MAX - d {
            proof {
                assert(acc0 + vs > MAGNITUDE_LIMIT);
                assert(parse_terms(st, acc0) == Err::<nat, Error>(Error::InvalidDuration));
            }
            return Err(Error::InvalidDuration);
        }
        d = d + v;
        if d > MAGNITUDE_LIMIT {
            proof {
                assert(parse_terms(st, acc0) == Err::<nat, Error>(Error::InvalidDuration));
            }
            return Err(Error::InvalidDuration);
        }
        s = rest;
        proof {
            lemma_digit_run_len(st, 0);
            lemma_digit_run_len(sp2, 0);
            lemma_unit_run_len(sp3, 0);
            assert(parse_terms(st, acc0) == parse_terms(sp3.skip(nu), acc0 + vs));
            assert(s@.len() < st.len());
        }
    }
    proof {
        assert(parse_terms(s0, 0) == Ok::<nat, Error>(d as nat));
    }
    if neg {
        if d <= 9223372036854775807 {
            Ok(0i64 - (d as i64))
        } else {
            Ok(i64::MIN)
        }
    } else {
        if d > 9223372036854775807 {
            Err(Error::InvalidDuration)
        } else {
            Ok(d as i64)
        }
    }
}

/// Fraction suffix for `v` over `prec` fractional digits: a decimal point
/// followed by the digits with trailing zeros trimmed, or nothing at all
/// when the fraction is zero.
pub open spec fn frac_part(v: nat, prec: nat) -> Seq<char> {
    let t = trim_zeros(pad_str(v, prec));
    if t.len() == 0 {
        Seq::empty()
    } else {
        seq!['.'] + t
    }
}

/// Rendering of a positive nanosecond magnitude: sub-second magnitudes use
/// the largest of `ns`/`us`/`ms` that keeps the leading digit non-zero;
/// larger magnitudes decompose into hours, minutes and fractional seconds,
/// omitting leading zero components.
pub open spec fn fmt_pos(u: nat) -> Seq<char> {
    if u < 1000 {
        int_str(u) + seq!['n', 's']
    } else if u < 1000000 {
        int_str(u / 1000) + frac_part(u, 3) + seq!['u', 's']
    } else if u < 1000000000 {
        int_str(u / 1000000) + frac_part(u, 6) + seq!['m', 's']
    } else {
        let secs = u / 1000000000;
        let sec_part = if u % 1000000000 != 0 {
            int_str(secs % 60) + frac_part(u, 9) + seq!['s']
        } else if secs % 60 != 0 {
            int_str(secs % 60) + seq!['s']
        } else {
            Seq::<char>::empty()
        };
        let mins = secs / 60;
        let min_part = if mins > 0 && mins % 60 != 0 {
            int_str(mins % 60) + seq!['m']
        } else {
            Seq::<char>::empty()
        };
        let hours = mins / 60;
        let hour_part = if hours > 0 {
            int_str(hours) + seq!['h']
        } else {
            Seq::<char>::empty()
        };
        hour_part + min_part + sec_part
    }
}

/// The canonical rendering of a signed nanosecond count: `"0s"` for zero,
/// otherwise the magnitude's rendering with a `'-'` prefix for negatives.
pub open spec fn fmt_spec(d: int) -> Seq<char> {
    if d == 0 {
        seq!['0', 's']
    } else if d < 0 {
        seq!['-'] + fmt_pos((-d) as nat)
    } else {
        fmt_pos(d as nat)
    }
}

/// Append the trailing-zero-trimmed fraction of `v` over `prec` digits,
/// preceded by a decimal point (both omitted when the fraction is zero),
/// and return `v` with those `prec` digits removed.
fn fmt_frac(out: &mut String, v: u64, prec: u64) -> (w: u64)
    ensures
        final(out)@ == old(out)@ + frac_part(v as nat, prec as nat),
        w as nat == (v as nat) / pow10(prec as nat),
{
    let mut x = v;
    let mut wd = prec;
    proof {
        assert(pow10(0) == 1);
        assert((v as nat) / 1 == v as nat);
        assert(x as nat == (v as nat) / pow10(0));
    }
    while wd > 0 && x % 10 == 0
        invariant
            wd <= prec,
            x as nat == (v as nat) / pow10((prec - wd) as nat),
            trim_zeros(pad_str(v as nat, prec as nat)) == trim_zeros(pad_str(x as nat, wd as nat)),
        decreases wd,
    {
        proof {
            assert(pad_str(x as nat, wd as nat).drop_last() =~= pad_str(
                (x as nat) / 10,
                (wd - 1) as nat,
            ));
            assert(pad_str(x as nat, wd as nat).last() == digit_char((x as nat) % 10));
            lemma_div10_step(v as nat, (prec - wd) as nat);
        }
        x = x / 10;
        wd = wd - 1;
    }
    proof {
        if wd > 0 {
            assert(pad_str(x as nat, wd as nat).last() == digit_char((x as nat) % 10));
            assert(pad_str(x as nat, wd as nat).len() > 0);
            assert(digit_char((x as nat) % 10) != '0');
            assert(trim_zeros(pad_str(x as nat, wd as nat)) == pad_str(x as nat, wd as nat));
        } else {
            assert(pad_str(x as nat, 0) =~= Seq::<char>::empty());
        }
    }
    if wd > 0 {
        out.push('.');
        push_pad(out, x, wd);
        proof {
            assert(out@ =~= old(out)@ + frac_part(v as nat, prec as nat));
        }
    } else {
        proof {
            assert(out@ =~= old(out)@ + frac_part(v as nat, prec as nat));
        }
    }
    let mut w = x;
    let mut j = wd;
    while j > 0
        invariant
            j <= prec,
            w as nat == (v as nat) / pow10((prec - j) as nat),
        decreases j,
    {
        proof {
            lemma_div10_step(v as nat, (prec - j) as nat);
        }
        w = w / 10;
        j = j - 1;
    }
    w
}

/// Append the rendering of the positive magnitude `u` to `out`.
#[verifier::rlimit(100)]
fn fmt_magnitude(out: &mut String, u: u64)
    requires
        1 <= u,
    ensures
        final(out)@ == old(out)@ + fmt_pos(u as nat),
{
    if u < MICROSECOND {
        push_int(out, u);
        out.push('n');
        out.push('s');
        proof {
            assert(out@ =~= old(out)@ + fmt_pos(u as nat));
        }
    } else if u < MILLISECOND {
        push_int(out, u / 1000);
        let _w = fmt_frac(out, u, 3);
        out.push('u');
        out.push('s');
        proof {
            assert(out@ =~= old(out)@ + fmt_pos(u as nat));
        }
    } else if u < SECOND {
        push_int(out, u / 1000000);
        let _w = fmt_frac(out, u, 6);
        out.push('m');
        out.push('s');
        proof {
            assert(out@ =~= old(out)@ + fmt_pos(u as nat));
        }
    } else {
        let ghost base = out@;
        let secs = u / SECOND;
        let mins = secs / 60;
        let hours = mins / 60;
        if hours > 0 {
            push_int(out, hours);
            out.push('h');
        }
        let ghost with_hours = out@;
        if mins > 0 && mins % 60 != 0 {
            push_int(out, mins % 60);
            out.push('m');
        }
        let ghost with_mins = out@;
        if u % SECOND != 0 {
            push_int(out, secs % 60);
            let _w = fmt_frac(out, u, 9);
            out.push('s');
        } else if secs % 60 != 0 {
            push_int(out, secs % 60);
            out.push('s');
        }
        proof {
            let un = u as nat;
            let hour_part = if un / 1000000000 / 60 / 60 > 0 {
                int_str(un / 1000000000 / 60 / 60) + seq!['h']
            } else {
                Seq::<char>::empty()
            };
            let min_part = if un / 1000000000 / 60 > 0 && (un / 1000000000 / 60) % 60 != 0 {
                int_str((un / 1000000000 / 60) % 60) + seq!['m']
            } else {
                Seq::<char>::empty()
            };
            let sec_part = if un % 1000000000 != 0 {
                int_str((un / 1000000000) % 60) + frac_part(un, 9) + seq!['s']
            } else if (un / 1000000000) % 60 != 0 {
                int_str((un / 1000000000) % 60) + seq!['s']
            } else {
                Seq::<char>::empty()
            };
            assert(pow10(9) == 1000000000) by {
                reveal_with_fuel(pow10, 11);
            }
            assert(with_hours =~= base + hour_part);
            assert(with_mins =~= base + hour_part + min_part);
            assert(out@ =~= base + hour_part + min_part + sec_part);
            assert(fmt_pos(un) == hour_part + min_part + sec_part);
            assert(out@ =~= old(out)@ + fmt_pos(u as nat));
        }
    }
}

/// Render a signed nanosecond count in the form `"72h3m0.5s"`.  Leading
/// zero units are omitted; durations under one second use a smaller unit
/// so that the leading digit is non-zero; the zero duration formats as
/// `"0s"`.
pub fn to_string(d: i64) -> (r: String)
    ensures
        r@ == fmt_spec(d as int),
{
    let mut out = String::new();
    if d == 0 {
        out.push('0');
        out.push('s');
        proof {
            assert(out@ =~= fmt_spec(0));
        }
        return out;
    }
    if d < 0 {
        out.push('-');
        let u: u64 = if d == i64::MIN {
            9223372036854775808u64
        } else {
            (0i64 - d) as u64
        };
        fmt_magnitude(&mut out, u);
        proof {
            assert(out@ =~= fmt_spec(d as int));
        }
    } else {
        fmt_magnitude(&mut out, d as u64);
    }
    out
}

/// parse_duration parses a duration string: a possibly signed sequence of
/// decimal numbers, each with an optional fraction and a unit suffix.
pub fn parse_duration(text: &str) -> (r: Result<Duration, Error>)
    ensures
        parse_spec(text@) matches Ok(n) ==> (r matches Ok(dur) && dur.nanos as int == n),
        parse_spec(text@) matches Err(e) ==> r == Err::<Duration, Error>(e),
{
    match parse(text) {
        Ok(d) => Ok(Duration { nanos: d }),
        Err(e) => Err(e),
    }
}

/// The canonical rendering of a duration.
pub fn duration(d: &Duration) -> (r: String)
    ensures
        r@ == fmt_spec(d.nanos as int),
{
    to_string(d.as_nanos())
}

} // verus!
