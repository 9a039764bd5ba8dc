//! Decimal digits: predicates on characters, values of digit runs, and
//! rendering of integers as character sequences.

use vstd::prelude::*;

verus! {

/// Relies on `String::push` of std: it appends exactly the given character
/// to the end of the string.
pub assume_specification[ String::push ](s: &mut String, c: char)
    ensures
        final(s)@ == old(s)@.push(c),
;

/// `c` is an ASCII decimal digit.
pub open spec fn is_digit(c: char) -> bool {
    48 <= (c as u32) && (c as u32) <= 57
}

/// Numeric value of a digit character.
pub open spec fn digit_val(c: char) -> nat {
    ((c as u32) - 48) as nat
}

/// The digit character for a value below ten.
pub open spec fn digit_char(d: nat) -> char {
    if d == 0 {
        '0'
    } else if d == 1 {
        '1'
    } else if d == 2 {
        '2'
    } else if d == 3 {
        '3'
    } else if d == 4 {
        '4'
    } else if d == 5 {
        '5'
    } else if d == 6 {
        '6'
    } else if d == 7 {
        '7'
    } else if d == 8 {
        '8'
    } else {
        '9'
    }
}

/// Value of a sequence of digit characters read in base ten.
pub open spec fn digits_val(s: Seq<char>) -> nat
    decreases s.len(),
{
    if s.len() == 0 {
        0
    } else {
        digits_val(s.drop_last()) * 10 + digit_val(s.last())
    }
}

/// Every character of `s` is a digit.
pub open spec fn all_digits(s: Seq<char>) -> bool {
    forall|i: int| 0 <= i < s.len() ==> is_digit(s[i])
}

/// Decimal rendering of `n` without leading zeros; empty for zero.
pub open spec fn dec_str(n: nat) -> Seq<char>
    decreases n,
{
    if n == 0 {
        Seq::empty()
    } else {
        dec_str(n / 10).push(digit_char(n % 10))
    }
}

/// Decimal rendering of `n`; `"0"` for zero.
pub open spec fn int_str(n: nat) -> Seq<char> {
    if n == 0 {
        seq!['0']
    } else {
        dec_str(n)
    }
}

proof fn lemma_digit_char_val(d: nat)
    requires
        d < 10,
    ensures
        is_digit(digit_char(d)),
        digit_val(digit_char(d)) == d,
{
}

/// The decimal rendering of `n` consists of digits and reads back as `n`.
pub proof fn lemma_dec_str_val(n: nat)
    ensures
        all_digits(dec_str(n)),
        digits_val(dec_str(n)) == n,
        n > 0 ==> dec_str(n).len() >= 1,
        n > 0 ==> dec_str(n)[0] != '0',
    decreases n,
{
    if n > 0 {
        lemma_dec_str_val(n / 10);
        lemma_digit_char_val(n % 10);
        let s = dec_str(n);
        assert(s == dec_str(n / 10).push(digit_char(n % 10)));
        assert(s.drop_last() =~= dec_str(n / 10));
        assert(s.last() == digit_char(n % 10));
        if n / 10 == 0 {
            assert(s[0] == digit_char(n % 10));
            assert(n % 10 == n);
        } else {
            assert(s[0] == dec_str(n / 10)[0]);
        }
    }
}

/// The rendering `int_str(n)` consists of digits and reads back as `n`.
pub proof fn lemma_int_str_val(n: nat)
    ensures
        all_digits(int_str(n)),
        digits_val(int_str(n)) == n,
        int_str(n).len() >= 1,
{
    lemma_dec_str_val(n);
    if n == 0 {
        assert(digits_val(seq!['0']) == digit_val('0')) by {
            assert(seq!['0'].drop_last() =~= Seq::<char>::empty());
        }
    }
}

/// Length of the maximal run of decimal digits starting at index `i`.
pub open spec fn digit_run_len(s: Seq<char>, i: int) -> nat
    decreases s.len() - i,
{
    if 0 <= i < s.len() && is_digit(s[i]) {
        (1 + digit_run_len(s, i + 1)) as nat
    } else {
        0
    }
}

/// The maximal digit run: every character in it is a digit, and it is
/// followed by the end of the sequence or a non-digit.
pub proof fn lemma_digit_run_len(s: Seq<char>, i: int)
    requires
        0 <= i <= s.len(),
    ensures
        i + digit_run_len(s, i) <= s.len(),
        forall|j: int| i <= j < i + digit_run_len(s, i) ==> is_digit(s[j]),
        i + digit_run_len(s, i) == s.len() || !is_digit(s[i + digit_run_len(s, i)]),
    decreases s.len() - i,
{
    if i < s.len() && is_digit(s[i]) {
        lemma_digit_run_len(s, i + 1);
    }
}

/// Reading one more digit multiplies the value by ten and adds it.
pub proof fn lemma_digits_val_step(s: Seq<char>, i: int)
    requires
        0 <= i < s.len(),
    ensures
        digits_val(s.subrange(0, i + 1)) == digits_val(s.subrange(0, i)) * 10 + digit_val(s[i]),
{
    let t = s.subrange(0, i + 1);
    assert(t.drop_last() =~= s.subrange(0, i));
    assert(t.last() == s[i]);
}

/// The value of a prefix of a digit run never exceeds the whole run's value.
pub proof fn lemma_digits_val_mono(s: Seq<char>, i: int, j: int)
    requires
        0 <= i <= j <= s.len(),
    ensures
        digits_val(s.subrange(0, i)) <= digits_val(s.subrange(0, j)),
    decreases j - i,
{
    if i < j {
        lemma_digits_val_mono(s, i, j - 1);
        lemma_digits_val_step(s, j - 1);
    }
}

/// Powers of ten.
pub open spec fn pow10(k: nat) -> nat
    decreases k,
{
    if k == 0 {
        1
    } else {
        10 * pow10((k - 1) as nat)
    }
}

/// A run of digits of length `l` has value below `10^l`.
pub proof fn lemma_digits_val_bound(s: Seq<char>)
    requires
        all_digits(s),
    ensures
        digits_val(s) < pow10(s.len()),
    decreases s.len(),
{
    if s.len() == 0 {
    } else {
        assert(all_digits(s.drop_last())) by {
            assert(forall|i: int|
                0 <= i < s.len() - 1 ==> s.drop_last()[i] == s[i] && is_digit(s[i]));
        }
        lemma_digits_val_bound(s.drop_last());
        assert(is_digit(s.last()));
        assert(digit_val(s.last()) <= 9);
        assert(pow10(s.len()) == 10 * pow10((s.len() - 1) as nat));
    }
}

/// Powers of ten are positive.
pub proof fn lemma_pow10_pos(k: nat)
    ensures
        pow10(k) >= 1,
    decreases k,
{
    if k > 0 {
        lemma_pow10_pos((k - 1) as nat);
    }
}

/// Powers of ten multiply by adding exponents.
pub proof fn lemma_pow10_adds(a: nat, b: nat)
    ensures
        pow10(a + b) == pow10(a) * pow10(b),
    decreases a,
{
    if a == 0 {
        assert(pow10(0) == 1);
    } else {
        lemma_pow10_adds((a - 1) as nat, b);
        assert(pow10((a - 1) as nat + b) == pow10((a - 1) as nat) * pow10(b));
        assert(pow10(a + b) == 10 * pow10((a - 1) as nat + b));
        assert(pow10(a) == 10 * pow10((a - 1) as nat));
        assert(10 * (pow10((a - 1) as nat) * pow10(b)) == (10 * pow10((a - 1) as nat)) * pow10(b))
            by (nonlinear_arith);
    }
}

/// Powers of ten are monotone.
pub proof fn lemma_pow10_mono(a: nat, b: nat)
    requires
        a <= b,
    ensures
        pow10(a) <= pow10(b),
    decreases b,
{
    if a < b {
        lemma_pow10_mono(a, (b - 1) as nat);
        lemma_pow10_pos((b - 1) as nat);
    }
}

/// Dividing by ten one more time divides by the next power of ten.
pub proof fn lemma_div10_step(v: nat, t: nat)
    ensures
        (v / pow10(t)) / 10 == v / pow10(t + 1),
{
    lemma_pow10_pos(t);
    vstd::arithmetic::div_mod::lemma_div_denominator(v as int, pow10(t) as int, 10);
    assert(pow10(t + 1) == 10 * pow10(t));
    assert(pow10(t) * 10 == 10 * pow10(t));
}

/// Zero-padded rendering of the lowest `width` decimal digits of `n`.
pub open spec fn pad_str(n: nat, width: nat) -> Seq<char>
    decreases width,
{
    if width == 0 {
        Seq::empty()
    } else {
        pad_str(n / 10, (width - 1) as nat).push(digit_char(n % 10))
    }
}

/// `s` with its trailing `'0'` characters removed.
pub open spec fn trim_zeros(s: Seq<char>) -> Seq<char>
    decreases s.len(),
{
    if s.len() > 0 && s.last() == '0' {
        trim_zeros(s.drop_last())
    } else {
        s
    }
}

/// Append one decimal digit character to `out`.
pub fn push_digit(out: &mut String, d: u64)
    requires
        d < 10,
    ensures
        final(out)@ == old(out)@.push(digit_char(d as nat)),
{
    let c: char = match d {
        0 => '0',
        1 => '1',
        2 => '2',
        3 => '3',
        4 => '4',
        5 => '5',
        6 => '6',
        7 => '7',
        8 => '8',
        _ => '9',
    };
    out.push(c);
}

fn push_dec(out: &mut String, n: u64)
    ensures
        final(out)@ == old(out)@ + dec_str(n as nat),
    decreases n,
{
    if n == 0 {
        proof {
            assert(final(out)@ =~= old(out)@ + dec_str(0));
        }
    } else {
        push_dec(out, n / 10);
        push_digit(out, n % 10);
        proof {
            assert(final(out)@ =~= old(out)@ + dec_str(n as nat));
        }
    }
}

/// Append the lowest `width` decimal digits of `n`, zero padded, to `out`.
pub fn push_pad(out: &mut String, n: u64, width: u64)
    ensures
        final(out)@ == old(out)@ + pad_str(n as nat, width as nat),
    decreases width,
{
    if width == 0 {
        proof {
            assert(final(out)@ =~= old(out)@ + pad_str(n as nat, 0));
        }
    } else {
        push_pad(out, n / 10, width - 1);
        push_digit(out, n % 10);
        proof {
            assert(final(out)@ =~= old(out)@ + pad_str(n as nat, width as nat));
        }
    }
}

/// Append the decimal rendering of `n` (`"0"` for zero) to `out`.
pub fn push_int(out: &mut String, n: u64)
    ensures
        final(out)@ == old(out)@ + int_str(n as nat),
{
    if n == 0 {
        out.push('0');
        proof {
            assert(final(out)@ =~= old(out)@ + int_str(0));
        }
    } else {
        push_dec(out, n);
    }
}

} // verus!
