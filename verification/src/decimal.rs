//! Decimal numbers as text: reading unsigned integers and durations, and
//! writing integers.

use vstd::prelude::*;
use crate::text::{join, find, find_in, occurs_at, slice_of};

verus! {

/// `c` is one of the ten decimal digits.
pub open spec fn is_digit(c: char) -> bool {
    '0' <= c <= '9'
}

/// The number a decimal digit stands for.
pub open spec fn digit_value(c: char) -> nat {
    (c as int - '0' as int) as nat
}

/// Every character of `s` is a decimal digit.
pub open spec fn all_digits(s: Seq<char>) -> bool {
    forall|i: int| 0 <= i < s.len() ==> is_digit(#[trigger] s[i])
}

/// The number that a string of decimal digits denotes; 0 for the empty string.
pub open spec fn decimal_value(s: Seq<char>) -> nat
    decreases s.len(),
{
    if s.len() == 0 {
        0
    } else {
        10 * decimal_value(s.drop_last()) + digit_value(s.last())
    }
}

/// What a text means as an unsigned 64-bit number: one or more decimal
/// digits whose value fits; anything else has no meaning.
pub open spec fn parse_u64_spec(s: Seq<char>) -> Option<u64> {
    if s.len() > 0 && all_digits(s) && decimal_value(s) <= u64::MAX {
        Some(decimal_value(s) as u64)
    } else {
        None
    }
}

/// The value of a prefix never exceeds the value of the whole digit string.
pub proof fn lemma_decimal_prefix(s: Seq<char>, k: int)
    requires
        0 <= k <= s.len(),
    ensures
        decimal_value(s.take(k)) <= decimal_value(s),
    decreases s.len() - k,
{
    if k == s.len() {
        assert(s.take(k) =~= s);
    } else {
        lemma_decimal_prefix(s, k + 1);
        assert(s.take(k + 1).drop_last() =~= s.take(k));
    }
}

/// Reads an unsigned decimal number.
pub fn parse_u64(s: &Vec<char>) -> (r: Option<u64>)
    ensures
        r == parse_u64_spec(s@),
{
    if s.len() == 0 {
        return None;
    }
    let mut acc: u64 = 0;
    let mut i: usize = 0;
    while i < s.len()
        invariant
            i <= s.len(),
            all_digits(s@.take(i as int)),
            acc == decimal_value(s@.take(i as int)),
        decreases s.len() - i,
    {
        let c = s[i];
        if c < '0' || c > '9' {
            return None;
        }
        let d: u64 = (c as u32 - '0' as u32) as u64;
        proof {
            assert(s@.take(i + 1).drop_last() =~= s@.take(i as int));
            assert(s@.take(i + 1).last() == c);
            lemma_decimal_prefix(s@, i + 1);
        }
        if acc > (u64::MAX - d) / 10 {
            return None;
        }
        acc = acc * 10 + d;
        i += 1;
        assert forall|j: int| 0 <= j < i implies is_digit(#[trigger] s@.take(i as int)[j]) by {
            if j < i - 1 {
                assert(s@.take(i - 1)[j] == s@[j]);
            }
        }
    }
    assert(s@.take(i as int) =~= s@);
    Some(acc)
}

/// Whether every character of `s` is a decimal digit.
pub fn is_all_digits(s: &Vec<char>) -> (r: bool)
    ensures
        r == all_digits(s@),
{
    let mut i: usize = 0;
    while i < s.len()
        invariant
            i <= s.len(),
            forall|j: int| 0 <= j < i ==> is_digit(#[trigger] s@[j]),
        decreases s.len() - i,
    {
        if s[i] < '0' || s[i] > '9' {
            return false;
        }
        i += 1;
    }
    true
}

/// The decimal point as a one-character pattern.
pub open spec fn point() -> Seq<char> {
    seq!['.']
}

/// Six zeros, the padding of a short fraction.
pub open spec fn six_zeros() -> Seq<char> {
    seq!['0', '0', '0', '0', '0', '0']
}

/// The digits after the decimal point as millionths: the first six of them,
/// with zeros in the places that are missing.
pub open spec fn fraction_micros(frac: Seq<char>) -> nat {
    decimal_value((frac + six_zeros()).take(6))
}

/// What a text means as a duration in microseconds. The text is a number
/// of seconds in decimal notation: one or more digits, and optionally a
/// point followed by any number of digits, of which those after the sixth
/// are dropped. A text of another shape, or one whose value in microseconds
/// does not fit 64 bits, has no meaning.
pub open spec fn parse_micros_spec(s: Seq<char>) -> Option<u64> {
    let whole = match find(s, point()) {
        Some(k) => s.take(k),
        None => s,
    };
    let frac = match find(s, point()) {
        Some(k) => s.skip(k + 1),
        None => Seq::empty(),
    };
    let micros = decimal_value(whole) * 1_000_000 + fraction_micros(frac);
    if whole.len() > 0 && all_digits(whole) && all_digits(frac) && micros <= u64::MAX {
        Some(micros as u64)
    } else {
        None
    }
}

/// Six decimal digits denote a number below one million.
proof fn lemma_six_digits(s: Seq<char>)
    requires
        s.len() == 6,
        all_digits(s),
    ensures
        decimal_value(s) <= 999_999,
{
    let s5 = s.drop_last();
    let s4 = s5.drop_last();
    let s3 = s4.drop_last();
    let s2 = s3.drop_last();
    let s1 = s2.drop_last();
    let s0 = s1.drop_last();
    assert(is_digit(s[5]) && is_digit(s[4]) && is_digit(s[3]) && is_digit(s[2]) && is_digit(s[1])
        && is_digit(s[0]));
    assert(decimal_value(s0) == 0);
    assert(decimal_value(s1) == 10 * decimal_value(s0) + digit_value(s1.last()));
    assert(decimal_value(s2) == 10 * decimal_value(s1) + digit_value(s2.last()));
    assert(decimal_value(s3) == 10 * decimal_value(s2) + digit_value(s3.last()));
    assert(decimal_value(s4) == 10 * decimal_value(s3) + digit_value(s4.last()));
    assert(decimal_value(s5) == 10 * decimal_value(s4) + digit_value(s5.last()));
    assert(decimal_value(s) == 10 * decimal_value(s5) + digit_value(s.last()));
}

/// Reads a duration given in seconds as microseconds.
pub fn parse_micros(s: &Vec<char>) -> (r: Option<u64>)
    ensures
        r == parse_micros_spec(s@),
{
    let dot: Vec<char> = vec!['.'];
    assert(dot@ =~= point());
    let cut = find_in(s, &dot);
    assert(cut matches Some(k) ==> occurs_at(s@, point(), k as int) && k + 1 <= s.len());
    let whole = match cut {
        Some(k) => slice_of(s, 0, k),
        None => slice_of(s, 0, s.len()),
    };
    let frac = match cut {
        Some(k) => slice_of(s, k + 1, s.len()),
        None => Vec::new(),
    };
    proof {
        match cut {
            Some(k) => {
                assert(whole@ =~= s@.take(k as int));
                assert(frac@ =~= s@.skip(k + 1));
            },
            None => {
                assert(whole@ =~= s@);
                assert(frac@ =~= Seq::<char>::empty());
            },
        }
    }
    if !is_all_digits(&frac) {
        return None;
    }
    let seconds = match parse_u64(&whole) {
        Some(v) => v,
        None => {
            return None;
        },
    };
    let zeros: Vec<char> = vec!['0', '0', '0', '0', '0', '0'];
    assert(zeros@ =~= six_zeros());
    let padded = join(&frac, &zeros);
    let six = slice_of(&padded, 0, 6);
    proof {
        assert(six@ =~= (frac@ + six_zeros()).take(6));
        assert forall|i: int| 0 <= i < six@.len() implies is_digit(#[trigger] six@[i]) by {
            if i < frac@.len() {
                assert(six@[i] == frac@[i]);
            } else {
                assert(six@[i] == six_zeros()[i - frac@.len()]);
            }
        }
        lemma_six_digits(six@);
    }
    let part = match parse_u64(&six) {
        Some(v) => v,
        None => {
            return None;
        },
    };
    match seconds.checked_mul(1_000_000) {
        Some(m) => m.checked_add(part),
        None => None,
    }
}

/// The character of a digit below ten.
pub open spec fn digit_char(d: nat) -> char {
    (d + '0' as nat) as char
}

/// The decimal digits of a number, most significant first, without leading zeros.
pub open spec fn decimal_digits(n: nat) -> Seq<char>
    decreases n,
{
    if n < 10 {
        seq![digit_char(n)]
    } else {
        decimal_digits(n / 10).push(digit_char(n % 10))
    }
}

/// Appends the decimal digits of `n` to `out`.
pub fn push_decimal(n: u128, out: &mut Vec<char>)
    ensures
        final(out)@ == old(out)@ + decimal_digits(n as nat),
    decreases n,
{
    if n >= 10 {
        push_decimal(n / 10, out);
    }
    let d: u8 = (n % 10) as u8;
    let c: char = (48u8 + d) as char;
    out.push(c);
    proof {
        if n >= 10 {
            assert(final(out)@ =~= old(out)@ + decimal_digits(n as nat));
        } else {
            assert(final(out)@ =~= old(out)@ + decimal_digits(n as nat));
        }
    }
}

/// A number in at least two digits: below ten with a zero in front.
pub open spec fn two_digits(n: nat) -> Seq<char> {
    if n < 10 {
        seq!['0'] + decimal_digits(n)
    } else {
        decimal_digits(n)
    }
}

/// A time span as hours, minutes and seconds, each in at least two digits
/// and with colons between them. Parts of a second are dropped.
pub open spec fn clock_text(micros: nat) -> Seq<char> {
    let seconds = micros / 1_000_000;
    two_digits(seconds / 3600) + seq![':'] + two_digits((seconds % 3600) / 60) + seq![':']
        + two_digits(seconds % 60)
}

/// Appends `n` in at least two digits to `out`.
fn push_two_digits(n: u128, out: &mut Vec<char>)
    ensures
        final(out)@ == old(out)@ + two_digits(n as nat),
{
    if n < 10 {
        out.push('0');
    }
    push_decimal(n, out);
    assert(final(out)@ =~= old(out)@ + two_digits(n as nat));
}

/// Writes a time span given in microseconds as `HH:MM:SS`.
pub fn format_time(micros: u128) -> (r: Vec<char>)
    ensures
        r@ == clock_text(micros as nat),
{
    let seconds: u128 = micros / 1_000_000;
    let mut out: Vec<char> = Vec::new();
    push_two_digits(seconds / 3600, &mut out);
    out.push(':');
    push_two_digits((seconds % 3600) / 60, &mut out);
    out.push(':');
    push_two_digits(seconds % 60, &mut out);
    assert(out@ =~= clock_text(micros as nat));
    out
}

} // verus!
