//! Decimal digits: classification, numeric value of a digit string, and
//! rendering of numbers as digit strings.

use vstd::prelude::*;

verus! {

/// ASCII decimal digit.
pub open spec fn is_digit(b: u8) -> bool {
    48 <= b <= 57
}

/// Numeric value of an ASCII digit.
pub open spec fn digit_val(b: u8) -> nat {
    (b - 48) as nat
}

/// ASCII digit for a value below ten.
pub open spec fn digit_of(n: nat) -> u8 {
    (48 + n) as u8
}

/// Value of a digit string, most significant digit first.
pub open spec fn digits_val(s: Seq<u8>) -> nat
    decreases s.len(),
{
    if s.len() == 0 {
        0
    } else {
        digits_val(s.drop_last()) * 10 + digit_val(s.last())
    }
}

pub open spec fn all_digits(s: Seq<u8>) -> bool {
    forall|k: int| 0 <= k < s.len() ==> is_digit(s[k])
}

/// Ten to the power `e`.
pub open spec fn pow10(e: nat) -> nat
    decreases e,
{
    if e == 0 {
        1
    } else {
        10 * pow10((e - 1) as nat)
    }
}

/// Decimal rendering of `n` without leading zeros (a single zero for zero).
pub open spec fn dec_digits(n: nat) -> Seq<u8>
    decreases n,
{
    if n < 10 {
        seq![digit_of(n)]
    } else {
        dec_digits(n / 10).push(digit_of(n % 10))
    }
}

/// Decimal rendering of the lowest `w` digits of `n`, zero-padded to width `w`.
pub open spec fn padded_digits(n: nat, w: nat) -> Seq<u8>
    decreases w,
{
    if w == 0 {
        Seq::empty()
    } else {
        padded_digits(n / 10, (w - 1) as nat).push(digit_of(n % 10))
    }
}

/// Appends the decimal rendering of `n` to `out`.
pub fn push_dec_digits(out: &mut Vec<u8>, n: u128)
    ensures
        final(out)@ == old(out)@ + dec_digits(n as nat),
    decreases n,
{
    if n < 10 {
        out.push(48 + n as u8);
    } else {
        push_dec_digits(out, n / 10);
        out.push(48 + (n % 10) as u8);
    }
}

/// Appends the lowest `w` digits of `n`, zero-padded to width `w`, to `out`.
pub fn push_padded_digits(out: &mut Vec<u8>, n: u128, w: usize)
    ensures
        final(out)@ == old(out)@ + padded_digits(n as nat, w as nat),
    decreases w,
{
    if w > 0 {
        push_padded_digits(out, n / 10, w - 1);
        out.push(48 + (n % 10) as u8);
    } else {
        assert(old(out)@ + padded_digits(n as nat, 0) =~= old(out)@);
    }
}

} // verus!
