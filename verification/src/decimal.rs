//! Exact decimal numbers: the exchange rate and the amounts are decimals
//! `mantissa / 10^scale`, read from digit strings and multiplied exactly, so
//! no rounding happens before the final two-decimal-place rounding of a
//! converted amount.

use vstd::prelude::*;
use crate::digits::{all_digits, digits_val, pow10, is_digit, digit_val};

verus! {

/// A non-negative decimal number: `mantissa / 10^scale`.
#[derive(Clone, Copy, Debug, PartialEq, Eq, Structural)]
pub struct Decimal {
    pub mantissa: u64,
    pub scale: u32,
}

/// What a pair of digit strings means as a decimal: the digits joined into
/// one mantissa, the fractional length as the scale.  Digit strings whose
/// value does not fit the mantissa carry no decimal.
pub open spec fn decimal_of_digits(int_digits: Seq<u8>, frac_digits: Seq<u8>) -> Option<Decimal> {
    if digits_val(int_digits + frac_digits) <= u64::MAX && frac_digits.len() <= u32::MAX {
        Some(
            Decimal {
                mantissa: digits_val(int_digits + frac_digits) as u64,
                scale: frac_digits.len() as u32,
            },
        )
    } else {
        None
    }
}

/// `10^e` is positive.
pub proof fn lemma_pow10_pos(e: nat)
    ensures
        pow10(e) >= 1,
    decreases e,
{
    if e > 0 {
        lemma_pow10_pos((e - 1) as nat);
    }
}

/// Powers of ten multiply by adding exponents.
pub proof fn lemma_pow10_add(a: nat, b: nat)
    ensures
        pow10(a + b) == pow10(a) * pow10(b),
    decreases b,
{
    if b == 0 {
        assert(pow10(a + 0) == pow10(a) * 1);
    } else {
        lemma_pow10_add(a, (b - 1) as nat);
        assert(pow10((a + b - 1) as nat + 1) == 10 * pow10((a + b - 1) as nat));
        assert(10 * (pow10(a) * pow10((b - 1) as nat)) == pow10(a) * (10 * pow10(
            (b - 1) as nat,
        ))) by (nonlinear_arith);
    }
}

/// Value of a concatenation in terms of its parts.
pub proof fn lemma_append_val(a: Seq<u8>, t: Seq<u8>)
    ensures
        digits_val(a + t) == digits_val(a) * pow10(t.len()) + digits_val(t),
    decreases t.len(),
{
    if t.len() == 0 {
        assert(a + t =~= a);
        assert(pow10(0) == 1);
        assert(digits_val(t) == 0);
    } else {
        lemma_append_val(a, t.drop_last());
        assert((a + t).drop_last() =~= a + t.drop_last());
        assert((a + t).last() == t.last());
        assert(pow10(t.len()) == 10 * pow10((t.len() - 1) as nat));
        assert(digits_val(a + t) == digits_val(a + t.drop_last()) * 10 + digit_val(t.last()));
        assert(digits_val(t) == digits_val(t.drop_last()) * 10 + digit_val(t.last()));
        assert(digits_val(a) * (10 * pow10((t.len() - 1) as nat)) == (digits_val(a) * pow10(
            (t.len() - 1) as nat,
        )) * 10) by (nonlinear_arith);
    }
}

proof fn lemma_overflow_step(acc: nat, d: nat)
    requires
        d < 10,
        acc > (u64::MAX - d) / 10,
    ensures
        acc * 10 + d > u64::MAX,
{
    let m = (u64::MAX - d) as int;
    vstd::arithmetic::div_mod::lemma_fundamental_div_mod(m, 10);
    assert(acc >= m / 10 + 1);
    assert(acc * 10 >= (m / 10 + 1) * 10) by (nonlinear_arith)
        requires
            acc >= m / 10 + 1,
    ;
    assert((m / 10 + 1) * 10 == (m / 10) * 10 + 10);
    assert((m / 10) * 10 == m - m % 10);
}

proof fn lemma_no_overflow_step(acc: nat, d: nat)
    requires
        d < 10,
        acc <= (u64::MAX - d) / 10,
    ensures
        acc * 10 + d <= u64::MAX,
{
    let m = (u64::MAX - d) as int;
    vstd::arithmetic::div_mod::lemma_fundamental_div_mod(m, 10);
    assert(acc * 10 <= (m / 10) * 10) by (nonlinear_arith)
        requires
            acc <= m / 10,
    ;
    assert((m / 10) * 10 == m - m % 10);
}

/// Folds one digit string into an accumulator, watching for overflow.
fn fold_digits(acc0: u64, s: &Vec<u8>) -> (r: Option<u64>)
    requires
        all_digits(s@),
    ensures
        match r {
            Option::Some(v) => v == acc0 * pow10(s@.len()) + digits_val(s@) <= u64::MAX,
            Option::None => acc0 * pow10(s@.len()) + digits_val(s@) > u64::MAX,
        },
{
    let ghost full: int = acc0 * pow10(s@.len()) + digits_val(s@);
    let mut acc = acc0;
    let mut k: usize = 0;
    proof {
        assert(s@.take(0) =~= Seq::<u8>::empty());
        assert(digits_val(s@.take(0)) == 0);
        assert(pow10(0) == 1);
    }
    while k < s.len()
        invariant
            all_digits(s@),
            k <= s@.len(),
            full == acc0 * pow10(s@.len()) + digits_val(s@),
            acc == acc0 * pow10(k as nat) + digits_val(s@.take(k as int)),
        decreases s@.len() - k,
    {
        let d = s[k];
        let ghost dv = digit_val(s@[k as int]);
        proof {
            assert(is_digit(s@[k as int]));
            assert(s@.take(k as int + 1).drop_last() =~= s@.take(k as int));
            assert(s@.take(k as int + 1).last() == s@[k as int]);
            // the value after this step, and how the full value sits above it
            assert(acc * 10 + dv == acc0 * pow10((k + 1) as nat) + digits_val(
                s@.take(k as int + 1),
            )) by {
                assert(pow10((k + 1) as nat) == 10 * pow10(k as nat));
                assert((acc0 * pow10(k as nat)) * 10 == acc0 * (10 * pow10(k as nat)))
                    by (nonlinear_arith);
            }
            lemma_append_val(s@.take(k as int + 1), s@.skip(k as int + 1));
            assert(s@.take(k as int + 1) + s@.skip(k as int + 1) =~= s@);
            lemma_pow10_add((k + 1) as nat, (s@.len() - k - 1) as nat);
            assert(full == (acc * 10 + dv) * pow10((s@.len() - k - 1) as nat) + digits_val(
                s@.skip(k as int + 1),
            )) by {
                assert((acc0 * pow10((k + 1) as nat) + digits_val(s@.take(k as int + 1))) * pow10(
                    (s@.len() - k - 1) as nat,
                ) == acc0 * (pow10((k + 1) as nat) * pow10((s@.len() - k - 1) as nat))
                    + digits_val(s@.take(k as int + 1)) * pow10((s@.len() - k - 1) as nat))
                    by (nonlinear_arith);
            }
            lemma_pow10_pos((s@.len() - k - 1) as nat);
            assert(full >= acc * 10 + dv) by {
                assert((acc * 10 + dv) * pow10((s@.len() - k - 1) as nat) >= (acc * 10 + dv) * 1)
                    by (nonlinear_arith)
                    requires
                        pow10((s@.len() - k - 1) as nat) >= 1,
                ;
            }
        }
        if acc > (u64::MAX - ((d - 48) as u64)) / 10 {
            proof {
                lemma_overflow_step(acc as nat, dv);
            }
            return None;
        }
        proof {
            lemma_no_overflow_step(acc as nat, dv);
        }
        acc = acc * 10 + ((d - 48) as u64);
        k += 1;
    }
    proof {
        assert(s@.take(s@.len() as int) =~= s@);
    }
    Some(acc)
}

/// Joins the integer and fractional digit strings of a decimal literal into
/// a `Decimal`.  Returns `None` exactly when the digits name a number too
/// large for the mantissa.
pub fn decimal_from_digits(int_digits: &Vec<u8>, frac_digits: &Vec<u8>) -> (r: Option<Decimal>)
    requires
        all_digits(int_digits@),
        all_digits(frac_digits@),
        frac_digits@.len() <= u32::MAX,
    ensures
        r == decimal_of_digits(int_digits@, frac_digits@),
{
    proof {
        lemma_append_val(int_digits@, frac_digits@);
        lemma_pow10_pos(frac_digits@.len());
        assert(digits_val(int_digits@) * pow10(frac_digits@.len()) >= digits_val(int_digits@) * 1)
            by (nonlinear_arith)
            requires
                pow10(frac_digits@.len()) >= 1,
        ;
    }
    let whole = match fold_digits(0, int_digits) {
        Option::Some(v) => v,
        Option::None => {
            return None;
        },
    };
    let m = match fold_digits(whole, frac_digits) {
        Option::Some(v) => v,
        Option::None => {
            return None;
        },
    };
    Some(Decimal { mantissa: m, scale: frac_digits.len() as u32 })
}

/// What an amount token means: `digits` or `digits.digits`, nothing more,
/// as a decimal.
pub open spec fn parse_amount_spec(s: Seq<u8>) -> Option<Decimal> {
    let ilen = crate::scan::digit_run_len(s, 0) as int;
    if ilen == 0 {
        None
    } else if ilen == s.len() {
        decimal_of_digits(s, Seq::empty())
    } else if s[ilen] == 46u8 && s.len() - ilen - 1 >= 1 && crate::scan::digit_run_len(s, ilen + 1)
        == s.len() - ilen - 1 {
        decimal_of_digits(s.subrange(0, ilen), s.subrange(ilen + 1, s.len() as int))
    } else {
        None
    }
}

/// Parses an amount token.
pub fn parse_amount(s: &Vec<u8>) -> (r: Option<Decimal>)
    ensures
        r == parse_amount_spec(s@),
{
    let n = s.len();
    let ie = crate::scan::digit_run_end(s, 0);
    if ie == 0 {
        return None;
    }
    proof {
        crate::scan::lemma_digit_run(s@, 0);
    }
    if ie == n {
        let empty: Vec<u8> = Vec::new();
        proof {
            assert(empty@ =~= Seq::<u8>::empty());
        }
        return decimal_from_digits(s, &empty);
    }
    if s[ie] != 46 {
        return None;
    }
    let fe = crate::scan::digit_run_end(s, ie + 1);
    if fe != n || fe == ie + 1 {
        return None;
    }
    proof {
        crate::scan::lemma_digit_run(s@, ie as int + 1);
    }
    let ints = crate::scan::copy_range(s, 0, ie);
    let fracs = crate::scan::copy_range(s, ie + 1, n);
    if (fracs.len() as u64) > (u32::MAX as u64) {
        return None;
    }
    decimal_from_digits(&ints, &fracs)
}

} // verus!
