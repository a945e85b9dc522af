//! Conversion and rendering of the output line: each amount is multiplied by
//! the rate exactly and rounded to two decimal places (ties away from zero),
//! and the line `<date> (<rate>): <amount> …` is built byte by byte.

use vstd::prelude::*;
use crate::date::{Date, date_render, push_date};
use crate::decimal::{Decimal, lemma_pow10_pos};
use crate::digits::{dec_digits, padded_digits, pow10};

verus! {

/// `10^38`.
proof fn lemma_pow10_38()
    ensures
        pow10(38) == 100000000000000000000000000000000000000,
{
    reveal_with_fuel(pow10, 39);
}

/// `10^39`.
proof fn lemma_pow10_39()
    ensures
        pow10(39) == 1000000000000000000000000000000000000000,
{
    reveal_with_fuel(pow10, 40);
}

/// Powers of ten do not decrease.
pub proof fn lemma_pow10_mono(a: nat, b: nat)
    requires
        a <= b,
    ensures
        pow10(a) <= pow10(b),
    decreases b - a,
{
    if a < b {
        lemma_pow10_mono(a, (b - 1) as nat);
        lemma_pow10_pos((b - 1) as nat);
    }
}

/// How a product compares to a cap, read off the cap's quotient.
proof fn lemma_mul_div_bound(x: nat, d: nat, cap: nat)
    requires
        1 <= d,
    ensures
        x <= cap / d ==> x * d <= cap,
        x > cap / d ==> x * d > cap,
{
    vstd::arithmetic::div_mod::lemma_fundamental_div_mod(cap as int, d as int);
    vstd::arithmetic::div_mod::lemma_mod_bound(cap as int, d as int);
    assert((d as int) * ((cap / d) as int) == ((cap / d) as int) * (d as int))
        by (nonlinear_arith);
    if x <= cap / d {
        assert(x * d <= (cap / d) * d) by (nonlinear_arith)
            requires
                x <= cap / d,
                d >= 1,
        ;
    } else {
        assert(x * d >= (cap / d + 1) * d) by (nonlinear_arith)
            requires
                x >= cap / d + 1,
                d >= 1,
        ;
        assert((cap / d + 1) * d == (cap / d) * d + d) by (nonlinear_arith);
    }
}

/// The converted amount in hundredths: `rate * amount`, an exact decimal
/// with `rate.scale + amount.scale` fractional digits, rounded to two
/// decimal places with ties away from zero.
pub open spec fn cents_of(rate: Decimal, amount: Decimal) -> nat {
    let n = (rate.mantissa * amount.mantissa) as nat;
    let t = rate.scale + amount.scale;
    if t <= 2 {
        (n * pow10((2 - t) as nat)) as nat
    } else {
        let d = pow10((t - 2) as nat);
        if 2 * (n % d) >= d {
            (n / d + 1) as nat
        } else {
            n / d
        }
    }
}

/// `10^w` for a small exponent.
fn pow10_u128(w: u64) -> (r: u128)
    requires
        w <= 38,
    ensures
        r == pow10(w as nat),
{
    let mut r: u128 = 1;
    let mut i: u64 = 0;
    while i < w
        invariant
            i <= w <= 38,
            r == pow10(i as nat),
        decreases w - i,
    {
        proof {
            lemma_pow10_mono(i as nat + 1, 38);
            lemma_pow10_38();
        }
        r = r * 10;
        i = i + 1;
    }
    r
}

/// Multiplies a rate by an amount and rounds to hundredths.  `None` exactly
/// when the result does not fit the counter.
pub fn converted_cents(rate: Decimal, amount: Decimal) -> (r: Option<u128>)
    ensures
        match r {
            Option::Some(c) => c == cents_of(rate, amount),
            Option::None => cents_of(rate, amount) > u128::MAX,
        },
{
    proof {
        assert((rate.mantissa as int) * (amount.mantissa as int) <= (u64::MAX as int) * (
        u64::MAX as int)) by (nonlinear_arith)
            requires
                rate.mantissa <= u64::MAX,
                amount.mantissa <= u64::MAX,
        ;
    }
    let n: u128 = (rate.mantissa as u128) * (amount.mantissa as u128);
    let t: u64 = (rate.scale as u64) + (amount.scale as u64);
    proof {
        assert(pow10(0) == 1);
        assert(pow10(1) == 10);
        assert(pow10(2) == 100);
    }
    if t <= 2 {
        let mult: u128 = if t == 0 {
            100
        } else if t == 1 {
            10
        } else {
            1
        };
        proof {
            lemma_mul_div_bound(n as nat, mult as nat, u128::MAX as nat);
        }
        if n > u128::MAX / mult {
            None
        } else {
            Some(n * mult)
        }
    } else {
        let w: u64 = t - 2;
        if w > 38 {
            proof {
                lemma_pow10_39();
                lemma_pow10_mono(39, w as nat);
                vstd::arithmetic::div_mod::lemma_basic_div(n as int, pow10(w as nat) as int);
                vstd::arithmetic::div_mod::lemma_small_mod(n as nat, pow10(w as nat));
            }
            Some(0)
        } else {
            let d = pow10_u128(w);
            proof {
                lemma_pow10_mono(1, w as nat);
                lemma_pow10_mono(w as nat, 38);
                lemma_pow10_38();
            }
            let quo = n / d;
            let rem = n % d;
            if 2 * rem >= d {
                proof {
                    vstd::arithmetic::div_mod::lemma_div_is_ordered_by_denominator(
                        n as int,
                        10,
                        d as int,
                    );
                    vstd::arithmetic::div_mod::lemma_div_is_ordered(
                        n as int,
                        u128::MAX as int,
                        10,
                    );
                }
                Some(quo + 1)
            } else {
                Some(quo)
            }
        }
    }
}

/// `<units>.<two digits>` rendering of a cents count.
pub open spec fn cents_render(c: nat) -> Seq<u8> {
    dec_digits(c / 100) + seq![46u8] + padded_digits(c % 100, 2)
}

/// Appends the rendering of a cents count to `out`.
pub fn push_cents(out: &mut Vec<u8>, c: u128)
    ensures
        final(out)@ == old(out)@ + cents_render(c as nat),
{
    crate::digits::push_dec_digits(out, c / 100);
    out.push(46);
    crate::digits::push_padded_digits(out, c % 100, 2);
    proof {
        assert(final(out)@ =~= old(out)@ + cents_render(c as nat));
    }
}

/// Decimal rendering of `d`: the mantissa's digits with a dot `scale`
/// places from the right; no dot when the scale is zero.
pub open spec fn decimal_render(d: Decimal) -> Seq<u8> {
    if d.scale == 0 {
        dec_digits(d.mantissa as nat)
    } else {
        dec_digits((d.mantissa as nat) / pow10(d.scale as nat)) + seq![46u8] + padded_digits(
            (d.mantissa as nat) % pow10(d.scale as nat),
            d.scale as nat,
        )
    }
}

/// Appends the rendering of a decimal to `out`.
pub fn push_decimal(out: &mut Vec<u8>, d: Decimal)
    ensures
        final(out)@ == old(out)@ + decimal_render(d),
{
    if d.scale == 0 {
        crate::digits::push_dec_digits(out, d.mantissa as u128);
        return ;
    }
    if d.scale <= 38 {
        proof {
            lemma_pow10_pos(d.scale as nat);
        }
        let p = pow10_u128(d.scale as u64);
        crate::digits::push_dec_digits(out, (d.mantissa as u128) / p);
        out.push(46);
        crate::digits::push_padded_digits(out, (d.mantissa as u128) % p, d.scale as usize);
        proof {
            assert(final(out)@ =~= old(out)@ + decimal_render(d));
        }
    } else {
        proof {
            lemma_pow10_39();
            lemma_pow10_mono(39, d.scale as nat);
            vstd::arithmetic::div_mod::lemma_basic_div(
                d.mantissa as int,
                pow10(d.scale as nat) as int,
            );
            vstd::arithmetic::div_mod::lemma_small_mod(d.mantissa as nat, pow10(d.scale as nat));
        }
        crate::digits::push_dec_digits(out, 0);
        out.push(46);
        crate::digits::push_padded_digits(out, d.mantissa as u128, d.scale as usize);
        proof {
            assert(final(out)@ =~= old(out)@ + decimal_render(d));
        }
    }
}

/// Rendering of the converted amounts, one leading space before each.
pub open spec fn amounts_render(rate: Decimal, amounts: Seq<Decimal>) -> Seq<u8>
    decreases amounts.len(),
{
    if amounts.len() == 0 {
        Seq::empty()
    } else {
        amounts_render(rate, amounts.drop_last()) + seq![32u8] + cents_render(
            cents_of(rate, amounts.last()),
        )
    }
}

/// Every converted amount fits the cents counter.
pub open spec fn all_amounts_fit(rate: Decimal, amounts: Seq<Decimal>) -> bool {
    forall|j: int| 0 <= j < amounts.len() ==> cents_of(rate, amounts[j]) <= u128::MAX
}

/// The whole output line:
/// `<effective date> (<rate>): <converted> <converted> …` and a newline,
/// the amounts in input order.
pub open spec fn line_render(date: Date, rate: Decimal, amounts: Seq<Decimal>) -> Seq<u8> {
    date_render(date) + seq![32u8, 40u8] + decimal_render(rate) + seq![41u8, 58u8]
        + amounts_render(rate, amounts) + seq![10u8]
}

/// Builds the output line for a resolved rate and the supplied amounts.
/// `None` exactly when some converted amount overflows the cents counter.
pub fn build_output_line(date: Date, rate: Decimal, amounts: &Vec<Decimal>) -> (r: Option<
    Vec<u8>,
>)
    requires
        -9999 <= date.year <= 9999,
    ensures
        r is Some <==> all_amounts_fit(rate, amounts@),
        r is Some ==> r->0@ == line_render(date, rate, amounts@),
{
    let ghost head = date_render(date) + seq![32u8, 40u8] + decimal_render(rate) + seq![
        41u8,
        58u8,
    ];
    let mut out: Vec<u8> = Vec::new();
    push_date(&mut out, date);
    out.push(32);
    out.push(40);
    push_decimal(&mut out, rate);
    out.push(41);
    out.push(58);
    proof {
        assert(out@ =~= head);
        assert(amounts@.take(0) =~= Seq::<Decimal>::empty());
        assert(out@ =~= head + amounts_render(rate, amounts@.take(0)));
    }
    let mut k: usize = 0;
    while k < amounts.len()
        invariant
            k <= amounts@.len(),
            forall|j: int| 0 <= j < k ==> cents_of(rate, amounts@[j]) <= u128::MAX,
            out@ == head + amounts_render(rate, amounts@.take(k as int)),
            head == date_render(date) + seq![32u8, 40u8] + decimal_render(rate) + seq![
                41u8,
                58u8,
            ],
        decreases amounts@.len() - k,
    {
        match converted_cents(rate, amounts[k]) {
            Option::Some(c) => {
                out.push(32);
                push_cents(&mut out, c);
                proof {
                    assert(amounts@.take(k as int + 1).drop_last() =~= amounts@.take(k as int));
                    assert(amounts@.take(k as int + 1).last() == amounts@[k as int]);
                    assert(out@ =~= head + amounts_render(rate, amounts@.take(k as int + 1)));
                }
                k = k + 1;
            },
            Option::None => {
                return None;
            },
        }
    }
    out.push(10);
    proof {
        assert(amounts@.take(amounts@.len() as int) =~= amounts@);
        assert(out@ =~= line_render(date, rate, amounts@));
    }
    Some(out)
}

} // verus!
