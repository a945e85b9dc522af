//! What the data source's rendering of a series guarantees.
//!
//! The source lists a series' observations in ascending date order and
//! closes the list with `</Series>`, so the observation standing right
//! before the close is the most recent one.  The law here: the scanner's
//! pattern holds at a rendered observation in that position — whatever
//! comes before or after the series — and reads back exactly the date and
//! the value digits that were rendered.  Together with the resolver's
//! contract this is the fallback guarantee: the day returned is the newest
//! one the source published in the window, never an older one.

use vstd::prelude::*;
use crate::date::{Date, date_render, date_pattern_at, date_value_at};
use crate::digits::{all_digits, is_digit, digit_of, padded_digits};
use crate::scan::{open_lit, mid_lit, tail_lit, occurs_at, digit_run_len, non_gt_run_len,
    match_at, obs_date_at, obs_int_at, obs_frac_at};

verus! {

/// The literal `></Obs>`.
pub open spec fn obs_close() -> Seq<u8> {
    seq![62u8, 60u8, 47u8, 79u8, 98u8, 115u8, 62u8]
}

/// The literal `</Series>`.
pub open spec fn series_close() -> Seq<u8> {
    seq![60u8, 47u8, 83u8, 101u8, 114u8, 105u8, 101u8, 115u8, 62u8]
}

/// One observation as the source renders it:
/// `<Obs TIME_PERIOD="<date>" OBS_VALUE="<ints>.<fracs>"></Obs>`.
pub open spec fn render_obs(date: Date, ints: Seq<u8>, fracs: Seq<u8>) -> Seq<u8> {
    open_lit() + date_render(date) + mid_lit() + ints + seq![46u8] + fracs + seq![34u8]
        + obs_close()
}

/// A body whose series ends with the given observation: anything before
/// it, the rendered record, the series close, anything after.
pub open spec fn body_with_last(
    prefix: Seq<u8>,
    date: Date,
    ints: Seq<u8>,
    fracs: Seq<u8>,
    suffix: Seq<u8>,
) -> Seq<u8> {
    prefix + render_obs(date, ints, fracs) + series_close() + suffix
}

/// A zero-padded rendering has the asked-for width and holds digits.
pub proof fn lemma_padded_len(n: nat, w: nat)
    ensures
        padded_digits(n, w).len() == w,
        all_digits(padded_digits(n, w)),
    decreases w,
{
    if w > 0 {
        lemma_padded_len(n / 10, (w - 1) as nat);
    }
}

/// The two-digit rendering of a number below one hundred, digit by digit.
proof fn lemma_padded2(n: nat)
    requires
        n < 100,
    ensures
        padded_digits(n, 2) =~= seq![digit_of(n / 10), digit_of(n % 10)],
{
    vstd::arithmetic::div_mod::lemma_small_mod(n / 10, 10);
    assert(padded_digits((n / 10) / 10, 0) =~= Seq::<u8>::empty());
    assert(padded_digits(n / 10, 1) =~= seq![digit_of((n / 10) % 10)]);
}

/// The four-digit rendering of a number below ten thousand, digit by digit.
proof fn lemma_padded4(n: nat)
    requires
        n < 10000,
    ensures
        padded_digits(n, 4) =~= seq![
            digit_of(n / 1000),
            digit_of((n / 100) % 10),
            digit_of((n / 10) % 10),
            digit_of(n % 10),
        ],
{
    vstd::arithmetic::div_mod::lemma_div_denominator(n as int, 10, 10);
    vstd::arithmetic::div_mod::lemma_div_denominator(n as int, 100, 10);
    vstd::arithmetic::div_mod::lemma_small_mod(n / 1000, 10);
    assert(padded_digits(n / 100, 2) =~= seq![digit_of((n / 100) / 10), digit_of((n / 100) % 10)])
        by {
        lemma_padded2(n / 100);
    }
    assert(padded_digits(n / 10, 3) =~= padded_digits(n / 100, 2).push(digit_of((n / 10) % 10)));
    assert(padded_digits(n, 4) =~= padded_digits(n / 10, 3).push(digit_of(n % 10)));
}

/// A number below ten thousand is recovered from its four digits.
proof fn lemma_recompose4(n: nat)
    requires
        n < 10000,
    ensures
        (n / 1000) * 1000 + ((n / 100) % 10) * 100 + ((n / 10) % 10) * 10 + n % 10 == n,
{
    vstd::arithmetic::div_mod::lemma_div_denominator(n as int, 10, 10);
    vstd::arithmetic::div_mod::lemma_div_denominator(n as int, 100, 10);
    vstd::arithmetic::div_mod::lemma_fundamental_div_mod(n as int, 10);
    vstd::arithmetic::div_mod::lemma_fundamental_div_mod(n as int / 10, 10);
    vstd::arithmetic::div_mod::lemma_fundamental_div_mod(n as int / 100, 10);
}

/// A number below one hundred is recovered from its two digits.
proof fn lemma_recompose2(n: nat)
    requires
        n < 100,
    ensures
        (n / 10) * 10 + n % 10 == n,
{
    vstd::arithmetic::div_mod::lemma_fundamental_div_mod(n as int, 10);
}

/// The ten bytes of a rendered date form the date digit layout and name
/// that date back.
proof fn lemma_date_render_at(s: Seq<u8>, j: int, d: Date)
    requires
        d.valid(),
        0 <= d.year <= 9999,
        0 <= j,
        j + 10 <= s.len(),
        forall|k: int| 0 <= k < 10 ==> s[j + k] == date_render(d)[k],
    ensures
        date_pattern_at(s, j),
        date_value_at(s, j) == d,
{
    let y = d.year as nat;
    let mo = d.month as nat;
    let da = d.day as nat;
    lemma_padded4(y);
    lemma_padded2(mo);
    lemma_padded2(da);
    assert(date_render(d) =~= seq![
        digit_of(y / 1000),
        digit_of((y / 100) % 10),
        digit_of((y / 10) % 10),
        digit_of(y % 10),
        45u8,
        digit_of(mo / 10),
        digit_of(mo % 10),
        45u8,
        digit_of(da / 10),
        digit_of(da % 10),
    ]);
    lemma_recompose4(y);
    lemma_recompose2(mo);
    lemma_recompose2(da);
    assert(date_value_at(s, j).year == d.year);
    assert(date_value_at(s, j).month == d.month);
    assert(date_value_at(s, j).day == d.day);
}

/// A run of digits bounded by a non-digit has exactly its own length.
proof fn lemma_digit_run_exact(s: Seq<u8>, p: int, k: nat)
    requires
        0 <= p,
        p + k <= s.len(),
        forall|j: int| p <= j < p + k ==> is_digit(s[j]),
        p + k == s.len() || !is_digit(s[p + k]),
    ensures
        digit_run_len(s, p) == k,
    decreases k,
{
    if k > 0 {
        lemma_digit_run_exact(s, p + 1, (k - 1) as nat);
    }
}

/// The scanner's pattern holds at a rendered observation standing right
/// before the series close, and its captures are exactly the rendered
/// date and value digits.
#[verifier::rlimit(100)]
#[verifier::spinoff_prover]
pub proof fn lemma_render_match(
    prefix: Seq<u8>,
    date: Date,
    ints: Seq<u8>,
    fracs: Seq<u8>,
    suffix: Seq<u8>,
)
    requires
        date.valid(),
        0 <= date.year <= 9999,
        ints.len() >= 1,
        fracs.len() >= 1,
        all_digits(ints),
        all_digits(fracs),
    ensures
        match_at(body_with_last(prefix, date, ints, fracs, suffix), prefix.len() as int),
        obs_date_at(body_with_last(prefix, date, ints, fracs, suffix), prefix.len() as int)
            == date,
        obs_int_at(body_with_last(prefix, date, ints, fracs, suffix), prefix.len() as int)
            == ints,
        obs_frac_at(body_with_last(prefix, date, ints, fracs, suffix), prefix.len() as int)
            == fracs,
{
    let body = body_with_last(prefix, date, ints, fracs, suffix);
    let rec = render_obs(date, ints, fracs);
    let pl = prefix.len() as int;
    let ilen = ints.len() as int;
    let flen = fracs.len() as int;
    lemma_padded_len(date.year as nat, 4);
    lemma_padded_len(date.month as nat, 2);
    lemma_padded_len(date.day as nat, 2);
    assert(date_render(date).len() == 10);
    assert(rec.len() == 50 + ilen + flen);
    assert forall|k: int| 0 <= k < rec.len() implies body[pl + k] == rec[k] by {
        assert((prefix + rec)[pl + k] == rec[k]);
    }
    // the opening literal, the date, the middle literal
    assert(occurs_at(body, pl, open_lit())) by {
        assert forall|k: int| 0 <= k < 18 implies body[pl + k] == open_lit()[k] by {
            assert(rec[k] == open_lit()[k]);
        }
    }
    assert forall|k: int| 0 <= k < 10 implies body[pl + 18 + k] == date_render(date)[k] by {
        assert(rec[18 + k] == date_render(date)[k]);
    }
    lemma_date_render_at(body, pl + 18, date);
    assert(occurs_at(body, pl + 28, mid_lit())) by {
        assert forall|k: int| 0 <= k < 13 implies body[pl + 28 + k] == mid_lit()[k] by {
            assert(rec[28 + k] == mid_lit()[k]);
        }
    }
    // the value digits and their separators
    let p = pl + 41;
    assert forall|j: int| p <= j < p + ilen implies is_digit(body[j]) by {
        assert(rec[41 + (j - p)] == ints[j - p]);
    }
    assert(body[p + ilen] == 46u8) by {
        assert(rec[41 + ilen] == 46u8);
    }
    lemma_digit_run_exact(body, p, ints.len());
    assert forall|j: int| p + ilen + 1 <= j < p + ilen + 1 + flen implies is_digit(body[j]) by {
        assert(rec[42 + ilen + (j - (p + ilen + 1))] == fracs[j - (p + ilen + 1)]);
    }
    assert(body[p + ilen + 1 + flen] == 34u8) by {
        assert(rec[42 + ilen + flen] == 34u8);
    }
    lemma_digit_run_exact(body, p + ilen + 1, fracs.len());
    // the closing run and literal
    let q = p + ilen + 1 + flen + 1;
    assert(body[q] == 62u8) by {
        assert(rec[43 + ilen + flen] == obs_close()[0]);
    }
    assert(non_gt_run_len(body, q) == 0);
    assert(occurs_at(body, q, tail_lit())) by {
        assert forall|k: int| 0 <= k < 16 implies body[q + k] == tail_lit()[k] by {
            if k < 7 {
                assert(rec[43 + ilen + flen + k] == obs_close()[k]);
                assert(tail_lit()[k] == obs_close()[k]);
            } else {
                assert(body[q + k] == ((prefix + rec) + series_close())[pl + rec.len() + (k - 7)]);
                assert(((prefix + rec) + series_close())[pl + rec.len() + (k - 7)]
                    == series_close()[k - 7]);
                assert(tail_lit()[k] == series_close()[k - 7]);
            }
        }
    }
    assert(obs_int_at(body, pl) =~= ints);
    assert(obs_frac_at(body, pl) =~= fracs);
}

/// One published observation: its date and the digit strings of its value.
pub ghost struct ObsRec {
    pub date: Date,
    pub ints: Seq<u8>,
    pub fracs: Seq<u8>,
}

/// A well-formed observation: an existing four-digit-year day, and
/// non-empty digit strings on both sides of the point.
pub open spec fn obs_ok(o: ObsRec) -> bool {
    &&& o.date.valid()
    &&& 0 <= o.date.year <= 9999
    &&& o.ints.len() >= 1
    &&& o.fracs.len() >= 1
    &&& all_digits(o.ints)
    &&& all_digits(o.fracs)
}

pub open spec fn rec_of(o: ObsRec) -> Seq<u8> {
    render_obs(o.date, o.ints, o.fracs)
}

/// The renderings of a list of observations, in order.
pub open spec fn renders(list: Seq<ObsRec>) -> Seq<u8>
    decreases list.len(),
{
    if list.len() == 0 {
        Seq::empty()
    } else {
        renders(list.drop_last()) + rec_of(list.last())
    }
}

/// A body that is one rendered series: the observations in order, closed by
/// `</Series>`.
pub open spec fn series_render(list: Seq<ObsRec>) -> Seq<u8> {
    renders(list) + series_close()
}

/// Position of observation `k` in the rendered series.
pub open spec fn obs_pos(list: Seq<ObsRec>, k: int) -> int {
    renders(list.take(k)).len() as int
}

pub open spec fn is_obs_pos(list: Seq<ObsRec>, j: int) -> bool {
    exists|k: int| 0 <= k < list.len() && j == obs_pos(list, k)
}

proof fn lemma_renders_take_succ(list: Seq<ObsRec>, k: int)
    requires
        0 <= k < list.len(),
    ensures
        renders(list.take(k + 1)) == renders(list.take(k)) + rec_of(list[k]),
{
    assert(list.take(k + 1).drop_last() =~= list.take(k));
    assert(list.take(k + 1).last() == list[k]);
}

proof fn lemma_renders_prefix(list: Seq<ObsRec>, m: int)
    requires
        0 <= m <= list.len(),
    ensures
        renders(list.take(m)).len() <= renders(list).len(),
        forall|i: int| 0 <= i < renders(list.take(m)).len() ==> renders(list)[i] == renders(
            list.take(m),
        )[i],
    decreases list.len() - m,
{
    if m == list.len() {
        assert(list.take(m) =~= list);
    } else {
        lemma_renders_prefix(list, m + 1);
        lemma_renders_take_succ(list, m);
    }
}

/// The bytes of one rendered observation, region by region.
proof fn lemma_rec_parts(o: ObsRec)
    requires
        obs_ok(o),
    ensures
        rec_of(o).len() == 50 + o.ints.len() + o.fracs.len(),
        rec_of(o)[0] == 60u8,
        rec_of(o)[1] == 79u8,
        forall|i: int| 0 <= i < o.ints.len() ==> rec_of(o)[41 + i] == o.ints[i],
        rec_of(o)[41 + o.ints.len() as int] == 46u8,
        forall|i: int| 0 <= i < o.fracs.len() ==> rec_of(o)[42 + o.ints.len() + i] == o.fracs[i],
        rec_of(o)[42 + o.ints.len() as int + o.fracs.len() as int] == 34u8,
        rec_of(o)[43 + o.ints.len() as int + o.fracs.len() as int] == 62u8,
{
    lemma_padded_len(o.date.year as nat, 4);
    lemma_padded_len(o.date.month as nat, 2);
    lemma_padded_len(o.date.day as nat, 2);
    assert(date_render(o.date).len() == 10);
    assert(rec_of(o)[43 + o.ints.len() as int + o.fracs.len() as int] == obs_close()[0]);
    assert(rec_of(o)[1] == open_lit()[1]);
}

/// Where `<` can stand inside one rendered observation: at its start,
/// followed by `O`, or six bytes from its end, followed by `/`.
#[verifier::rlimit(60)]
proof fn lemma_rec_lt(o: ObsRec)
    requires
        obs_ok(o),
    ensures
        forall|j: int| 1 <= j < rec_of(o).len() && rec_of(o)[j] == 60u8 ==> j == rec_of(o).len()
            - 6,
        rec_of(o)[rec_of(o).len() - 5] == 47u8,
        rec_of(o).last() == 62u8,
{
    lemma_rec_parts(o);
    let rec = rec_of(o);
    let dr = date_render(o.date);
    let il = o.ints.len() as int;
    let fl = o.fracs.len() as int;
    let y = o.date.year as nat;
    lemma_padded4(y);
    lemma_padded2(o.date.month as nat);
    lemma_padded2(o.date.day as nat);
    assert(y / 1000 < 10) by (nonlinear_arith)
        requires
            y < 10000,
    ;
    assert forall|i: int| 0 <= i < 10 implies dr[i] != 60u8 by {
        assert(dr =~= seq![
            digit_of(y / 1000),
            digit_of((y / 100) % 10),
            digit_of((y / 10) % 10),
            digit_of(y % 10),
            45u8,
            digit_of((o.date.month as nat) / 10),
            digit_of((o.date.month as nat) % 10),
            45u8,
            digit_of((o.date.day as nat) / 10),
            digit_of((o.date.day as nat) % 10),
        ]);
    }
    assert(rec.last() == obs_close()[6]);
    assert(rec[rec.len() - 5] == obs_close()[2]);
    assert forall|j: int| 1 <= j < rec.len() && rec[j] == 60u8 implies j == rec.len() - 6 by {
        if j < 18 {
            assert(rec[j] == open_lit()[j]);
        } else if j < 28 {
            assert(rec[j] == dr[j - 18]);
        } else if j < 41 {
            assert(rec[j] == mid_lit()[j - 28]);
        } else if j < 41 + il {
            assert(rec[j] == o.ints[j - 41]);
            assert(is_digit(o.ints[j - 41]));
        } else if j == 41 + il {
        } else if j < 42 + il + fl {
            assert(rec[j] == o.fracs[j - 42 - il]);
            assert(is_digit(o.fracs[j - 42 - il]));
        } else if j == 42 + il + fl {
        } else {
            assert(rec[j] == obs_close()[j - 43 - il - fl]);
        }
    }
}

/// Where `<O` can stand in the rendered observations: only at an
/// observation's start.
proof fn lemma_renders_lt(list: Seq<ObsRec>)
    requires
        forall|k: int| 0 <= k < list.len() ==> obs_ok(#[trigger] list[k]),
    ensures
        forall|j: int| 0 <= j < renders(list).len() && #[trigger] renders(list)[j] == 60u8 ==> j
            + 1 < renders(list).len() && (renders(list)[j + 1] == 79u8 || renders(list)[j + 1]
            == 47u8) && (renders(list)[j + 1] == 79u8 ==> is_obs_pos(list, j)),
    decreases list.len(),
{
    if list.len() > 0 {
        let prev = list.drop_last();
        let o = list.last();
        let rp = renders(prev);
        let rec = rec_of(o);
        let r = renders(list);
        lemma_renders_lt(prev);
        lemma_rec_parts(o);
        lemma_rec_lt(o);
        assert forall|j: int| 0 <= j < r.len() && r[j] == 60u8 implies j + 1 < r.len() && (r[j + 1]
            == 79u8 || r[j + 1] == 47u8) && (r[j + 1] == 79u8 ==> is_obs_pos(list, j)) by {
            if j < rp.len() {
                assert(rp[j] == 60u8);
                assert(j + 1 < rp.len());
                assert(r[j + 1] == rp[j + 1]);
                if rp[j + 1] == 79u8 {
                    assert(is_obs_pos(prev, j));
                    let k = choose|k: int|
                        0 <= k < prev.len() && j == obs_pos(prev, k);
                    assert(prev.take(k) =~= list.take(k));
                    assert(obs_pos(list, k) == j);
                }
            } else {
                let rel = j - rp.len();
                assert(r[j] == rec[rel]);
                if rel == 0 {
                    assert(r[j + 1] == rec[1]);
                    assert(list.take(list.len() - 1) =~= prev);
                    assert(obs_pos(list, list.len() - 1) == j);
                } else {
                    assert(rel == rec.len() - 6);
                    assert(r[j + 1] == rec[rec.len() - 5]);
                }
            }
        }
    }
}

/// A match inside a rendered series can stand only at an observation start.
proof fn lemma_series_match_is_obs_pos(list: Seq<ObsRec>, j: int)
    requires
        forall|k: int| 0 <= k < list.len() ==> obs_ok(#[trigger] list[k]),
        match_at(series_render(list), j),
    ensures
        is_obs_pos(list, j),
{
    let body = series_render(list);
    let r = renders(list);
    lemma_renders_lt(list);
    assert(body[j] == open_lit()[0]);
    assert(body[j + 1] == open_lit()[1]);
    if j < r.len() {
        assert(r[j] == 60u8);
        assert(j + 1 < r.len());
        assert(body[j + 1] == r[j + 1]);
    } else {
        assert(body[j] == series_close()[j - r.len()]);
        assert(j == r.len());
        assert(body[j + 1] == series_close()[1]);
    }
}

/// The bytes of a rendered series at an inner observation: the record
/// itself, and the next record's second byte (`O`) two past its end.
proof fn lemma_body_at_obs(list: Seq<ObsRec>, k: int)
    requires
        forall|kk: int| 0 <= kk < list.len() ==> obs_ok(#[trigger] list[kk]),
        0 <= k < list.len() - 1,
    ensures
        obs_pos(list, k) + rec_of(list[k]).len() + 1 < series_render(list).len(),
        forall|i: int| 0 <= i < rec_of(list[k]).len() ==> series_render(list)[obs_pos(list, k) + i]
            == #[trigger] rec_of(list[k])[i],
        series_render(list)[obs_pos(list, k) + rec_of(list[k]).len() + 1] == 79u8,
{
    let body = series_render(list);
    let j = obs_pos(list, k);
    let o = list[k];
    let rec = rec_of(o);
    lemma_rec_parts(o);
    lemma_rec_parts(list[k + 1]);
    lemma_renders_take_succ(list, k);
    lemma_renders_take_succ(list, k + 1);
    lemma_renders_prefix(list, k + 2);
    let r2 = renders(list.take(k + 2));
    assert(r2 == renders(list.take(k)) + rec_of(o) + rec_of(list[k + 1]));
    assert(rec_of(list[k + 1]).len() >= 52);
    assert forall|i: int| j <= i < j + rec.len() + 2 implies body[i] == r2[i] by {
        assert(renders(list)[i] == r2[i]);
    }
    assert forall|i: int| 0 <= i < rec.len() implies body[j + i] == #[trigger] rec[i] by {
        assert(r2[j + i] == (renders(list.take(k)) + rec_of(o))[j + i]);
        assert(body[j + i] == r2[j + i]);
    }
    assert(body[j + rec.len() + 1] == r2[j + rec.len() + 1]);
    assert(r2[j + rec.len() + 1] == rec_of(list[k + 1])[1]);
}

/// Where the value runs are known, a `>` follows them and an `O` stands
/// where the closing literal wants a slash, nothing matches.
proof fn lemma_match_refuted(s: Seq<u8>, j: int, il: int, fl: int)
    requires
        il >= 1,
        fl >= 1,
        digit_run_len(s, j + 41) == il,
        digit_run_len(s, j + 41 + il + 1) == fl,
        j + 51 + il + fl < s.len(),
        s[j + 43 + il + fl] == 62u8,
        s[j + 51 + il + fl] == 79u8,
    ensures
        !match_at(s, j),
{
    let q = j + 43 + il + fl;
    if match_at(s, j) {
        assert(non_gt_run_len(s, q) == 0);
        assert(occurs_at(s, q, tail_lit()));
        assert(s[q + 8] == tail_lit()[8]);
        assert(tail_lit()[8] == 47u8);
    }
}

/// The value runs and closing bytes of an inner observation, read off the
/// rendered series.
proof fn lemma_obs_runs(list: Seq<ObsRec>, k: int)
    requires
        forall|kk: int| 0 <= kk < list.len() ==> obs_ok(#[trigger] list[kk]),
        0 <= k < list.len() - 1,
    ensures
        digit_run_len(series_render(list), obs_pos(list, k) + 41) == list[k].ints.len(),
        digit_run_len(series_render(list), obs_pos(list, k) + 41 + list[k].ints.len() + 1)
            == list[k].fracs.len(),
        obs_pos(list, k) + 51 + list[k].ints.len() + list[k].fracs.len() < series_render(
            list,
        ).len(),
        series_render(list)[obs_pos(list, k) + 43 + list[k].ints.len() + list[k].fracs.len()]
            == 62u8,
        series_render(list)[obs_pos(list, k) + 51 + list[k].ints.len() + list[k].fracs.len()]
            == 79u8,
{
    let body = series_render(list);
    let j = obs_pos(list, k);
    let o = list[k];
    let rec = rec_of(o);
    let il = o.ints.len() as int;
    let fl = o.fracs.len() as int;
    lemma_rec_parts(o);
    lemma_body_at_obs(list, k);
    let p = j + 41;
    assert(digit_run_len(body, p) == il) by {
        assert forall|i: int| p <= i < p + il implies is_digit(body[i]) by {
            assert(body[i] == rec[41 + (i - p)]);
        }
        assert(body[p + il] == rec[41 + il]);
        lemma_digit_run_exact(body, p, o.ints.len());
    }
    assert(digit_run_len(body, p + il + 1) == fl) by {
        assert forall|i: int| p + il + 1 <= i < p + il + 1 + fl implies is_digit(body[i]) by {
            assert(body[i] == rec[42 + il + (i - (p + il + 1))]);
        }
        assert(body[p + il + 1 + fl] == rec[42 + il + fl]);
        lemma_digit_run_exact(body, p + il + 1, o.fracs.len());
    }
    assert(body[j + 43 + il + fl] == rec[43 + il + fl]);
    assert(body[j + 51 + il + fl] == 79u8) by {
        assert(j + 51 + il + fl == j + rec.len() + 1);
    }
}

/// No match stands at an observation that another observation follows: the
/// closing literal is not there.
proof fn lemma_no_match_at_inner(list: Seq<ObsRec>, k: int)
    requires
        forall|kk: int| 0 <= kk < list.len() ==> obs_ok(#[trigger] list[kk]),
        0 <= k < list.len() - 1,
    ensures
        !match_at(series_render(list), obs_pos(list, k)),
{
    lemma_obs_runs(list, k);
    lemma_match_refuted(
        series_render(list),
        obs_pos(list, k),
        list[k].ints.len() as int,
        list[k].fracs.len() as int,
    );
}

/// The series' closing observation matches and is read back exactly.
proof fn lemma_series_match_last(list: Seq<ObsRec>)
    requires
        list.len() >= 1,
        forall|k: int| 0 <= k < list.len() ==> obs_ok(#[trigger] list[k]),
    ensures
        obs_pos(list, list.len() - 1) < series_render(list).len(),
        match_at(series_render(list), obs_pos(list, list.len() - 1)),
        obs_date_at(series_render(list), obs_pos(list, list.len() - 1)) == list.last().date,
        obs_int_at(series_render(list), obs_pos(list, list.len() - 1)) == list.last().ints,
        obs_frac_at(series_render(list), obs_pos(list, list.len() - 1)) == list.last().fracs,
{
    let body = series_render(list);
    let last = list.last();
    lemma_renders_take_succ(list, list.len() - 1);
    assert(list.take(list.len() as int) =~= list);
    assert(list.take(list.len() - 1) =~= list.drop_last());
    assert(body_with_last(
        renders(list.take(list.len() - 1)),
        last.date,
        last.ints,
        last.fracs,
        Seq::empty(),
    ) =~= body);
    lemma_render_match(
        renders(list.take(list.len() - 1)),
        last.date,
        last.ints,
        last.fracs,
        Seq::empty(),
    );
}

/// Nothing matches before the series' closing observation.
proof fn lemma_series_no_earlier(list: Seq<ObsRec>)
    requires
        list.len() >= 1,
        forall|k: int| 0 <= k < list.len() ==> obs_ok(#[trigger] list[k]),
    ensures
        forall|j: int| 0 <= j < obs_pos(list, list.len() - 1) ==> !match_at(
            series_render(list),
            j,
        ),
{
    let body = series_render(list);
    let lastpos = obs_pos(list, list.len() - 1);
    assert forall|j: int| 0 <= j < lastpos implies !match_at(body, j) by {
        if match_at(body, j) {
            lemma_series_match_is_obs_pos(list, j);
            let k = choose|k: int| 0 <= k < list.len() && j == obs_pos(list, k);
            assert(k < list.len() - 1);
            lemma_no_match_at_inner(list, k);
        }
    }
}

/// The resolution law for a rendered series: the leftmost match is the
/// series' closing observation — the most recent one — and its captures are
/// that observation's own date and digits.  The fallback never skips to an
/// older observation when a newer one stands in the body.
pub proof fn lemma_series_resolution(list: Seq<ObsRec>)
    requires
        list.len() >= 1,
        forall|k: int| 0 <= k < list.len() ==> obs_ok(#[trigger] list[k]),
    ensures
        crate::scan::first_match(series_render(list)) == Some(obs_pos(list, list.len() - 1)),
        obs_date_at(series_render(list), obs_pos(list, list.len() - 1)) == list.last().date,
        obs_int_at(series_render(list), obs_pos(list, list.len() - 1)) == list.last().ints,
        obs_frac_at(series_render(list), obs_pos(list, list.len() - 1)) == list.last().fracs,
{
    lemma_series_match_last(list);
    lemma_series_no_earlier(list);
    crate::scan::lemma_first_match_is(series_render(list), obs_pos(list, list.len() - 1));
}

/// The fallback law: for a body that is one rendered series whose
/// observations are in ascending date order — the source's documented
/// ordering — and whose most recent observation lies in the lookback
/// window and carries a positive value, resolution returns exactly that
/// observation's rate and date.  No older observation is ever picked while
/// a newer one stands in the body.
pub proof fn lemma_resolve_most_recent(target: Date, list: Seq<ObsRec>)
    requires
        list.len() >= 1,
        forall|k: int| 0 <= k < list.len() ==> obs_ok(#[trigger] list[k]),
        forall|k: int| 0 <= k < list.len() ==> crate::date::date_le(
            (#[trigger] list[k]).date,
            list.last().date,
        ),
        crate::resolve::in_window(target, list.last().date),
        crate::decimal::decimal_of_digits(list.last().ints, list.last().fracs) is Some,
        crate::decimal::decimal_of_digits(list.last().ints, list.last().fracs)->0.mantissa >= 1,
    ensures
        crate::resolve::resolve_spec(target, series_render(list)) == Result::<
            (crate::decimal::Decimal, Date),
            crate::resolve::ResolveError,
        >::Ok(
            (
                crate::decimal::decimal_of_digits(list.last().ints, list.last().fracs)->0,
                list.last().date,
            ),
        ),
        forall|k: int| 0 <= k < list.len() ==> crate::date::date_le(
            (#[trigger] list[k]).date,
            crate::resolve::resolve_spec(target, series_render(list))->Ok_0.1,
        ),
{
    lemma_series_resolution(list);
}

} // verus!
