//! Extraction of the most recent observation from a response body.
//!
//! The body is semi-structured markup.  The record of interest is the
//! observation that closes a series: an `Obs` element carrying a
//! `TIME_PERIOD` date and a decimal `OBS_VALUE`, immediately followed by
//! `</Obs></Series>`.  Because observations arrive in ascending date order,
//! that record is the most recent one.  The scanner finds the leftmost
//! position where this shape occurs and reads out the date and the value's
//! digit strings.

use vstd::prelude::*;
use crate::date::{Date, date_pattern_at, date_value_at};
use crate::digits::is_digit;

verus! {

/// The opening literal `<Obs TIME_PERIOD="` (18 bytes).
pub open spec fn open_lit() -> Seq<u8> {
    seq![60u8, 79u8, 98u8, 115u8, 32u8, 84u8, 73u8, 77u8, 69u8, 95u8, 80u8, 69u8, 82u8, 73u8,
        79u8, 68u8, 61u8, 34u8]
}

/// The middle literal `" OBS_VALUE="` (13 bytes).
pub open spec fn mid_lit() -> Seq<u8> {
    seq![34u8, 32u8, 79u8, 66u8, 83u8, 95u8, 86u8, 65u8, 76u8, 85u8, 69u8, 61u8, 34u8]
}

/// The closing literal `></Obs></Series>` (16 bytes).
pub open spec fn tail_lit() -> Seq<u8> {
    seq![62u8, 60u8, 47u8, 79u8, 98u8, 115u8, 62u8, 60u8, 47u8, 83u8, 101u8, 114u8, 105u8,
        101u8, 115u8, 62u8]
}

/// `lit` occurs in `s` at position `i`.
pub open spec fn occurs_at(s: Seq<u8>, i: int, lit: Seq<u8>) -> bool {
    &&& 0 <= i
    &&& i + lit.len() <= s.len()
    &&& forall|k: int| 0 <= k < lit.len() ==> s[i + k] == lit[k]
}

/// Length of the run of ASCII digits starting at `p`.
pub open spec fn digit_run_len(s: Seq<u8>, p: int) -> nat
    decreases s.len() - p,
{
    if p < 0 || p >= s.len() {
        0
    } else if is_digit(s[p]) {
        1 + digit_run_len(s, p + 1)
    } else {
        0
    }
}

/// Length of the run of bytes other than `>` starting at `p`.
pub open spec fn non_gt_run_len(s: Seq<u8>, p: int) -> nat
    decreases s.len() - p,
{
    if p < 0 || p >= s.len() {
        0
    } else if s[p] != 62 {
        1 + non_gt_run_len(s, p + 1)
    } else {
        0
    }
}

/// The value-and-closing part of the pattern, starting at the first value
/// digit `p`: one or more digits, a dot, one or more digits, a double quote,
/// any bytes other than `>`, then the closing literal.
pub open spec fn value_match_at(s: Seq<u8>, p: int) -> bool {
    let ilen = digit_run_len(s, p) as int;
    let flen = digit_run_len(s, p + ilen + 1) as int;
    let q = p + ilen + 1 + flen + 1;
    let c = non_gt_run_len(s, q) as int;
    &&& ilen >= 1
    &&& p + ilen < s.len() && s[p + ilen] == 46u8
    &&& flen >= 1
    &&& p + ilen + 1 + flen < s.len() && s[p + ilen + 1 + flen] == 34u8
    &&& occurs_at(s, q + c, tail_lit())
}

/// A series-closing observation record stands at position `i` of `s`.
pub open spec fn match_at(s: Seq<u8>, i: int) -> bool {
    &&& occurs_at(s, i, open_lit())
    &&& date_pattern_at(s, i + 18)
    &&& occurs_at(s, i + 28, mid_lit())
    &&& value_match_at(s, i + 41)
}

/// Leftmost position at or after `i` where a record stands.
pub open spec fn first_match_from(s: Seq<u8>, i: int) -> Option<int>
    decreases s.len() - i,
{
    if i < 0 || i >= s.len() {
        None
    } else if match_at(s, i) {
        Some(i)
    } else {
        first_match_from(s, i + 1)
    }
}

/// Leftmost position in `s` where a series-closing observation stands.
pub open spec fn first_match(s: Seq<u8>) -> Option<int> {
    first_match_from(s, 0)
}

/// Date carried by the record at position `i`.
pub open spec fn obs_date_at(s: Seq<u8>, i: int) -> Date {
    date_value_at(s, i + 18)
}

/// Integer digits of the value carried by the record at position `i`.
pub open spec fn obs_int_at(s: Seq<u8>, i: int) -> Seq<u8> {
    s.subrange(i + 41, i + 41 + digit_run_len(s, i + 41) as int)
}

/// Fractional digits of the value carried by the record at position `i`.
pub open spec fn obs_frac_at(s: Seq<u8>, i: int) -> Seq<u8> {
    let p = i + 41;
    let ilen = digit_run_len(s, p) as int;
    s.subrange(p + ilen + 1, p + ilen + 1 + digit_run_len(s, p + ilen + 1) as int)
}

/// A digit run lies inside the text and consists of digits.
pub proof fn lemma_digit_run(s: Seq<u8>, p: int)
    requires
        0 <= p <= s.len(),
    ensures
        p + digit_run_len(s, p) <= s.len(),
        forall|k: int| p <= k < p + digit_run_len(s, p) ==> is_digit(s[k]),
    decreases s.len() - p,
{
    if p < s.len() && is_digit(s[p]) {
        lemma_digit_run(s, p + 1);
    }
}

/// The value digit strings of a record are non-empty and all digits.
pub proof fn lemma_obs_digits(s: Seq<u8>, i: int)
    requires
        match_at(s, i),
    ensures
        obs_int_at(s, i).len() >= 1,
        obs_frac_at(s, i).len() >= 1,
        crate::digits::all_digits(obs_int_at(s, i)),
        crate::digits::all_digits(obs_frac_at(s, i)),
{
    let p = i + 41;
    let ilen = digit_run_len(s, p) as int;
    lemma_digit_run(s, p);
    lemma_digit_run(s, p + ilen + 1);
}

/// The leftmost match is a match, and nothing before it is one.
pub proof fn lemma_first_match_props(s: Seq<u8>, j: int)
    requires
        first_match_from(s, j) is Some,
    ensures
        j <= first_match_from(s, j)->0 < s.len(),
        match_at(s, first_match_from(s, j)->0),
        forall|k: int| j <= k < first_match_from(s, j)->0 ==> !match_at(s, k),
    decreases s.len() - j,
{
    if j < 0 || j >= s.len() || match_at(s, j) {
    } else {
        lemma_first_match_props(s, j + 1);
    }
}

proof fn lemma_first_match_from_is(s: Seq<u8>, i: int, p: int)
    requires
        0 <= i <= p < s.len(),
        match_at(s, p),
        forall|j: int| i <= j < p ==> !match_at(s, j),
    ensures
        first_match_from(s, i) == Some(p),
    decreases p - i,
{
    if i < p {
        lemma_first_match_from_is(s, i + 1, p);
    }
}

/// A match with nothing matching before it is the leftmost match.
pub proof fn lemma_first_match_is(s: Seq<u8>, p: int)
    requires
        0 <= p < s.len(),
        match_at(s, p),
        forall|j: int| 0 <= j < p ==> !match_at(s, j),
    ensures
        first_match(s) == Some(p),
{
    lemma_first_match_from_is(s, 0, p);
}

/// The observation found in a body: its date and the two digit strings of
/// its decimal value.
pub struct Observation {
    pub date: Date,
    pub int_digits: Vec<u8>,
    pub frac_digits: Vec<u8>,
}

fn open_lit_vec() -> (v: Vec<u8>)
    ensures
        v@ == open_lit(),
{
    let mut v: Vec<u8> = Vec::new();
    v.push(60);
    v.push(79);
    v.push(98);
    v.push(115);
    v.push(32);
    v.push(84);
    v.push(73);
    v.push(77);
    v.push(69);
    v.push(95);
    v.push(80);
    v.push(69);
    v.push(82);
    v.push(73);
    v.push(79);
    v.push(68);
    v.push(61);
    v.push(34);
    proof {
        assert(v@ =~= open_lit());
    }
    v
}

fn mid_lit_vec() -> (v: Vec<u8>)
    ensures
        v@ == mid_lit(),
{
    let mut v: Vec<u8> = Vec::new();
    v.push(34);
    v.push(32);
    v.push(79);
    v.push(66);
    v.push(83);
    v.push(95);
    v.push(86);
    v.push(65);
    v.push(76);
    v.push(85);
    v.push(69);
    v.push(61);
    v.push(34);
    proof {
        assert(v@ =~= mid_lit());
    }
    v
}

fn tail_lit_vec() -> (v: Vec<u8>)
    ensures
        v@ == tail_lit(),
{
    let mut v: Vec<u8> = Vec::new();
    v.push(62);
    v.push(60);
    v.push(47);
    v.push(79);
    v.push(98);
    v.push(115);
    v.push(62);
    v.push(60);
    v.push(47);
    v.push(83);
    v.push(101);
    v.push(114);
    v.push(105);
    v.push(101);
    v.push(115);
    v.push(62);
    proof {
        assert(v@ =~= tail_lit());
    }
    v
}

/// Whether `lit` occurs in `s` at position `i`.
fn lit_at(s: &Vec<u8>, i: usize, lit: &Vec<u8>) -> (r: bool)
    ensures
        r == occurs_at(s@, i as int, lit@),
{
    if s.len() < lit.len() || i > s.len() - lit.len() {
        return false;
    }
    let n = s.len();
    let mut k: usize = 0;
    while k < lit.len()
        invariant
            n == s@.len(),
            i + lit@.len() <= s@.len(),
            k <= lit@.len(),
            forall|j: int| 0 <= j < k ==> s@[i + j] == lit@[j],
        decreases lit@.len() - k,
    {
        if s[i + k] != lit[k] {
            return false;
        }
        k += 1;
    }
    true
}

/// End of the run of ASCII digits starting at `p`.
pub(crate) fn digit_run_end(s: &Vec<u8>, p: usize) -> (q: usize)
    requires
        p <= s@.len(),
    ensures
        p <= q <= s@.len(),
        q - p == digit_run_len(s@, p as int),
{
    let mut q: usize = p;
    while q < s.len() && 48 <= s[q] && s[q] <= 57
        invariant
            p <= q <= s@.len(),
            digit_run_len(s@, p as int) == (q - p) + digit_run_len(s@, q as int),
        decreases s@.len() - q,
    {
        q += 1;
    }
    q
}

/// End of the run of bytes other than `>` starting at `p`.
fn non_gt_run_end(s: &Vec<u8>, p: usize) -> (q: usize)
    requires
        p <= s@.len(),
    ensures
        p <= q <= s@.len(),
        q - p == non_gt_run_len(s@, p as int),
{
    let mut q: usize = p;
    while q < s.len() && s[q] != 62
        invariant
            p <= q <= s@.len(),
            non_gt_run_len(s@, p as int) == (q - p) + non_gt_run_len(s@, q as int),
        decreases s@.len() - q,
    {
        q += 1;
    }
    q
}

/// Whether the date digit layout stands at position `j`.
fn check_date_pattern(s: &Vec<u8>, j: usize) -> (r: bool)
    ensures
        r == date_pattern_at(s@, j as int),
{
    if s.len() < 10 || j > s.len() - 10 {
        return false;
    }
    let r = 48 <= s[j] && s[j] <= 57 && 48 <= s[j + 1] && s[j + 1] <= 57 && 48 <= s[j + 2]
        && s[j + 2] <= 57 && 48 <= s[j + 3] && s[j + 3] <= 57 && s[j + 4] == 45 && 48 <= s[j + 5]
        && s[j + 5] <= 57 && 48 <= s[j + 6] && s[j + 6] <= 57 && s[j + 7] == 45 && 48 <= s[j + 8]
        && s[j + 8] <= 57 && 48 <= s[j + 9] && s[j + 9] <= 57;
    r
}

/// Whether a series-closing observation record stands at position `i`.
fn check_match(s: &Vec<u8>, i: usize, open_l: &Vec<u8>, mid_l: &Vec<u8>, tail_l: &Vec<u8>) -> (r:
    bool)
    requires
        open_l@ == open_lit(),
        mid_l@ == mid_lit(),
        tail_l@ == tail_lit(),
    ensures
        r == match_at(s@, i as int),
{
    if !lit_at(s, i, open_l) {
        return false;
    }
    let n = s.len();
    proof {
        assert(open_lit().len() == 18);
        assert(mid_lit().len() == 13);
        assert(i + 18 <= n);
    }
    if !check_date_pattern(s, i + 18) {
        return false;
    }
    if !lit_at(s, i + 28, mid_l) {
        return false;
    }
    let p = i + 41;
    let ie = digit_run_end(s, p);
    if ie == p {
        return false;
    }
    if ie == s.len() || s[ie] != 46 {
        return false;
    }
    let fs = ie + 1;
    let fe = digit_run_end(s, fs);
    if fe == fs {
        return false;
    }
    if fe == s.len() || s[fe] != 34 {
        return false;
    }
    let q = fe + 1;
    let ge = non_gt_run_end(s, q);
    lit_at(s, ge, tail_l)
}

/// Reads the date whose digits stand at position `j`.
fn read_date(s: &Vec<u8>, j: usize) -> (r: Date)
    requires
        date_pattern_at(s@, j as int),
    ensures
        r == date_value_at(s@, j as int),
{
    let n = s.len();
    proof {
        assert(j + 10 <= n);
    }
    let year: i32 = ((s[j] - 48) as i32) * 1000 + ((s[j + 1] - 48) as i32) * 100 + ((s[j + 2]
        - 48) as i32) * 10 + ((s[j + 3] - 48) as i32);
    let month: u8 = (s[j + 5] - 48) * 10 + (s[j + 6] - 48);
    let day: u8 = (s[j + 8] - 48) * 10 + (s[j + 9] - 48);
    Date { year, month, day }
}

/// Copies `s[from..to]`.
pub(crate) fn copy_range(s: &Vec<u8>, from: usize, to: usize) -> (r: Vec<u8>)
    requires
        from <= to <= s@.len(),
    ensures
        r@ == s@.subrange(from as int, to as int),
{
    let mut r: Vec<u8> = Vec::new();
    proof {
        assert(r@ =~= s@.subrange(from as int, from as int));
    }
    let mut k: usize = from;
    while k < to
        invariant
            from <= k <= to <= s@.len(),
            r@ == s@.subrange(from as int, k as int),
        decreases to - k,
    {
        r.push(s[k]);
        proof {
            assert(r@ =~= s@.subrange(from as int, (k + 1) as int));
        }
        k += 1;
    }
    r
}

/// Finds the series-closing observation of `s` and reads out its date and
/// value digits.  Returns `None` when no such record occurs in the body.
pub fn extract_observation(s: &Vec<u8>) -> (r: Option<Observation>)
    ensures
        match first_match(s@) {
            Option::None => r is None,
            Option::Some(i) => {
                &&& r is Some
                &&& r->0.date == obs_date_at(s@, i)
                &&& r->0.int_digits@ == obs_int_at(s@, i)
                &&& r->0.frac_digits@ == obs_frac_at(s@, i)
            },
        },
{
    let open_l = open_lit_vec();
    let mid_l = mid_lit_vec();
    let tail_l = tail_lit_vec();
    let mut i: usize = 0;
    while i < s.len()
        invariant
            i <= s@.len(),
            open_l@ == open_lit(),
            mid_l@ == mid_lit(),
            tail_l@ == tail_lit(),
            first_match(s@) == first_match_from(s@, i as int),
        decreases s@.len() - i,
    {
        if check_match(s, i, &open_l, &mid_l, &tail_l) {
            let n = s.len();
            proof {
                assert(mid_lit().len() == 13);
                assert(i + 41 <= n);
            }
            let p = i + 41;
            let ie = digit_run_end(s, p);
            let fs = ie + 1;
            let fe = digit_run_end(s, fs);
            let date = read_date(s, i + 18);
            let int_digits = copy_range(s, p, ie);
            let frac_digits = copy_range(s, fs, fe);
            return Some(Observation { date, int_digits, frac_digits });
        }
        i += 1;
    }
    None
}

} // verus!
