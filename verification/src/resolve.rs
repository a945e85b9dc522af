//! The rate-resolution policy: input validation, query construction, the
//! lookback window, and the reading of a response body into a resolution
//! result.
//!
//! A single ranged query covers the window of the last [`LOOKBACK_DAYS`]
//! days ending at the requested date; the most recent observation of the
//! response — the one that closes its series — is the answer.  A body with
//! no such observation, or one whose observation falls outside the window,
//! is a data-absence failure carrying the requested date.  Transport is done
//! outside the library; the retry policy it must follow is stated here as
//! plain decisions.

use vstd::prelude::*;
use crate::date::{Date, date_le, date_render, parse_date_spec, parse_date, push_date};
use crate::decimal::{Decimal, decimal_of_digits, decimal_from_digits};
use crate::scan::{first_match, obs_date_at, obs_int_at, obs_frac_at, extract_observation,
    lemma_first_match_props, lemma_obs_digits};

verus! {

/// Number of days searched backward from the requested date.
pub const LOOKBACK_DAYS: u64 = 30;

/// Largest number of transport attempts for one query.
pub const MAX_ATTEMPTS: u64 = 4;

/// Delay between transport attempts, in milliseconds.
pub const BACKOFF_MS: u64 = 500;

/// Why no rate came back.
#[derive(Debug, PartialEq, Eq)]
pub enum ResolveError {
    /// No published rate stands in the lookback window ending at the
    /// requested date; carries that date.
    NotFound { requested: Date },
    /// The data source stayed unreachable; carries the attempted request.
    Transport { request: Vec<u8> },
}

/// Why the input was rejected before any network work.
#[derive(Clone, Copy, Debug, PartialEq, Eq, Structural)]
pub enum InputError {
    /// The date token is not a well-formed `YYYY-MM-DD` calendar day.
    BadDate,
    /// No amounts were supplied.
    NoAmounts,
}

/// First day of the lookback window ending at `target`.
pub open spec fn window_start(target: Date) -> Date {
    target.minus_days_spec(LOOKBACK_DAYS as nat)
}

/// `d` lies in the lookback window ending at `target`.
pub open spec fn in_window(target: Date, d: Date) -> bool {
    date_le(window_start(target), d) && date_le(d, target)
}

/// What a response body resolves to for a requested date: the most recent
/// observation of the body, when it names an existing day inside the
/// lookback window and its value fits a decimal and is positive; otherwise
/// data absence.  A rate is positive exactly when its mantissa is, so a
/// zero-valued observation carries no rate.
pub open spec fn resolve_spec(target: Date, body: Seq<u8>) -> Result<
    (Decimal, Date),
    ResolveError,
> {
    match first_match(body) {
        Option::None => Result::Err(ResolveError::NotFound { requested: target }),
        Option::Some(i) => {
            let d = obs_date_at(body, i);
            match decimal_of_digits(obs_int_at(body, i), obs_frac_at(body, i)) {
                Option::None => Result::Err(ResolveError::NotFound { requested: target }),
                Option::Some(rate) => if rate.mantissa >= 1 && d.valid() && in_window(target, d) {
                    Result::Ok((rate, d))
                } else {
                    Result::Err(ResolveError::NotFound { requested: target })
                },
            }
        },
    }
}

/// Resolves a response body for `target`: returns a positive rate and the
/// day it was published for, a day on or before `target` and no more than
/// [`LOOKBACK_DAYS`] days earlier.  Every other body — no observation, a
/// malformed date, a value too large or zero, a date outside the window —
/// is a data-absence error carrying `target`.
pub fn resolve_from_body(target: Date, body: &Vec<u8>) -> (r: Result<(Decimal, Date), ResolveError>)
    requires
        target.valid(),
        -9999 <= target.year <= 9999,
    ensures
        r == resolve_spec(target, body@),
        r matches Ok(p) ==> p.0.mantissa >= 1 && p.1.valid() && in_window(target, p.1),
{
    let obs = match extract_observation(body) {
        Option::Some(o) => o,
        Option::None => {
            return Result::Err(ResolveError::NotFound { requested: target });
        },
    };
    proof {
        lemma_first_match_props(body@, 0);
        lemma_obs_digits(body@, first_match(body@)->0);
    }
    if (obs.frac_digits.len() as u64) > (u32::MAX as u64) {
        return Result::Err(ResolveError::NotFound { requested: target });
    }
    let rate = match decimal_from_digits(&obs.int_digits, &obs.frac_digits) {
        Option::Some(v) => v,
        Option::None => {
            return Result::Err(ResolveError::NotFound { requested: target });
        },
    };
    let start = target.minus_days(LOOKBACK_DAYS);
    if rate.mantissa >= 1 && obs.date.is_valid() && start.on_or_before(obs.date)
        && obs.date.on_or_before(target) {
        Result::Ok((rate, obs.date))
    } else {
        Result::Err(ResolveError::NotFound { requested: target })
    }
}

/// The literal `ge:`.
pub open spec fn ge_lit() -> Seq<u8> {
    seq![103u8, 101u8, 58u8]
}

/// The literal `+le:`.
pub open spec fn le_lit() -> Seq<u8> {
    seq![43u8, 108u8, 101u8, 58u8]
}

/// The date-range expression of the outbound query:
/// `ge:<window start>+le:<target>`.
pub open spec fn range_query_spec(target: Date) -> Seq<u8> {
    ge_lit() + date_render(window_start(target)) + le_lit() + date_render(target)
}

/// Builds the date-range expression of the query for `target`.  The host,
/// path and parameter names around it are configuration and stay with the
/// caller.
pub fn build_range_query(target: Date) -> (r: Vec<u8>)
    requires
        target.valid(),
        0 <= target.year <= 9999,
    ensures
        r@ == range_query_spec(target),
{
    proof {
        crate::date::lemma_minus_days_props(target, LOOKBACK_DAYS as nat);
    }
    let start = target.minus_days(LOOKBACK_DAYS);
    let mut out: Vec<u8> = Vec::new();
    out.push(103);
    out.push(101);
    out.push(58);
    proof {
        assert(out@ =~= ge_lit());
    }
    push_date(&mut out, start);
    out.push(43);
    out.push(108);
    out.push(101);
    out.push(58);
    push_date(&mut out, target);
    proof {
        assert(out@ =~= range_query_spec(target));
    }
    out
}

/// What the CLI input means: with no amounts it is a usage error; with a
/// malformed date token it is a date error; otherwise it is the parsed
/// target date.
pub open spec fn plan_spec(date_str: Seq<u8>, amount_count: int) -> Result<Date, InputError> {
    if amount_count == 0 {
        Result::Err(InputError::NoAmounts)
    } else {
        match parse_date_spec(date_str) {
            Option::None => Result::Err(InputError::BadDate),
            Option::Some(d) => Result::Ok(d),
        }
    }
}

/// The validated input: the target date and the query to send for it.
#[derive(Debug)]
pub struct Plan {
    pub target: Date,
    pub query: Vec<u8>,
}

/// Validates the input before any network work: at least one amount must be
/// supplied, and the date token must name an existing calendar day.  Only a
/// valid input yields a plan, which carries the query for the lookback
/// window ending at the target date.
pub fn plan_conversion(date_str: &Vec<u8>, amount_count: usize) -> (r: Result<Plan, InputError>)
    ensures
        amount_count == 0 ==> (r matches Err(e) && e == InputError::NoAmounts),
        amount_count > 0 && parse_date_spec(date_str@) is None ==> (r matches Err(e) && e
            == InputError::BadDate),
        amount_count > 0 && parse_date_spec(date_str@) is Some ==> (r matches Ok(p)
            && p.target == parse_date_spec(date_str@)->0 && p.query@ == range_query_spec(p.target)),
{
    if amount_count == 0 {
        return Result::Err(InputError::NoAmounts);
    }
    let target = match parse_date(date_str) {
        Option::Some(d) => d,
        Option::None => {
            return Result::Err(InputError::BadDate);
        },
    };
    let query = build_range_query(target);
    Result::Ok(Plan { target, query })
}

/// A date with a directly published rate resolves to that exact rate and an
/// effective date equal to the requested date: when the body's most recent
/// observation is dated the requested day itself and its value fits a
/// decimal and is positive, resolution returns precisely that value and
/// that day.
pub proof fn lemma_resolve_exact_day(target: Date, body: Seq<u8>)
    requires
        target.valid(),
        -9999 <= target.year <= 9999,
        first_match(body) is Some,
        obs_date_at(body, first_match(body)->0) == target,
        decimal_of_digits(
            obs_int_at(body, first_match(body)->0),
            obs_frac_at(body, first_match(body)->0),
        ) is Some,
        decimal_of_digits(
            obs_int_at(body, first_match(body)->0),
            obs_frac_at(body, first_match(body)->0),
        )->0.mantissa >= 1,
    ensures
        resolve_spec(target, body) == Result::<(Decimal, Date), ResolveError>::Ok(
            (
                decimal_of_digits(
                    obs_int_at(body, first_match(body)->0),
                    obs_frac_at(body, first_match(body)->0),
                )->0,
                target,
            ),
        ),
{
    crate::date::lemma_minus_days_props(target, LOOKBACK_DAYS as nat);
}

/// Resolution is a function of the requested date and the response body
/// alone: two calls over the same body give the same rate and date.
pub proof fn lemma_resolve_idempotent(target: Date, body1: Seq<u8>, body2: Seq<u8>)
    requires
        body1 == body2,
    ensures
        resolve_spec(target, body1) == resolve_spec(target, body2),
{
}

/// Transport decision: after the attempt numbered `attempt` (counted from
/// zero) has failed, whether the query is sent again after the backoff
/// delay.  At most [`MAX_ATTEMPTS`] attempts are made in all; the outcome
/// of the last one stands either way.
pub fn should_retry(attempt: u64, succeeded: bool) -> (r: bool)
    ensures
        r == (!succeeded && attempt + 1 < MAX_ATTEMPTS),
{
    !succeeded && attempt < MAX_ATTEMPTS - 1
}

} // verus!
