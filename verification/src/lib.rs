//! A USD to NIS conversion library.
//!
//! Given a calendar date, the library builds a ranged query for the central
//! bank's exchange-rate series, extracts the most recent observation from the
//! response body, and falls back to earlier days inside a fixed lookback
//! window when the requested day has no publication.  Rates are handled as
//! exact decimals; amounts are converted and rounded to two decimal places.
//!
//! Network transport and the command-line surface live outside the library:
//! they hand in a date string, amount strings and a response body, and take
//! back plain values.

pub mod date;
pub mod decimal;
pub mod digits;
pub mod output;
pub mod resolve;
pub mod scan;
pub mod series;
