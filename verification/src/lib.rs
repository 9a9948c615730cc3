//! Fixed-point formatting and parsing of Nigerian Naira amounts.
//!
//! Amounts are carried as signed 64-bit integers in thousandths of a naira
//! (one tenth of a kobo), so every formatting decision — grouping, rounding
//! to two decimal places, compact magnitude tiers — is exact integer
//! arithmetic with a proved contract.

pub mod format;
pub mod group;
pub mod laws;
pub mod model;
pub mod parse;
pub mod words;

pub use format::{format_kobo_to_naira, format_naira, format_naira_compact, format_naira_to_kobo};
pub use group::format_with_commas;
pub use parse::{parse_naira, ParseError};
pub use words::{compose_phrase, format_to_word, WordsError};
