//! The word-boundary engines.

pub mod charwalk;
pub mod fancy_regex;
pub mod regex;
