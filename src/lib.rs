//! Answers, for any Unicode scalar value, whether mapping it to lowercase or
//! to uppercase would change it, by searching a compact table of packed
//! 32-bit range records; and builds and checks that table from a full
//! per-codepoint case database.
use vstd::prelude::*;

pub mod case_info;
pub mod encoding;
pub mod search;
pub mod tabgen;
