//! Diagnose whether a call's trouble lies with the local network or with a
//! vendor's endpoint: threshold rules, the verdict, ping output parsing, and
//! the text rendering of the report.

pub mod bignum;
pub mod ratio;
pub mod render;
pub mod speed;
pub mod targets;
pub mod text;
pub mod ping;
pub mod verdict;
pub mod version;
