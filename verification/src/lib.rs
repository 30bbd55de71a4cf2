//! Rate limit rules, request traces and the token buckets that decide
//! which request of a trace gets throttled.

pub mod text;
pub mod diagnostics;
pub mod config;
pub mod trace;
pub mod simulate;
pub mod report;
