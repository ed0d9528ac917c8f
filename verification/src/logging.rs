//! Log levels and the level filter of the log dispatcher.
use vstd::prelude::*;

use crate::text::{all_ascii, lower, push_str, str_equals};

verus! {

/// Log level, by increasing severity.
#[derive(Debug, Clone, Copy, PartialEq, Eq, Structural)]
pub enum LogLevel {
    Trace,
    Debug,
    Info,
    Warn,
    Error,
}

/// The severity of a level: 0 for `Trace` up to 4 for `Error`.
pub open spec fn severity(l: LogLevel) -> nat {
    match l {
        LogLevel::Trace => 0,
        LogLevel::Debug => 1,
        LogLevel::Info => 2,
        LogLevel::Warn => 3,
        LogLevel::Error => 4,
    }
}

/// The severity of a level: 0 for `Trace` up to 4 for `Error`.
pub fn level_severity(l: LogLevel) -> (n: u8)
    ensures
        n == severity(l),
{
    match l {
        LogLevel::Trace => 0,
        LogLevel::Debug => 1,
        LogLevel::Info => 2,
        LogLevel::Warn => 3,
        LogLevel::Error => 4,
    }
}

/// Whether an entry of `level` passes a dispatcher whose minimum level is `min_level`.
pub fn passes_min_level(level: LogLevel, min_level: LogLevel) -> (b: bool)
    ensures
        b == (severity(level) >= severity(min_level)),
{
    level_severity(level) >= level_severity(min_level)
}

/// Configuration of the log system sent by the front end.
#[derive(Debug, Clone)]
pub struct LogConfig {
    /// The minimum level (`"trace"`, `"debug"`, `"info"`, `"warn"` or `"error"`);
    /// `info` when absent.
    pub min_level: Option<String>,
}

/// `s` in lower case, as `str::to_lowercase` gives it.
pub uninterp spec fn lowercase_of(s: Seq<char>) -> Seq<char>;

/// `str::to_lowercase`.
///
/// Trusted: the result is named `lowercase_of(s)`. For ASCII text it is the text with
/// `A`–`Z` turned into `a`–`z` (the ASCII letters' lowercase mappings); which other
/// characters change (the Unicode case tables) is not stated.
#[verifier::external_body]
fn to_lowercase(s: &str) -> (r: String)
    ensures
        r@ == lowercase_of(s@),
        all_ascii(s@) ==> r@ == s@.map_values(|c: char| lower(c)),
{
    s.to_lowercase()
}

/// The level named by a lower-case text, if any.
pub open spec fn level_named(t: Seq<char>) -> Option<LogLevel> {
    if t == "trace"@ {
        Some(LogLevel::Trace)
    } else if t == "debug"@ {
        Some(LogLevel::Debug)
    } else if t == "info"@ {
        Some(LogLevel::Info)
    } else if t == "warn"@ {
        Some(LogLevel::Warn)
    } else if t == "error"@ {
        Some(LogLevel::Error)
    } else {
        None
    }
}

/// The level named by the lower-cased text `lower`, or the error message for it.
pub fn level_from_lowercase(lower: &str) -> (r: Result<LogLevel, String>)
    ensures
        match r {
            Ok(l) => level_named(lower@) == Some(l),
            Err(e) => level_named(lower@) is None && e@ == "Invalid log level: "@ + lower@,
        },
{
    if str_equals(lower, "trace") {
        Ok(LogLevel::Trace)
    } else if str_equals(lower, "debug") {
        Ok(LogLevel::Debug)
    } else if str_equals(lower, "info") {
        Ok(LogLevel::Info)
    } else if str_equals(lower, "warn") {
        Ok(LogLevel::Warn)
    } else if str_equals(lower, "error") {
        Ok(LogLevel::Error)
    } else {
        let mut e = String::new();
        push_str(&mut e, "Invalid log level: ");
        push_str(&mut e, lower);
        Err(e)
    }
}

/// `s` lowercased: character by character for ASCII text, else as `str::to_lowercase`
/// gives it.
pub open spec fn lowered(s: Seq<char>) -> Seq<char> {
    if all_ascii(s) {
        s.map_values(|c: char| lower(c))
    } else {
        lowercase_of(s)
    }
}

/// Reads a log level name, ignoring case.
pub fn parse_level(s: &str) -> (r: Result<LogLevel, String>)
    ensures
        match r {
            Ok(l) => level_named(lowered(s@)) == Some(l),
            Err(e) => level_named(lowered(s@)) is None && e@ == "Invalid log level: "@ + lowered(s@),
        },
{
    let lw = to_lowercase(s);
    level_from_lowercase(lw.as_str())
}

} // verus!
