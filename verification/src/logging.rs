//! What a program needs to know to set up its logging.

use vstd::prelude::*;
use vstd::string::*;
use crate::text::{lowercase_text, text_equals, to_lowercase};

verus! {

/// How much is logged, from everything to errors only.
#[derive(Debug, Clone, Copy, PartialEq, Eq, Structural)]
pub enum LogLevel {
    Trace,
    Debug,
    Info,
    Warn,
    Error,
}

/// Where the log goes and what it looks like.
#[derive(Debug, Clone, PartialEq, Eq)]
pub struct LogConfig {
    /// What is logged.
    pub level: LogLevel,
    /// The file that takes the log; standard output where there is none.
    pub file_path: Option<String>,
    /// Whether each entry is a JSON object.
    pub json_format: bool,
}

impl Default for LogConfig {
    fn default() -> (r: LogConfig)
        ensures
            r.level == LogLevel::Info,
            r.file_path is None,
            !r.json_format,
    {
        LogConfig { level: LogLevel::Info, file_path: None, json_format: false }
    }
}

impl LogConfig {
    /// A configuration that logs from `level` on, as plain text to standard
    /// output.
    pub fn new(level: LogLevel) -> (r: LogConfig)
        ensures
            r.level == level,
            r.file_path is None,
            !r.json_format,
    {
        LogConfig { level, file_path: None, json_format: false }
    }

    /// The same configuration, logging to the file at `path`.
    pub fn with_file(self, path: String) -> (r: LogConfig)
        ensures
            r.level == self.level,
            r.file_path == Some(path),
            r.json_format == self.json_format,
    {
        LogConfig { level: self.level, file_path: Some(path), json_format: self.json_format }
    }

    /// The same configuration, with JSON entries or without.
    pub fn with_json(self, json: bool) -> (r: LogConfig)
        ensures
            r.level == self.level,
            r.file_path == self.file_path,
            r.json_format == json,
    {
        LogConfig { level: self.level, file_path: self.file_path, json_format: json }
    }
}

/// The level that a lower-case name denotes, or the message that refuses the
/// name as it was given.
pub open spec fn log_level_value(lower: Seq<char>, given: Seq<char>) -> core::result::Result<
    LogLevel,
    Seq<char>,
> {
    if lower == "trace"@ {
        Ok(LogLevel::Trace)
    } else if lower == "debug"@ {
        Ok(LogLevel::Debug)
    } else if lower == "info"@ {
        Ok(LogLevel::Info)
    } else if lower == "warn"@ || lower == "warning"@ {
        Ok(LogLevel::Warn)
    } else if lower == "error"@ {
        Ok(LogLevel::Error)
    } else {
        Err("Invalid log level '"@ + given + "'. Valid levels: trace, debug, info, warn, error"@)
    }
}

/// A level or a message, the message as a character sequence.
pub open spec fn log_level_outcome(r: core::result::Result<LogLevel, String>)
    -> core::result::Result<LogLevel, Seq<char>> {
    match r {
        Ok(l) => Ok(l),
        Err(m) => Err(m@),
    }
}

/// Tells the level that a name in lower case denotes. `given` is the name
/// before it was lowered, for the message.
pub fn log_level_from_lowercase(lower: &str, given: &str) -> (r: core::result::Result<
    LogLevel,
    String,
>)
    ensures
        log_level_outcome(r) == log_level_value(lower@, given@),
{
    if text_equals(lower, "trace") {
        Ok(LogLevel::Trace)
    } else if text_equals(lower, "debug") {
        Ok(LogLevel::Debug)
    } else if text_equals(lower, "info") {
        Ok(LogLevel::Info)
    } else if text_equals(lower, "warn") || text_equals(lower, "warning") {
        Ok(LogLevel::Warn)
    } else if text_equals(lower, "error") {
        Ok(LogLevel::Error)
    } else {
        let mut m = String::new();
        m.append("Invalid log level '");
        m.append(given);
        m.append("'. Valid levels: trace, debug, info, warn, error");
        assert(m@ =~= "Invalid log level '"@ + given@
            + "'. Valid levels: trace, debug, info, warn, error"@);
        Err(m)
    }
}

/// Reads a log level by its name, in any case: `trace`, `debug`, `info`,
/// `warn` or `warning`, `error`.
pub fn parse_log_level(s: &str) -> (r: core::result::Result<LogLevel, String>)
    ensures
        log_level_outcome(r) == log_level_value(lowercase_text(s@), s@),
{
    let lower = to_lowercase(s);
    log_level_from_lowercase(lower.as_str(), s)
}

} // verus!
