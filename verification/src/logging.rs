//! Log levels and the text of a log line.

use vstd::prelude::*;
use vstd::string::StringExecFns;
use crate::text::string_of;

verus! {

/// How serious a log message is.
#[derive(Debug, Clone, Copy, PartialEq, Eq, Structural)]
pub enum LogLevel {
    Debug,
    Info,
    Warning,
    Error,
}

/// The upper-case name of a level.
pub open spec fn level_name(l: LogLevel) -> Seq<char> {
    match l {
        LogLevel::Debug => "DEBUG"@,
        LogLevel::Info => "INFO"@,
        LogLevel::Warning => "WARNING"@,
        LogLevel::Error => "ERROR"@,
    }
}

impl LogLevel {
    /// The upper-case name of the level.
    pub fn as_str(&self) -> (s: &'static str)
        ensures
            s@ == level_name(*self),
    {
        match self {
            LogLevel::Debug => "DEBUG",
            LogLevel::Info => "INFO",
            LogLevel::Warning => "WARNING",
            LogLevel::Error => "ERROR",
        }
    }
}

/// A log line: "`timestamp` - `LEVEL` - [`module`] `message`".
pub fn log_line(timestamp: &str, level: LogLevel, module: &str, message: &str) -> (s: String)
    ensures
        s@ == timestamp@ + " - "@ + level_name(level) + " - ["@ + module@ + "] "@ + message@,
{
    let mut s = string_of(timestamp);
    s.append(" - ");
    s.append(level.as_str());
    s.append(" - [");
    s.append(module);
    s.append("] ");
    s.append(message);
    s
}

} // verus!
