//! Severity levels of the broker's log lines.
use vstd::prelude::*;

verus! {

#[derive(Debug, Clone, Copy, PartialEq, Eq, Structural)]
pub enum Level {
    Info,
    Warn,
    Error,
    Debug,
}

/// The label a log line carries for each level.
pub open spec fn level_label(l: Level) -> Seq<char> {
    match l {
        Level::Info => "INFO"@,
        Level::Warn => "Warn"@,
        Level::Error => "Error"@,
        Level::Debug => "Debug"@,
    }
}

impl Level {
    pub fn label(&self) -> (r: &'static str)
        ensures
            r@ == level_label(*self),
    {
        match self {
            Level::Info => "INFO",
            Level::Warn => "Warn",
            Level::Error => "Error",
            Level::Debug => "Debug",
        }
    }
}

} // verus!
