//! The leveled diagnostic printer the rest of the library logs through.

use std::io::Write;
use vstd::prelude::*;

verus! {

/// A console printer with a verbosity level: a message at level `n` is
/// printed only when the configured level is `n` or higher.
#[derive(Debug)]
pub struct VerbosePrinter {
    verbosity_level: u8,
}

/// Writes one line to standard output.
///
/// Relies on `std::io::Stdout`'s `write_fmt` (through `writeln`): diagnostics
/// only, a failed write is ignored.
#[verifier::external_body]
pub(crate) fn emit(message: &str) {
    let mut out = std::io::stdout();
    let _ = writeln!(out, "{}", message);
}

impl VerbosePrinter {
    /// The configured verbosity level.
    pub closed spec fn level(self) -> u8 {
        self.verbosity_level
    }

    pub fn new(verbosity_level: u8) -> (r: Self)
        ensures
            r.level() == verbosity_level,
    {
        Self { verbosity_level }
    }

    /// Prints `message` when the level is at least 1.
    pub fn print1(&self, message: String) {
        if self.verbosity_level >= 1 {
            emit(message.as_str());
        }
    }

    /// Prints `message` when the level is at least 2.
    pub fn print2(&self, message: String) {
        if self.verbosity_level >= 2 {
            emit(message.as_str());
        }
    }

    /// Prints `message` when the level is at least 3.
    pub fn print3(&self, message: String) {
        if self.verbosity_level >= 3 {
            emit(message.as_str());
        }
    }
}

} // verus!
