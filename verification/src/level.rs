//! Log severity levels.

use vstd::prelude::*;

use crate::text::{
    ascii_lowercase, chars_equal_str, chars_of, is_whitespace, trim, trim_end, trim_start,
    trimmed_lowercase,
};

verus! {

/// Severity levels supported by the logger.
///
/// The ordering is `Trace < Debug < Info < Warn < Error < Off`, as given by
/// [`Level::rank`]. A logger configured with a threshold level only records
/// messages at or above that level. `Off` disables every record.
#[derive(Debug, Clone, Copy, PartialEq, Eq, Structural, PartialOrd, Ord, Hash)]
pub enum Level {
    /// Finest-grained diagnostic messages.
    Trace,
    /// Detailed information useful for debugging.
    Debug,
    /// General informational messages.
    Info,
    /// Recoverable problems that deserve attention.
    Warn,
    /// Errors that should be fixed but do not stop the program.
    Error,
    /// Disables all logging.
    Off,
}

impl Level {
    /// The position of the level in the severity order, `Trace` being 0.
    pub open spec fn spec_rank(self) -> u8 {
        match self {
            Level::Trace => 0,
            Level::Debug => 1,
            Level::Info => 2,
            Level::Warn => 3,
            Level::Error => 4,
            Level::Off => 5,
        }
    }

    /// The position of the level in the severity order, `Trace` being 0.
    #[verifier::when_used_as_spec(spec_rank)]
    pub fn rank(self) -> (r: u8)
        ensures
            r == self.spec_rank(),
    {
        match self {
            Level::Trace => 0,
            Level::Debug => 1,
            Level::Info => 2,
            Level::Warn => 3,
            Level::Error => 4,
            Level::Off => 5,
        }
    }

    /// Whether `self` is at least as severe as `other`.
    pub fn at_least(self, other: Level) -> (r: bool)
        ensures
            r == (self.spec_rank() >= other.spec_rank()),
    {
        self.rank() >= other.rank()
    }

    /// The canonical uppercase name of the level.
    pub open spec fn name(self) -> Seq<char> {
        match self {
            Level::Trace => "TRACE"@,
            Level::Debug => "DEBUG"@,
            Level::Info => "INFO"@,
            Level::Warn => "WARN"@,
            Level::Error => "ERROR"@,
            Level::Off => "OFF"@,
        }
    }

    /// The canonical uppercase name of the level, e.g. `"INFO"`.
    pub fn as_str(self) -> (s: &'static str)
        ensures
            s@ == self.name(),
    {
        match self {
            Level::Trace => "TRACE",
            Level::Debug => "DEBUG",
            Level::Info => "INFO",
            Level::Warn => "WARN",
            Level::Error => "ERROR",
            Level::Off => "OFF",
        }
    }

    /// Parse a level from its (case-insensitive) name.
    ///
    /// Accepts `trace`, `debug`, `info`, `warn`/`warning`, `error` and `off`,
    /// with any surrounding whitespace.
    pub fn parse(input: &str) -> (r: Option<Level>)
        ensures
            r == level_from_name(input@),
    {
        let v = chars_of(input);
        Level::parse_chars(&v)
    }

    /// [`Level::parse`] on a sequence of characters.
    pub fn parse_chars(v: &Vec<char>) -> (r: Option<Level>)
        ensures
            r == level_from_name(v@),
    {
        let w = trimmed_lowercase(v);
        if chars_equal_str(&w, "trace") {
            Some(Level::Trace)
        } else if chars_equal_str(&w, "debug") {
            Some(Level::Debug)
        } else if chars_equal_str(&w, "info") {
            Some(Level::Info)
        } else if chars_equal_str(&w, "warn") || chars_equal_str(&w, "warning") {
            Some(Level::Warn)
        } else if chars_equal_str(&w, "error") {
            Some(Level::Error)
        } else if chars_equal_str(&w, "off") {
            Some(Level::Off)
        } else {
            None
        }
    }
}

/// Parsing the canonical name of a level gives that level back.
pub proof fn lemma_name_round_trip(level: Level)
    ensures
        level_from_name(level.name()) == Some(level),
{
    reveal_strlit("TRACE");
    reveal_strlit("DEBUG");
    reveal_strlit("INFO");
    reveal_strlit("WARN");
    reveal_strlit("ERROR");
    reveal_strlit("OFF");
    reveal_strlit("trace");
    reveal_strlit("debug");
    reveal_strlit("info");
    reveal_strlit("warn");
    reveal_strlit("warning");
    reveal_strlit("error");
    reveal_strlit("off");
    let n = level.name();
    assert(!is_whitespace(n[0]));
    assert(!is_whitespace(n.last()));
    assert(trim_start(n) == n);
    assert(trim_end(n) == n);
    assert(trim(n) == n);
    let w = ascii_lowercase(n);
    assert(w.len() == n.len());
    match level {
        Level::Trace => {
            assert(w =~= "trace"@);
        },
        Level::Debug => {
            assert(w =~= "debug"@);
            assert(w[0] != "trace"@[0]);
        },
        Level::Info => {
            assert(w =~= "info"@);
            assert(w.len() != "trace"@.len() && w.len() != "debug"@.len());
        },
        Level::Warn => {
            assert(w =~= "warn"@);
            assert(w.len() != "trace"@.len() && w.len() != "debug"@.len() && w[0] != "info"@[0]);
        },
        Level::Error => {
            assert(w =~= "error"@);
            assert(w[0] != "trace"@[0] && w[0] != "debug"@[0] && w.len() != "info"@.len() && w.len()
                != "warn"@.len() && w.len() != "warning"@.len());
        },
        Level::Off => {
            assert(w =~= "off"@);
            assert(w.len() != "trace"@.len() && w.len() != "debug"@.len() && w.len() != "info"@.len()
                && w.len() != "warn"@.len() && w.len() != "warning"@.len() && w.len()
                != "error"@.len());
        },
    }
}

/// The severity order is total and strict on distinct levels: `rank` is
/// one-to-one.
pub proof fn lemma_rank_injective(a: Level, b: Level)
    ensures
        a.spec_rank() == b.spec_rank() <==> a == b,
{
}

/// The level named by `s`: its whitespace-trimmed, ASCII-lowercased form is
/// one of `trace`, `debug`, `info`, `warn`, `warning`, `error`, `off`.
pub open spec fn level_from_name(s: Seq<char>) -> Option<Level> {
    let w = ascii_lowercase(trim(s));
    if w == "trace"@ {
        Some(Level::Trace)
    } else if w == "debug"@ {
        Some(Level::Debug)
    } else if w == "info"@ {
        Some(Level::Info)
    } else if w == "warn"@ || w == "warning"@ {
        Some(Level::Warn)
    } else if w == "error"@ {
        Some(Level::Error)
    } else if w == "off"@ {
        Some(Level::Off)
    } else {
        None
    }
}

} // verus!
