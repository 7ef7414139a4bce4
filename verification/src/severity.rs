//! The five severities of a log event and the rule that compares an event's
//! severity with a threshold.

use vstd::prelude::*;

verus! {

/// Urgency of a log event, from the least urgent (`Trace`) to the most
/// urgent (`Error`).
#[derive(Clone, Copy, Debug, PartialEq, Eq, Structural)]
pub enum Severity {
    Trace,
    Debug,
    Info,
    Warn,
    Error,
}

impl Severity {
    /// Position in the order `Trace < Debug < Info < Warn < Error`.
    pub open spec fn urgency(self) -> int {
        match self {
            Severity::Trace => 0,
            Severity::Debug => 1,
            Severity::Info => 2,
            Severity::Warn => 3,
            Severity::Error => 4,
        }
    }

    /// Whether an event of severity `self` passes the threshold `floor`:
    /// it does when it is at least as urgent as the floor.
    pub open spec fn passes(self, floor: Severity) -> bool {
        self.urgency() >= floor.urgency()
    }

    /// The readable name used in the textual form of a table.
    pub open spec fn name(self) -> Seq<char> {
        match self {
            Severity::Trace => "Trace"@,
            Severity::Debug => "Debug"@,
            Severity::Info => "Info"@,
            Severity::Warn => "Warn"@,
            Severity::Error => "Error"@,
        }
    }

    /// The severity that a level abbreviation stands for. The five letters
    /// `T`, `D`, `I`, `W`, `E` name the five severities; every other text,
    /// the empty one included, stands for `Trace`.
    pub open spec fn of_abbrev(abbrev: Seq<char>) -> Severity {
        if abbrev =~= seq!['D'] {
            Severity::Debug
        } else if abbrev =~= seq!['I'] {
            Severity::Info
        } else if abbrev =~= seq!['W'] {
            Severity::Warn
        } else if abbrev =~= seq!['E'] {
            Severity::Error
        } else {
            Severity::Trace
        }
    }

    /// The position of `self` in the order, as a number from 0 to 4.
    pub fn rank(self) -> (r: u8)
        ensures
            r as int == self.urgency(),
    {
        match self {
            Severity::Trace => 0,
            Severity::Debug => 1,
            Severity::Info => 2,
            Severity::Warn => 3,
            Severity::Error => 4,
        }
    }

    /// Decides whether an event of severity `self` is emitted under the
    /// threshold `floor`.
    pub fn accepted_at(self, floor: Severity) -> (r: bool)
        ensures
            r == self.passes(floor),
    {
        self.rank() >= floor.rank()
    }

    /// The readable name of the severity, as the textual form of a table
    /// spells it.
    pub fn as_str(self) -> (r: &'static str)
        ensures
            r@ == self.name(),
    {
        match self {
            Severity::Trace => "Trace",
            Severity::Debug => "Debug",
            Severity::Info => "Info",
            Severity::Warn => "Warn",
            Severity::Error => "Error",
        }
    }
}

/// Acceptance is monotone in urgency: under one threshold, whenever an event
/// is accepted, every event that is at least as urgent is accepted too.
pub proof fn lemma_acceptance_monotone(more: Severity, less: Severity, floor: Severity)
    requires
        more.urgency() >= less.urgency(),
        less.passes(floor),
    ensures
        more.passes(floor),
{
}

/// A threshold of `Trace` lets every severity through.
pub proof fn lemma_trace_accepts_all(s: Severity)
    ensures
        s.passes(Severity::Trace),
{
}

} // verus!
