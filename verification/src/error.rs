//! Errors of the store and of the simulation.
use vstd::prelude::*;
use crate::event::SymbolId;
use crate::number::Real;
use crate::text::{dec, push_dec, push_text};

verus! {

/// Errors of the store.
#[derive(Debug)]
pub enum StorageError {
    Io(String),
    Parquet(String),
    Arrow(String),
    Refused(String),
}

/// What an error of the store says.
pub enum Failure {
    Io(Seq<char>),
    Parquet(Seq<char>),
    Arrow(Seq<char>),
    Refused(Seq<char>),
}

impl StorageError {
    pub open spec fn says(self) -> Failure {
        match self {
            StorageError::Io(s) => Failure::Io(s@),
            StorageError::Parquet(s) => Failure::Parquet(s@),
            StorageError::Arrow(s) => Failure::Arrow(s@),
            StorageError::Refused(s) => Failure::Refused(s@),
        }
    }

    /// The error as one line.
    pub fn message(&self) -> (s: String)
        ensures
            s@ == match self.says() {
                Failure::Io(t) => "io: "@ + t,
                Failure::Parquet(t) => "parquet: "@ + t,
                Failure::Arrow(t) => "arrow: "@ + t,
                Failure::Refused(t) => "refused: "@ + t,
            },
    {
        match self {
            StorageError::Io(t) => "io: ".to_owned().concat(t.as_str()),
            StorageError::Parquet(t) => "parquet: ".to_owned().concat(t.as_str()),
            StorageError::Arrow(t) => "arrow: ".to_owned().concat(t.as_str()),
            StorageError::Refused(t) => "refused: ".to_owned().concat(t.as_str()),
        }
    }
}

/// A refusal to report numbers that are known to be wrong.
#[derive(Clone, Copy, Debug, PartialEq, Eq, Structural)]
pub enum SimError {
    /// A position was held across a funding boundary without a recorded
    /// funding event.
    MissingFunding(SymbolId),
    /// The recording covers less than asked for.
    LowCoverage { actual: Real, required: Real },
}

impl SimError {
    /// The error as one line. `actual` and `required` are the coverages as
    /// text, to six places.
    pub fn message(&self, actual: &str, required: &str) -> (s: String)
        ensures
            s@ == match *self {
                SimError::MissingFunding(sym) => "funding data missing for symbol SymbolId("@ + dec(
                    sym.0 as nat,
                ) + ") while holding a position past the check interval (SIM-4)"@,
                SimError::LowCoverage { .. } => "stream coverage "@ + actual@ + " < required "@
                    + required@ + " (SIM-6)"@,
            },
    {
        match self {
            SimError::MissingFunding(sym) => {
                let mut s = "funding data missing for symbol SymbolId(".to_owned();
                push_dec(&mut s, sym.0 as u64);
                push_text(&mut s, ") while holding a position past the check interval (SIM-4)");
                s
            },
            SimError::LowCoverage { .. } => {
                let mut s = "stream coverage ".to_owned();
                push_text(&mut s, actual);
                push_text(&mut s, " < required ");
                push_text(&mut s, required);
                push_text(&mut s, " (SIM-6)");
                s
            },
        }
    }
}

} // verus!
