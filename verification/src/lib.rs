//! Property-based fuzzing engine for Soroban contracts.
//!
//! - `value`: a `SorobanValue`/`ValueKind` model shaped like Soroban's `Val`
//!   space, with typed random generation biased toward numeric edge cases.
//! - `draws`: the record of the random draws generation makes, which the
//!   contracts of generation speak of.
//! - `contract`: the `FuzzContract` trait a contract adapter implements, and
//!   the `Invariant` trait for properties of the contract's state.
//! - `runner`: configuration, reports, the runner with its invariants, and
//!   the decisions taken after each call of a sequence.
//! - `shrink`: shrinking of a failing sequence to a minimal reproduction.
//! - `campaign`: a whole campaign of generated sequences, with shrinking of
//!   each failure and the report.
//!
//! Calls into the contract under test are made by the caller, which alone can
//! catch a panic; every decision around them is made here.
pub mod campaign;
pub mod contract;
pub mod draws;
mod rng;
pub mod runner;
pub mod shrink;
pub mod value;

pub use campaign::{Campaign, FAILURE_LIMIT};
pub use contract::{CallOutcome, EntryPoint, FnInvariant, FuzzContract, Invariant};
pub use runner::{
    CallEvent, Failure, FailureKind, FuzzConfig, FuzzReport, FuzzRunner, RecordedCall, SequenceRun,
};
pub use value::{SorobanValue, ValueKind};
