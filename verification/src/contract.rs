//! What the fuzzer needs to know about a contract under test: its entry
//! points, how to call it, and the invariants its state must keep.
use vstd::prelude::*;
use crate::value::{SorobanValue, ValueKind};

verus! {

/// One callable entry point of the contract under test, with the kinds of
/// its arguments, so that generated arguments are well-typed.
#[derive(Debug, Clone)]
pub struct EntryPoint {
    pub name: String,
    pub arg_kinds: Vec<ValueKind>,
}

impl EntryPoint {
    pub fn new(name: &str, arg_kinds: Vec<ValueKind>) -> (ep: Self)
        ensures
            ep.name@ == name@,
            ep.arg_kinds@ == arg_kinds@,
    {
        EntryPoint { name: name.to_string(), arg_kinds }
    }
}

/// Outcome of a single call that returned. A panic (a trap) is not an
/// outcome: the runner observes it separately and always treats it as a
/// finding.
#[derive(Debug, Clone)]
pub enum CallOutcome {
    Returned(SorobanValue),
    /// The contract explicitly rejected the call (auth or validation):
    /// expected, not a finding.
    Rejected(String),
}

/// Implemented over a contract's real dispatch.
pub trait FuzzContract {
    /// A fresh instance, with fresh storage, for each run.
    fn new_instance() -> Self where Self: Sized;

    fn entry_points(&self) -> Vec<EntryPoint>;

    /// Dispatch a call. Implementations should not catch panics themselves:
    /// the runner guards every call.
    fn call(&mut self, function: &str, args: &[SorobanValue]) -> CallOutcome;
}

/// A named invariant checked against the contract's state after every call.
/// `check` returns `Err(reason)` when the invariant is broken.
pub trait Invariant<C> {
    /// The invariant's name.
    spec fn label(&self) -> Seq<char>;

    /// `outcome` is a result that checking this invariant against `contract`
    /// may give.
    spec fn judges(&self, contract: &C, outcome: Result<(), String>) -> bool;

    fn name(&self) -> (name: &str)
        ensures
            name@ == self.label(),
    ;

    fn check(&self, contract: &C) -> (outcome: Result<(), String>)
        ensures
            self.judges(contract, outcome),
    ;
}

/// An invariant given by a name and a closure.
pub struct FnInvariant<C, F: Fn(&C) -> Result<(), String>> {
    name: String,
    f: F,
    contract: core::marker::PhantomData<C>,
}

impl<C, F: Fn(&C) -> Result<(), String>> FnInvariant<C, F> {
    /// The closure accepts every contract state.
    #[verifier::type_invariant]
    spec fn callable(self) -> bool {
        forall|c: &C| call_requires(self.f, (c,))
    }

    /// The closure that decides the invariant.
    pub closed spec fn predicate(&self) -> F {
        self.f
    }

    pub fn new(name: &str, f: F) -> (inv: Self)
        requires
            forall|c: &C| call_requires(f, (c,)),
        ensures
            inv.label() == name@,
            inv.predicate() == f,
    {
        FnInvariant { name: name.to_string(), f, contract: core::marker::PhantomData }
    }
}

impl<C, F: Fn(&C) -> Result<(), String>> Invariant<C> for FnInvariant<C, F> {
    /// The name given to `new`.
    closed spec fn label(&self) -> Seq<char> {
        self.name@
    }

    /// The results the closure may give on `contract`.
    open spec fn judges(&self, contract: &C, outcome: Result<(), String>) -> bool {
        call_ensures(self.predicate(), (contract,), outcome)
    }

    fn name(&self) -> (r: &str) {
        self.name.as_str()
    }

    fn check(&self, contract: &C) -> (r: Result<(), String>) {
        proof {
            use_type_invariant(self);
        }
        (self.f)(contract)
    }
}

} // verus!
