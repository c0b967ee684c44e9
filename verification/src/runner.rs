//! Configuration, reports, the runner with its invariants, and the decisions
//! taken while one call sequence runs against a fresh contract instance.
//!
//! Running a sequence alternates guarded calls into the contract (done by the
//! caller, which alone can catch a panic) with decisions made here: after each
//! call, `FuzzRunner::observe_call` records the outcome, checks the invariants
//! in order, and either asks for the next call or settles the verdict.
use vstd::prelude::*;
use crate::contract::{CallOutcome, FuzzContract, Invariant};
use crate::value::SorobanValue;

verus! {

#[derive(Debug, Clone)]
pub struct FuzzConfig {
    pub iterations: u64,
    pub min_calls_per_run: usize,
    pub max_calls_per_run: usize,
    pub max_depth: u8,
    pub seed: Option<u64>,
}

impl Default for FuzzConfig {
    fn default() -> (config: Self)
        ensures
            config.iterations == 10_000,
            config.min_calls_per_run == 1,
            config.max_calls_per_run == 8,
            config.max_depth == 4,
            config.seed is None,
    {
        FuzzConfig {
            iterations: 10_000,
            min_calls_per_run: 1,
            max_calls_per_run: 8,
            max_depth: 4,
            seed: None,
        }
    }
}

/// One call of a sequence: the entry point's name and its arguments.
#[derive(Debug, Clone)]
pub struct RecordedCall {
    pub function: String,
    pub args: Vec<SorobanValue>,
}

#[derive(Debug, Clone)]
pub enum FailureKind {
    Panic { message: String },
    InvariantBroken { invariant: String, reason: String },
}

#[derive(Debug, Clone)]
pub struct Failure {
    pub kind: FailureKind,
    /// Minimal (shrunk) call sequence that still reproduces the failure.
    pub repro: Vec<RecordedCall>,
    pub seed: u64,
}

#[derive(Debug, Clone)]
pub struct FuzzReport {
    pub iterations_run: u64,
    pub failures: Vec<Failure>,
}

impl FuzzReport {
    pub fn is_clean(&self) -> (clean: bool)
        ensures
            clean == (self.failures@.len() == 0),
    {
        self.failures.len() == 0
    }
}

/// What became of one guarded call: it returned an outcome, or it panicked
/// with the given message.
#[derive(Debug, Clone)]
pub enum CallEvent {
    Completed(CallOutcome),
    Panicked(String),
}

/// The failure recorded for an invariant named `name` whose check gave
/// `outcome`: none when it held, `InvariantBroken` with the check's reason
/// when it did not.
pub fn invariant_failure(name: &str, outcome: Result<(), String>) -> (failure: Option<FailureKind>)
    ensures
        match outcome {
            Result::Ok(()) => failure is None,
            Result::Err(reason) => failure matches Some(
                FailureKind::InvariantBroken { invariant: label, reason: r },
            ) && label@ == name@ && r == reason,
        },
{
    match outcome {
        Result::Ok(()) => None,
        Result::Err(reason) => Some(FailureKind::InvariantBroken { invariant: name.to_string(), reason }),
    }
}

/// `found` is the same failure as `recorded`: both panics, or both broken
/// invariants with the same invariant name.
pub open spec fn same_failure(found: FailureKind, recorded: FailureKind) -> bool {
    match found {
        FailureKind::Panic { .. } => recorded is Panic,
        FailureKind::InvariantBroken { invariant: a, .. } => recorded matches FailureKind::InvariantBroken {
            invariant: b,
            ..
        } && a@ == b@,
    }
}

/// Whether a run's verdict reproduces the failure `recorded`.
pub fn reproduces(verdict: &Result<(), FailureKind>, recorded: &FailureKind) -> (same: bool)
    ensures
        same == (*verdict matches Result::Err(found) && same_failure(found, *recorded)),
{
    match verdict {
        Result::Ok(()) => false,
        Result::Err(FailureKind::Panic { .. }) => match recorded {
            FailureKind::Panic { .. } => true,
            FailureKind::InvariantBroken { .. } => false,
        },
        Result::Err(FailureKind::InvariantBroken { invariant: a, .. }) => match recorded {
            FailureKind::Panic { .. } => false,
            FailureKind::InvariantBroken { invariant: b, .. } => String::eq(a, b),
        },
    }
}

/// The message reported for a panic, from the payload read as a `&str` or as
/// a `String` (the first that applies), or a fixed text when it is neither.
pub fn panic_message(static_text: Option<&str>, owned_text: Option<&String>) -> (message: String)
    ensures
        message@ == match (static_text, owned_text) {
            (Some(s), _) => s@,
            (None, Some(s)) => s@,
            (None, None) => "non-string panic payload"@,
        },
{
    match static_text {
        Some(s) => s.to_string(),
        None => match owned_text {
            Some(s) => s.clone(),
            None => "non-string panic payload".to_string(),
        },
    }
}

/// The state of a run of `total` calls before any call: nothing completed,
/// and the verdict settled (a pass) only for an empty sequence.
pub open spec fn run_start(total: nat) -> (nat, Option<Result<(), FailureKind>>) {
    (0, if total == 0 { Some(Result::<(), FailureKind>::Ok(())) } else { None })
}

/// One call of a run of `total` calls, from `state` (calls completed, verdict),
/// where the call failed with `failure` or, when that is `None`, completed
/// with every invariant holding. A settled verdict never changes; a failure
/// settles it; a clean call counts as completed and the run passes once all
/// `total` calls have.
pub open spec fn run_step(
    total: nat,
    state: (nat, Option<Result<(), FailureKind>>),
    failure: Option<FailureKind>,
) -> (nat, Option<Result<(), FailureKind>>) {
    if state.1 is Some {
        state
    } else {
        match failure {
            Some(kind) => (state.0, Some(Result::<(), FailureKind>::Err(kind))),
            None => (
                state.0 + 1,
                if state.0 + 1 == total { Some(Result::<(), FailureKind>::Ok(())) } else { None },
            ),
        }
    }
}

/// The state of a run of `total` calls after calls whose failures, in order,
/// were `failures`.
pub open spec fn run_over(total: nat, failures: Seq<Option<FailureKind>>) -> (
    nat,
    Option<Result<(), FailureKind>>,
)
    decreases failures.len(),
{
    if failures.len() == 0 {
        run_start(total)
    } else {
        run_step(total, run_over(total, failures.drop_last()), failures.last())
    }
}

/// A run's state is always in shape: no more calls completed than the run
/// has, fewer while the verdict is open, and all of them when it passed.
pub proof fn lemma_run_shape(total: nat, failures: Seq<Option<FailureKind>>)
    ensures
        run_over(total, failures).0 <= total,
        run_over(total, failures).1 is None ==> run_over(total, failures).0 < total,
        run_over(total, failures).1 == Some(Result::<(), FailureKind>::Ok(())) ==> run_over(
            total,
            failures,
        ).0 == total,
    decreases failures.len(),
{
    if failures.len() > 0 {
        lemma_run_shape(total, failures.drop_last());
    }
}

/// Once a run's verdict is settled, further calls change nothing.
pub proof fn lemma_settled_stays(total: nat, failures: Seq<Option<FailureKind>>, m: int, n: int)
    requires
        0 <= m <= n <= failures.len(),
        run_over(total, failures.take(m)).1 is Some,
    ensures
        run_over(total, failures.take(n)) == run_over(total, failures.take(m)),
    decreases n - m,
{
    if n > m {
        lemma_settled_stays(total, failures, m, n - 1);
        assert(failures.take(n).drop_last() =~= failures.take(n - 1));
    }
}

/// A run whose first `n` calls (or its first `total`, if fewer) all completed
/// cleanly has completed `min(n, total)` calls, and it has passed exactly when
/// `n` reaches `total`.
pub proof fn lemma_run_passes(total: nat, failures: Seq<Option<FailureKind>>, n: int)
    requires
        0 <= n <= failures.len(),
        forall|i: int| 0 <= i < n && i < total ==> (#[trigger] failures[i]) is None,
    ensures
        run_over(total, failures.take(n)) == (
            if n < total { n as nat } else { total },
            if n >= total { Some(Result::<(), FailureKind>::Ok(())) } else { None },
        ),
    decreases n,
{
    if n == 0 {
        assert(failures.take(0) =~= Seq::<Option<FailureKind>>::empty());
    } else {
        lemma_run_passes(total, failures, n - 1);
        assert(failures.take(n).drop_last() =~= failures.take(n - 1));
    }
}

/// A run whose call `j` (within its `total`) is the first to fail settles
/// on that failure, with the `j` calls before it completed, whatever the
/// calls after it would have done.
pub proof fn lemma_run_fails_at_first(total: nat, failures: Seq<Option<FailureKind>>, j: int, n: int)
    requires
        0 <= j < n <= failures.len(),
        j < total,
        failures[j] is Some,
        forall|i: int| 0 <= i < j ==> (#[trigger] failures[i]) is None,
    ensures
        run_over(total, failures.take(n)) == (
            j as nat,
            Some(Result::<(), FailureKind>::Err(failures[j]->0)),
        ),
    decreases n - j,
{
    assert(failures.take(n).drop_last() =~= failures.take(n - 1));
    if n == j + 1 {
        lemma_run_passes(total, failures, j);
    } else {
        lemma_run_fails_at_first(total, failures, j, n - 1);
    }
}

/// A run of `failures` with `total` calls, and the longer run of `total +
/// extra` calls that begins with the same calls, are in the same state after
/// those calls as long as the shorter run has not passed.
proof fn lemma_runs_agree(
    total: nat,
    extra: nat,
    failures: Seq<Option<FailureKind>>,
    more: Seq<Option<FailureKind>>,
    n: int,
)
    requires
        0 <= n <= failures.len(),
        run_over(total, failures.take(n)).1 != Some(Result::<(), FailureKind>::Ok(())),
    ensures
        run_over(total + extra, (failures + more).take(n)) == run_over(total, failures.take(n)),
    decreases n,
{
    let all = failures + more;
    if n == 0 {
        assert(failures.take(0) =~= Seq::<Option<FailureKind>>::empty());
        assert(all.take(0) =~= Seq::<Option<FailureKind>>::empty());
    } else {
        assert(failures.take(n).drop_last() =~= failures.take(n - 1));
        assert(all.take(n).drop_last() =~= all.take(n - 1));
        assert(all.take(n).last() == failures.take(n).last());
        if run_over(total, failures.take(n - 1)).1 == Some(Result::<(), FailureKind>::Ok(())) {
            lemma_settled_stays(total, failures, n - 1, n);
        }
        lemma_runs_agree(total, extra, failures, more, n - 1);
        lemma_run_shape(total, failures.take(n - 1));
    }
}

/// Calls appended after a failing sequence neither change nor hide its
/// failure: when the calls `failures` of a run of `total` calls settle on a
/// failure, any longer run that begins with them settles on the same failure
/// after the same completed calls. So when the longer run passes, a full run
/// of the shorter sequence passes too.
pub proof fn lemma_failing_prefix(
    total: nat,
    extra: nat,
    failures: Seq<Option<FailureKind>>,
    more: Seq<Option<FailureKind>>,
)
    ensures
        run_over(total, failures).1 matches Some(Result::Err(_)) ==> run_over(
            total + extra,
            failures + more,
        ) == run_over(total, failures),
        failures.len() >= total && run_over(total + extra, failures + more).1 == Some(
            Result::<(), FailureKind>::Ok(()),
        ) ==> run_over(total, failures).1 == Some(Result::<(), FailureKind>::Ok(())),
{
    let all = failures + more;
    assert(failures.take(failures.len() as int) =~= failures);
    assert(all.take(all.len() as int) =~= all);
    if run_over(total, failures).1 is Some && run_over(total, failures).1 != Some(
        Result::<(), FailureKind>::Ok(()),
    ) {
        lemma_runs_agree(total, extra, failures, more, failures.len() as int);
        lemma_settled_stays(total + extra, all, failures.len() as int, all.len() as int);
    }
    if failures.len() >= total {
        lemma_run_settles(total, failures);
    }
}

/// A run that has seen at least `total` calls has settled its verdict.
pub proof fn lemma_run_settles(total: nat, failures: Seq<Option<FailureKind>>)
    requires
        failures.len() >= total,
    ensures
        run_over(total, failures).1 is Some,
{
    lemma_run_counts(total, failures, failures.len() as int);
    assert(failures.take(failures.len() as int) =~= failures);
    lemma_run_shape(total, failures);
}

/// While a run's verdict is open, every call so far has completed.
proof fn lemma_run_counts(total: nat, failures: Seq<Option<FailureKind>>, n: int)
    requires
        0 <= n <= failures.len(),
    ensures
        run_over(total, failures.take(n)).1 is None ==> run_over(total, failures.take(n)).0 == n,
    decreases n,
{
    if n == 0 {
        assert(failures.take(0) =~= Seq::<Option<FailureKind>>::empty());
    } else {
        assert(failures.take(n).drop_last() =~= failures.take(n - 1));
        lemma_run_counts(total, failures, n - 1);
    }
}

/// Where one call sequence stands: how many of its calls completed with
/// every invariant holding, and the verdict once it is settled.
pub struct SequenceRun {
    total: usize,
    completed: usize,
    verdict: Option<Result<(), FailureKind>>,
    history: Ghost<Seq<Option<FailureKind>>>,
}

impl SequenceRun {
    #[verifier::type_invariant]
    spec fn consistent(self) -> bool {
        &&& self.completed <= self.total
        &&& self.verdict is None ==> self.completed < self.total
        &&& self.verdict matches Some(Result::Ok(())) ==> self.completed == self.total
        &&& run_over(self.total as nat, self.history@) == (self.completed as nat, self.verdict)
    }

    /// Number of calls in the sequence.
    pub closed spec fn total(&self) -> nat {
        self.total as nat
    }

    /// Number of calls that completed with every invariant holding.
    pub closed spec fn completed(&self) -> nat {
        self.completed as nat
    }

    /// The verdict, once settled.
    pub closed spec fn verdict(&self) -> Option<Result<(), FailureKind>> {
        self.verdict
    }

    /// What each call observed so far did: its failure, or `None` when it
    /// completed with every invariant holding.
    pub closed spec fn history(&self) -> Seq<Option<FailureKind>> {
        self.history@
    }

    /// A run of `total` calls, none made yet. An empty sequence passes at once.
    pub fn new(total: usize) -> (run: Self)
        ensures
            run.total() == total,
            run.completed() == 0,
            run.verdict() == if total == 0 {
                Some(Result::<(), FailureKind>::Ok(()))
            } else {
                None
            },
            run.history() == Seq::<Option<FailureKind>>::empty(),
            (run.completed(), run.verdict()) == run_over(run.total(), run.history()),
    {
        SequenceRun {
            total,
            completed: 0,
            verdict: if total == 0 {
                Some(Result::Ok(()))
            } else {
                None
            },
            history: Ghost(Seq::empty()),
        }
    }

    /// The index of the call to make next, or `None` once the verdict is settled.
    pub fn next_call(&self) -> (next: Option<usize>)
        ensures
            next == if self.verdict() is None {
                Some(self.completed() as usize)
            } else {
                None
            },
            next matches Some(i) ==> i < self.total(),
            (self.completed(), self.verdict()) == run_over(self.total(), self.history()),
    {
        proof {
            use_type_invariant(self);
        }
        if self.verdict.is_none() {
            Some(self.completed)
        } else {
            None
        }
    }

    /// The settled verdict.
    pub fn finish(self) -> (verdict: Result<(), FailureKind>)
        requires
            self.verdict() is Some,
        ensures
            Some(verdict) == self.verdict(),
            Some(verdict) == run_over(self.total(), self.history()).1,
            verdict is Ok ==> self.completed() == self.total(),
    {
        proof {
            use_type_invariant(&self);
        }
        match self.verdict {
            Some(v) => v,
            None => Result::Ok(()),
        }
    }
}

/// `outcomes` are the results of checking the first `outcomes.len()` of
/// `invariants` against `contract`, in order, stopping at the first failure:
/// every result but the last is `Ok`, and fewer than all were checked only
/// when the last one failed.
pub open spec fn checked_in_order<'a, C>(
    invariants: Seq<Box<dyn Invariant<C> + 'a>>,
    contract: &C,
    outcomes: Seq<Result<(), String>>,
) -> bool {
    &&& outcomes.len() <= invariants.len()
    &&& forall|k: int| 0 <= k < outcomes.len() ==> invariants[k].judges(contract, #[trigger] outcomes[k])
    &&& forall|k: int| 0 <= k < outcomes.len() - 1 ==> (#[trigger] outcomes[k]) is Ok
    &&& outcomes.len() < invariants.len() ==> outcomes.len() > 0 && outcomes.last() is Err
}

/// The state of a run after a completed call whose invariant checks gave
/// `outcomes`: the last check failed and settled the verdict as
/// `InvariantBroken` with that invariant's name and reason, or every check
/// held and the call counts as completed, the run passing once every call has.
pub open spec fn after_checks<'a, C>(
    invariants: Seq<Box<dyn Invariant<C> + 'a>>,
    outcomes: Seq<Result<(), String>>,
    before: SequenceRun,
    after: SequenceRun,
) -> bool {
    if outcomes.len() > 0 && outcomes.last() is Err {
        &&& after.completed() == before.completed()
        &&& after.verdict() matches Some(
            Result::Err(FailureKind::InvariantBroken { invariant: label, reason }),
        ) && label@ == invariants[outcomes.len() - 1].label() && outcomes.last() == Result::<
            (),
            String,
        >::Err(reason)
    } else {
        &&& after.completed() == before.completed() + 1
        &&& after.verdict() == if after.completed() == after.total() {
            Some(Result::<(), FailureKind>::Ok(()))
        } else {
            None
        }
    }
}

/// Appending an item adds one to the length and keeps every earlier item
/// where it was.
proof fn lemma_push_keeps_prefix<T>(items: Seq<T>, item: T)
    ensures
        items.push(item).len() == items.len() + 1,
        forall|i: int| 0 <= i < items.len() ==> #[trigger] items.push(item)[i] == items[i],
{
}

/// Drives random call sequences against fresh instances of a contract and
/// checks the registered invariants after every call.
#[verifier::reject_recursive_types(C)]
pub struct FuzzRunner<'a, C: FuzzContract> {
    invariants: Vec<Box<dyn Invariant<C> + 'a>>,
    config: FuzzConfig,
}

impl<'a, C: FuzzContract> FuzzRunner<'a, C> {
    /// The registered invariants, in the order they are checked.
    pub closed spec fn invariants(&self) -> Seq<Box<dyn Invariant<C> + 'a>> {
        self.invariants@
    }

    /// The configuration the runner was built with.
    pub closed spec fn config(&self) -> FuzzConfig {
        self.config
    }

    pub fn new(config: FuzzConfig) -> (runner: Self)
        ensures
            runner.config() == config,
            runner.invariants().len() == 0,
    {
        FuzzRunner { invariants: Vec::new(), config }
    }

    pub fn with_invariant(self, inv: Box<dyn Invariant<C> + 'a>) -> (runner: Self)
        ensures
            runner.config() == self.config(),
            runner.invariants() == self.invariants().push(inv),
            runner.invariants().len() == self.invariants().len() + 1,
            forall|i: int|
                0 <= i < self.invariants().len() ==> runner.invariants()[i] == self.invariants()[i],
    {
        let mut runner = self;
        runner.invariants.push(inv);
        assert(runner.invariants().len() == self.invariants().len() + 1 && forall|i: int|
            0 <= i < self.invariants().len() ==> runner.invariants()[i] == self.invariants()[i])
            by {
            lemma_push_keeps_prefix(self.invariants@, inv);
        }
        runner
    }

    /// The configuration, for the driver of a campaign.
    pub fn settings(&self) -> (config: &FuzzConfig)
        ensures
            *config == self.config(),
    {
        &self.config
    }

    /// Records what became of the next call of `run`, made against `contract`.
    /// A panic settles the verdict as a `Panic` finding. A completed call is
    /// followed by the invariants' checks, in order: the first that fails
    /// settles the verdict as `InvariantBroken`; when all hold the call counts
    /// as completed, and the run passes once every call has completed. The
    /// call's failure, or `None`, is added to the run's history, so the run
    /// is always in the state `run_over` gives for its history.
    pub fn observe_call(&self, run: &mut SequenceRun, contract: &C, event: CallEvent)
        requires
            old(run).verdict() is None,
        ensures
            final(run).total() == old(run).total(),
            final(run).history() == old(run).history().push(
                match final(run).verdict() {
                    Some(Result::Err(kind)) => Some(kind),
                    _ => None,
                },
            ),
            (final(run).completed(), final(run).verdict()) == run_over(
                final(run).total(),
                final(run).history(),
            ),
            match event {
                CallEvent::Panicked(message) => {
                    &&& final(run).completed() == old(run).completed()
                    &&& final(run).verdict() == Some(
                        Result::<(), FailureKind>::Err(FailureKind::Panic { message }),
                    )
                },
                CallEvent::Completed(_) => exists|outcomes: Seq<Result<(), String>>|
                    #[trigger] checked_in_order(self.invariants(), contract, outcomes) && after_checks(
                        self.invariants(),
                        outcomes,
                        *old(run),
                        *final(run),
                    ),
            },
    {
        proof {
            use_type_invariant(&*run);
        }
        match event {
            CallEvent::Panicked(message) => {
                let kind = FailureKind::Panic { message };
                let ghost history = run.history@.push(Some(kind));
                proof {
                    assert(history.drop_last() =~= run.history@);
                }
                *run = SequenceRun {
                    total: run.total,
                    completed: run.completed,
                    verdict: Some(Result::Err(kind)),
                    history: Ghost(history),
                };
            },
            CallEvent::Completed(_) => {
                let ghost before = *run;
                let ghost mut outcomes: Seq<Result<(), String>> = Seq::empty();
                let mut j: usize = 0;
                while j < self.invariants.len()
                    invariant
                        j <= self.invariants@.len(),
                        *run == before,
                        before == *old(run),
                        event is Completed,
                        before.verdict is None,
                        before.completed < before.total,
                        run_over(before.total as nat, before.history@) == (
                            before.completed as nat,
                            before.verdict,
                        ),
                        outcomes.len() == j,
                        forall|k: int|
                            0 <= k < j ==> self.invariants@[k].judges(contract, #[trigger] outcomes[k]),
                        forall|k: int| 0 <= k < j ==> (#[trigger] outcomes[k]) is Ok,
                    decreases self.invariants@.len() - j,
                {
                    let inv = &self.invariants[j];
                    let outcome = inv.check(contract);
                    proof {
                        outcomes = outcomes.push(outcome);
                    }
                    if outcome.is_err() {
                        match invariant_failure(inv.name(), outcome) {
                            Some(kind) => {
                                let ghost history = run.history@.push(Some(kind));
                                proof {
                                    assert(history.drop_last() =~= run.history@);
                                }
                                *run = SequenceRun {
                                    total: run.total,
                                    completed: run.completed,
                                    verdict: Some(Result::Err(kind)),
                                    history: Ghost(history),
                                };
                                proof {
                                    assert(checked_in_order(self.invariants(), contract, outcomes));
                                    assert(after_checks(self.invariants(), outcomes, *old(run), *run));
                                }
                                return;
                            },
                            None => {},
                        }
                    }
                    j = j + 1;
                }
                let completed = run.completed + 1;
                let verdict = if completed == run.total {
                    Some(Result::Ok(()))
                } else {
                    None
                };
                let ghost history = run.history@.push(None);
                proof {
                    assert(history.drop_last() =~= run.history@);
                }
                *run = SequenceRun { total: run.total, completed, verdict, history: Ghost(history) };
                proof {
                    assert(checked_in_order(self.invariants(), contract, outcomes));
                    assert(after_checks(self.invariants(), outcomes, *old(run), *run));
                }
            },
        }
    }
}

} // verus!
