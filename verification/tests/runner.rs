use soroban_fuzz_core::campaign::campaign_ready;
use soroban_fuzz_core::runner::panic_message;
use soroban_fuzz_core::{
    CallEvent, CallOutcome, EntryPoint, FailureKind, FnInvariant, FuzzConfig, FuzzContract,
    FuzzReport, FuzzRunner, RecordedCall, SequenceRun, SorobanValue, ValueKind,
};

/// Runs a campaign with the library's driver, after the readiness check a
/// fuzz target makes, with `execute` giving the verdict of running one
/// sequence against a fresh instance.
fn drive<C: FuzzContract>(
    runner: &FuzzRunner<'_, C>,
    entry_points: &[EntryPoint],
    execute: impl Fn(&FuzzRunner<'_, C>, &[RecordedCall]) -> Result<(), FailureKind>,
) -> FuzzReport {
    assert!(campaign_ready(runner.settings(), entry_points));
    runner.run(entry_points, |calls: &Vec<RecordedCall>| execute(runner, calls))
}

/// Runs `calls` against a fresh instance, with `event` telling what became
/// of each call.
fn execute_with<C: FuzzContract>(
    runner: &FuzzRunner<'_, C>,
    calls: &[RecordedCall],
    event: impl Fn(&mut C, &RecordedCall) -> CallEvent,
) -> Result<(), FailureKind> {
    let mut contract = C::new_instance();
    let mut run = SequenceRun::new(calls.len());
    while let Some(i) = run.next_call() {
        let e = event(&mut contract, &calls[i]);
        runner.observe_call(&mut run, &contract, e);
    }
    run.finish()
}

/// A contract with an obvious, always-reachable bug: calling "boom" with
/// the value 0 panics.
struct BoomContract;

impl FuzzContract for BoomContract {
    fn new_instance() -> Self {
        BoomContract
    }
    fn entry_points(&self) -> Vec<EntryPoint> {
        vec![EntryPoint::new("boom", vec![ValueKind::U32])]
    }
    fn call(&mut self, function: &str, args: &[SorobanValue]) -> CallOutcome {
        assert_eq!(function, "boom");
        if let SorobanValue::U32(0) = args[0] {
            panic!("boom hit 0");
        }
        CallOutcome::Returned(SorobanValue::Void)
    }
}

/// What a guarded call of `BoomContract` yields: the call with 0 traps with
/// the message "boom hit 0" (tests cannot catch the unwinding themselves).
fn boom_event(contract: &mut BoomContract, call: &RecordedCall) -> CallEvent {
    if let SorobanValue::U32(0) = call.args[0] {
        CallEvent::Panicked(panic_message(Some("boom hit 0"), None))
    } else {
        CallEvent::Completed(contract.call(&call.function, &call.args))
    }
}

#[test]
fn runner_finds_and_shrinks_panic() {
    let config = FuzzConfig {
        iterations: 5_000,
        min_calls_per_run: 3,
        max_calls_per_run: 6,
        max_depth: 2,
        seed: Some(7),
    };
    let entry_points = BoomContract.entry_points();
    let runner = FuzzRunner::<BoomContract>::new(config);
    let report = drive(&runner, &entry_points, |r, calls| execute_with(r, calls, boom_event));

    assert!(!report.is_clean(), "expected the fuzzer to find the panic");
    let failure = &report.failures[0];
    assert_eq!(failure.repro.len(), 1);
    assert_eq!(failure.repro[0].function, "boom");
    assert_eq!(failure.repro[0].args[0], SorobanValue::U32(0));
}

/// A contract whose invariant ("counter never exceeds 100") is violated by
/// an "add" call.
struct CounterContract {
    value: u32,
}

impl FuzzContract for CounterContract {
    fn new_instance() -> Self {
        CounterContract { value: 0 }
    }
    fn entry_points(&self) -> Vec<EntryPoint> {
        vec![EntryPoint::new("add", vec![ValueKind::U32])]
    }
    fn call(&mut self, function: &str, args: &[SorobanValue]) -> CallOutcome {
        assert_eq!(function, "add");
        if let SorobanValue::U32(n) = args[0] {
            self.value = self.value.wrapping_add(n % 200);
        }
        CallOutcome::Returned(SorobanValue::Void)
    }
}

#[test]
fn runner_finds_invariant_violation() {
    let config = FuzzConfig {
        iterations: 5_000,
        min_calls_per_run: 1,
        max_calls_per_run: 4,
        max_depth: 1,
        seed: Some(3),
    };
    let entry_points = CounterContract::new_instance().entry_points();
    let runner = FuzzRunner::<CounterContract>::new(config).with_invariant(Box::new(
        FnInvariant::new("value <= 100", |c: &CounterContract| {
            if c.value <= 100 {
                Ok(())
            } else {
                Err(format!("value {} exceeds 100", c.value))
            }
        }),
    ));
    let report = drive(&runner, &entry_points, |r, calls| {
        execute_with(r, calls, |c: &mut CounterContract, call| {
            CallEvent::Completed(c.call(&call.function, &call.args))
        })
    });
    assert!(!report.is_clean());
}
