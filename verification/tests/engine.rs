use rand::SeedableRng;
use rand_chacha::ChaCha8Rng;
use soroban_fuzz_core::campaign::{campaign_ready, generate_sequence, Campaign, FAILURE_LIMIT};
use soroban_fuzz_core::runner::{invariant_failure, panic_message};
use soroban_fuzz_core::shrink::Shrinker;
use soroban_fuzz_core::value::{
    actor_address, edge_i128, edge_i32, edge_i64, edge_u128, edge_u32, edge_u64, join_i128, join_u128, pick_i128,
    pick_i32, pick_i64, pick_u128, pick_u32, pick_u64,
};
use soroban_fuzz_core::runner::reproduces;
use soroban_fuzz_core::{
    CallEvent, CallOutcome, EntryPoint, FailureKind, FnInvariant, FuzzConfig, FuzzContract,
    FuzzRunner, Invariant, RecordedCall, SequenceRun, SorobanValue, ValueKind,
};

fn call(name: &str) -> RecordedCall {
    RecordedCall { function: name.to_string(), args: vec![] }
}

fn names(calls: &[RecordedCall]) -> Vec<String> {
    calls.iter().map(|c| c.function.clone()).collect()
}

/// Shrinks `calls` with `fails` deciding whether a candidate still fails.
fn shrink_with(calls: Vec<RecordedCall>, fails: impl Fn(&[RecordedCall]) -> bool) -> Vec<RecordedCall> {
    let mut shrinker = Shrinker::new(calls);
    let mut steps = 0;
    while !shrinker.is_done() {
        let verdict = fails(shrinker.candidate());
        assert!(!shrinker.candidate().is_empty());
        shrinker.observe(verdict);
        steps += 1;
        assert!(steps < 10_000);
    }
    shrinker.finish()
}

#[test]
fn shrinking_keeps_exactly_the_calls_that_matter() {
    let calls: Vec<RecordedCall> = ["x", "a", "y", "z", "b", "w"].iter().map(|n| call(n)).collect();
    let fails = |c: &[RecordedCall]| {
        let n = names(c);
        n.contains(&"a".to_string()) && n.contains(&"b".to_string())
    };
    let shrunk = shrink_with(calls, fails);
    assert_eq!(names(&shrunk), vec!["a", "b"]);
}

#[test]
fn shrunk_sequence_is_one_minimal_and_ordered() {
    let calls: Vec<RecordedCall> = ["p", "q", "r", "s", "t"].iter().map(|n| call(n)).collect();
    // Fails while at least two calls remain and "s" is among them.
    let fails = |c: &[RecordedCall]| c.len() >= 2 && names(c).contains(&"s".to_string());
    let shrunk = shrink_with(calls, fails);
    assert_eq!(shrunk.len(), 2);
    assert!(names(&shrunk).contains(&"s".to_string()));
    for i in 0..shrunk.len() {
        let mut fewer = shrunk.clone();
        fewer.remove(i);
        assert!(!fails(&fewer));
    }
    assert_eq!(names(&shrunk), vec!["s", "t"]);
}

#[test]
fn shrinking_a_single_call_or_nothing_asks_nothing() {
    let one = Shrinker::new(vec![call("only")]);
    assert!(one.is_done());
    assert_eq!(names(&one.finish()), vec!["only"]);
    let none = Shrinker::new(vec![]);
    assert!(none.is_done());
    assert!(none.finish().is_empty());
}

#[test]
fn shrinking_without_reproduction_keeps_every_call() {
    let calls: Vec<RecordedCall> = ["a", "b", "c"].iter().map(|n| call(n)).collect();
    let shrunk = shrink_with(calls, |_| false);
    assert_eq!(names(&shrunk), vec!["a", "b", "c"]);
}

#[test]
fn shrinking_to_one_call_when_everything_fails() {
    let calls: Vec<RecordedCall> = ["a", "b", "c", "d"].iter().map(|n| call(n)).collect();
    let shrunk = shrink_with(calls, |_| true);
    assert_eq!(names(&shrunk), vec!["d"]);
}

#[test]
fn sequence_run_of_no_calls_passes_at_once() {
    let run = SequenceRun::new(0);
    assert_eq!(run.next_call(), None);
    assert!(run.finish().is_ok());
}

struct Flag {
    bad: bool,
}

impl FuzzContract for Flag {
    fn new_instance() -> Self {
        Flag { bad: false }
    }
    fn entry_points(&self) -> Vec<EntryPoint> {
        vec![EntryPoint::new("set", vec![ValueKind::Bool])]
    }
    fn call(&mut self, _function: &str, args: &[SorobanValue]) -> CallOutcome {
        if let SorobanValue::Bool(b) = args[0] {
            self.bad = b;
        }
        CallOutcome::Returned(SorobanValue::Void)
    }
}

fn flag_runner<'a>() -> FuzzRunner<'a, Flag> {
    FuzzRunner::<Flag>::new(FuzzConfig::default()).with_invariant(Box::new(FnInvariant::new(
        "flag clear",
        |f: &Flag| if f.bad { Err("flag set".to_string()) } else { Ok(()) },
    )))
}

#[test]
fn sequence_run_asks_calls_in_order_and_passes() {
    let runner = flag_runner();
    let contract = Flag { bad: false };
    let mut run = SequenceRun::new(3);
    for expected in 0..3 {
        assert_eq!(run.next_call(), Some(expected));
        runner.observe_call(&mut run, &contract, CallEvent::Completed(CallOutcome::Returned(SorobanValue::Void)));
    }
    assert_eq!(run.next_call(), None);
    assert!(run.finish().is_ok());
}

#[test]
fn sequence_run_stops_at_a_panic() {
    let runner = flag_runner();
    let contract = Flag { bad: false };
    let mut run = SequenceRun::new(3);
    runner.observe_call(&mut run, &contract, CallEvent::Completed(CallOutcome::Rejected("no".to_string())));
    runner.observe_call(&mut run, &contract, CallEvent::Panicked("overflow".to_string()));
    assert_eq!(run.next_call(), None);
    match run.finish() {
        Err(FailureKind::Panic { message }) => assert_eq!(message, "overflow"),
        other => panic!("expected a panic finding, got {other:?}"),
    }
}

#[test]
fn sequence_run_stops_at_a_broken_invariant() {
    let runner = flag_runner();
    let contract = Flag { bad: true };
    let mut run = SequenceRun::new(2);
    runner.observe_call(&mut run, &contract, CallEvent::Completed(CallOutcome::Returned(SorobanValue::Void)));
    assert_eq!(run.next_call(), None);
    match run.finish() {
        Err(FailureKind::InvariantBroken { invariant, reason }) => {
            assert_eq!(invariant, "flag clear");
            assert_eq!(reason, "flag set");
        }
        other => panic!("expected a broken invariant, got {other:?}"),
    }
}

#[test]
fn fn_invariant_reports_its_name_and_verdict() {
    let inv = FnInvariant::new("flag clear", |f: &Flag| if f.bad { Err("set".to_string()) } else { Ok(()) });
    assert_eq!(inv.name(), "flag clear");
    assert_eq!(inv.check(&Flag { bad: false }), Ok(()));
    assert_eq!(inv.check(&Flag { bad: true }), Err("set".to_string()));
}

#[test]
fn panic_messages_from_payloads() {
    assert_eq!(panic_message(Some("static text"), None), "static text");
    let owned = "owned text".to_string();
    assert_eq!(panic_message(None, Some(&owned)), "owned text");
    assert_eq!(panic_message(Some("first"), Some(&owned)), "first");
    assert_eq!(panic_message(None, None), "non-string panic payload");
}

#[test]
fn invariant_failures_carry_name_and_reason() {
    assert!(invariant_failure("sum", Ok(())).is_none());
    match invariant_failure("sum", Err("off by one".to_string())) {
        Some(FailureKind::InvariantBroken { invariant, reason }) => {
            assert_eq!(invariant, "sum");
            assert_eq!(reason, "off by one");
        }
        other => panic!("unexpected {other:?}"),
    }
}

#[test]
fn default_config_values() {
    let c = FuzzConfig::default();
    assert_eq!(c.iterations, 10_000);
    assert_eq!(c.min_calls_per_run, 1);
    assert_eq!(c.max_calls_per_run, 8);
    assert_eq!(c.max_depth, 4);
    assert_eq!(c.seed, None);
}

#[test]
fn entry_point_new_keeps_name_and_kinds() {
    let ep = EntryPoint::new("transfer", vec![ValueKind::Address, ValueKind::I128]);
    assert_eq!(ep.name, "transfer");
    assert_eq!(ep.arg_kinds, vec![ValueKind::Address, ValueKind::I128]);
}

#[test]
fn edge_tables_and_joins() {
    assert_eq!(
        (0..5).map(edge_u32).collect::<Vec<_>>(),
        vec![0, 1, u32::MAX, u32::MAX - 1, u32::MAX / 2]
    );
    assert_eq!(
        (0..7).map(edge_i32).collect::<Vec<_>>(),
        vec![0, 1, -1, i32::MAX, i32::MAX - 1, i32::MIN, i32::MIN + 1]
    );
    assert_eq!(
        (0..5).map(edge_u64).collect::<Vec<_>>(),
        vec![0, 1, u64::MAX, u64::MAX - 1, u64::MAX / 2]
    );
    assert_eq!(
        (0..7).map(edge_i64).collect::<Vec<_>>(),
        vec![0, 1, -1, i64::MAX, i64::MAX - 1, i64::MIN, i64::MIN + 1]
    );
    assert_eq!(
        (0..5).map(edge_u128).collect::<Vec<_>>(),
        vec![0, 1, u128::MAX, u128::MAX - 1, u128::MAX / 2]
    );
    assert_eq!(
        (0..6).map(edge_i128).collect::<Vec<_>>(),
        vec![0, 1, -1, i128::MAX, i128::MAX - 1, i128::MIN]
    );
    assert_eq!(join_u128(1, 2), (1u128 << 64) + 2);
    assert_eq!(join_u128(u64::MAX, u64::MAX), u128::MAX);
    assert_eq!(join_i128(-1, 0), -(1i128 << 64));
    assert_eq!(join_i128(-1, u64::MAX), -1);
    assert_eq!(join_i128(i64::MIN, 0), i128::MIN);
}

#[test]
fn generated_values_have_their_kinds_shape() {
    let mut rng = ChaCha8Rng::seed_from_u64(5);
    let mut address_labels = std::collections::BTreeSet::new();
    let mut byte_lengths = std::collections::BTreeSet::new();
    let mut symbol_lengths = std::collections::BTreeSet::new();
    let mut string_chars = std::collections::BTreeSet::new();
    for _ in 0..300 {
        match SorobanValue::arbitrary(&mut rng, &ValueKind::Address, 2) {
            SorobanValue::Address(a) => {
                assert!(["ADDR_0", "ADDR_1", "ADDR_2", "ADDR_3"].contains(&a.as_str()));
                address_labels.insert(a);
            }
            other => panic!("expected Address, got {other:?}"),
        }
        match SorobanValue::arbitrary(&mut rng, &ValueKind::Bytes { max_len: 10 }, 2) {
            SorobanValue::Bytes(b) => {
                assert!(b.len() <= 10);
                byte_lengths.insert(b.len());
            }
            other => panic!("expected Bytes, got {other:?}"),
        }
        match SorobanValue::arbitrary(&mut rng, &ValueKind::Bytes { max_len: 0 }, 2) {
            SorobanValue::Bytes(b) => assert!(b.len() <= 1),
            other => panic!("expected Bytes, got {other:?}"),
        }
        match SorobanValue::arbitrary(&mut rng, &ValueKind::StringVal { max_len: 8 }, 2) {
            SorobanValue::StringVal(s) => {
                assert!(s.chars().count() <= 8);
                for c in s.chars() {
                    assert!((0x20..0x7e).contains(&(c as u32)));
                    string_chars.insert(c);
                }
            }
            other => panic!("expected StringVal, got {other:?}"),
        }
        match SorobanValue::arbitrary(&mut rng, &ValueKind::Symbol, 2) {
            SorobanValue::Symbol(s) => {
                assert!(!s.is_empty() && s.len() <= 32);
                assert!(s.chars().all(|c| c.is_ascii_alphanumeric() || c == '_'));
                symbol_lengths.insert(s.len());
            }
            other => panic!("expected Symbol, got {other:?}"),
        }
        match SorobanValue::arbitrary(&mut rng, &ValueKind::OneOf(vec![ValueKind::Bool, ValueKind::I64]), 2) {
            SorobanValue::Bool(_) | SorobanValue::I64(_) => {}
            other => panic!("expected Bool or I64, got {other:?}"),
        }
    }
    // The ranged draws vary: more than one address, length and character.
    assert!(address_labels.len() > 1);
    assert!(byte_lengths.len() > 1);
    assert!(symbol_lengths.len() > 1);
    assert!(string_chars.len() > 1);
}

#[test]
fn map_values_respect_depth_and_kinds() {
    let mut rng = ChaCha8Rng::seed_from_u64(9);
    let kind = ValueKind::MapVal(Box::new(ValueKind::Symbol), Box::new(ValueKind::U64), 4);
    for _ in 0..100 {
        match SorobanValue::arbitrary(&mut rng, &kind, 1) {
            SorobanValue::MapVal(entries) => {
                assert!(entries.len() <= 4);
                for (k, v) in entries {
                    assert!(matches!(k, SorobanValue::Symbol(_)));
                    assert!(matches!(v, SorobanValue::U64(_)));
                }
            }
            other => panic!("expected MapVal, got {other:?}"),
        }
        match SorobanValue::arbitrary(&mut rng, &kind, 0) {
            SorobanValue::MapVal(entries) => assert!(entries.is_empty()),
            other => panic!("expected MapVal, got {other:?}"),
        }
    }
}

#[test]
fn nested_vectors_stop_at_the_depth() {
    let mut rng = ChaCha8Rng::seed_from_u64(11);
    let kind = ValueKind::Vec(Box::new(ValueKind::Vec(Box::new(ValueKind::U32), 3)), 3);
    for _ in 0..100 {
        match SorobanValue::arbitrary(&mut rng, &kind, 1) {
            SorobanValue::Vec(outer) => {
                for inner in outer {
                    match inner {
                        SorobanValue::Vec(v) => assert!(v.is_empty()),
                        other => panic!("expected Vec, got {other:?}"),
                    }
                }
            }
            other => panic!("expected Vec, got {other:?}"),
        }
    }
}

#[test]
fn generability_of_kinds() {
    assert!(ValueKind::U32.is_generable(0));
    assert!(!ValueKind::OneOf(vec![]).is_generable(3));
    assert!(ValueKind::Vec(Box::new(ValueKind::OneOf(vec![])), 3).is_generable(0));
    assert!(!ValueKind::Vec(Box::new(ValueKind::OneOf(vec![])), 3).is_generable(1));
    assert!(ValueKind::Vec(Box::new(ValueKind::OneOf(vec![])), 0).is_generable(1));
    assert!(!ValueKind::MapVal(Box::new(ValueKind::U32), Box::new(ValueKind::OneOf(vec![])), 2).is_generable(2));
    assert!(ValueKind::OneOf(vec![ValueKind::Bool, ValueKind::Vec(Box::new(ValueKind::U32), 2)]).is_generable(1));
}

fn config(iterations: u64, min: usize, max: usize, seed: Option<u64>) -> FuzzConfig {
    FuzzConfig { iterations, min_calls_per_run: min, max_calls_per_run: max, max_depth: 2, seed }
}

#[test]
fn readiness_of_campaigns() {
    let eps = vec![EntryPoint::new("f", vec![ValueKind::U32])];
    assert!(campaign_ready(&config(10, 1, 4, None), &eps));
    assert!(!campaign_ready(&config(10, 5, 4, None), &eps));
    assert!(campaign_ready(&config(0, 5, 4, None), &eps));
    assert!(!campaign_ready(&config(10, 1, 4, None), &[]));
    assert!(campaign_ready(&config(10, 0, 0, None), &[]));
    let bad = vec![EntryPoint::new("g", vec![ValueKind::OneOf(vec![])])];
    assert!(!campaign_ready(&config(10, 1, 4, None), &bad));
}

#[test]
fn generated_sequences_are_well_typed_and_sized() {
    let eps = vec![
        EntryPoint::new("mint", vec![ValueKind::Address, ValueKind::U128]),
        EntryPoint::new("burn", vec![ValueKind::U128]),
    ];
    let mut rng = ChaCha8Rng::seed_from_u64(1);
    let mut lengths = std::collections::BTreeSet::new();
    for _ in 0..100 {
        let calls = generate_sequence(&mut rng, &eps, 2, 5, 2);
        assert!((2..=5).contains(&calls.len()));
        lengths.insert(calls.len());
        for c in &calls {
            match c.function.as_str() {
                "mint" => {
                    assert_eq!(c.args.len(), 2);
                    assert!(matches!(c.args[0], SorobanValue::Address(_)));
                    assert!(matches!(c.args[1], SorobanValue::U128(_)));
                }
                "burn" => {
                    assert_eq!(c.args.len(), 1);
                    assert!(matches!(c.args[0], SorobanValue::U128(_)));
                }
                other => panic!("unknown entry point {other}"),
            }
        }
    }
    assert!(lengths.len() > 1);
}

/// Runs a campaign where a sequence fails exactly when it holds a call named
/// "bad".
fn campaign_with_failing_name(iterations: u64, seed: u64) -> soroban_fuzz_core::FuzzReport {
    let eps = vec![EntryPoint::new("ok", vec![ValueKind::U32]), EntryPoint::new("bad", vec![])];
    let cfg = config(iterations, 1, 4, Some(seed));
    assert!(campaign_ready(&cfg, &eps));
    let mut campaign = Campaign::start(&cfg, &eps);
    let mut runs = 0;
    loop {
        let verdict = match campaign.pending() {
            Some(calls) => {
                if calls.iter().any(|c| c.function == "bad") {
                    Err(FailureKind::Panic { message: "bad".to_string() })
                } else {
                    Ok(())
                }
            }
            None => break,
        };
        campaign.observe(verdict);
        runs += 1;
        assert!(runs < 100_000);
    }
    campaign.finish()
}

#[test]
fn campaign_failures_are_shrunk_and_seeded() {
    let report = campaign_with_failing_name(40, 17);
    assert_eq!(report.iterations_run, 40);
    assert!(!report.is_clean());
    for f in &report.failures {
        assert_eq!(f.seed, 17);
        assert_eq!(names(&f.repro), vec!["bad"]);
        assert!(matches!(&f.kind, FailureKind::Panic { message } if message == "bad"));
    }
}

#[test]
fn campaign_stops_at_the_failure_limit() {
    let report = campaign_with_failing_name(100_000, 2);
    assert_eq!(report.failures.len(), FAILURE_LIMIT);
    assert!(report.iterations_run < 100_000);
}

#[test]
fn campaign_of_no_iterations_is_clean() {
    let cfg = config(0, 1, 4, Some(1));
    let campaign = Campaign::start(&cfg, &[]);
    assert!(campaign.pending().is_none());
    let report = campaign.finish();
    assert_eq!(report.iterations_run, 0);
    assert!(report.is_clean());
}

#[test]
fn same_seed_same_campaign() {
    let a = campaign_with_failing_name(30, 99);
    let b = campaign_with_failing_name(30, 99);
    assert_eq!(a.failures.len(), b.failures.len());
    assert_eq!(a.iterations_run, b.iterations_run);
}

#[test]
fn clones_are_equal() {
    let kind = ValueKind::OneOf(vec![
        ValueKind::MapVal(Box::new(ValueKind::Symbol), Box::new(ValueKind::Bytes { max_len: 3 }), 2),
        ValueKind::Vec(Box::new(ValueKind::StringVal { max_len: 4 }), 1),
    ]);
    assert_eq!(kind.clone(), kind);
    let value = SorobanValue::MapVal(vec![(
        SorobanValue::Symbol("k".to_string()),
        SorobanValue::Vec(vec![SorobanValue::Bytes(vec![1, 2, 3]), SorobanValue::I128(-5)]),
    )]);
    assert_eq!(value.clone(), value);
}

#[test]
fn biased_picks_take_edge_or_raw() {
    assert_eq!(pick_u32(true, 2, 7), u32::MAX);
    assert_eq!(pick_u32(false, 2, 7), 7);
    assert_eq!(pick_i32(true, 4, 7), i32::MAX - 1);
    assert_eq!(pick_i32(false, 4, -7), -7);
    assert_eq!(pick_u64(true, 3, 7), u64::MAX - 1);
    assert_eq!(pick_i64(true, 5, 7), i64::MIN);
    assert_eq!(pick_u128(true, 4, 7), u128::MAX / 2);
    assert_eq!(pick_i128(true, 4, 7), i128::MAX - 1);
    assert_eq!(pick_i128(false, 4, -9), -9);
}

#[test]
fn depth_zero_containers_draw_nothing() {
    let mut rng = ChaCha8Rng::seed_from_u64(23);
    let before = rng.clone();
    let kind = ValueKind::Vec(Box::new(ValueKind::U64), 4);
    assert_eq!(SorobanValue::arbitrary(&mut rng, &kind, 0), SorobanValue::Vec(vec![]));
    let map = ValueKind::MapVal(Box::new(ValueKind::U64), Box::new(ValueKind::Bool), 4);
    assert_eq!(SorobanValue::arbitrary(&mut rng, &map, 0), SorobanValue::MapVal(vec![]));
    assert_eq!(rng, before);
}

#[test]
fn reproduction_means_the_same_failure() {
    let panic = FailureKind::Panic { message: "a".to_string() };
    let other_panic = FailureKind::Panic { message: "b".to_string() };
    let broken = FailureKind::InvariantBroken { invariant: "sum".to_string(), reason: "x".to_string() };
    let broken_again = FailureKind::InvariantBroken { invariant: "sum".to_string(), reason: "y".to_string() };
    let other_broken = FailureKind::InvariantBroken { invariant: "cap".to_string(), reason: "x".to_string() };
    assert!(reproduces(&Err(other_panic), &panic));
    assert!(!reproduces(&Err(broken.clone()), &panic));
    assert!(reproduces(&Err(broken_again), &broken));
    assert!(!reproduces(&Err(other_broken), &broken));
    assert!(!reproduces(&Ok(()), &broken));
}

#[test]
fn shrinking_keeps_the_recorded_failure() {
    let eps = vec![EntryPoint::new("bad", vec![]), EntryPoint::new("odd", vec![]), EntryPoint::new("ok", vec![])];
    let cfg = config(300, 2, 5, Some(4));
    let mut campaign = Campaign::start(&cfg, &eps);
    loop {
        let verdict = match campaign.pending() {
            Some(calls) => {
                let n = names(calls);
                if n.contains(&"bad".to_string()) {
                    Err(FailureKind::Panic { message: "bad".to_string() })
                } else if n.contains(&"odd".to_string()) {
                    Err(FailureKind::InvariantBroken { invariant: "odd".to_string(), reason: "odd".to_string() })
                } else {
                    Ok(())
                }
            }
            None => break,
        };
        campaign.observe(verdict);
    }
    let report = campaign.finish();
    assert!(!report.is_clean());
    assert!(report.failures.len() <= report.iterations_run as usize);
    for f in &report.failures {
        match &f.kind {
            FailureKind::Panic { .. } => assert_eq!(names(&f.repro), vec!["bad"]),
            FailureKind::InvariantBroken { .. } => assert_eq!(names(&f.repro), vec!["odd"]),
        }
    }
}

#[test]
fn counter_invariant_breaks_with_its_name_and_reason() {
    let runner = counter_runner();
    let calls = vec![RecordedCall { function: "add".to_string(), args: vec![SorobanValue::U32(150)] }];
    match execute_counter(&runner, &calls) {
        Err(FailureKind::InvariantBroken { invariant, reason }) => {
            assert_eq!(invariant, "value <= 100");
            assert_eq!(reason, "value 150 exceeds 100");
        }
        other => panic!("expected a broken invariant, got {other:?}"),
    }
}

#[test]
fn counter_invariant_holds_at_the_boundary() {
    let runner = counter_runner();
    let calls = vec![
        RecordedCall { function: "add".to_string(), args: vec![SorobanValue::U32(60)] },
        RecordedCall { function: "add".to_string(), args: vec![SorobanValue::U32(40)] },
    ];
    assert!(execute_counter(&runner, &calls).is_ok());
}

#[test]
fn rejected_calls_are_not_findings() {
    let runner = counter_runner();
    let contract = Counter { value: 0 };
    let mut run = SequenceRun::new(1);
    runner.observe_call(&mut run, &contract, CallEvent::Completed(CallOutcome::Rejected("insufficient balance".to_string())));
    assert!(run.finish().is_ok());
}

struct Counter {
    value: u32,
}

impl FuzzContract for Counter {
    fn new_instance() -> Self {
        Counter { value: 0 }
    }
    fn entry_points(&self) -> Vec<EntryPoint> {
        vec![EntryPoint::new("add", vec![ValueKind::U32])]
    }
    fn call(&mut self, _function: &str, args: &[SorobanValue]) -> CallOutcome {
        if let SorobanValue::U32(n) = args[0] {
            self.value = self.value.wrapping_add(n % 200);
        }
        CallOutcome::Returned(SorobanValue::Void)
    }
}

fn counter_runner<'a>() -> FuzzRunner<'a, Counter> {
    FuzzRunner::<Counter>::new(FuzzConfig::default()).with_invariant(Box::new(FnInvariant::new(
        "value <= 100",
        |c: &Counter| {
            if c.value <= 100 {
                Ok(())
            } else {
                Err(format!("value {} exceeds 100", c.value))
            }
        },
    )))
}

fn execute_counter(runner: &FuzzRunner<'_, Counter>, calls: &[RecordedCall]) -> Result<(), FailureKind> {
    let mut contract = Counter::new_instance();
    let mut run = SequenceRun::new(calls.len());
    while let Some(i) = run.next_call() {
        let outcome = contract.call(&calls[i].function, &calls[i].args);
        runner.observe_call(&mut run, &contract, CallEvent::Completed(outcome));
    }
    run.finish()
}

#[test]
fn actor_addresses_carry_their_digit() {
    assert_eq!(actor_address(0), "ADDR_0");
    assert_eq!(actor_address(2), "ADDR_2");
    assert_eq!(actor_address(3), "ADDR_3");
}

#[test]
fn passing_contract_gives_a_clean_full_report() {
    let config = FuzzConfig {
        iterations: 200,
        min_calls_per_run: 1,
        max_calls_per_run: 5,
        max_depth: 2,
        seed: Some(11),
    };
    let runner = FuzzRunner::<Counter>::new(config);
    let entry_points = Counter::new_instance().entry_points();
    assert!(campaign_ready(runner.settings(), &entry_points));
    let report = runner.run(&entry_points, |calls: &Vec<RecordedCall>| execute_counter(&runner, calls));
    assert!(report.is_clean());
    assert_eq!(report.iterations_run, 200);
}

#[test]
fn calls_after_a_failure_change_nothing() {
    let runner = counter_runner();
    let add = |n: u32| RecordedCall { function: "add".to_string(), args: vec![SorobanValue::U32(n)] };
    let failing = vec![add(60), add(60)];
    let longer = vec![add(60), add(60), add(1), add(0), add(150)];
    let short = execute_counter(&runner, &failing);
    let long = execute_counter(&runner, &longer);
    match (short, long) {
        (
            Err(FailureKind::InvariantBroken { invariant: a, reason: r }),
            Err(FailureKind::InvariantBroken { invariant: b, reason: s }),
        ) => {
            assert_eq!(a, "value <= 100");
            assert_eq!(a, b);
            assert_eq!(r, "value 120 exceeds 100");
            assert_eq!(r, s);
        }
        other => panic!("unexpected verdicts {:?}", other),
    }
    // A passing longer run means a passing prefix.
    assert!(execute_counter(&runner, &[add(10), add(20), add(30)]).is_ok());
    assert!(execute_counter(&runner, &[add(10), add(20)]).is_ok());
}

#[test]
fn shrinking_takes_at_most_n_squared_verdicts() {
    for n in 1..=7usize {
        let calls: Vec<RecordedCall> = (0..n).map(|i| call(&format!("c{i}"))).collect();
        // Every candidate fails: one removal per verdict.
        let mut shrinker = Shrinker::new(calls.clone());
        let mut verdicts = 0;
        while !shrinker.is_done() {
            shrinker.observe(true);
            verdicts += 1;
        }
        assert!(verdicts <= n * n);
        // Only the last call matters.
        let last = format!("c{}", n - 1);
        let mut shrinker = Shrinker::new(calls.clone());
        let mut verdicts = 0;
        while !shrinker.is_done() {
            let keeps = shrinker.candidate().iter().any(|c| c.function == last);
            shrinker.observe(keeps);
            verdicts += 1;
        }
        assert!(verdicts <= n * n);
        assert_eq!(names(&shrinker.finish()), vec![last]);
    }
}

#[test]
fn invariants_are_kept_in_registration_order() {
    let runner = FuzzRunner::<Counter>::new(FuzzConfig::default())
        .with_invariant(Box::new(FnInvariant::new("first", |_c: &Counter| Err("one".to_string()))))
        .with_invariant(Box::new(FnInvariant::new("second", |_c: &Counter| Err("two".to_string()))));
    let contract = Counter { value: 0 };
    let mut run = SequenceRun::new(2);
    runner.observe_call(&mut run, &contract, CallEvent::Completed(CallOutcome::Returned(SorobanValue::Void)));
    match run.finish() {
        Err(FailureKind::InvariantBroken { invariant, reason }) => {
            assert_eq!(invariant, "first");
            assert_eq!(reason, "one");
        }
        other => panic!("unexpected verdict {:?}", other),
    }
}
