use rand::SeedableRng;
use rand_chacha::ChaCha8Rng;
use soroban_fuzz_core::{SorobanValue, ValueKind};

#[test]
fn value_generation_respects_kind_shape() {
    let mut rng = ChaCha8Rng::seed_from_u64(42);
    for _ in 0..200 {
        match SorobanValue::arbitrary(&mut rng, &ValueKind::Symbol, 3) {
            SorobanValue::Symbol(s) => assert!(s.len() <= 32 && !s.is_empty()),
            other => panic!("expected Symbol, got {other:?}"),
        }
        match SorobanValue::arbitrary(
            &mut rng,
            &ValueKind::Vec(Box::new(ValueKind::U32), 5),
            3,
        ) {
            SorobanValue::Vec(v) => assert!(v.len() <= 5),
            other => panic!("expected Vec, got {other:?}"),
        }
    }
}

#[test]
fn depth_limit_prevents_unbounded_recursion() {
    let mut rng = ChaCha8Rng::seed_from_u64(1);
    let kind = ValueKind::Vec(Box::new(ValueKind::Vec(Box::new(ValueKind::U32), 3)), 3);
    // depth 0 must bottom out immediately regardless of nested max lengths.
    match SorobanValue::arbitrary(&mut rng, &kind, 0) {
        SorobanValue::Vec(v) => assert!(v.is_empty()),
        other => panic!("expected empty Vec at depth 0, got {other:?}"),
    }
}
