# soroban-fuzz-core

Property-based fuzzing for Soroban smart contracts, verified with Verus.

The engine generates random, edge-case-biased values shaped like Soroban's
`Val` space, drives random call sequences against fresh instances of a
contract under test, checks user-defined invariants after every call, and
shrinks each failing sequence to a minimal reproduction.

## Layout

- `src/value.rs` — `ValueKind` and `SorobanValue`; typed generation
  (`SorobanValue::arbitrary`), proved to return a value of the kind's shape
  that never nests deeper than the requested depth.
- `src/contract.rs` — the `FuzzContract` and `Invariant` traits, and
  closure-based invariants (`FnInvariant`).
- `src/runner.rs` — configuration, reports, `FuzzRunner`, and the per-call
  decisions of one sequence run (`SequenceRun`, `FuzzRunner::observe_call`),
  with a model of a whole run (`run_over`) and its laws: the first failure
  decides the verdict, and calls appended after a failure change nothing.
- `src/shrink.rs` — the shrinking pass (`Shrinker`), proved to return a
  subsequence of the failing sequence that still fails and from which no
  single call can be removed, after at most `n * n` candidate runs.
- `src/campaign.rs` — a whole campaign (`Campaign`): generation, verdicts,
  shrinking, the failure limit and the final report; `FuzzRunner::run` drives
  it with a caller-supplied sequence executor, and is proved to report no
  finding when no sequence fails.
- `src/rng.rs` — the ChaCha8 random source, through `rand`.
- `app/` — the command-line tool (`init`, `report`) and the sequence executor
  handed to `FuzzRunner::run`: it makes the guarded calls into the contract,
  catching panics, and hands each outcome to the library.
