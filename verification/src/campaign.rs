//! A fuzzing campaign: random call sequences, one per iteration, each run
//! against a fresh contract instance; every failing sequence is shrunk to a
//! minimal reproduction and recorded, up to a fixed number of failures.
//!
//! Running a sequence is the caller's part (it alone can catch a panic):
//! `Campaign::pending` is the sequence to run, `Campaign::observe` takes its
//! verdict. Everything else, generation included, is decided here.
use vstd::prelude::*;
use rand_chacha::ChaCha8Rng;
use crate::contract::{EntryPoint, FuzzContract};
use crate::rng::{fresh_seed, seeded_rng};
use crate::draws::{added, draw_index, drew, extends, Draw, DrawLog};
use crate::value::ranged;
use crate::runner::{
    reproduces, same_failure, Failure, FailureKind, FuzzConfig, FuzzReport, FuzzRunner, RecordedCall,
};
use crate::shrink::{
    candidate_of, closer_to_done, is_subsequence, is_testing, ShrinkState, Shrinker,
};
use crate::value::{conforms, generable, SorobanValue};

verus! {

/// A campaign stops once this many failures are recorded.
pub const FAILURE_LIMIT: usize = 50;

/// Every argument kind of every entry point can be generated at `depth`.
pub open spec fn entry_points_generable(entry_points: Seq<EntryPoint>, depth: nat) -> bool {
    forall|i: int, j: int|
        0 <= i < entry_points.len() && 0 <= j < entry_points[i].arg_kinds@.len() ==> generable(
            #[trigger] entry_points[i].arg_kinds@[j],
            depth,
        )
}

/// `call` is a call of entry point `ep` whose arguments have the kinds the
/// entry point lists, generated at `depth`.
pub open spec fn call_matches(call: RecordedCall, ep: EntryPoint, depth: nat) -> bool {
    &&& call.function@ == ep.name@
    &&& call.args@.len() == ep.arg_kinds@.len()
    &&& forall|j: int| 0 <= j < call.args@.len() ==> conforms(#[trigger] call.args@[j], ep.arg_kinds@[j], depth)
}

/// `call` is a well-typed call of one of `entry_points`.
pub open spec fn call_conforms(call: RecordedCall, entry_points: Seq<EntryPoint>, depth: nat) -> bool {
    exists|i: int| 0 <= i < entry_points.len() && call_matches(call, #[trigger] entry_points[i], depth)
}

/// Every call of `calls` is a well-typed call of one of `entry_points`.
pub open spec fn calls_conform(calls: Seq<RecordedCall>, entry_points: Seq<EntryPoint>, depth: nat) -> bool {
    forall|k: int| 0 <= k < calls.len() ==> call_conforms(#[trigger] calls[k], entry_points, depth)
}

/// Removing calls keeps every remaining call well-typed.
pub proof fn lemma_subsequence_conforms(
    part: Seq<RecordedCall>,
    whole: Seq<RecordedCall>,
    entry_points: Seq<EntryPoint>,
    depth: nat,
)
    requires
        is_subsequence(part, whole),
        calls_conform(whole, entry_points, depth),
    ensures
        calls_conform(part, entry_points, depth),
{
    let positions = choose|positions: Seq<int>| crate::shrink::embeds(positions, part, whole);
    assert forall|k: int| 0 <= k < part.len() implies call_conforms(#[trigger] part[k], entry_points, depth) by {
        assert(part[k] == whole[positions[k]]);
    }
}

/// A generation run is possible: call counts form a non-empty range, and when
/// calls may be generated there is an entry point to pick and every argument
/// kind can be generated.
pub open spec fn generation_ready(config: FuzzConfig, entry_points: Seq<EntryPoint>) -> bool {
    &&& config.min_calls_per_run <= config.max_calls_per_run
    &&& config.max_calls_per_run > 0 ==> entry_points.len() > 0 && entry_points_generable(
        entry_points,
        config.max_depth as nat,
    )
}

/// Whether a campaign with `config` over `entry_points` can run without an
/// empty choice: no iterations, or `generation_ready`.
pub fn campaign_ready(config: &FuzzConfig, entry_points: &[EntryPoint]) -> (ok: bool)
    ensures
        ok == (config.iterations == 0 || generation_ready(*config, entry_points@)),
{
    if config.iterations == 0 {
        return true;
    }
    if config.min_calls_per_run > config.max_calls_per_run {
        return false;
    }
    if config.max_calls_per_run == 0 {
        return true;
    }
    if entry_points.len() == 0 {
        return false;
    }
    let mut i: usize = 0;
    while i < entry_points.len()
        invariant
            i <= entry_points@.len(),
            config.iterations != 0,
            config.max_calls_per_run > 0,
            config.min_calls_per_run <= config.max_calls_per_run,
            forall|a: int, b: int|
                0 <= a < i && 0 <= b < entry_points@[a].arg_kinds@.len() ==> generable(
                    #[trigger] entry_points@[a].arg_kinds@[b],
                    config.max_depth as nat,
                ),
        decreases entry_points@.len() - i,
    {
        let kinds = &entry_points[i].arg_kinds;
        let mut j: usize = 0;
        while j < kinds.len()
            invariant
                j <= kinds@.len(),
                i < entry_points@.len(),
                config.iterations != 0,
                config.max_calls_per_run > 0,
                *kinds == entry_points@[i as int].arg_kinds,
                forall|b: int| 0 <= b < j ==> generable(#[trigger] kinds@[b], config.max_depth as nat),
            decreases kinds@.len() - j,
        {
            if !kinds[j].is_generable(config.max_depth) {
                assert(!generable(entry_points@[i as int].arg_kinds@[j as int], config.max_depth as nat));
                assert(!entry_points_generable(entry_points@, config.max_depth as nat));
                return false;
            }
            j = j + 1;
        }
        i = i + 1;
    }
    true
}

/// `e` holds one draw per call of `calls`, in order: call `k` is a call of
/// the entry point whose index was drawn, over all of `entry_points`, by
/// `e[k]`, with arguments of that entry point's kinds.
pub open spec fn calls_drawn(
    calls: Seq<RecordedCall>,
    e: Seq<Draw>,
    entry_points: Seq<EntryPoint>,
    depth: nat,
) -> bool {
    &&& e.len() == calls.len()
    &&& forall|k: int|
        #![trigger calls[k]]
        #![trigger e[k]]
        0 <= k < calls.len() ==> (ranged(e[k], 0, entry_points.len() - 1) && call_matches(
            calls[k],
            entry_points[e[k]->Range_value],
            depth,
        ))
}

/// The draws `d` of a generated sequence `calls`: its length drawn from
/// `min_calls..=max_calls`, then one entry-point draw per call.
pub open spec fn sequence_drawn(
    calls: Seq<RecordedCall>,
    d: Seq<Draw>,
    entry_points: Seq<EntryPoint>,
    min_calls: nat,
    max_calls: nat,
    depth: nat,
) -> bool {
    &&& d.len() == calls.len() + 1
    &&& drew(d[0], min_calls as int, max_calls as int, calls.len() as int)
    &&& calls_drawn(calls, d.skip(1), entry_points, depth)
}

proof fn lemma_calls_drawn_push(
    calls: Seq<RecordedCall>,
    e: Seq<Draw>,
    entry_points: Seq<EntryPoint>,
    depth: nat,
    call: RecordedCall,
    i: int,
)
    requires
        calls_drawn(calls, e, entry_points, depth),
        0 <= i < entry_points.len(),
        call_matches(call, entry_points[i], depth),
    ensures
        calls_drawn(
            calls.push(call),
            e.push(Draw::Range { low: 0, high: entry_points.len() - 1, value: i }),
            entry_points,
            depth,
        ),
{
    let c2 = calls.push(call);
    let e2 = e.push(Draw::Range { low: 0, high: entry_points.len() - 1, value: i });
    assert forall|k: int| 0 <= k < c2.len() implies (ranged(#[trigger] e2[k], 0, entry_points.len() - 1)
        && call_matches(c2[k], entry_points[e2[k]->Range_value], depth)) by {
        if k < calls.len() {
            assert(c2[k] == calls[k]);
            assert(e2[k] == e[k]);
        }
    }
}

/// One random call sequence: its length is drawn from
/// `min_calls..=max_calls`, then each call picks an entry point uniformly and
/// generates its arguments in order at `max_depth`.
pub fn generate_sequence(
    rng: &mut ChaCha8Rng,
    entry_points: &[EntryPoint],
    min_calls: usize,
    max_calls: usize,
    max_depth: u8,
) -> (calls: Vec<RecordedCall>)
    requires
        min_calls <= max_calls,
        max_calls > 0 ==> entry_points@.len() > 0 && entry_points_generable(entry_points@, max_depth as nat),
    ensures
        min_calls <= calls@.len() <= max_calls,
        calls_conform(calls@, entry_points@, max_depth as nat),
{
    let mut log = DrawLog::new();
    generate_sequence_recorded(rng, &mut log, entry_points, min_calls, max_calls, max_depth)
}

/// `generate_sequence`, recording in `log` the draw of the length and each
/// call's entry-point draw (`sequence_drawn`).
pub fn generate_sequence_recorded(
    rng: &mut ChaCha8Rng,
    log: &mut DrawLog,
    entry_points: &[EntryPoint],
    min_calls: usize,
    max_calls: usize,
    max_depth: u8,
) -> (calls: Vec<RecordedCall>)
    requires
        min_calls <= max_calls,
        max_calls > 0 ==> entry_points@.len() > 0 && entry_points_generable(entry_points@, max_depth as nat),
    ensures
        min_calls <= calls@.len() <= max_calls,
        calls_conform(calls@, entry_points@, max_depth as nat),
        extends(old(log).draws(), final(log).draws()),
        sequence_drawn(
            calls@,
            added(old(log).draws(), final(log).draws()),
            entry_points@,
            min_calls as nat,
            max_calls as nat,
            max_depth as nat,
        ),
        ({
            let d = added(old(log).draws(), final(log).draws());
            &&& d.len() == calls@.len() + 1
            &&& drew(d[0], min_calls as int, max_calls as int, calls@.len() as int)
            &&& forall|k: int|
                #![trigger calls@[k]]
                #![trigger d.skip(1)[k]]
                0 <= k < calls@.len() ==> (d.skip(1)[k] is Range && d.skip(1)[k]->Range_low == 0
                    && d.skip(1)[k]->Range_high == entry_points@.len() - 1 && calls@[k].function@
                    == entry_points@[d.skip(1)[k]->Range_value].name@)
        }),
{
    let ghost start = log.draws();
    let n_calls = draw_index(rng, log, min_calls, max_calls);
    let mut calls: Vec<RecordedCall> = Vec::new();
    let mut k: usize = 0;
    while k < n_calls
        invariant
            k <= n_calls <= max_calls,
            max_calls > 0 ==> entry_points@.len() > 0 && entry_points_generable(entry_points@, max_depth as nat),
            calls@.len() == k,
            calls_conform(calls@, entry_points@, max_depth as nat),
            extends(start, log.draws()),
            log.draws().len() == start.len() + 1 + k,
            drew(log.draws()[start.len() as int], min_calls as int, max_calls as int, n_calls as int),
            calls_drawn(
                calls@,
                log.draws().subrange(start.len() + 1int, log.draws().len() as int),
                entry_points@,
                max_depth as nat,
            ),
        decreases n_calls - k,
    {
        let ghost before = log.draws();
        let i = draw_index(rng, log, 0, entry_points.len() - 1);
        let ep = &entry_points[i];
        let mut args: Vec<SorobanValue> = Vec::new();
        let mut j: usize = 0;
        while j < ep.arg_kinds.len()
            invariant
                j <= ep.arg_kinds@.len(),
                *ep == entry_points@[i as int],
                0 <= i < entry_points@.len(),
                entry_points_generable(entry_points@, max_depth as nat),
                args@.len() == j,
                forall|a: int| 0 <= a < j ==> conforms(#[trigger] args@[a], ep.arg_kinds@[a], max_depth as nat),
            decreases ep.arg_kinds@.len() - j,
        {
            let mut arg_log = DrawLog::new();
            let arg = SorobanValue::arbitrary_recorded(rng, &mut arg_log, &ep.arg_kinds[j], max_depth);
            args.push(arg);
            j = j + 1;
        }
        let call = RecordedCall { function: ep.name.clone(), args };
        assert(call_matches(call, entry_points@[i as int], max_depth as nat));
        let ghost prev = calls@;
        calls.push(call);
        k = k + 1;
        assert forall|m: int| 0 <= m < calls@.len() implies call_conforms(
            #[trigger] calls@[m],
            entry_points@,
            max_depth as nat,
        ) by {
            if m < prev.len() {
                assert(calls@[m] == prev[m]);
            }
        }
        proof {
            lemma_calls_drawn_push(
                prev,
                before.subrange(start.len() + 1int, before.len() as int),
                entry_points@,
                max_depth as nat,
                call,
                i as int,
            );
            assert(log.draws().subrange(start.len() + 1int, log.draws().len() as int) =~= before.subrange(
                start.len() + 1int,
                before.len() as int,
            ).push(Draw::Range { low: 0, high: entry_points@.len() - 1, value: i as int }));
        }
    }
    proof {
        let d = added(start, log.draws());
        assert(d.skip(1) =~= log.draws().subrange(start.len() + 1int, log.draws().len() as int));
        assert(calls_drawn(calls@, d.skip(1), entry_points@, max_depth as nat));
    }
    calls
}

/// Failure `f` came from `trials[o]`, the sequence of iteration `o`, which
/// was reported with that failure. Its reproduction is that sequence with
/// calls removed, never empty; it is the sequence itself or a candidate
/// reported, in iteration `o`, to reproduce the failure; and if more than one
/// call is left, removing any single call was reported, in iteration `o`, not
/// to reproduce it.
pub open spec fn failure_recorded(
    f: Failure,
    o: int,
    seed: u64,
    trials: Seq<Seq<RecordedCall>>,
    reported: Map<int, FailureKind>,
    failing: Set<(int, Seq<RecordedCall>)>,
    passing: Set<(int, Seq<RecordedCall>)>,
) -> bool {
    &&& 0 <= o < trials.len()
    &&& f.seed == seed
    &&& reported.contains_key(o) && reported[o] == f.kind
    &&& is_subsequence(f.repro@, trials[o])
    &&& f.repro@.len() > 0
    &&& f.repro@.len() <= trials[o].len()
    &&& (f.repro@ == trials[o] || failing.contains((o, f.repro@)))
    &&& f.repro@.len() > 1 ==> forall|j: int|
        0 <= j < f.repro@.len() ==> passing.contains((o, #[trigger] f.repro@.remove(j)))
}

/// Where a campaign stands.
pub enum Stage {
    /// Waiting for the verdict on the sequence generated for this iteration.
    Exploring,
    /// Shrinking this iteration's failing sequence.
    Shrinking(ShrinkState),
    Finished,
}

enum Phase {
    Exploring(Vec<RecordedCall>),
    Shrinking(Shrinker, FailureKind),
    Finished,
}

/// A running fuzzing campaign over the entry points it was started with.
pub struct Campaign<'e> {
    entry_points: &'e [EntryPoint],
    iterations: u64,
    min_calls: usize,
    max_calls: usize,
    max_depth: u8,
    seed: u64,
    rng: ChaCha8Rng,
    /// The draws made for the sequences generated so far.
    log: DrawLog,
    iterations_run: u64,
    failures: Vec<Failure>,
    phase: Phase,
    /// The sequence generated in each iteration so far.
    trials: Ghost<Seq<Seq<RecordedCall>>>,
    /// For each iteration, where the draws of its sequence begin in `log`.
    marks: Ghost<Seq<int>>,
    /// For each failure, the iteration whose sequence it came from.
    origins: Ghost<Seq<int>>,
    /// For each iteration whose sequence failed, the failure reported for it.
    reported: Ghost<Map<int, FailureKind>>,
    /// The shrinking candidates reported, in the iteration given with each, to
    /// reproduce that iteration's failure.
    failing: Ghost<Set<(int, Seq<RecordedCall>)>>,
    /// The shrinking candidates reported, in the iteration given with each, not
    /// to reproduce that iteration's failure.
    passing: Ghost<Set<(int, Seq<RecordedCall>)>>,
}

impl<'e> Campaign<'e> {
    pub closed spec fn entry_points(&self) -> Seq<EntryPoint> {
        self.entry_points@
    }

    /// The number of iterations planned.
    pub closed spec fn planned(&self) -> nat {
        self.iterations as nat
    }

    pub closed spec fn min_calls(&self) -> nat {
        self.min_calls as nat
    }

    pub closed spec fn max_calls(&self) -> nat {
        self.max_calls as nat
    }

    pub closed spec fn depth(&self) -> nat {
        self.max_depth as nat
    }

    /// The seed of the random stream.
    pub closed spec fn seed(&self) -> u64 {
        self.seed
    }

    pub closed spec fn iterations_run(&self) -> nat {
        self.iterations_run as nat
    }

    pub closed spec fn failures(&self) -> Seq<Failure> {
        self.failures@
    }

    /// The sequence generated in each iteration so far.
    pub closed spec fn trials(&self) -> Seq<Seq<RecordedCall>> {
        self.trials@
    }

    /// The draws made for the sequences generated so far, in order.
    pub closed spec fn draws(&self) -> Seq<Draw> {
        self.log.draws()
    }

    /// For each iteration, where the draws of its sequence begin in `draws()`.
    pub closed spec fn marks(&self) -> Seq<int> {
        self.marks@
    }

    /// Each iteration's sequence was made from draws of its own, in
    /// iteration order: its length drawn from `min_calls..=max_calls`, then
    /// each call's entry point drawn over all the entry points.
    spec fn trials_drawn(&self) -> bool {
        &&& self.marks@.len() == self.trials@.len()
        &&& forall|t: int|
            0 <= t < self.trials@.len() ==> {
                let m = #[trigger] self.marks@[t];
                &&& 0 <= m
                &&& m + 1 + self.trials@[t].len() <= self.log.draws().len()
                &&& sequence_drawn(
                    self.trials@[t],
                    self.log.draws().subrange(m, m + 1 + self.trials@[t].len()),
                    self.entry_points@,
                    self.min_calls as nat,
                    self.max_calls as nat,
                    self.max_depth as nat,
                )
            }
        &&& forall|t1: int, t2: int|
            0 <= t1 < t2 < self.trials@.len() ==> #[trigger] self.marks@[t1] + 1 + self.trials@[t1].len()
                <= #[trigger] self.marks@[t2]
    }

    /// For each failure, the iteration whose sequence it came from.
    pub closed spec fn origins(&self) -> Seq<int> {
        self.origins@
    }

    /// For each iteration whose sequence failed, the failure reported for it.
    pub closed spec fn reported(&self) -> Map<int, FailureKind> {
        self.reported@
    }

    /// The shrinking candidates reported, in the iteration given with each, to
    /// reproduce that iteration's failure.
    pub closed spec fn failing(&self) -> Set<(int, Seq<RecordedCall>)> {
        self.failing@
    }

    /// The shrinking candidates reported, in the iteration given with each, not
    /// to reproduce that iteration's failure.
    pub closed spec fn passing(&self) -> Set<(int, Seq<RecordedCall>)> {
        self.passing@
    }

    pub closed spec fn stage(&self) -> Stage {
        match self.phase {
            Phase::Exploring(_) => Stage::Exploring,
            Phase::Shrinking(shrinker, _) => Stage::Shrinking(shrinker.state()),
            Phase::Finished => Stage::Finished,
        }
    }

    /// The sequence waiting to be run, if any.
    pub closed spec fn pending_calls(&self) -> Option<Seq<RecordedCall>> {
        match self.phase {
            Phase::Exploring(calls) => Some(calls@),
            Phase::Shrinking(shrinker, _) => Some(candidate_of(shrinker.state())),
            Phase::Finished => None,
        }
    }

    /// What holds whatever the phase.
    spec fn wf_core(&self) -> bool {
        &&& self.iterations_run <= self.iterations
        &&& self.trials@.len() == self.iterations_run
        &&& self.trials_drawn()
        &&& self.iterations_run < self.iterations ==> generation_ready(
            FuzzConfig {
                iterations: self.iterations,
                min_calls_per_run: self.min_calls,
                max_calls_per_run: self.max_calls,
                max_depth: self.max_depth,
                seed: None,
            },
            self.entry_points@,
        )
        &&& forall|t: int|
            0 <= t < self.trials@.len() ==> self.min_calls <= (#[trigger] self.trials@[t]).len()
                <= self.max_calls && calls_conform(self.trials@[t], self.entry_points@, self.max_depth as nat)
        &&& self.failures@.len() <= FAILURE_LIMIT
        &&& self.origins@.len() == self.failures@.len()
        &&& forall|i: int|
            0 <= i < self.failures@.len() ==> failure_recorded(
                #[trigger] self.failures@[i],
                self.origins@[i],
                self.seed,
                self.trials@,
                self.reported@,
                self.failing@,
                self.passing@,
            )
        &&& forall|o: int|
            #[trigger] self.reported@.contains_key(o) ==> 0 <= o < self.trials@.len() && self.trials@[o].len() > 0
        &&& forall|i1: int, i2: int|
            0 <= i1 < i2 < self.origins@.len() ==> #[trigger] self.origins@[i1] < #[trigger] self.origins@[i2]
    }

    spec fn failure_ok(&self, i: int) -> bool {
        failure_recorded(
            self.failures@[i],
            self.origins@[i],
            self.seed,
            self.trials@,
            self.reported@,
            self.failing@,
            self.passing@,
        )
    }

    /// The internal invariant.
    pub closed spec fn wf(&self) -> bool {
        &&& self.wf_core()
        &&& match self.phase {
            Phase::Exploring(calls) => {
                &&& self.iterations_run > 0
                &&& calls@ == self.trials@.last()
                &&& self.failures@.len() < FAILURE_LIMIT
                &&& forall|i: int| 0 <= i < self.origins@.len() ==> #[trigger] self.origins@[i] < self.trials@.len() - 1
                &&& forall|o: int| #[trigger] self.reported@.contains_key(o) <==> self.origins@.contains(o)
            },
            Phase::Shrinking(shrinker, kind) => {
                &&& self.iterations_run > 0
                &&& shrinker.wf()
                &&& is_testing(shrinker.state())
                &&& shrinker.initial() == self.trials@.last()
                &&& forall|c: Seq<RecordedCall>|
                    #[trigger] shrinker.confirmed().contains(c) ==> self.failing@.contains((self.trials@.len() - 1, c))
                &&& forall|c: Seq<RecordedCall>|
                    #[trigger] shrinker.cleared().contains(c) ==> self.passing@.contains((self.trials@.len() - 1, c))
                &&& self.reported@.contains_key(self.trials@.len() - 1)
                &&& self.reported@[self.trials@.len() - 1] == kind
                &&& self.failures@.len() < FAILURE_LIMIT
                &&& forall|i: int| 0 <= i < self.origins@.len() ==> #[trigger] self.origins@[i] < self.trials@.len() - 1
                &&& forall|o: int|
                    #[trigger] self.reported@.contains_key(o) <==> (self.origins@.contains(o) || o == self.trials@.len() - 1)
            },
            Phase::Finished => {
                &&& self.failures@.len() == FAILURE_LIMIT || self.iterations_run == self.iterations
                &&& forall|o: int| #[trigger] self.reported@.contains_key(o) <==> self.origins@.contains(o)
            },
        }
    }

    /// Every iteration's sequence was made from draws of its own, made after
    /// those of the iterations before it: at its mark in `draws()`, its length
    /// drawn from `min_calls..=max_calls`, then, for each call, the index of
    /// its entry point drawn over all the entry points.
    pub proof fn lemma_trials_drawn(&self)
        requires
            self.wf(),
        ensures
            self.marks().len() == self.trials().len(),
            forall|t: int|
                #![trigger self.trials()[t]]
                0 <= t < self.trials().len() ==> {
                    let m = self.marks()[t];
                    let calls = self.trials()[t];
                    let picks = self.draws().subrange(m + 1, m + 1 + calls.len());
                    &&& 0 <= m && m + 1 + calls.len() <= self.draws().len()
                    &&& drew(self.draws()[m], self.min_calls() as int, self.max_calls() as int, calls.len() as int)
                    &&& forall|k: int|
                        #![trigger calls[k]]
                        #![trigger picks[k]]
                        0 <= k < calls.len() ==> (picks[k] is Range && picks[k]->Range_low == 0
                            && picks[k]->Range_high == self.entry_points().len() - 1 && calls[k].function@
                            == self.entry_points()[picks[k]->Range_value].name@)
                },
            forall|t1: int, t2: int|
                0 <= t1 < t2 < self.trials().len() ==> #[trigger] self.marks()[t1] + 1 + self.trials()[t1].len()
                    <= #[trigger] self.marks()[t2],
    {
        assert forall|t: int| #![trigger self.trials()[t]] 0 <= t < self.trials().len() implies {
            let m = self.marks()[t];
            let calls = self.trials()[t];
            let picks = self.draws().subrange(m + 1, m + 1 + calls.len());
            &&& 0 <= m && m + 1 + calls.len() <= self.draws().len()
            &&& drew(self.draws()[m], self.min_calls() as int, self.max_calls() as int, calls.len() as int)
            &&& forall|k: int|
                #![trigger calls[k]]
                #![trigger picks[k]]
                0 <= k < calls.len() ==> (picks[k] is Range && picks[k]->Range_low == 0 && picks[k]->Range_high
                    == self.entry_points().len() - 1 && calls[k].function@
                    == self.entry_points()[picks[k]->Range_value].name@)
        } by {
            let m = self.marks@[t];
            let calls = self.trials@[t];
            let sub = self.log.draws().subrange(m, m + 1 + calls.len());
            assert(self.marks@[t] == m);
            assert(sequence_drawn(
                calls,
                sub,
                self.entry_points@,
                self.min_calls as nat,
                self.max_calls as nat,
                self.max_depth as nat,
            ));
            assert(sub.skip(1) =~= self.log.draws().subrange(m + 1, m + 1 + calls.len()));
            assert(sub[0] == self.log.draws()[m]);
        }
    }

    /// Every sequence a campaign asks to run is well-typed and within the
    /// configured length: an iteration's sequence is as generated, and a
    /// shrinking candidate is that sequence with calls removed, never empty.
    pub proof fn lemma_pending_well_typed(&self)
        requires
            self.wf(),
            self.pending_calls() is Some,
        ensures
            calls_conform(self.pending_calls()->0, self.entry_points(), self.depth()),
            (self.pending_calls()->0).len() <= self.max_calls(),
            self.stage() is Exploring ==> self.pending_calls() == Some(self.trials().last()),
            self.stage() is Exploring ==> self.min_calls() <= (self.pending_calls()->0).len(),
            self.stage() is Shrinking ==> (self.pending_calls()->0).len() >= 1,
            self.stage() is Shrinking ==> is_subsequence(self.pending_calls()->0, self.trials().last()),
    {
        let last = self.trials@.len() - 1;
        assert(self.min_calls <= self.trials@[last].len() <= self.max_calls);
        match self.phase {
            Phase::Shrinking(shrinker, _) => {
                shrinker.lemma_candidate();
                let cand = candidate_of(shrinker.state());
                lemma_subsequence_conforms(cand, self.trials@[last], self.entry_points@, self.max_depth as nat);
                crate::shrink::lemma_subsequence_not_longer_than(cand, self.trials@[last]);
            },
            _ => {},
        }
    }

    /// Starts a campaign: the seed is the configured one, or a fresh random
    /// one; the first iteration's sequence is generated at once.
    pub fn start(config: &FuzzConfig, entry_points: &'e [EntryPoint]) -> (campaign: Self)
        requires
            config.iterations == 0 || generation_ready(*config, entry_points@),
        ensures
            campaign.wf(),
            campaign.entry_points() == entry_points@,
            campaign.planned() == config.iterations,
            campaign.min_calls() == config.min_calls_per_run,
            campaign.max_calls() == config.max_calls_per_run,
            campaign.depth() == config.max_depth,
            config.seed matches Some(s) ==> campaign.seed() == s,
            campaign.failures().len() == 0,
            campaign.reported() == Map::<int, FailureKind>::empty(),
            campaign.iterations_run() == if config.iterations > 0 { 1nat } else { 0nat },
            campaign.iterations_run() <= campaign.planned(),
            campaign.stage() == if config.iterations > 0 { Stage::Exploring } else { Stage::Finished },
    {
        let seed = match config.seed {
            Some(s) => s,
            None => fresh_seed(),
        };
        let mut rng = seeded_rng(seed);
        let mut campaign = Campaign {
            entry_points,
            iterations: config.iterations,
            min_calls: config.min_calls_per_run,
            max_calls: config.max_calls_per_run,
            max_depth: config.max_depth,
            seed,
            rng,
            log: DrawLog::new(),
            iterations_run: 0,
            failures: Vec::new(),
            phase: Phase::Finished,
            trials: Ghost(Seq::empty()),
            marks: Ghost(Seq::empty()),
            origins: Ghost(Seq::empty()),
            reported: Ghost(Map::empty()),
            failing: Ghost(Set::empty()),
            passing: Ghost(Set::empty()),
        };
        campaign.advance();
        campaign
    }

    /// Moves to the next iteration, generating its sequence, or finishes when
    /// all iterations have run.
    fn advance(&mut self)
        requires
            old(self).wf_core(),
            old(self).failures@.len() < FAILURE_LIMIT,
            forall|o: int| #[trigger] old(self).reported@.contains_key(o) <==> old(self).origins@.contains(o),
        ensures
            final(self).wf(),
            final(self).failures@ == old(self).failures@,
            final(self).origins@ == old(self).origins@,
            final(self).passing@ == old(self).passing@,
            final(self).entry_points@ == old(self).entry_points@,
            final(self).iterations == old(self).iterations,
            final(self).min_calls == old(self).min_calls,
            final(self).max_calls == old(self).max_calls,
            final(self).max_depth == old(self).max_depth,
            final(self).seed == old(self).seed,
            final(self).failing@ == old(self).failing@,
            final(self).reported@ == old(self).reported@,
            old(self).trials@.is_prefix_of(final(self).trials@),
            if old(self).iterations_run < old(self).iterations {
                &&& final(self).iterations_run == old(self).iterations_run + 1
                &&& final(self).phase is Exploring
            } else {
                &&& final(self).iterations_run == old(self).iterations_run
                &&& final(self).phase is Finished
            },
    {
        let ghost prev = *self;
        if self.iterations_run < self.iterations {
            self.iterations_run = self.iterations_run + 1;
            let ghost log_before = self.log.draws();
            let calls = generate_sequence_recorded(
                &mut self.rng,
                &mut self.log,
                self.entry_points,
                self.min_calls,
                self.max_calls,
                self.max_depth,
            );
            proof {
                let before = self.trials@;
                let marks_before = self.marks@;
                let log_after = self.log.draws();
                self.trials@ = self.trials@.push(calls@);
                self.marks@ = self.marks@.push(log_before.len() as int);
                assert(log_after.subrange(log_before.len() as int, log_before.len() + 1 + calls@.len() as int)
                    =~= added(log_before, log_after));
                assert forall|t: int| 0 <= t < self.trials@.len() implies {
                    let m = #[trigger] self.marks@[t];
                    &&& 0 <= m
                    &&& m + 1 + self.trials@[t].len() <= self.log.draws().len()
                    &&& sequence_drawn(
                        self.trials@[t],
                        self.log.draws().subrange(m, m + 1 + self.trials@[t].len()),
                        self.entry_points@,
                        self.min_calls as nat,
                        self.max_calls as nat,
                        self.max_depth as nat,
                    )
                } by {
                    if t < before.len() {
                        assert(self.trials@[t] == before[t]);
                        assert(self.marks@[t] == marks_before[t]);
                        let m = marks_before[t];
                        assert(log_after.subrange(m, m + 1 + before[t].len()) =~= log_before.subrange(
                            m,
                            m + 1 + before[t].len(),
                        ));
                    }
                }
                assert forall|t1: int, t2: int| 0 <= t1 < t2 < self.trials@.len() implies #[trigger] self.marks@[t1]
                    + 1 + self.trials@[t1].len() <= #[trigger] self.marks@[t2] by {
                    assert(self.trials@[t1] == before[t1]);
                    assert(self.marks@[t1] == marks_before[t1]);
                    if t2 < before.len() {
                        assert(self.trials@[t2] == before[t2]);
                        assert(self.marks@[t2] == marks_before[t2]);
                    }
                }
                assert forall|i: int| 0 <= i < self.failures@.len() implies self.failure_ok(i) by {
                    assert(prev.failure_ok(i));
                    assert(self.trials@[self.origins@[i]] == before[self.origins@[i]]);
                }
                assert forall|t: int| 0 <= t < self.trials@.len() implies self.min_calls <= (
                #[trigger] self.trials@[t]).len() <= self.max_calls && calls_conform(
                    self.trials@[t],
                    self.entry_points@,
                    self.max_depth as nat,
                ) by {
                    if t < before.len() {
                        assert(self.trials@[t] == before[t]);
                    }
                }
                assert forall|o: int| #[trigger] self.reported@.contains_key(o) implies 0 <= o
                    < self.trials@.len() && self.trials@[o].len() > 0 by {
                    assert(self.trials@[o] == before[o]);
                }
            }
            self.phase = Phase::Exploring(calls);
            proof {
                assert forall|i: int| 0 <= i < self.origins@.len() implies #[trigger] self.origins@[i]
                    < self.trials@.len() - 1 by {
                    assert(prev.failure_ok(i));
                }
            }
        } else {
            self.phase = Phase::Finished;
        }
    }

    /// Records the failure once shrinking has ended, else keeps shrinking.
    fn settle_shrinking(&mut self, shrinker: Shrinker, kind: FailureKind)
        requires
            old(self).wf_core(),
            old(self).iterations_run > 0,
            old(self).failures@.len() < FAILURE_LIMIT,
            shrinker.wf(),
            shrinker.initial() == old(self).trials@.last(),
            forall|c: Seq<RecordedCall>|
                #[trigger] shrinker.confirmed().contains(c) ==> old(self).failing@.contains(
                    (old(self).trials@.len() - 1, c),
                ),
            forall|c: Seq<RecordedCall>|
                #[trigger] shrinker.cleared().contains(c) ==> old(self).passing@.contains(
                    (old(self).trials@.len() - 1, c),
                ),
            old(self).reported@.contains_key(old(self).trials@.len() - 1),
            old(self).reported@[old(self).trials@.len() - 1] == kind,
            forall|i: int| 0 <= i < old(self).origins@.len() ==> #[trigger] old(self).origins@[i] < old(self).trials@.len() - 1,
            forall|o: int|
                #[trigger] old(self).reported@.contains_key(o) <==> (old(self).origins@.contains(o) || o
                    == old(self).trials@.len() - 1),
        ensures
            final(self).wf(),
            final(self).entry_points@ == old(self).entry_points@,
            final(self).iterations == old(self).iterations,
            final(self).seed == old(self).seed,
            final(self).failing@ == old(self).failing@,
            final(self).passing@ == old(self).passing@,
            final(self).reported@ == old(self).reported@,
            final(self).min_calls == old(self).min_calls,
            final(self).max_calls == old(self).max_calls,
            final(self).max_depth == old(self).max_depth,
            old(self).trials@.is_prefix_of(final(self).trials@),
            old(self).iterations_run <= final(self).iterations_run <= old(self).iterations_run + 1,
            old(self).failures@.is_prefix_of(final(self).failures@),
            if is_testing(shrinker.state()) {
                &&& final(self).iterations_run == old(self).iterations_run
                &&& final(self).phase matches Phase::Shrinking(s, _) && s.state() == shrinker.state()
                &&& final(self).failures@ == old(self).failures@
            } else {
                &&& final(self).failures@.len() == old(self).failures@.len() + 1
                &&& final(self).failures@.last().kind == kind
                &&& final(self).failures@.last().repro@ == shrinker.state().current
                &&& final(self).iterations_run > old(self).iterations_run || final(self).phase is Finished
            },
    {
        let ghost prev = *self;
        if shrinker.is_done() {
            let ghost state = shrinker.state();
            let ghost confirmed = shrinker.confirmed();
            let ghost cleared = shrinker.cleared();
            let ghost initial = shrinker.initial();
            let repro = shrinker.finish();
            let ghost before = self.failures@;
            self.failures.push(Failure { kind, repro, seed: self.seed });
            proof {
                let last = self.trials@.len() - 1;
                let prev_origins = self.origins@;
                self.origins@ = self.origins@.push(last);
                let n = self.failures@.len() - 1;
                assert(prev.reported@.contains_key(last));
                assert forall|i: int| 0 <= i < self.failures@.len() implies self.failure_ok(i) by {
                    if i < n {
                        assert(self.failures@[i] == before[i]);
                        assert(self.origins@[i] == prev.origins@[i]);
                        assert(prev.failure_ok(i));
                    } else {
                        assert(self.origins@[i] == last);
                        assert(self.failures@[i].repro@ == state.current);
                        if state.current != initial {
                            assert(confirmed.contains(state.current));
                        }
                        if state.current.len() > 1 {
                            assert forall|j: int| 0 <= j < state.current.len() implies self.passing@.contains(
                                (last, #[trigger] state.current.remove(j)),
                            ) by {
                                assert(cleared.contains(state.current.remove(j)));
                            }
                        }
                    }
                }
                assert forall|i1: int, i2: int| 0 <= i1 < i2 < self.origins@.len() implies #[trigger] self.origins@[i1]
                    < #[trigger] self.origins@[i2] by {
                    if i2 < n {
                        assert(self.origins@[i1] == prev_origins[i1]);
                        assert(self.origins@[i2] == prev_origins[i2]);
                    } else {
                        assert(self.origins@[i1] == prev_origins[i1]);
                    }
                }
                assert forall|o: int| #[trigger] self.reported@.contains_key(o) <==> self.origins@.contains(o) by {
                    if self.origins@.contains(o) {
                        let i = choose|i: int| 0 <= i < self.origins@.len() && self.origins@[i] == o;
                        if i < n {
                            assert(prev_origins[i] == o);
                            assert(prev_origins.contains(o));
                        }
                    }
                    if prev_origins.contains(o) {
                        let i = choose|i: int| 0 <= i < prev_origins.len() && prev_origins[i] == o;
                        assert(self.origins@[i] == o);
                    }
                    if o == last {
                        assert(self.origins@[n] == o);
                    }
                }
            }
            if self.failures.len() >= FAILURE_LIMIT {
                self.phase = Phase::Finished;
            } else {
                self.advance();
            }
        } else {
            self.phase = Phase::Shrinking(shrinker, kind);
        }
    }

    /// The sequence to run next, or `None` once the campaign has finished.
    pub fn pending(&self) -> (calls: Option<&Vec<RecordedCall>>)
        requires
            self.wf(),
        ensures
            calls is None <==> self.stage() is Finished,
            calls matches Some(c) ==> Some(c@) == self.pending_calls(),
    {
        match &self.phase {
            Phase::Exploring(calls) => Some(calls),
            Phase::Shrinking(shrinker, _) => Some(shrinker.candidate()),
            Phase::Finished => None,
        }
    }

    /// Takes the verdict of running the pending sequence (an empty sequence
    /// makes no call and so always passes). A failing iteration sequence starts
    /// shrinking, or is recorded at once when there is nothing to shrink; each
    /// shrinking verdict tells whether the candidate reproduces the recorded
    /// failure (`same_failure`) and moves the shrinker on; a finished shrink
    /// records the failure, and the campaign moves to the next iteration unless
    /// the failure limit is reached.
    pub fn observe(&mut self, verdict: Result<(), FailureKind>)
        requires
            old(self).wf(),
            !(old(self).stage() is Finished),
            old(self).pending_calls() matches Some(c) && c.len() == 0 ==> verdict is Ok,
        ensures
            final(self).wf(),
            final(self).entry_points() == old(self).entry_points(),
            final(self).planned() == old(self).planned(),
            final(self).seed() == old(self).seed(),
            old(self).trials().is_prefix_of(final(self).trials()),
            old(self).iterations_run() <= final(self).iterations_run() <= old(self).iterations_run() + 1,
            final(self).iterations_run() <= final(self).planned(),
            final(self).min_calls() == old(self).min_calls(),
            final(self).max_calls() == old(self).max_calls(),
            final(self).depth() == old(self).depth(),
            old(self).failures().is_prefix_of(final(self).failures()),
            final(self).failures().len() <= old(self).failures().len() + 1,
            !(old(self).stage() is Exploring && verdict is Err) ==> final(self).reported() == old(
                self,
            ).reported(),
            old(self).stage() is Exploring && verdict is Ok ==> final(self).failures() == old(self).failures()
                && !(final(self).stage() is Shrinking) && final(self).reported() == old(self).reported(),
            old(self).stage() is Exploring ==> (verdict matches Result::Err(kind) ==> {
                &&& final(self).reported() == old(self).reported().insert(old(self).trials().len() - 1, kind)
                &&& final(self).stage() is Shrinking && final(self).failures() == old(self).failures() || (
                final(self).failures().len() == old(self).failures().len() + 1 && final(self).failures().last().kind
                    == kind)
            }),
            old(self).stage() matches Stage::Shrinking(s) ==> {
                let o = old(self).trials().len() - 1;
                if verdict matches Result::Err(found) && same_failure(found, old(self).reported()[o]) {
                    &&& final(self).failing() == old(self).failing().insert((o, candidate_of(s)))
                    &&& final(self).passing() == old(self).passing()
                } else {
                    &&& final(self).failing() == old(self).failing()
                    &&& final(self).passing() == old(self).passing().insert((o, candidate_of(s)))
                }
            },
            ({
                ||| final(self).stage() is Finished
                ||| final(self).iterations_run() > old(self).iterations_run()
                ||| old(self).stage() is Exploring && final(self).stage() is Shrinking
                ||| old(self).stage() matches Stage::Shrinking(a) && final(self).stage() matches Stage::Shrinking(b)
                    && closer_to_done(a, b)
            }),
    {
        let ghost prev = *self;
        let mut phase = Phase::Finished;
        core::mem::swap(&mut phase, &mut self.phase);
        proof {
            assert forall|i: int| 0 <= i < self.failures@.len() implies self.failure_ok(i) by {
                assert(prev.failure_ok(i));
            }
        }
        match phase {
            Phase::Exploring(calls) => {
                match verdict {
                    Result::Ok(()) => {
                        self.advance();
                    },
                    Result::Err(kind) => {
                        proof {
                            let last = self.trials@.len() - 1;
                            let before = self.reported@;
                            self.reported@ = self.reported@.insert(last, kind);
                            assert forall|i: int| 0 <= i < self.failures@.len() implies self.failure_ok(i) by {
                                assert(prev.failure_ok(i));
                                assert(self.origins@[i] != last);
                                assert(self.reported@[self.origins@[i]] == before[self.origins@[i]]);
                            }
                            assert forall|o: int| #[trigger] self.reported@.contains_key(o) implies 0 <= o
                                < self.trials@.len() && self.trials@[o].len() > 0 by {
                                if o != last {
                                    assert(before.contains_key(o));
                                }
                            }
                        }
                        let shrinker = Shrinker::new(calls);
                        self.settle_shrinking(shrinker, kind);
                    },
                }
            },
            Phase::Shrinking(shrinker, kind) => {
                let mut shrinker = shrinker;
                let ghost cand = candidate_of(shrinker.state());
                let ghost last = self.trials@.len() - 1;
                let same = reproduces(&verdict, &kind);
                shrinker.observe(same);
                proof {
                    if same {
                        self.failing@ = self.failing@.insert((last, cand));
                    } else {
                        self.passing@ = self.passing@.insert((last, cand));
                    }
                    assert forall|i: int| 0 <= i < self.failures@.len() implies self.failure_ok(i) by {
                        assert(prev.failure_ok(i));
                    }
                }
                self.settle_shrinking(shrinker, kind);
            },
            Phase::Finished => {},
        }
    }

    /// The report of a finished campaign. At most `FAILURE_LIMIT` failures,
    /// and every planned iteration ran unless the limit was reached. The
    /// failures correspond one to one, in order, to the iterations whose
    /// sequence was reported to fail, so there are no more of them than
    /// iterations run. Each carries the campaign's seed and the failure
    /// reported for its iteration, and its reproduction is that iteration's
    /// sequence with calls removed: never empty, well-typed, the sequence
    /// itself or a candidate reported to reproduce the failure, and, when more
    /// than one call is left, one from which removing any single call was
    /// reported not to reproduce it.
    pub fn finish(self) -> (report: FuzzReport)
        requires
            self.wf(),
            self.stage() is Finished,
        ensures
            report.iterations_run == self.iterations_run(),
            report.failures@ == self.failures(),
            report.iterations_run <= self.planned(),
            report.failures@.len() <= FAILURE_LIMIT,
            report.failures@.len() <= report.iterations_run,
            report.failures@.len() < FAILURE_LIMIT ==> report.iterations_run == self.planned(),
            self.origins().len() == report.failures@.len(),
            forall|i1: int, i2: int|
                0 <= i1 < i2 < self.origins().len() ==> #[trigger] self.origins()[i1]
                    < #[trigger] self.origins()[i2],
            forall|o: int| #[trigger] self.reported().contains_key(o) <==> self.origins().contains(o),
            self.reported() == Map::<int, FailureKind>::empty() ==> report.failures@.len() == 0
                && report.iterations_run == self.planned(),
            forall|i: int| 0 <= i < report.failures@.len() ==> {
                let f = #[trigger] report.failures@[i];
                let o = self.origins()[i];
                &&& f.seed == self.seed()
                &&& 0 <= o < self.trials().len()
                &&& self.reported()[o] == f.kind
                &&& is_subsequence(f.repro@, self.trials()[o])
                &&& f.repro@ == self.trials()[o] || self.failing().contains((o, f.repro@))
                &&& f.repro@.len() > 1 ==> forall|j: int|
                    0 <= j < f.repro@.len() ==> self.passing().contains((o, #[trigger] f.repro@.remove(j)))
                &&& calls_conform(f.repro@, self.entry_points(), self.depth())
                &&& 0 < f.repro@.len() <= self.max_calls()
            },
    {
        proof {
            assert forall|i: int| 0 <= i < self.failures@.len() implies {
                let f = #[trigger] self.failures@[i];
                let o = self.origins@[i];
                &&& f.seed == self.seed
                &&& 0 <= o < self.trials@.len()
                &&& self.reported@[o] == f.kind
                &&& is_subsequence(f.repro@, self.trials@[o])
                &&& f.repro@ == self.trials@[o] || self.failing@.contains((o, f.repro@))
                &&& f.repro@.len() > 1 ==> forall|j: int|
                    0 <= j < f.repro@.len() ==> self.passing@.contains((o, #[trigger] f.repro@.remove(j)))
                &&& calls_conform(f.repro@, self.entry_points@, self.max_depth as nat)
                &&& 0 < f.repro@.len() <= self.max_calls
            } by {
                assert(self.failure_ok(i));
                let o = self.origins@[i];
                assert(self.min_calls <= self.trials@[o].len() <= self.max_calls);
                lemma_subsequence_conforms(
                    self.failures@[i].repro@,
                    self.trials@[o],
                    self.entry_points@,
                    self.max_depth as nat,
                );
            }
            if self.origins@.len() > 0 {
                assert(self.origins@.contains(self.origins@[0]));
                assert(self.reported@.contains_key(self.origins@[0]));
                assert forall|k: int| 0 <= k < self.origins@.len() implies 0 <= #[trigger] self.origins@[k]
                    < self.trials@.len() by {
                    assert(self.failure_ok(k));
                }
                crate::shrink::lemma_positions_bounded(self.origins@, self.trials@.len() as int);
            }
        }
        FuzzReport { iterations_run: self.iterations_run, failures: self.failures }
    }
}

impl<'a, C: FuzzContract> FuzzRunner<'a, C> {
    /// Starts a campaign with this runner's configuration over `entry_points`.
    pub fn campaign<'e>(&self, entry_points: &'e [EntryPoint]) -> (campaign: Campaign<'e>)
        requires
            self.config().iterations == 0 || generation_ready(self.config(), entry_points@),
        ensures
            campaign.wf(),
            campaign.entry_points() == entry_points@,
            campaign.planned() == self.config().iterations,
            campaign.min_calls() == self.config().min_calls_per_run,
            campaign.max_calls() == self.config().max_calls_per_run,
            campaign.depth() == self.config().max_depth,
            self.config().seed matches Some(s) ==> campaign.seed() == s,
            campaign.failures().len() == 0,
            campaign.reported() == Map::<int, FailureKind>::empty(),
            campaign.iterations_run() <= campaign.planned(),
            campaign.stage() is Exploring || campaign.stage() is Finished,
    {
        Campaign::start(self.settings(), entry_points)
    }

    /// Runs a whole campaign over `entry_points`, with `execute` running each
    /// sequence the campaign asks for against a fresh contract instance and
    /// giving its verdict (an empty sequence makes no call, so it passes
    /// without being run). The report is the campaign's (see
    /// `Campaign::finish`). When no well-typed sequence over the entry
    /// points fails, there are no findings: the report is clean and every
    /// planned iteration ran.
    pub fn run<F: Fn(&Vec<RecordedCall>) -> Result<(), FailureKind>>(
        &self,
        entry_points: &[EntryPoint],
        execute: F,
    ) -> (report: FuzzReport)
        requires
            self.config().iterations == 0 || generation_ready(self.config(), entry_points@),
            forall|calls: &Vec<RecordedCall>| call_requires(execute, (calls,)),
        ensures
            report.iterations_run <= self.config().iterations,
            report.failures@.len() <= FAILURE_LIMIT,
            report.failures@.len() <= report.iterations_run,
            report.failures@.len() < FAILURE_LIMIT ==> report.iterations_run == self.config().iterations,
            forall|i: int| 0 <= i < report.failures@.len() ==> {
                let f = #[trigger] report.failures@[i];
                &&& calls_conform(f.repro@, entry_points@, self.config().max_depth as nat)
                &&& 0 < f.repro@.len() <= self.config().max_calls_per_run
                &&& self.config().seed matches Some(seed) ==> f.seed == seed
            },
            (forall|calls: &Vec<RecordedCall>, verdict: Result<(), FailureKind>|
                calls_conform(calls@, entry_points@, self.config().max_depth as nat) && call_ensures(
                    execute,
                    (calls,),
                    verdict,
                ) ==> verdict is Ok) ==> report.failures@.len() == 0 && report.iterations_run
                == self.config().iterations,
    {
        let ghost clean = forall|calls: &Vec<RecordedCall>, verdict: Result<(), FailureKind>|
            calls_conform(calls@, entry_points@, self.config().max_depth as nat) && call_ensures(
                execute,
                (calls,),
                verdict,
            ) ==> verdict is Ok;
        let mut campaign = self.campaign(entry_points);
        loop
            invariant
                campaign.wf(),
                campaign.entry_points() == entry_points@,
                campaign.planned() == self.config().iterations,
                campaign.max_calls() == self.config().max_calls_per_run,
                campaign.depth() == self.config().max_depth,
                self.config().seed matches Some(seed) ==> campaign.seed() == seed,
                campaign.iterations_run() <= campaign.planned(),
                forall|calls: &Vec<RecordedCall>| call_requires(execute, (calls,)),
                clean == (forall|calls: &Vec<RecordedCall>, verdict: Result<(), FailureKind>|
                    calls_conform(calls@, entry_points@, self.config().max_depth as nat)
                        && call_ensures(execute, (calls,), verdict) ==> verdict is Ok),
                clean ==> campaign.reported() == Map::<int, FailureKind>::empty() && !(
                campaign.stage() is Shrinking),
            ensures
                campaign.stage() is Finished,
            decreases
                campaign.planned() - campaign.iterations_run(),
                stage_rank(campaign.stage()),
                shrink_length(campaign.stage()),
                shrink_work(campaign.stage()),
        {
            let verdict = match campaign.pending() {
                Some(calls) => {
                    proof {
                        campaign.lemma_pending_well_typed();
                    }
                    if calls.len() == 0 {
                        Result::Ok(())
                    } else {
                        execute(calls)
                    }
                },
                None => break,
            };
            campaign.observe(verdict);
        }
        campaign.finish()
    }
}

/// How far a stage is from the end of the current iteration: exploring,
/// then shrinking, then finished.
spec fn stage_rank(stage: Stage) -> int {
    match stage {
        Stage::Exploring => 2,
        Stage::Shrinking(_) => 1,
        Stage::Finished => 0,
    }
}

/// The length of the sequence being shrunk, if any.
spec fn shrink_length(stage: Stage) -> int {
    match stage {
        Stage::Shrinking(s) => s.current.len() as int,
        _ => 0,
    }
}

/// The work left in the shrinking pass, if any.
spec fn shrink_work(stage: Stage) -> int {
    match stage {
        Stage::Shrinking(s) => crate::shrink::shrink_rank(s),
        _ => 0,
    }
}

} // verus!
