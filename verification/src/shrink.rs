//! Shrinking of a failing call sequence: calls are removed one at a time
//! while the failure still reproduces, in passes over the sequence, until a
//! whole pass removes nothing (or one call is left).
//!
//! Whether a candidate still fails is decided by running it, which the caller
//! does: `Shrinker::candidate` is the sequence to run, `Shrinker::observe`
//! takes whether it reproduced the failure.
use vstd::prelude::*;
use crate::runner::RecordedCall;

verus! {

/// Where a shrinking pass stands: the current sequence, the position of the
/// call to try removing next, and whether the current pass removed anything.
pub struct ShrinkState {
    pub current: Seq<RecordedCall>,
    pub index: int,
    pub changed: bool,
}

/// Moves past positions where nothing can be tried: a removal that would
/// leave the sequence empty is skipped, and at the end of a pass a new pass
/// starts if the last one removed something and more than one call is left.
pub open spec fn settle(s: ShrinkState) -> ShrinkState
    decreases (if s.changed { s.current.len() + 1 } else { 0 }) + s.current.len() - s.index,
    when 0 <= s.index <= s.current.len()
{
    if s.index < s.current.len() {
        if s.current.len() == 1 {
            settle(ShrinkState { current: s.current, index: s.index + 1, changed: s.changed })
        } else {
            s
        }
    } else if s.changed && s.current.len() > 1 {
        settle(ShrinkState { current: s.current, index: 0, changed: false })
    } else {
        s
    }
}

/// A settled state is waiting for the verdict on a candidate.
pub open spec fn is_testing(s: ShrinkState) -> bool {
    s.index < s.current.len()
}

/// The candidate under test: the current sequence without the call at `index`.
pub open spec fn candidate_of(s: ShrinkState) -> Seq<RecordedCall> {
    s.current.remove(s.index)
}

/// The state after the verdict on the candidate: a candidate that still
/// fails replaces the current sequence (and the position stays); otherwise
/// the position moves on.
pub open spec fn apply_verdict(s: ShrinkState, reproduces: bool) -> ShrinkState {
    if reproduces {
        ShrinkState { current: s.current.remove(s.index), index: s.index, changed: true }
    } else {
        ShrinkState { current: s.current, index: s.index + 1, changed: s.changed }
    }
}

/// The state in which shrinking of `calls` starts.
pub open spec fn start_state(calls: Seq<RecordedCall>) -> ShrinkState {
    settle(ShrinkState { current: calls, index: calls.len() as int, changed: true })
}

/// Work left in the current pass, and in a further pass if one is due.
pub open spec fn shrink_rank(s: ShrinkState) -> int {
    (if s.changed { s.current.len() + 1 } else { 0 }) + s.current.len() - s.index
}

/// An upper bound on the verdicts still to take: the rest of the current
/// pass, and, for a sequence of `n` calls, `n * n` more if the pass has
/// removed a call (a new pass is then due) or `n * (n - 1)` if not.
pub open spec fn shrink_budget(s: ShrinkState) -> int {
    let n = s.current.len() as int;
    (n - s.index) + if s.changed { n * n } else { n * (n - 1) }
}

/// Each verdict uses up at least one unit of the budget, which never goes
/// below zero.
pub proof fn lemma_verdict_spends_budget(s: ShrinkState, reproduces: bool)
    requires
        0 <= s.index < s.current.len(),
    ensures
        0 <= shrink_budget(apply_verdict(s, reproduces)) < shrink_budget(s),
{
    let n = s.current.len() as int;
    let i = s.index;
    assert(n * n == n + n * (n - 1)) by (nonlinear_arith);
    assert((n - 1) * (n - 1) == n * (n - 1) - (n - 1)) by (nonlinear_arith);
    assert(0 <= (n - 1) * (n - 1)) by (nonlinear_arith);
    assert(0 <= n * (n - 1)) by (nonlinear_arith)
        requires
            n >= 1,
    ;
}

/// `after` is strictly closer to the end than `before`: shorter, or as long
/// with less work left.
pub open spec fn closer_to_done(before: ShrinkState, after: ShrinkState) -> bool {
    ||| after.current.len() < before.current.len()
    ||| (after.current.len() == before.current.len() && 0 <= shrink_rank(after) < shrink_rank(before))
}

/// `positions` picks, in increasing order, the elements of `whole` that make up `part`.
pub open spec fn embeds(positions: Seq<int>, part: Seq<RecordedCall>, whole: Seq<RecordedCall>) -> bool {
    &&& positions.len() == part.len()
    &&& forall|k: int|
        0 <= k < positions.len() ==> 0 <= #[trigger] positions[k] < whole.len() && part[k] == whole[positions[k]]
    &&& forall|k1: int, k2: int|
        0 <= k1 < k2 < positions.len() ==> #[trigger] positions[k1] < #[trigger] positions[k2]
}

/// `part` is `whole` with some elements removed, the rest in their order.
pub open spec fn is_subsequence(part: Seq<RecordedCall>, whole: Seq<RecordedCall>) -> bool {
    exists|positions: Seq<int>| embeds(positions, part, whole)
}

/// Settling only moves the position and the pass flag, never the sequence,
/// never backwards in the work left, and ends in a settled state.
pub proof fn lemma_settle(s: ShrinkState)
    requires
        0 <= s.index <= s.current.len(),
    ensures
        settle(s).current == s.current,
        0 <= settle(s).index <= settle(s).current.len(),
        settle(settle(s)) == settle(s),
        shrink_rank(settle(s)) <= shrink_rank(s),
        is_testing(settle(s)) ==> settle(s).current.len() >= 2,
        !is_testing(settle(s)) ==> !settle(s).changed || settle(s).current.len() <= 1,
        !s.changed ==> !settle(s).changed && settle(s).index >= s.index,
        s.changed && !settle(s).changed ==> settle(s).index == 0,
        !s.changed && s.current.len() > 1 ==> settle(s) == s,
        0 <= shrink_budget(settle(s)) <= shrink_budget(s),
    decreases shrink_rank(s),
{
    let n = s.current.len() as int;
    assert(n * n == n + n * (n - 1)) by (nonlinear_arith);
    assert(0 <= n * (n - 1)) by (nonlinear_arith)
        requires
            n >= 0,
    ;
    if s.index < s.current.len() {
        if s.current.len() == 1 {
            lemma_settle(ShrinkState { current: s.current, index: s.index + 1, changed: s.changed });
        }
    } else if s.changed && s.current.len() > 1 {
        lemma_settle(ShrinkState { current: s.current, index: 0, changed: false });
    }
}

/// Removing the element at position `i` of an embedded subsequence keeps it embedded.
proof fn lemma_embeds_remove(positions: Seq<int>, part: Seq<RecordedCall>, whole: Seq<RecordedCall>, i: int)
    requires
        embeds(positions, part, whole),
        0 <= i < part.len(),
    ensures
        embeds(positions.remove(i), part.remove(i), whole),
{
    let p = positions.remove(i);
    let q = part.remove(i);
    assert forall|k: int| 0 <= k < p.len() implies 0 <= #[trigger] p[k] < whole.len() && q[k] == whole[p[k]] by {
        if k < i {
            assert(p[k] == positions[k]);
        } else {
            assert(p[k] == positions[k + 1]);
        }
    }
    assert forall|k1: int, k2: int| 0 <= k1 < k2 < p.len() implies #[trigger] p[k1] < #[trigger] p[k2] by {
        let a = if k1 < i { k1 } else { k1 + 1 };
        let b = if k2 < i { k2 } else { k2 + 1 };
        assert(p[k1] == positions[a]);
        assert(p[k2] == positions[b]);
        assert(positions[a] < positions[b]);
    }
}

/// Shrinks one failing call sequence.
pub struct Shrinker {
    /// The current sequence; while a candidate is under test, the candidate.
    calls: Vec<RecordedCall>,
    /// While a candidate is under test, the call taken out of the current
    /// sequence at `index`.
    held: Option<RecordedCall>,
    index: usize,
    changed: bool,
    initial: Ghost<Seq<RecordedCall>>,
    kept: Ghost<Seq<int>>,
    confirmed: Ghost<Set<Seq<RecordedCall>>>,
    cleared: Ghost<Set<Seq<RecordedCall>>>,
    tests: Ghost<nat>,
}

impl Shrinker {
    spec fn current_calls(&self) -> Seq<RecordedCall> {
        match self.held {
            Some(call) => self.calls@.insert(self.index as int, call),
            None => self.calls@,
        }
    }

    /// The abstract state of the pass.
    pub closed spec fn state(&self) -> ShrinkState {
        ShrinkState { current: self.current_calls(), index: self.index as int, changed: self.changed }
    }

    /// The sequence shrinking started from.
    pub closed spec fn initial(&self) -> Seq<RecordedCall> {
        self.initial@
    }

    /// The candidates reported to reproduce the failure.
    pub closed spec fn confirmed(&self) -> Set<Seq<RecordedCall>> {
        self.confirmed@
    }

    /// The candidates reported not to reproduce it.
    pub closed spec fn cleared(&self) -> Set<Seq<RecordedCall>> {
        self.cleared@
    }

    /// The number of verdicts taken so far, one per candidate run.
    pub closed spec fn tests(&self) -> nat {
        self.tests@
    }

    /// The internal invariant: the state is settled; the current sequence is
    /// the starting sequence with calls removed, never emptied, and either
    /// the starting sequence or a sequence reported to fail; and in a pass that has
    /// removed nothing yet, every removal tried so far was reported not to fail.
    pub closed spec fn wf(&self) -> bool {
        let s = self.state();
        &&& self.index <= self.calls@.len()
        &&& 0 <= s.index <= s.current.len()
        &&& settle(s) == s
        &&& (self.held is Some <==> is_testing(s))
        &&& is_testing(s) ==> s.current.len() >= 2
        &&& !is_testing(s) ==> !s.changed || s.current.len() <= 1
        &&& embeds(self.kept@, s.current, self.initial@)
        &&& self.tests@ + shrink_budget(s) <= self.initial@.len() * self.initial@.len()
        &&& self.initial@.len() > 0 ==> s.current.len() > 0
        &&& s.current == self.initial@ || self.confirmed@.contains(s.current)
        &&& (!s.changed && s.current.len() > 1) ==> forall|j: int|
            0 <= j < s.index ==> self.cleared@.contains(#[trigger] s.current.remove(j))
    }

    /// Where the settled position for a sequence of length `len` lies,
    /// starting from `index` with pass flag `changed`.
    fn settle_position(Ghost(calls): Ghost<Seq<RecordedCall>>, len: usize, index: usize, changed: bool) -> (r: (
        usize,
        bool,
    ))
        requires
            calls.len() == len,
            index <= len,
        ensures
            settle(ShrinkState { current: calls, index: index as int, changed })
                == (ShrinkState { current: calls, index: r.0 as int, changed: r.1 }),
    {
        let mut i = index;
        let mut ch = changed;
        loop
            invariant
                i <= len,
                calls.len() == len,
                settle(ShrinkState { current: calls, index: index as int, changed }) == settle(
                    ShrinkState { current: calls, index: i as int, changed: ch },
                ),
            ensures
                settle(ShrinkState { current: calls, index: index as int, changed })
                    == (ShrinkState { current: calls, index: i as int, changed: ch }),
            decreases (if ch { len + 1 } else { 0 }) + len - i,
        {
            if i < len {
                if len == 1 {
                    i = i + 1;
                } else {
                    break ;
                }
            } else if ch && len > 1 {
                ch = false;
                i = 0;
            } else {
                break ;
            }
        }
        (i, ch)
    }

    /// Begins shrinking `calls`.
    pub fn new(calls: Vec<RecordedCall>) -> (shrinker: Self)
        ensures
            shrinker.wf(),
            shrinker.state() == start_state(calls@),
            shrinker.initial() == calls@,
            shrinker.confirmed() == Set::<Seq<RecordedCall>>::empty(),
            shrinker.cleared() == Set::<Seq<RecordedCall>>::empty(),
            shrinker.tests() == 0,
    {
        let ghost start = ShrinkState { current: calls@, index: calls@.len() as int, changed: true };
        proof {
            lemma_settle(start);
        }
        let len = calls.len();
        let (index, changed) = Self::settle_position(Ghost(calls@), len, len, true);
        let ghost positions = Seq::new(calls@.len(), |k: int| k);
        let mut calls = calls;
        let ghost whole = calls@;
        let held = if index < len {
            Some(calls.remove(index))
        } else {
            None
        };
        let shrinker = Shrinker {
            calls,
            held,
            index,
            changed,
            initial: Ghost(whole),
            kept: Ghost(positions),
            confirmed: Ghost(Set::empty()),
            cleared: Ghost(Set::empty()),
            tests: Ghost(0),
        };
        proof {
            if index < len {
                assert(shrinker.current_calls() =~= whole);
            } else {
                assert(shrinker.current_calls() =~= whole);
            }
            assert(embeds(positions, whole, whole));
        }
        shrinker
    }

    /// Whether shrinking has ended.
    pub fn is_done(&self) -> (done: bool)
        requires
            self.wf(),
        ensures
            done == !is_testing(self.state()),
    {
        self.held.is_none()
    }

    /// Every candidate is the starting sequence with calls removed, and never empty.
    pub proof fn lemma_candidate(&self)
        requires
            self.wf(),
            is_testing(self.state()),
        ensures
            is_subsequence(candidate_of(self.state()), self.initial()),
            candidate_of(self.state()).len() >= 1,
            candidate_of(self.state()).len() + 1 == self.state().current.len(),
    {
        let s = self.state();
        lemma_embeds_remove(self.kept@, s.current, self.initial@, s.index);
    }

    /// The candidate to run next: the starting sequence with calls removed, never empty.
    pub fn candidate(&self) -> (calls: &Vec<RecordedCall>)
        requires
            self.wf(),
            is_testing(self.state()),
        ensures
            calls@ == candidate_of(self.state()),
            calls@.len() >= 1,
            is_subsequence(calls@, self.initial()),
    {
        proof {
            self.lemma_candidate();
            if self.held is Some {
                let call = self.held->0;
                assert(self.calls@.insert(self.index as int, call).remove(self.index as int) =~= self.calls@);
            }
        }
        &self.calls
    }

    /// Takes the verdict on the candidate: whether running it reproduced the
    /// failure. The state moves to the next candidate, or to the end.
    pub fn observe(&mut self, reproduces: bool)
        requires
            old(self).wf(),
            is_testing(old(self).state()),
        ensures
            final(self).wf(),
            final(self).state() == settle(apply_verdict(old(self).state(), reproduces)),
            final(self).initial() == old(self).initial(),
            final(self).confirmed() == if reproduces {
                old(self).confirmed().insert(candidate_of(old(self).state()))
            } else {
                old(self).confirmed()
            },
            final(self).cleared() == if reproduces {
                old(self).cleared()
            } else {
                old(self).cleared().insert(candidate_of(old(self).state()))
            },
            closer_to_done(old(self).state(), final(self).state()),
            final(self).tests() == old(self).tests() + 1,
            final(self).tests() <= final(self).initial().len() * final(self).initial().len(),
    {
        let ghost s = self.state();
        let ghost cand = candidate_of(s);
        let ghost a = apply_verdict(s, reproduces);
        proof {
            if self.held is Some {
                let call = self.held->0;
                assert(self.calls@.insert(self.index as int, call).remove(self.index as int) =~= self.calls@);
            }
            assert(self.calls@ == cand);
            lemma_settle(a);
            lemma_verdict_spends_budget(s, reproduces);
            self.tests@ = self.tests@ + 1;
        }
        let held = self.held.take();
        let (index, changed) = if reproduces {
            proof {
                lemma_embeds_remove(self.kept@, s.current, self.initial@, s.index);
                self.kept@ = self.kept@.remove(s.index);
                self.confirmed@ = self.confirmed@.insert(cand);
            }
            let len = self.calls.len();
            Self::settle_position(Ghost(self.calls@), len, self.index, true)
        } else {
            match held {
                Some(call) => {
                    self.calls.insert(self.index, call);
                },
                None => {},
            }
            proof {
                assert(self.calls@ =~= s.current);
                self.cleared@ = self.cleared@.insert(cand);
            }
            let len = self.calls.len();
            Self::settle_position(Ghost(self.calls@), len, self.index + 1, self.changed)
        };
        self.index = index;
        self.changed = changed;
        let ghost settled = self.state();
        if index < self.calls.len() {
            let call = self.calls.remove(index);
            self.held = Some(call);
            proof {
                assert(self.current_calls() =~= settled.current);
            }
        }
        proof {
            assert(self.state() == settle(a));
            let t = self.state();
            if !t.changed && t.current.len() > 1 && t.index > 0 {
                assert(!reproduces && !s.changed);
                assert(t == a);
                assert forall|j: int| 0 <= j < t.index implies self.cleared@.contains(
                    #[trigger] t.current.remove(j),
                ) by {
                    if j == s.index {
                        assert(t.current.remove(j) == cand);
                    } else {
                        assert(old(self).cleared@.contains(s.current.remove(j)));
                    }
                }
            }
        }
    }

    /// The shrunk sequence. It is the starting sequence with calls removed,
    /// in their order; it is empty only if the starting sequence was; it is the
    /// starting sequence or a sequence reported to fail; and if more than one call is left, removing
    /// any single call was reported not to fail.
    pub fn finish(self) -> (calls: Vec<RecordedCall>)
        requires
            self.wf(),
            !is_testing(self.state()),
        ensures
            calls@ == self.state().current,
            is_subsequence(calls@, self.initial()),
            self.initial().len() > 0 ==> calls@.len() > 0,
            calls@.len() <= self.initial().len(),
            calls@ == self.initial() || self.confirmed().contains(calls@),
            calls@.len() > 1 ==> forall|j: int|
                0 <= j < calls@.len() ==> self.cleared().contains(#[trigger] calls@.remove(j)),
            self.tests() <= self.initial().len() * self.initial().len(),
    {
        proof {
            let s = self.state();
            lemma_settle(s);
            assert(embeds(self.kept@, s.current, self.initial@));
            lemma_subsequence_not_longer(self.kept@, s.current, self.initial@);
        }
        self.calls
    }
}

/// A subsequence is no longer than the whole.
pub proof fn lemma_subsequence_not_longer_than(part: Seq<RecordedCall>, whole: Seq<RecordedCall>)
    requires
        is_subsequence(part, whole),
    ensures
        part.len() <= whole.len(),
{
    let positions = choose|positions: Seq<int>| embeds(positions, part, whole);
    lemma_subsequence_not_longer(positions, part, whole);
}

/// An embedded subsequence is no longer than the whole.
proof fn lemma_subsequence_not_longer(positions: Seq<int>, part: Seq<RecordedCall>, whole: Seq<RecordedCall>)
    requires
        embeds(positions, part, whole),
    ensures
        part.len() <= whole.len(),
{
    if part.len() > 0 {
        lemma_positions_bounded(positions, whole.len() as int);
    }
}

/// Strictly increasing positions below `bound` are at least `k` past the first one.
pub proof fn lemma_positions_bounded(positions: Seq<int>, bound: int)
    requires
        positions.len() > 0,
        forall|k: int| 0 <= k < positions.len() ==> 0 <= #[trigger] positions[k] < bound,
        forall|k1: int, k2: int| 0 <= k1 < k2 < positions.len() ==> #[trigger] positions[k1] < #[trigger] positions[k2],
    ensures
        positions.len() <= bound,
    decreases positions.len(),
{
    let n = positions.len();
    assert(0 <= positions[n - 1] < bound);
    if n > 1 {
        let rest = positions.drop_last();
        assert forall|k: int| 0 <= k < rest.len() implies 0 <= #[trigger] rest[k] < positions[n - 1] by {
            assert(rest[k] == positions[k]);
            assert(positions[k] < positions[n - 1]);
        }
        assert forall|k1: int, k2: int| 0 <= k1 < k2 < rest.len() implies #[trigger] rest[k1] < #[trigger] rest[k2] by {
            assert(rest[k1] == positions[k1]);
            assert(rest[k2] == positions[k2]);
            assert(positions[k1] < positions[k2]);
        }
        lemma_positions_bounded(rest, positions[n - 1]);
    }
}

} // verus!
