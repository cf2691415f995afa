//! What holds of a whole run, step after step.
//!
//! A `Trace` records a run: the progress before each step and after the
//! last, and the event and the action of each step. The law of this module
//! is about lenient runs in which nothing but the segmenter ever fails.

use crate::pipeline::{follows, points_for, rising_below, Action, Event, Mode, Phase, Progress};
use crate::segment::{delimiter, split_on};
use vstd::prelude::*;

verus! {

/// The record of a run of `events.len()` steps.
pub struct Trace<V> {
    /// The progress before each step, and after the last.
    pub states: Seq<Progress>,
    /// What each step was handed.
    pub events: Seq<Event<V>>,
    /// What each step answered.
    pub actions: Seq<Action<V>>,
    /// The identifiers given out before each step, and after the last.
    pub known: Seq<Set<u64>>,
}

/// Whether `p` is the progress of a run that has not started.
pub open spec fn fresh(p: Progress) -> bool {
    &&& p.phase == Phase::Ready
    &&& p.current == 0
    &&& p.pending == 0
    &&& p.uploaded == 0
    &&& p.stored == 0
    &&& p.skipped.len() == 0
}

/// Whether `event` is what comes back for `action` where nothing but the
/// segmenter fails: a reply or a failure of the segmenter; as many vectors
/// as there are segments, their identifiers still within what can be
/// remembered; the confirmation of the store. Nothing comes back for the end
/// of a run.
pub open spec fn answers<V>(
    action: Action<V>,
    event: Event<V>,
    segments: Seq<Seq<char>>,
    known: Set<u64>,
) -> bool {
    match action {
        Action::Segment { .. } => event is Segmented || event is SegmenterFailed,
        Action::Embed { .. } => event matches Event::Embedded(vectors) && vectors@.len()
            == segments.len() && known.len() + vectors@.len() <= usize::MAX,
        Action::Upsert { .. } => event is Stored,
        Action::Finish { .. } => false,
        Action::Abort { .. } => false,
    }
}

/// Whether the phase of `p` is the one in which the answer to `action` is
/// awaited.
pub open spec fn awaits<V>(p: Progress, action: Action<V>) -> bool {
    match action {
        Action::Segment { chunk, .. } => p.phase == Phase::Segmenting && chunk == p.current,
        Action::Embed { chunk, .. } => p.phase == Phase::Embedding && chunk == p.current,
        Action::Upsert { chunk, points } => p.phase == Phase::Storing && chunk == p.current
            && p.pending == points@.len(),
        Action::Finish { uploaded, skipped } => p.phase == Phase::Finished && uploaded
            == p.uploaded && skipped@ == p.skipped,
        Action::Abort { .. } => false,
    }
}

impl<V> Trace<V> {
    /// How many steps the run has made.
    pub open spec fn steps(self) -> int {
        self.events.len() as int
    }

    /// Whether step `k` is a step of a run over `chunks` in mode `mode`.
    pub open spec fn step_follows(self, chunks: Seq<Seq<char>>, mode: Mode, k: int) -> bool {
        follows(
            chunks,
            mode,
            self.known[k],
            self.states[k],
            self.events[k],
            self.states[k + 1],
            self.actions[k],
            self.known[k + 1],
        )
    }

    /// Whether this is the record of a run over `chunks` in mode `mode` from
    /// its start.
    pub open spec fn of_run(self, chunks: Seq<Seq<char>>, mode: Mode) -> bool {
        &&& self.states.len() == self.steps() + 1
        &&& self.known.len() == self.steps() + 1
        &&& self.actions.len() == self.steps()
        &&& fresh(self.states[0])
        &&& forall|k: int| 0 <= k < self.steps() ==> #[trigger] self.step_follows(chunks, mode, k)
    }

    /// Whether step `k` was handed what a driver brings where nothing but the
    /// segmenter fails: the start at first, then the answer to the action
    /// before.
    pub open spec fn step_answers(self, k: int) -> bool {
        if k == 0 {
            self.events[0] is Begin
        } else {
            answers(self.actions[k - 1], self.events[k], self.states[k].segments, self.known[k])
        }
    }

    /// Whether nothing but the segmenter fails in this run.
    pub open spec fn calm(self) -> bool {
        forall|k: int| 0 <= k < self.steps() ==> #[trigger] self.step_answers(k)
    }

    /// The chunks on which the segmenter failed during the first `k` steps,
    /// in the order of the failures.
    pub open spec fn failed_chunks(self, k: int) -> Seq<usize>
        decreases k,
    {
        if k <= 0 {
            Seq::empty()
        } else if self.events[k - 1] is SegmenterFailed {
            self.failed_chunks(k - 1).push(self.states[k - 1].current as usize)
        } else {
            self.failed_chunks(k - 1)
        }
    }

    /// How many points the store confirmed during the first `k` steps.
    pub open spec fn confirmed(self, k: int) -> int
        decreases k,
    {
        if k <= 0 {
            0
        } else if self.events[k - 1] is Stored {
            self.confirmed(k - 1) + self.states[k - 1].pending
        } else {
            self.confirmed(k - 1)
        }
    }

    /// Whether step `j` asked the store to take points of the chunk `c`.
    pub open spec fn upserts(self, j: int, c: int) -> bool {
        self.actions[j] matches Action::Upsert { chunk, .. } && chunk == c
    }

    /// Whether, during the first `k` steps, the chunk `c` was left out or had
    /// its points handed to the store.
    pub open spec fn dealt_with(self, c: int, k: int) -> bool {
        self.failed_chunks(k).contains(c as usize) || exists|j: int|
            0 <= j < k && #[trigger] self.upserts(j, c)
    }

    /// Whether the points that step `j` handed to the store belong to a
    /// chunk that, after `k` steps, lies behind the current one or is the
    /// current one awaiting the store, and was not left out.
    pub open spec fn settled(self, j: int, k: int) -> bool {
        self.actions[j] matches Action::Upsert { chunk, .. } ==> {
            let p = self.states[k];
            &&& !self.failed_chunks(k).contains(chunk)
            &&& chunk < p.current || (chunk == p.current && p.phase == Phase::Storing)
        }
    }

    /// Whether the points that step `k` handed to the store are those of the
    /// segments of the reply that the step before was handed, paired by
    /// position with the vectors that step `k` was handed, under identifiers
    /// that were new.
    pub open spec fn upsert_is_exact(self, k: int) -> bool {
        self.actions[k] matches Action::Upsert { chunk, points } ==> {
            &&& k >= 1
            &&& chunk == self.states[k].current
            &&& self.events[k - 1] matches Event::Segmented(reply)
            &&& self.events[k] matches Event::Embedded(vectors)
            &&& points_for(points@, split_on(reply@, delimiter()), vectors@, self.known[k])
        }
    }

    /// What holds after `k` steps of a lenient run in which nothing but the
    /// segmenter fails.
    pub open spec fn sound_at(self, chunks: Seq<Seq<char>>, k: int) -> bool {
        let p = self.states[k];
        &&& p.phase != Phase::Failed
        &&& k == 0 ==> fresh(p)
        &&& k > 0 ==> awaits(p, self.actions[k - 1])
        &&& p.skipped == self.failed_chunks(k)
        &&& p.uploaded == self.confirmed(k)
        &&& 0 <= p.current <= chunks.len()
        &&& p.stored + p.skipped.len() == p.current
        &&& (p.phase == Phase::Segmenting || p.phase == Phase::Embedding || p.phase
            == Phase::Storing) ==> p.current < chunks.len()
        &&& p.phase == Phase::Finished ==> p.current == chunks.len()
        &&& rising_below(p.skipped, p.current)
        &&& p.phase == Phase::Embedding ==> k >= 1 && (self.events[k - 1] matches Event::Segmented(
            reply,
        ) && p.segments == split_on(reply@, delimiter()))
        &&& forall|j: int| 0 <= j < k ==> #[trigger] self.settled(j, k)
        &&& forall|j: int| 0 <= j < k ==> #[trigger] self.upsert_is_exact(j)
        &&& forall|c: int| 0 <= c < p.current ==> #[trigger] self.dealt_with(c, k)
    }

    proof fn lemma_sound_at(self, chunks: Seq<Seq<char>>, k: int)
        requires
            self.of_run(chunks, Mode::Lenient),
            self.calm(),
            0 <= k <= self.steps(),
        ensures
            self.sound_at(chunks, k),
        decreases k,
    {
        if k > 0 {
            let before = self.states[k - 1];
            let after = self.states[k];
            let was = self.failed_chunks(k - 1);
            let now = self.failed_chunks(k);
            self.lemma_sound_at(chunks, k - 1);
            assert(self.step_follows(chunks, Mode::Lenient, k - 1));
            assert(self.step_answers(k - 1));
            assert(after.skipped =~= now);
            assert(rising_below(after.skipped, after.current)) by {
                if self.events[k - 1] is SegmenterFailed {
                    assert forall|i: int| 0 <= i < now.len() implies (#[trigger] now[i])
                        < after.current by {
                        if i < was.len() {
                            assert(was[i] < before.current);
                        }
                    }
                    assert forall|i: int, j: int| 0 <= i < j < now.len() implies (#[trigger] now[i])
                        < (#[trigger] now[j]) by {
                        assert(was[i] < before.current);
                        if j < was.len() {
                            assert(was[i] < was[j]);
                        }
                    }
                }
            }
            assert forall|j: int| 0 <= j < k implies #[trigger] self.settled(j, k) by {
                if j < k - 1 {
                    assert(self.settled(j, k - 1));
                    if let Action::Upsert { chunk, .. } = self.actions[j] {
                        if now.contains(chunk) {
                            let i = choose|i: int| 0 <= i < now.len() && now[i] == chunk;
                            if i < was.len() {
                                assert(was[i] == chunk);
                            }
                        }
                    }
                } else {
                    if let Action::Upsert { chunk, .. } = self.actions[j] {
                        if now.contains(chunk) {
                            let i = choose|i: int| 0 <= i < now.len() && now[i] == chunk;
                            assert(now[i] < after.current);
                        }
                    }
                }
            }
            assert forall|j: int| 0 <= j < k implies #[trigger] self.upsert_is_exact(j) by {
                if j < k - 1 {
                    assert(self.upsert_is_exact(j));
                }
            }
            assert forall|c: int| 0 <= c < after.current implies #[trigger] self.dealt_with(
                c,
                k,
            ) by {
                if c < before.current {
                    assert(self.dealt_with(c, k - 1));
                    if was.contains(c as usize) {
                        let i = choose|i: int| 0 <= i < was.len() && was[i] == c as usize;
                        assert(now[i] == c as usize);
                    } else {
                        let j = choose|j: int| 0 <= j < k - 1 && #[trigger] self.upserts(j, c);
                        assert(0 <= j < k && self.upserts(j, c));
                    }
                } else if self.events[k - 1] is SegmenterFailed {
                    assert(now[now.len() - 1] == c as usize);
                } else {
                    assert(self.events[k - 1] is Stored);
                    assert(k >= 2);
                    assert(self.upserts(k - 2, c));
                }
            }
        } else {
            assert(self.states[0].skipped =~= self.failed_chunks(0));
        }
    }

    /// A lenient run in which nothing but the segmenter fails never ends with
    /// an error. At every moment the chunks left out are exactly those on
    /// which the segmenter failed, in order, and the points counted are
    /// exactly those that the store confirmed. When the run finishes, its
    /// report names those chunks and that count, and every chunk was either
    /// taken by the store or left out.
    ///
    /// The points handed to the store are, each time, those of the segments
    /// of the reply just received: one for each segment, in order, its text
    /// the segment itself. They are handed over chunk after chunk in rising
    /// order, never for a chunk that was left out, and every chunk behind the
    /// current one was either left out or had its points handed over.
    pub proof fn lemma_lenient_run(self, chunks: Seq<Seq<char>>)
        requires
            self.of_run(chunks, Mode::Lenient),
            self.calm(),
        ensures
            forall|k: int|
                0 <= k < self.steps() ==> !((#[trigger] self.actions[k]) is Abort),
            forall|k: int|
                0 <= k <= self.steps() ==> (#[trigger] self.states[k]).phase != Phase::Failed
                    && self.states[k].skipped == self.failed_chunks(k)
                    && self.states[k].uploaded == self.confirmed(k),
            forall|k: int|
                0 <= k < self.steps() ==> ((#[trigger] self.actions[k]) matches Action::Finish {
                    uploaded,
                    skipped,
                } ==> skipped@ == self.failed_chunks(k + 1) && uploaded == self.confirmed(k + 1)
                    && self.states[k + 1].stored + skipped@.len() == chunks.len()),
            forall|k: int| 0 <= k < self.steps() ==> #[trigger] self.upsert_is_exact(k),
            forall|k: int|
                0 <= k < self.steps() ==> ((#[trigger] self.actions[k]) matches Action::Upsert {
                    chunk,
                    ..
                } ==> !self.failed_chunks(self.steps()).contains(chunk)),
            forall|j: int, k: int|
                0 <= j < k < self.steps() && (#[trigger] self.actions[j]) is Upsert && (
                #[trigger] self.actions[k]) is Upsert ==> self.actions[j]->Upsert_chunk
                    < self.actions[k]->Upsert_chunk,
            forall|c: int|
                0 <= c < self.states[self.steps()].current ==> #[trigger] self.dealt_with(
                    c,
                    self.steps(),
                ),
    {
        let n = self.steps();
        assert forall|k: int| 0 <= k <= n implies self.sound_at(chunks, k) by {
            self.lemma_sound_at(chunks, k);
        }
        assert forall|k: int| 0 <= k < n implies !((#[trigger] self.actions[k]) is Abort) && (
        self.actions[k] matches Action::Finish { uploaded, skipped } ==> skipped@
            == self.failed_chunks(k + 1) && uploaded == self.confirmed(k + 1) && self.states[k
            + 1].stored + skipped@.len() == chunks.len()) && (self.actions[k] matches Action::Upsert {
            chunk,
            ..
        } ==> !self.failed_chunks(n).contains(chunk)) by {
            assert(self.sound_at(chunks, k + 1));
            assert(self.sound_at(chunks, n));
            assert(self.settled(k, n));
        }
        assert forall|k: int| 0 <= k <= n implies (#[trigger] self.states[k]).phase
            != Phase::Failed && self.states[k].skipped == self.failed_chunks(k)
            && self.states[k].uploaded == self.confirmed(k) by {
            assert(self.sound_at(chunks, k));
        }
        assert forall|k: int| 0 <= k < n implies #[trigger] self.upsert_is_exact(k) by {
            assert(self.sound_at(chunks, k + 1));
        }
        assert forall|j: int, k: int|
            0 <= j < k < n && (#[trigger] self.actions[j]) is Upsert && (
            #[trigger] self.actions[k]) is Upsert implies self.actions[j]->Upsert_chunk
            < self.actions[k]->Upsert_chunk by {
            assert(self.sound_at(chunks, k));
            assert(self.settled(j, k));
            assert(self.step_follows(chunks, Mode::Lenient, k));
            assert(self.sound_at(chunks, k + 1));
            assert(self.upsert_is_exact(k));
        }
        assert(self.sound_at(chunks, n));
    }
}

} // verus!
