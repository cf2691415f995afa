//! The decisions of an ingestion run.
//!
//! A run works through the chunks of a text one by one: the chunk is handed
//! to the segmenter, its segments to the embedding client, and the points
//! made of segments, vectors and fresh identifiers to the store. The remote
//! calls are not made here. `Ingestion::step` takes what the last call
//! brought, as an `Event`, and answers with the next thing to do, as an
//! `Action`; whoever drives the run performs the action and comes back with
//! the event.

use crate::chunk::{chunk, chunk_texts, cut, TextChunk};
use crate::error::{IngestError, Stage};
use crate::ids::IdPool;
use crate::points::{assemble_points, pairs, VectorPoint};
use crate::segment::{delimiter, segments_of, split_on, TextSegment};
use vstd::prelude::*;

verus! {

/// What a failure of the segmenter on one chunk means for the run.
#[derive(Clone, Copy, Debug, PartialEq, Eq, Structural)]
pub enum Mode {
    /// The run ends with the failure.
    Strict,
    /// The chunk is left out and the run goes on.
    Lenient,
}

/// Where a run stands.
#[derive(Clone, Copy, Debug, PartialEq, Eq, Structural)]
pub enum Phase {
    /// Nothing was asked for yet.
    Ready,
    /// The segmenter was asked for the segments of the current chunk.
    Segmenting,
    /// The embedding client was asked for the vectors of the segments.
    Embedding,
    /// The store was asked to take the points of the current chunk.
    Storing,
    /// Every chunk was uploaded or left out.
    Finished,
    /// The run ended with an error.
    Failed,
}

/// What the last remote call brought.
#[derive(Debug)]
pub enum Event<V> {
    /// The run is to start.
    Begin,
    /// The segmenter answered with this reply.
    Segmented(String),
    /// The call to the segmenter failed.
    SegmenterFailed,
    /// The embedding client answered with these vectors.
    Embedded(Vec<V>),
    /// The call to the embedding client failed.
    EmbeddingFailed,
    /// The store has taken the points.
    Stored,
    /// The call to the store failed.
    StoreFailed,
}

/// What is to be done next.
#[derive(Debug)]
pub enum Action<V> {
    /// Ask the segmenter for the segments of this chunk.
    Segment { chunk: usize, text: String },
    /// Ask the embedding client for one vector for the text of each of these
    /// segments.
    Embed { chunk: usize, segments: Vec<TextSegment> },
    /// Ask the store to take these points and to wait until it holds them.
    Upsert { chunk: usize, points: Vec<VectorPoint<V>> },
    /// The run is over: so many points were uploaded, and the chunks with
    /// these indices were left out because the segmenter failed on them.
    Finish { uploaded: usize, skipped: Vec<usize> },
    /// The run is over with this error.
    Abort { error: IngestError },
}

/// What a run knows of its progress.
pub struct Progress {
    pub phase: Phase,
    /// The index of the chunk that is being worked on.
    pub current: int,
    /// The segments of the current chunk, once the segmenter has answered.
    pub segments: Seq<Seq<char>>,
    /// How many points the store was asked to take and has not confirmed.
    pub pending: int,
    /// How many points the store has confirmed.
    pub uploaded: int,
    /// How many chunks the store has confirmed the points of.
    pub stored: int,
    /// The indices of the chunks that were left out.
    pub skipped: Seq<usize>,
}

/// One ingestion run.
pub struct Ingestion {
    chunks: Vec<TextChunk>,
    mode: Mode,
    phase: Phase,
    current: usize,
    segments: Vec<String>,
    pending: usize,
    uploaded: usize,
    stored: usize,
    skipped: Vec<usize>,
    pool: IdPool,
}

/// The texts of `strings`, in order.
pub open spec fn texts_of(strings: Seq<String>) -> Seq<Seq<char>> {
    Seq::new(strings.len(), |i: int| strings[i]@)
}

/// Whether `indices` rise from each to the next and stay below `bound`.
pub open spec fn rising_below(indices: Seq<usize>, bound: int) -> bool {
    &&& forall|i: int| 0 <= i < indices.len() ==> (#[trigger] indices[i]) < bound
    &&& forall|i: int, j: int|
        0 <= i < j < indices.len() ==> (#[trigger] indices[i]) < (#[trigger] indices[j])
}

/// Whether the run has gone on to the chunk `next`, or has finished where
/// there is no such chunk, with the given counts.
pub open spec fn moved_on<V>(
    chunks: Seq<Seq<char>>,
    after: Progress,
    action: Action<V>,
    next: int,
    uploaded: int,
    stored: int,
    skipped: Seq<usize>,
) -> bool {
    &&& after.uploaded == uploaded
    &&& after.stored == stored
    &&& after.skipped == skipped
    &&& after.pending == 0
    &&& after.current == next
    &&& if next < chunks.len() {
        &&& after.phase == Phase::Segmenting
        &&& action matches Action::Segment { chunk, text }
        &&& chunk == next
        &&& text@ == chunks[next]
    } else {
        &&& after.phase == Phase::Finished
        &&& action matches Action::Finish { uploaded: count, skipped: left_out }
        &&& count == uploaded
        &&& left_out@ == skipped
    }
}

/// Whether the run has ended with `error`, its counts as they were.
pub open spec fn failed<V>(before: Progress, after: Progress, action: Action<V>, error: IngestError) -> bool {
    &&& after.phase == Phase::Failed
    &&& after.current == before.current
    &&& after.uploaded == before.uploaded
    &&& after.stored == before.stored
    &&& after.skipped == before.skipped
    &&& action matches Action::Abort { error: reported }
    &&& reported == error
}

/// Whether `points` are the points of the segments `segments` and the
/// vectors `vectors`, position by position, under identifiers that are new
/// to `known` and differ from each other.
pub open spec fn points_for<V>(
    points: Seq<VectorPoint<V>>,
    segments: Seq<Seq<char>>,
    vectors: Seq<V>,
    known: Set<u64>,
) -> bool {
    &&& points.len() == segments.len()
    &&& points.len() == vectors.len()
    &&& forall|i: int|
        0 <= i < points.len() ==> pairs(#[trigger] points[i], points[i].id, vectors[i], segments[i])
            && !known.contains(points[i].id)
    &&& forall|i: int, j: int|
        0 <= i < j < points.len() ==> (#[trigger] points[i]).id != (#[trigger] points[j]).id
}

/// Whether `after` and `action` are what a run over `chunks` in mode `mode`
/// comes to from `before` on `event`, where `known` are the identifiers
/// given out before and `now_known` those given out after.
///
/// A failure of the segmenter ends a strict run and makes a lenient run
/// leave the chunk out and go on; a failure of the embedding client or of
/// the store, or vectors that are not as many as the segments, end every
/// run. So do points whose identifiers would be more than can be
/// remembered, and an event that the phase does not wait for.
pub open spec fn follows<V>(
    chunks: Seq<Seq<char>>,
    mode: Mode,
    known: Set<u64>,
    before: Progress,
    event: Event<V>,
    after: Progress,
    action: Action<V>,
    now_known: Set<u64>,
) -> bool {
    let here = before.current as usize;
    match (before.phase, event) {
        (Phase::Ready, Event::Begin) => {
            &&& now_known == known
            &&& moved_on(chunks, after, action, 0, before.uploaded, before.stored, before.skipped)
        },
        (Phase::Segmenting, Event::Segmented(reply)) => {
            &&& now_known == known
            &&& after.phase == Phase::Embedding
            &&& after.current == before.current
            &&& after.segments == split_on(reply@, delimiter())
            &&& after.pending == 0
            &&& after.uploaded == before.uploaded
            &&& after.stored == before.stored
            &&& after.skipped == before.skipped
            &&& action matches Action::Embed { chunk, segments }
            &&& chunk == before.current
            &&& segments@.len() == after.segments.len()
            &&& forall|i: int|
                0 <= i < segments@.len() ==> (#[trigger] segments@[i]).text@ == after.segments[i]
                    && segments@[i].chunk == before.current
        },
        (Phase::Segmenting, Event::SegmenterFailed) => {
            &&& now_known == known
            &&& match mode {
                Mode::Lenient => moved_on(
                    chunks,
                    after,
                    action,
                    before.current + 1,
                    before.uploaded,
                    before.stored,
                    before.skipped.push(here),
                ),
                Mode::Strict => failed(
                    before,
                    after,
                    action,
                    IngestError::RemoteCall { stage: Stage::Segmenter, chunk: here },
                ),
            }
        },
        (Phase::Embedding, Event::Embedded(vectors)) => {
            if vectors@.len() != before.segments.len() {
                &&& now_known == known
                &&& failed(
                    before,
                    after,
                    action,
                    IngestError::RemoteCall { stage: Stage::Embedding, chunk: here },
                )
            } else if known.len() + vectors@.len() > usize::MAX {
                &&& now_known == known
                &&& failed(before, after, action, IngestError::IdSpace { chunk: here })
            } else {
                &&& after.phase == Phase::Storing
                &&& after.current == before.current
                &&& after.pending == vectors@.len()
                &&& after.uploaded == before.uploaded
                &&& after.stored == before.stored
                &&& after.skipped == before.skipped
                &&& action matches Action::Upsert { chunk, points }
                &&& chunk == before.current
                &&& points_for(points@, before.segments, vectors@, known)
                &&& forall|id: u64|
                    now_known.contains(id) <==> known.contains(id) || exists|i: int|
                        0 <= i < points@.len() && (#[trigger] points@[i]).id == id                &&& now_known.len() == known.len() + points@.len()
            }
        },
        (Phase::Embedding, Event::EmbeddingFailed) => {
            &&& now_known == known
            &&& failed(
                before,
                after,
                action,
                IngestError::RemoteCall { stage: Stage::Embedding, chunk: here },
            )
        },
        (Phase::Storing, Event::Stored) => {
            &&& now_known == known
            &&& moved_on(
                chunks,
                after,
                action,
                before.current + 1,
                before.uploaded + before.pending,
                before.stored + 1,
                before.skipped,
            )
        },
        (Phase::Storing, Event::StoreFailed) => {
            &&& now_known == known
            &&& failed(
                before,
                after,
                action,
                IngestError::RemoteCall { stage: Stage::Store, chunk: here },
            )
        },
        _ => {
            &&& now_known == known
            &&& failed(
                before,
                after,
                action,
                IngestError::Unexpected { phase: before.phase, chunk: here },
            )
        },
    }
}

/// In a lenient run a failure of the segmenter never ends the run: the chunk
/// is named among those left out, nothing is counted as uploaded for it, and
/// the run asks for the next chunk or, after the last one, finishes.
pub proof fn lemma_lenient_run_goes_on<V>(
    chunks: Seq<Seq<char>>,
    known: Set<u64>,
    before: Progress,
    after: Progress,
    action: Action<V>,
    now_known: Set<u64>,
)
    requires
        before.phase == Phase::Segmenting,
        follows(
            chunks,
            Mode::Lenient,
            known,
            before,
            Event::<V>::SegmenterFailed,
            after,
            action,
            now_known,
        ),
    ensures
        after.phase == Phase::Segmenting || after.phase == Phase::Finished,
        after.skipped == before.skipped.push(before.current as usize),
        after.uploaded == before.uploaded,
        after.stored == before.stored,
        now_known == known,
        before.current + 1 < chunks.len() ==> action is Segment && action->Segment_chunk
            == before.current + 1,
        before.current + 1 >= chunks.len() ==> action is Finish && action->Finish_skipped@
            == after.skipped && action->Finish_uploaded == before.uploaded,
{
}

/// A failure of the embedding client or of the store ends the run in either
/// mode, and the error names the collaborator and the chunk.
pub proof fn lemma_later_failures_end_the_run<V>(
    chunks: Seq<Seq<char>>,
    mode: Mode,
    known: Set<u64>,
    before: Progress,
    event: Event<V>,
    after: Progress,
    action: Action<V>,
    now_known: Set<u64>,
)
    requires
        follows(chunks, mode, known, before, event, after, action, now_known),
        (before.phase == Phase::Embedding && event is EmbeddingFailed) || (before.phase
            == Phase::Storing && event is StoreFailed),
    ensures
        after.phase == Phase::Failed,
        action is Abort,
        action->Abort_error == (IngestError::RemoteCall {
            stage: if event is EmbeddingFailed {
                Stage::Embedding
            } else {
                Stage::Store
            },
            chunk: before.current as usize,
        }),
{
}

fn texts_from(segments: &Vec<TextSegment>) -> (out: Vec<String>)
    ensures
        out@.len() == segments@.len(),
        forall|k: int| 0 <= k < out@.len() ==> (#[trigger] out@[k])@ == segments@[k].text@,
{
    let mut out: Vec<String> = Vec::new();
    let mut i: usize = 0;
    while i < segments.len()
        invariant
            i <= segments.len(),
            out@.len() == i,
            forall|k: int| 0 <= k < i ==> (#[trigger] out@[k])@ == segments@[k].text@,
        decreases segments.len() - i,
    {
        out.push(segments[i].text.clone());
        i = i + 1;
    }
    out
}

fn copy_indices(indices: &Vec<usize>) -> (out: Vec<usize>)
    ensures
        out@ == indices@,
{
    let mut out: Vec<usize> = Vec::new();
    let mut i: usize = 0;
    while i < indices.len()
        invariant
            i <= indices.len(),
            out@ == indices@.take(i as int),
        decreases indices.len() - i,
    {
        out.push(indices[i]);
        proof {
            assert(out@ =~= indices@.take(i + 1));
        }
        i = i + 1;
    }
    proof {
        assert(indices@.take(indices@.len() as int) =~= indices@);
    }
    out
}

impl Ingestion {
    /// The texts of the chunks of the run.
    pub closed spec fn chunk_texts(&self) -> Seq<Seq<char>> {
        chunk_texts(self.chunks@)
    }

    /// The failure policy of the run.
    pub closed spec fn mode(&self) -> Mode {
        self.mode
    }

    /// Where the run stands.
    pub closed spec fn progress(&self) -> Progress {
        Progress {
            phase: self.phase,
            current: self.current as int,
            segments: texts_of(self.segments@),
            pending: self.pending as int,
            uploaded: self.uploaded as int,
            stored: self.stored as int,
            skipped: self.skipped@,
        }
    }

    /// Every identifier that the run has given to a point.
    pub closed spec fn issued(&self) -> Set<u64> {
        self.pool.seen()
    }

    /// What holds of a run at every moment: the current chunk is one of the
    /// run while a remote call is awaited, and past the last one when the run
    /// has finished; every chunk before the current one was either taken by
    /// the store or left out; points are pending only while the store is
    /// awaited; no more points are counted than identifiers were given out;
    /// and the chunks left out are named once each, in rising order, all of
    /// them before the current chunk.
    pub open spec fn consistent(&self) -> bool {
        let p = self.progress();
        let total = self.chunk_texts().len();
        &&& 0 <= p.current <= total
        &&& (p.phase == Phase::Segmenting || p.phase == Phase::Embedding || p.phase
            == Phase::Storing) ==> p.current < total
        &&& p.phase == Phase::Ready ==> p.current == 0 && p.uploaded == 0
        &&& p.phase == Phase::Finished ==> p.current == total
        &&& 0 <= p.stored
        &&& p.stored + p.skipped.len() == p.current
        &&& p.phase != Phase::Storing ==> p.pending == 0
        &&& 0 <= p.uploaded
        &&& 0 <= p.pending
        &&& self.issued().finite()
        &&& p.uploaded + p.pending <= self.issued().len()
        &&& rising_below(p.skipped, p.current)
    }

    /// The run is in a state that `new`, `start` and `step` lead to.
    pub closed spec fn wf(&self) -> bool {
        &&& self.pool.wf()
        &&& self.pool.available().len() == 0
        &&& self.consistent()
    }

    /// A run that `new`, `start` and `step` lead to is consistent.
    pub proof fn lemma_consistent(&self)
        requires
            self.wf(),
        ensures
            self.consistent(),
    {
    }

    /// When a run has finished, every one of its chunks was either taken by
    /// the store or is named, once, among the chunks left out.
    pub proof fn lemma_finished_run_accounts_for_every_chunk(&self)
        requires
            self.wf(),
            self.progress().phase == Phase::Finished,
        ensures
            self.progress().stored + self.progress().skipped.len() == self.chunk_texts().len(),
            rising_below(self.progress().skipped, self.chunk_texts().len() as int),
            self.progress().pending == 0,
    {
    }

    /// A run over `chunks` that has not started yet.
    pub fn new(chunks: Vec<TextChunk>, mode: Mode) -> (run: Ingestion)
        ensures
            run.wf(),
            run.mode() == mode,
            run.chunk_texts() == chunk_texts(chunks@),
            run.progress() == (Progress {
                phase: Phase::Ready,
                current: 0,
                segments: Seq::empty(),
                pending: 0,
                uploaded: 0,
                stored: 0,
                skipped: Seq::empty(),
            }),
            run.issued() == Set::<u64>::empty(),
    {
        let run = Ingestion {
            chunks,
            mode,
            phase: Phase::Ready,
            current: 0,
            segments: Vec::new(),
            pending: 0,
            uploaded: 0,
            stored: 0,
            skipped: Vec::new(),
            pool: IdPool::new(),
        };
        proof {
            assert(texts_of(run.segments@) =~= Seq::<Seq<char>>::empty());
        }
        run
    }

    /// A run over the chunks that `text` falls into under a budget of
    /// `max_tokens` tokens for each; refused or failed where cutting `text`
    /// is.
    pub fn start(text: &str, max_tokens: usize, mode: Mode) -> (r: Result<Ingestion, IngestError>)
        ensures
            r matches Err(e) ==> cut(text@, max_tokens as nat) == Err::<Seq<Seq<char>>, IngestError>(
                e,
            ),
            r matches Ok(run) ==> {
                &&& cut(text@, max_tokens as nat) == Ok::<Seq<Seq<char>>, IngestError>(
                    run.chunk_texts(),
                )
                &&& run.wf()
                &&& run.mode() == mode
                &&& run.issued() == Set::<u64>::empty()
                &&& run.progress() == (Progress {
                    phase: Phase::Ready,
                    current: 0,
                    segments: Seq::empty(),
                    pending: 0,
                    uploaded: 0,
                    stored: 0,
                    skipped: Seq::empty(),
                })
            },
    {
        match chunk(text, max_tokens) {
            Ok(chunks) => Ok(Ingestion::new(chunks, mode)),
            Err(e) => Err(e),
        }
    }

    fn move_on<V>(&mut self, next: usize) -> (action: Action<V>)
        requires
            old(self).pool.wf(),
            old(self).pool.available().len() == 0,
            old(self).pending == 0,
            old(self).uploaded <= old(self).pool.seen().len(),
            next <= old(self).chunks@.len(),
            rising_below(old(self).skipped@, next as int),
            old(self).stored + old(self).skipped@.len() == next,
        ensures
            final(self).wf(),
            final(self).chunk_texts() == old(self).chunk_texts(),
            final(self).mode() == old(self).mode(),
            final(self).issued() == old(self).issued(),
            moved_on(
                old(self).chunk_texts(),
                final(self).progress(),
                action,
                next as int,
                old(self).uploaded as int,
                old(self).stored as int,
                old(self).skipped@,
            ),
    {
        self.current = next;
        if next < self.chunks.len() {
            self.phase = Phase::Segmenting;
            Action::Segment { chunk: next, text: self.chunks[next].text.clone() }
        } else {
            self.phase = Phase::Finished;
            Action::Finish { uploaded: self.uploaded, skipped: copy_indices(&self.skipped) }
        }
    }

    fn fail<V>(&mut self, error: IngestError) -> (action: Action<V>)
        requires
            old(self).wf(),
        ensures
            final(self).wf(),
            final(self).chunk_texts() == old(self).chunk_texts(),
            final(self).mode() == old(self).mode(),
            final(self).issued() == old(self).issued(),
            failed(old(self).progress(), final(self).progress(), action, error),
    {
        self.phase = Phase::Failed;
        self.pending = 0;
        Action::Abort { error }
    }

    /// Takes what the last remote call brought and says what is to be done
    /// next.
    pub fn step<V>(&mut self, event: Event<V>) -> (action: Action<V>)
        requires
            old(self).wf(),
        ensures
            final(self).wf(),
            final(self).chunk_texts() == old(self).chunk_texts(),
            final(self).mode() == old(self).mode(),
            follows(
                old(self).chunk_texts(),
                old(self).mode(),
                old(self).issued(),
                old(self).progress(),
                event,
                final(self).progress(),
                action,
                final(self).issued(),
            ),
    {
        let here: usize = self.current;
        let total: usize = self.chunks.len();
        let unexpected = IngestError::Unexpected { phase: self.phase, chunk: here };
        match self.phase {
            Phase::Ready => match event {
                Event::Begin => self.move_on(0),
                _ => self.fail(unexpected),
            },
            Phase::Segmenting => match event {
                Event::Segmented(reply) => {
                    let segments = segments_of(reply.as_str(), here);
                    self.segments = texts_from(&segments);
                    self.phase = Phase::Embedding;
                    proof {
                        assert(texts_of(self.segments@) =~= split_on(reply@, delimiter()));
                    }
                    Action::Embed { chunk: here, segments }
                },
                Event::SegmenterFailed => match self.mode {
                    Mode::Lenient => {
                        assert(here < total);
                        assert(rising_below(self.skipped@, here as int));
                        self.skipped.push(here);
                        self.move_on(here + 1)
                    },
                    Mode::Strict => self.fail(
                        IngestError::RemoteCall { stage: Stage::Segmenter, chunk: here },
                    ),
                },
                _ => self.fail(unexpected),
            },
            Phase::Embedding => match event {
                Event::Embedded(vectors) => {
                    let n: usize = vectors.len();
                    if n != self.segments.len() {
                        return self.fail(
                            IngestError::RemoteCall { stage: Stage::Embedding, chunk: here },
                        );
                    }
                    let ghost known = self.pool.seen();
                    match self.pool.reserve(n) {
                        Ok(()) => {},
                        Err(_) => {
                            return self.fail(IngestError::IdSpace { chunk: here });
                        },
                    }
                    let ghost fresh = self.pool.available();
                    proof {
                        assert(fresh.skip(0) =~= fresh);
                    }
                    match assemble_points(&self.segments, vectors, &mut self.pool) {
                        Ok(points) => {
                            self.pending = n;
                            self.phase = Phase::Storing;
                            proof {
                                assert(self.pool.available() =~= Seq::<u64>::empty());
                                assert forall|id: u64|
                                    self.pool.seen().contains(id) <==> known.contains(id)
                                        || exists|i: int|
                                        0 <= i < points@.len() && (#[trigger] points@[i]).id
                                            == id by {
                                    if fresh.to_set().contains(id) {
                                        let k = choose|k: int| 0 <= k < fresh.len() && fresh[k] == id;
                                        assert(points@[n - 1 - k].id == id);
                                    }
                                    if exists|i: int|
                                        0 <= i < points@.len() && (#[trigger] points@[i]).id == id {
                                        let i = choose|i: int|
                                            0 <= i < points@.len() && (#[trigger] points@[i]).id
                                                == id;
                                        assert(fresh[n - 1 - i] == id);
                                        assert(fresh.to_set().contains(id));
                                    }
                                }
                                assert forall|i: int| 0 <= i < points@.len() implies pairs(
                                    #[trigger] points@[i],
                                    points@[i].id,
                                    vectors@[i],
                                    texts_of(self.segments@)[i],
                                ) && !known.contains(points@[i].id) by {
                                    assert(points@[i].id == fresh[n - 1 - i]);
                                }
                            }
                            Action::Upsert { chunk: here, points }
                        },
                        Err(e) => self.fail(e),
                    }
                },
                Event::EmbeddingFailed => self.fail(
                    IngestError::RemoteCall { stage: Stage::Embedding, chunk: here },
                ),
                _ => self.fail(unexpected),
            },
            Phase::Storing => match event {
                Event::Stored => {
                    assert(here < total);
                    proof {
                        self.pool.lemma_seen_bounded();
                        assert(rising_below(self.skipped@, here as int));
                    }
                    self.uploaded = self.uploaded + self.pending;
                    self.pending = 0;
                    self.stored = self.stored + 1;
                    self.move_on(here + 1)
                },
                Event::StoreFailed => self.fail(
                    IngestError::RemoteCall { stage: Stage::Store, chunk: here },
                ),
                _ => self.fail(unexpected),
            },
            _ => self.fail(unexpected),
        }
    }
}

} // verus!
