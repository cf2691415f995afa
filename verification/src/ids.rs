//! Unpredictable 64-bit identifiers of which none is handed out twice.

use crate::error::IngestError;
use std::collections::HashSet;
use vstd::prelude::*;
use vstd::set_lib::lemma_len_subset;

verus! {

broadcast use vstd::std_specs::hash::group_hash_axioms;

/// The value `k` steps after `start`, going round from the largest value to
/// zero.
pub open spec fn stepped(start: u64, k: nat) -> u64 {
    ((start + k) % 0x1_0000_0000_0000_0000) as u64
}

/// Whether `k` is the least number of steps from `start` that leads to a
/// value outside `seen`.
pub open spec fn first_free(seen: Set<u64>, start: u64, k: nat) -> bool {
    &&& !seen.contains(stepped(start, k))
    &&& forall|j: nat| j < k ==> seen.contains(#[trigger] stepped(start, j))
}

/// The first `k` values from `start` on.
pub open spec fn run_from(start: u64, k: nat) -> Set<u64>
    decreases k,
{
    if k == 0 {
        Set::empty()
    } else {
        run_from(start, (k - 1) as nat).insert(stepped(start, (k - 1) as nat))
    }
}

proof fn lemma_run_from(start: u64, k: nat)
    requires
        k <= 0x1_0000_0000_0000_0000,
    ensures
        run_from(start, k).finite(),
        run_from(start, k).len() == k,
        forall|v: u64|
            run_from(start, k).contains(v) <==> exists|j: nat| j < k && v == #[trigger] stepped(
                start,
                j,
            ),
    decreases k,
{
    if k > 0 {
        let before = (k - 1) as nat;
        lemma_run_from(start, before);
        let last = stepped(start, before);
        assert(!run_from(start, before).contains(last)) by {
            if run_from(start, before).contains(last) {
                let j = choose|j: nat| j < before && last == #[trigger] stepped(start, j);
                assert(stepped(start, j) != stepped(start, before));
            }
        }
        assert forall|v: u64| run_from(start, k).contains(v) implies exists|j: nat|
            j < k && v == #[trigger] stepped(start, j) by {
            if v == last {
                assert(before < k && v == stepped(start, before));
            } else {
                let j = choose|j: nat| j < before && v == #[trigger] stepped(start, j);
                assert(j < k && v == stepped(start, j));
            }
        }
    }
}

/// The random source: `rand::random::<u64>()`, a draw from the generator of
/// the calling thread. Nothing is claimed of the value. The generator stops
/// the program where the system cannot seed it, which nothing asked of a
/// caller could rule out.
#[verifier::external_body]
fn random_u64() -> u64 {
    rand::random::<u64>()
}

/// How often a colliding draw is repeated before the pool steps to the next
/// free value instead.
pub const REDRAWS: usize = 16;

/// Identifiers reserved for one run. The pool remembers every identifier it
/// ever reserved, so that none comes back once it was handed out.
pub struct IdPool {
    ids: Vec<u64>,
    seen: HashSet<u64>,
}

impl IdPool {
    /// The identifiers that are reserved and not handed out yet; the last one
    /// is handed out next.
    pub closed spec fn available(&self) -> Seq<u64> {
        self.ids@
    }

    /// Every identifier that was ever reserved.
    pub closed spec fn seen(&self) -> Set<u64> {
        self.seen@
    }

    /// Whether `id` was reserved and has been handed out since.
    pub open spec fn handed_out(&self, id: u64) -> bool {
        self.seen().contains(id) && !self.available().contains(id)
    }

    /// Whether every identifier that `earlier` had handed out is still handed
    /// out here, so that it cannot be handed out again.
    pub open spec fn keeps_handed_out(&self, earlier: &IdPool) -> bool {
        forall|id: u64| #[trigger] earlier.handed_out(id) ==> self.handed_out(id)
    }

    /// No identifier is available twice, and each available one is
    /// remembered.
    pub open spec fn wf(&self) -> bool {
        &&& self.available().no_duplicates()
        &&& self.seen().finite()
        &&& forall|i: int|
            0 <= i < self.available().len() ==> self.seen().contains(#[trigger] self.available()[i])
    }

    /// A pool never remembers more identifiers than the machine can count.
    pub proof fn lemma_seen_bounded(&self)
        ensures
            self.seen().len() <= usize::MAX,
    {
        assert(self.seen@.len() == vstd::std_specs::hash::spec_hash_set_len(&self.seen));
    }

    /// A pool that holds nothing and remembers nothing.
    pub fn new() -> (pool: IdPool)
        ensures
            pool.wf(),
            pool.available() == Seq::<u64>::empty(),
            pool.seen() == Set::<u64>::empty(),
    {
        IdPool { ids: Vec::new(), seen: HashSet::new() }
    }

    /// How many identifiers are available.
    pub fn len(&self) -> (n: usize)
        ensures
            n == self.available().len(),
    {
        self.ids.len()
    }

    /// Reserves `candidate` unless it was reserved before.
    pub fn offer(&mut self, candidate: u64) -> (taken: bool)
        requires
            old(self).wf(),
        ensures
            final(self).wf(),
            taken == !old(self).seen().contains(candidate),
            taken ==> final(self).available() == old(self).available().push(candidate),
            taken ==> final(self).seen() == old(self).seen().insert(candidate),
            !taken ==> final(self).available() == old(self).available(),
            !taken ==> final(self).seen() == old(self).seen(),
            final(self).keeps_handed_out(old(self)),
    {
        if self.seen.contains(&candidate) {
            false
        } else {
            self.seen.insert(candidate);
            self.ids.push(candidate);
            true
        }
    }

    /// Reserves the first value at or after `candidate`, going round from the
    /// largest value to zero, that was never reserved before.
    pub fn reserve_near(&mut self, candidate: u64) -> (id: u64)
        requires
            old(self).wf(),
        ensures
            final(self).wf(),
            final(self).available() == old(self).available().push(id),
            final(self).seen() == old(self).seen().insert(id),
            exists|k: nat| first_free(old(self).seen(), candidate, k) && id == stepped(candidate, k),
            final(self).keeps_handed_out(old(self)),
    {
        let mut id = candidate;
        let ghost mut k: nat = 0;
        let ghost seen = self.seen@;
        while self.seen.contains(&id)
            invariant
                self.seen@ == seen,
                self.ids@ == old(self).ids@,
                seen.finite(),
                id == stepped(candidate, k),
                run_from(candidate, k).subset_of(seen),
                k <= seen.len(),
                forall|j: nat| j < k ==> seen.contains(#[trigger] stepped(candidate, j)),
            decreases seen.len() - k,
        {
            proof {
                assert(seen.len() == vstd::std_specs::hash::spec_hash_set_len(&self.seen));
                lemma_run_from(candidate, k + 1);
                assert(run_from(candidate, k + 1).subset_of(seen));
                lemma_len_subset(run_from(candidate, k + 1), seen);
            }
            id = if id == u64::MAX { 0 } else { id + 1 };
            proof {
                k = k + 1;
            }
        }
        self.seen.insert(id);
        self.ids.push(id);
        assert(first_free(seen, candidate, k));
        id
    }

    /// Reserves one identifier that was never reserved before. A draw that
    /// collides is repeated; after `REDRAWS` collisions in a row the pool
    /// steps from one more draw to the next free value, so the call ends
    /// whatever the random source returns.
    fn draw_fresh(&mut self) -> (id: u64)
        requires
            old(self).wf(),
        ensures
            final(self).wf(),
            !old(self).seen().contains(id),
            final(self).available() == old(self).available().push(id),
            final(self).seen() == old(self).seen().insert(id),
            final(self).keeps_handed_out(old(self)),
    {
        let mut tries: usize = 0;
        while tries < REDRAWS
            invariant
                self.wf(),
                self.available() == old(self).available(),
                self.seen() == old(self).seen(),
                tries <= REDRAWS,
            decreases REDRAWS - tries,
        {
            let candidate: u64 = random_u64();
            if self.offer(candidate) {
                return candidate;
            }
            tries = tries + 1;
        }
        self.reserve_near(random_u64())
    }

    /// Reserves `count` more identifiers, none of which was ever reserved
    /// before. Refused, with the pool unchanged, where the pool cannot
    /// remember that many.
    pub fn reserve(&mut self, count: usize) -> (r: Result<(), IngestError>)
        requires
            old(self).wf(),
        ensures
            final(self).wf(),
            r is Err <==> old(self).seen().len() + count > usize::MAX,
            r matches Err(e) ==> e == IngestError::InvalidArgument && final(self).available()
                == old(self).available() && final(self).seen() == old(self).seen(),
            r is Ok ==> {
                let before = old(self).available().len() as int;
                &&& final(self).available().len() == before + count
                &&& final(self).available().take(before) == old(self).available()
                &&& forall|i: int|
                    before <= i < before + count ==> !old(self).seen().contains(
                        #[trigger] final(self).available()[i],
                    )
                &&& final(self).seen() == old(self).seen().union(
                    final(self).available().skip(before).to_set(),
                )
                &&& final(self).seen().len() == old(self).seen().len() + count
            },
            final(self).keeps_handed_out(old(self)),
    {
        if count > usize::MAX - self.seen.len() {
            return Err(IngestError::InvalidArgument);
        }
        let ghost before = self.ids@.len() as int;
        let mut added: usize = 0;
        while added < count
            invariant
                self.wf(),
                added <= count,
                old(self).seen().finite(),
                old(self).seen().len() + count <= usize::MAX,
                before == old(self).available().len(),
                self.available().len() == before + added,
                self.available().take(before) == old(self).available(),
                forall|i: int|
                    before <= i < before + added ==> !old(self).seen().contains(
                        #[trigger] self.available()[i],
                    ),
                self.seen() == old(self).seen().union(self.available().skip(before).to_set()),
                self.seen().len() == old(self).seen().len() + added,
                self.keeps_handed_out(old(self)),
            decreases count - added,
        {
            let ghost prior = self.available();
            let ghost prior_seen = self.seen();
            let id: u64 = self.draw_fresh();
            proof {
                assert(self.available().take(before) =~= prior.take(before));
                assert(self.available().skip(before) =~= prior.skip(before).push(id));
                assert(self.available().skip(before).to_set() =~= prior.skip(before).to_set().insert(
                    id,
                )) by {
                    let a = self.available().skip(before);
                    let b = prior.skip(before);
                    assert forall|v: u64| a.to_set().contains(v) implies b.to_set().insert(
                        id,
                    ).contains(v) by {
                        let i = choose|i: int| 0 <= i < a.len() && a[i] == v;
                        if i < b.len() {
                            assert(b[i] == v);
                        }
                    }
                    assert forall|v: u64| b.to_set().insert(id).contains(v) implies a.to_set().contains(
                        v,
                    ) by {
                        if v == id {
                            assert(a[a.len() - 1] == v);
                        } else {
                            let i = choose|i: int| 0 <= i < b.len() && b[i] == v;
                            assert(a[i] == v);
                        }
                    }
                }
                assert(self.seen() =~= old(self).seen().union(
                    self.available().skip(before).to_set(),
                ));
                assert(!old(self).seen().contains(id)) by {
                    assert(prior_seen.contains(id) || !old(self).seen().contains(id));
                }
            }
            added = added + 1;
        }
        Ok(())
    }

    /// A pool of the given identifiers, of which the last is handed out
    /// first. Refused where one of them occurs twice.
    pub fn from_ids(ids: Vec<u64>) -> (r: Result<IdPool, IngestError>)
        ensures
            r is Ok <==> ids@.no_duplicates(),
            r matches Ok(pool) ==> pool.wf() && pool.available() == ids@ && pool.seen()
                == ids@.to_set(),
            r matches Err(e) ==> e == IngestError::InvalidArgument,
    {
        let mut seen: HashSet<u64> = HashSet::new();
        let mut i: usize = 0;
        while i < ids.len()
            invariant
                i <= ids.len(),
                seen@.finite(),
                seen@ == ids@.take(i as int).to_set(),
                ids@.take(i as int).no_duplicates(),
            decreases ids.len() - i,
        {
            let id: u64 = ids[i];
            let ghost head = ids@.take(i as int);
            let fresh = seen.insert(id);
            if !fresh {
                proof {
                    let j = choose|j: int| 0 <= j < head.len() && head[j] == id;
                    assert(ids@[j] == ids@[i as int] && j != i);
                }
                return Err(IngestError::InvalidArgument);
            }
            proof {
                let next = ids@.take(i + 1);
                assert(next =~= head.push(id));
                assert(next.to_set() =~= head.to_set().insert(id)) by {
                    assert forall|v: u64| next.to_set().contains(v) implies head.to_set().insert(
                        id,
                    ).contains(v) by {
                        let j = choose|j: int| 0 <= j < next.len() && next[j] == v;
                        if j < head.len() {
                            assert(head[j] == v);
                        }
                    }
                    assert forall|v: u64| head.to_set().insert(id).contains(v) implies next.to_set().contains(
                        v,
                    ) by {
                        if v == id {
                            assert(next[next.len() - 1] == v);
                        } else {
                            let j = choose|j: int| 0 <= j < head.len() && head[j] == v;
                            assert(next[j] == v);
                        }
                    }
                }
                assert(next.no_duplicates()) by {
                    assert forall|a: int, b: int|
                        0 <= a < next.len() && 0 <= b < next.len() && a != b implies next[a]
                        != next[b] by {
                        if a < head.len() && b < head.len() {
                            assert(head[a] != head[b]);
                        } else if a < head.len() {
                            assert(head.to_set().contains(head[a]));
                        } else if b < head.len() {
                            assert(head.to_set().contains(head[b]));
                        }
                    }
                }
            }
            i = i + 1;
        }
        proof {
            assert(ids@.take(ids.len() as int) =~= ids@);
        }
        Ok(IdPool { ids, seen })
    }

    /// The available identifiers, given up by the pool.
    pub fn into_ids(self) -> (ids: Vec<u64>)
        ensures
            ids@ == self.available(),
    {
        self.ids
    }

    /// Hands out the identifier that was reserved last, if one is available.
    /// It is not available afterwards and stays remembered.
    pub fn pop(&mut self) -> (id: Option<u64>)
        requires
            old(self).wf(),
        ensures
            final(self).wf(),
            final(self).seen() == old(self).seen(),
            old(self).available().len() == 0 ==> id is None && final(self).available() == old(self).available(),
            old(self).available().len() > 0 ==> id == Some(old(self).available().last())
                && final(self).available() == old(self).available().drop_last(),
            id matches Some(v) ==> final(self).handed_out(v),
            final(self).keeps_handed_out(old(self)),
    {
        self.ids.pop()
    }
}

/// `count` unpredictable identifiers, no two of them equal.
pub fn gen_ids(count: usize) -> (ids: Vec<u64>)
    ensures
        ids@.len() == count,
        ids@.no_duplicates(),
{
    let mut pool = IdPool::new();
    let reserved = pool.reserve(count);
    assert(reserved is Ok);
    proof {
        assert(pool.available().take(0) =~= Seq::<u64>::empty());
    }
    pool.into_ids()
}

} // verus!
