//! The client side of a session: where the server is, and counters of the
//! bytes that cross the connection when nothing compresses them.
use vstd::prelude::*;
use vstd::string::StringExecFns;
use std::collections::HashMap;
use crate::physics::{BodyHandle, ColliderHandle};
use crate::world::with_pairs;

verus! {

broadcast use vstd::std_specs::hash::group_hash_axioms;

/// The remote physics back end of the client.
pub struct RapierPhysicsPlugin {
    pub address: String,
}

impl RapierPhysicsPlugin {
    pub fn new(address: &str) -> (r: RapierPhysicsPlugin)
        ensures
            r.address@ == address@,
    {
        RapierPhysicsPlugin { address: String::from_str(address) }
    }
}

/// Adds `n` to a byte count, saturating.
pub open spec fn counted(total: usize, n: usize) -> usize {
    if total + n > usize::MAX { usize::MAX } else { (total + n) as usize }
}

/// A reader with a count of the bytes read through it.
pub struct LogReader<R> {
    pub reader: R,
    pub read_bytes: usize,
}

impl<R> LogReader<R> {
    pub fn new(reader: R) -> (r: LogReader<R>)
        ensures
            r.reader == reader,
            r.read_bytes == 0,
    {
        LogReader { reader, read_bytes: 0 }
    }

    /// Counts `n` more bytes read.
    pub fn record(&mut self, n: usize)
        ensures
            final(self).read_bytes == counted(old(self).read_bytes, n),
            final(self).reader == old(self).reader,
    {
        self.read_bytes = if n > usize::MAX - self.read_bytes { usize::MAX } else { self.read_bytes + n };
    }
}

/// A writer with a count of the bytes written through it.
pub struct LogWriter<W> {
    pub writer: W,
    pub written_bytes: usize,
}

impl<W> LogWriter<W> {
    pub fn new(writer: W) -> (r: LogWriter<W>)
        ensures
            r.writer == writer,
            r.written_bytes == 0,
    {
        LogWriter { writer, written_bytes: 0 }
    }

    /// Counts `n` more bytes written.
    pub fn record(&mut self, n: usize)
        ensures
            final(self).written_bytes == counted(old(self).written_bytes, n),
            final(self).writer == old(self).writer,
    {
        self.written_bytes = if n > usize::MAX - self.written_bytes { usize::MAX } else { self.written_bytes + n };
    }
}

/// The entities of `candidates` that `m` has no handle for, in order.
pub open spec fn unsynced<H>(m: Map<u64, H>, candidates: Seq<u64>) -> Seq<u64> {
    candidates.filter(|e: u64| !m.contains_key(e))
}

pub struct SyncedView {
    pub bodies: Map<u64, BodyHandle>,
    pub colliders: Map<u64, ColliderHandle>,
}

/// What the client knows of the server's world: for each entity, the
/// handles the server made for it. An entity with a handle is never sent
/// again.
pub struct SyncedEntities {
    bodies: HashMap<u64, BodyHandle>,
    colliders: HashMap<u64, ColliderHandle>,
}

impl View for SyncedEntities {
    type V = SyncedView;

    closed spec fn view(&self) -> SyncedView {
        SyncedView { bodies: self.bodies@, colliders: self.colliders@ }
    }
}

/// The entities of `candidates` that `m` has no handle for.
fn select_unsynced<H>(m: &HashMap<u64, H>, candidates: &Vec<u64>) -> (r: Vec<u64>)
    ensures
        r@ == unsynced(m@, candidates@),
{
    let mut r: Vec<u64> = Vec::new();
    let mut i: usize = 0;
    while i < candidates.len()
        invariant
            i <= candidates@.len(),
            r@ == unsynced(m@, candidates@.subrange(0, i as int)),
        decreases candidates@.len() - i,
    {
        let e = candidates[i];
        proof {
            assert(candidates@.subrange(0, i + 1) =~= candidates@.subrange(0, i as int).push(e));
            candidates@.subrange(0, i as int).lemma_filter_push(e, |e: u64| !m@.contains_key(e));
        }
        if !m.contains_key(&e) {
            r.push(e);
        }
        i = i + 1;
    }
    assert(candidates@.subrange(0, candidates@.len() as int) =~= candidates@);
    r
}

/// Records the pairs of a response in `m`.
fn record_pairs<H: Copy>(m: &mut HashMap<u64, H>, pairs: &Vec<(u64, H)>)
    ensures
        final(m)@ == with_pairs(old(m)@, pairs@),
{
    let mut i: usize = 0;
    while i < pairs.len()
        invariant
            i <= pairs@.len(),
            m@ == with_pairs(old(m)@, pairs@.subrange(0, i as int)),
        decreases pairs@.len() - i,
    {
        let (e, h) = pairs[i];
        proof {
            assert(pairs@.subrange(0, i + 1).drop_last() =~= pairs@.subrange(0, i as int));
        }
        m.insert(e, h);
        i = i + 1;
    }
    assert(pairs@.subrange(0, pairs@.len() as int) =~= pairs@);
}

impl SyncedEntities {
    /// Nothing synchronised yet.
    pub fn new() -> (r: SyncedEntities)
        ensures
            r@.bodies == Map::<u64, BodyHandle>::empty(),
            r@.colliders == Map::<u64, ColliderHandle>::empty(),
    {
        SyncedEntities { bodies: HashMap::new(), colliders: HashMap::new() }
    }

    /// Of the entities that carry a body, those whose body must still be
    /// sent: the ones without a body handle, in the given order.
    pub fn bodies_to_send(&self, candidates: &Vec<u64>) -> (r: Vec<u64>)
        ensures
            r@ == unsynced(self@.bodies, candidates@),
    {
        select_unsynced(&self.bodies, candidates)
    }

    /// Of the entities that carry a collider, those whose collider must
    /// still be sent.
    pub fn colliders_to_send(&self, candidates: &Vec<u64>) -> (r: Vec<u64>)
        ensures
            r@ == unsynced(self@.colliders, candidates@),
    {
        select_unsynced(&self.colliders, candidates)
    }

    /// Records the handles of a response.
    pub fn record(&mut self, rigid_body_handles: &Vec<(u64, BodyHandle)>, collider_handles: &Vec<(u64, ColliderHandle)>)
        ensures
            final(self)@.bodies == with_pairs(old(self)@.bodies, rigid_body_handles@),
            final(self)@.colliders == with_pairs(old(self)@.colliders, collider_handles@),
    {
        record_pairs(&mut self.bodies, rigid_body_handles);
        record_pairs(&mut self.colliders, collider_handles);
    }

    /// The body handle of an entity, once the server has made one.
    pub fn body_of(&self, entity: u64) -> (r: Option<BodyHandle>)
        ensures
            r == (if self@.bodies.contains_key(entity) { Some(self@.bodies[entity]) } else { None::<BodyHandle> }),
    {
        match self.bodies.get(&entity) {
            Some(h) => Some(*h),
            None => None,
        }
    }
}

/// Recording `pairs` keeps every key of `m` and adds every entity of
/// `pairs`.
pub proof fn lemma_with_pairs_covers<H>(m: Map<u64, H>, pairs: Seq<(u64, H)>)
    ensures
        forall|e: u64| #[trigger] m.contains_key(e) ==> with_pairs(m, pairs).contains_key(e),
        forall|i: int| 0 <= i < pairs.len() ==> with_pairs(m, pairs).contains_key((#[trigger] pairs[i]).0),
    decreases pairs.len(),
{
    if pairs.len() > 0 {
        lemma_with_pairs_covers(m, pairs.drop_last());
        assert forall|i: int| 0 <= i < pairs.len() implies with_pairs(m, pairs).contains_key((#[trigger] pairs[i]).0) by {
            if i < pairs.len() - 1 {
                assert(pairs.drop_last()[i] == pairs[i]);
            }
        }
    }
}

/// No resending: once the handles of a response are recorded, none of its
/// entities is selected to be sent again, nor is any entity that already
/// had a handle.
pub proof fn recorded_entities_are_not_resent<H>(m: Map<u64, H>, pairs: Seq<(u64, H)>, candidates: Seq<u64>)
    ensures
        forall|i: int| 0 <= i < pairs.len() ==> !unsynced(with_pairs(m, pairs), candidates).contains((#[trigger] pairs[i]).0),
        forall|e: u64| #[trigger] m.contains_key(e) ==> !unsynced(with_pairs(m, pairs), candidates).contains(e),
{
    lemma_with_pairs_covers(m, pairs);
    let after = with_pairs(m, pairs);
    let pred = |e: u64| !after.contains_key(e);
    assert forall|e: u64| after.contains_key(e) implies !candidates.filter(pred).contains(e) by {
        if candidates.filter(pred).contains(e) {
            let k = choose|k: int| 0 <= k < candidates.filter(pred).len() && candidates.filter(pred)[k] == e;
            candidates.lemma_filter_pred(pred, k);
        }
    }
}

} // verus!
