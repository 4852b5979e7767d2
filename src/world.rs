//! The server's persistent world: the physics stores and, per entity, the
//! handles of what was created for it. Requests only ever add to it.
use vstd::prelude::*;
use std::collections::HashMap;
use crate::physics::{
    BodyHandle, ColliderHandle, body_handles, collider_handles, collider_parents, insert_body,
    insert_collider, insert_collider_with_parent, parent_of,
};

verus! {

broadcast use vstd::std_specs::hash::group_hash_axioms;

/// New objects to add to the world in one round, each with the id of the
/// entity that owns it.
pub struct SyncRequest {
    pub rigid_bodies: Vec<(u64, rapier3d::dynamics::RigidBody)>,
    pub colliders: Vec<(u64, rapier3d::geometry::ColliderBuilder)>,
}

/// A message from the client: objects for a round, or the end of the
/// session.
pub enum Request {
    SyncContext(SyncRequest),
    Shutdown,
}

/// The handles created in one round, each with its entity.
pub struct RoundHandles {
    pub rigid_body_handles: Vec<(u64, BodyHandle)>,
    pub collider_handles: Vec<(u64, ColliderHandle)>,
}

/// The answer to a round: the handles created in it, and every body the
/// world holds, whose pose goes back to the client.
pub struct SyncResponse {
    pub rigid_body_handles: Vec<(u64, BodyHandle)>,
    pub collider_handles: Vec<(u64, ColliderHandle)>,
    pub bodies: Vec<(u64, BodyHandle)>,
}

pub struct WorldView {
    pub bodies: Set<(u32, u32)>,
    pub colliders: Set<(u32, u32)>,
    pub parents: Map<(u32, u32), (u32, u32)>,
    pub entity2body: Map<u64, BodyHandle>,
    pub entity2collider: Map<u64, ColliderHandle>,
    /// Every body made, with its entity, in the order of making.
    pub roster: Seq<(u64, BodyHandle)>,
}

/// `m` after recording each pair in turn, a later pair for the same key
/// replacing an earlier one.
pub open spec fn with_pairs<H>(m: Map<u64, H>, pairs: Seq<(u64, H)>) -> Map<u64, H>
    decreases pairs.len(),
{
    if pairs.len() == 0 {
        m
    } else {
        with_pairs(m, pairs.drop_last()).insert(pairs.last().0, pairs.last().1)
    }
}

/// The raw parts of the body handles of `pairs`.
pub open spec fn body_parts(pairs: Seq<(u64, BodyHandle)>) -> Seq<(u32, u32)> {
    pairs.map_values(|p: (u64, BodyHandle)| p.1.parts())
}

/// The raw parts of the collider handles of `pairs`.
pub open spec fn collider_parts(pairs: Seq<(u64, ColliderHandle)>) -> Seq<(u32, u32)> {
    pairs.map_values(|p: (u64, ColliderHandle)| p.1.parts())
}

/// Handles that are pairwise distinct and none of them in `old`.
pub open spec fn fresh_handles(old: Set<(u32, u32)>, hs: Seq<(u32, u32)>) -> bool {
    &&& forall|i: int| 0 <= i < hs.len() ==> !old.contains(#[trigger] hs[i])
    &&& forall|i: int, j: int| 0 <= i < j < hs.len() ==> hs[i] != hs[j]
}

/// What a round makes of a world: `next` holds the bodies and colliders of
/// `w` and the new ones of `r`, the handle maps record `r`'s pairs, and
/// each new collider hangs from its entity's body when that entity has one.
pub open spec fn applied(w: WorldView, r: (Seq<(u64, BodyHandle)>, Seq<(u64, ColliderHandle)>), next: WorldView) -> bool {
    let (bs, cs) = r;
    &&& fresh_handles(w.bodies, body_parts(bs))
    &&& next.bodies == w.bodies + body_parts(bs).to_set()
    &&& next.bodies.len() == w.bodies.len() + bs.len()
    &&& next.entity2body == with_pairs(w.entity2body, bs)
    &&& fresh_handles(w.colliders, collider_parts(cs))
    &&& next.colliders == w.colliders + collider_parts(cs).to_set()
    &&& next.colliders.len() == w.colliders.len() + cs.len()
    &&& next.entity2collider == with_pairs(w.entity2collider, cs)
    &&& forall|i: int| 0 <= i < cs.len() ==> {
        let (e, h) = #[trigger] cs[i];
        if next.entity2body.contains_key(e) {
            next.parents.contains_key(h.parts()) && next.parents[h.parts()] == next.entity2body[e].parts()
        } else {
            !next.parents.contains_key(h.parts())
        }
    }
}

pub struct ServerWorld {
    bodies: rapier3d::dynamics::RigidBodySet,
    colliders: rapier3d::geometry::ColliderSet,
    entity2body: HashMap<u64, BodyHandle>,
    entity2collider: HashMap<u64, ColliderHandle>,
    roster: Vec<(u64, BodyHandle)>,
}

impl View for ServerWorld {
    type V = WorldView;

    closed spec fn view(&self) -> WorldView {
        WorldView {
            bodies: body_handles(self.bodies),
            colliders: collider_handles(self.colliders),
            parents: collider_parents(self.colliders),
            entity2body: self.entity2body@,
            entity2collider: self.entity2collider@,
            roster: self.roster@,
        }
    }
}

impl WorldView {
    /// Finite stores; every recorded handle, and every collider's parent,
    /// is held by its store.
    pub open spec fn wf(self) -> bool {
        &&& self.bodies.finite()
        &&& self.colliders.finite()
        &&& forall|e: u64| self.entity2body.contains_key(e) ==> self.bodies.contains(#[trigger] self.entity2body[e].parts())
        &&& forall|e: u64| self.entity2collider.contains_key(e) ==> self.colliders.contains(#[trigger] self.entity2collider[e].parts())
        &&& forall|h: (u32, u32)| self.parents.contains_key(h) ==> self.colliders.contains(h)
        &&& self.bodies == body_parts(self.roster).to_set()
        &&& fresh_handles(Set::empty(), body_parts(self.roster))
    }
}

/// Recording a new body in the listing keeps it exact and free of repeats.
proof fn lemma_track_push(roster: Seq<(u64, BodyHandle)>, bodies: Set<(u32, u32)>, p: (u64, BodyHandle))
    requires
        bodies == body_parts(roster).to_set(),
        fresh_handles(Set::empty(), body_parts(roster)),
        !bodies.contains(p.1.parts()),
    ensures
        bodies.insert(p.1.parts()) == body_parts(roster.push(p)).to_set(),
        fresh_handles(Set::empty(), body_parts(roster.push(p))),
{
    assert(body_parts(roster.push(p)) =~= body_parts(roster).push(p.1.parts()));
    lemma_fresh_push(Set::empty(), Set::empty() + body_parts(roster).to_set(), body_parts(roster), p.1.parts());
    assert(Set::<(u32, u32)>::empty() + body_parts(roster).to_set() =~= bodies);
    assert(Set::<(u32, u32)>::empty() + body_parts(roster.push(p)).to_set() =~= body_parts(roster.push(p)).to_set());
}

/// A listing without repeated handles has as many entries as its set.
proof fn lemma_roster_len(roster: Seq<(u64, BodyHandle)>)
    requires
        fresh_handles(Set::empty(), body_parts(roster)),
    ensures
        body_parts(roster).to_set().len() == roster.len(),
{
    let hs = body_parts(roster);
    assert forall|i: int, j: int| 0 <= i < hs.len() && 0 <= j < hs.len() && i != j implies hs[i] != hs[j] by {
        if i > j {
            assert(hs[j] != hs[i]);
        }
    }
    hs.unique_seq_to_set();
}

proof fn lemma_fresh_push(old: Set<(u32, u32)>, cur: Set<(u32, u32)>, hs: Seq<(u32, u32)>, h: (u32, u32))
    requires
        fresh_handles(old, hs),
        cur == old + hs.to_set(),
        !cur.contains(h),
    ensures
        fresh_handles(old, hs.push(h)),
        cur.insert(h) == old + hs.push(h).to_set(),
{
    assert forall|i: int| 0 <= i < hs.len() implies hs[i] != h by {
        assert(hs.to_set().contains(hs[i]));
    }
    assert(hs.push(h).to_set() =~= hs.to_set().insert(h)) by {
        assert forall|x: (u32, u32)| hs.push(h).to_set().contains(x) implies hs.to_set().insert(h).contains(x) by {
            let i = choose|i: int| 0 <= i < hs.push(h).len() && hs.push(h)[i] == x;
            if i < hs.len() {
                assert(hs.to_set().contains(hs[i]));
            }
        }
        assert forall|x: (u32, u32)| hs.to_set().insert(h).contains(x) implies hs.push(h).to_set().contains(x) by {
            if x != h {
                let i = choose|i: int| 0 <= i < hs.len() && hs[i] == x;
                assert(hs.push(h)[i] == x);
            } else {
                assert(hs.push(h)[hs.len() as int] == h);
            }
        }
    }
    assert(cur.insert(h) =~= old + hs.push(h).to_set());
}

impl ServerWorld {
    /// An empty world.
    pub fn new() -> (r: ServerWorld)
        ensures
            r@.wf(),
            r@.bodies == Set::<(u32, u32)>::empty(),
            r@.colliders == Set::<(u32, u32)>::empty(),
            r@.entity2body == Map::<u64, BodyHandle>::empty(),
            r@.entity2collider == Map::<u64, ColliderHandle>::empty(),
            r@.roster == Seq::<(u64, BodyHandle)>::empty(),
    {
        let r = ServerWorld {
            bodies: rapier3d::dynamics::RigidBodySet::new(),
            colliders: rapier3d::geometry::ColliderSet::new(),
            entity2body: HashMap::new(),
            entity2collider: HashMap::new(),
            roster: Vec::new(),
        };
        assert(body_parts(r.roster@).to_set() =~= Set::<(u32, u32)>::empty());
        r
    }

    /// Number of bodies the world holds.
    pub fn body_count(&self) -> (r: usize)
        requires
            self@.wf(),
        ensures
            r == self@.bodies.len(),
    {
        proof { lemma_roster_len(self@.roster); }
        self.roster.len()
    }

    /// The body created for an entity, if any.
    pub fn body_of(&self, entity: u64) -> (r: Option<BodyHandle>)
        ensures
            r == (if self@.entity2body.contains_key(entity) { Some(self@.entity2body[entity]) } else { None::<BodyHandle> }),
    {
        match self.entity2body.get(&entity) {
            Some(h) => Some(*h),
            None => None,
        }
    }

    /// The collider created for an entity, if any.
    pub fn collider_of(&self, entity: u64) -> (r: Option<ColliderHandle>)
        ensures
            r == (if self@.entity2collider.contains_key(entity) { Some(self@.entity2collider[entity]) } else { None::<ColliderHandle> }),
    {
        match self.entity2collider.get(&entity) {
            Some(h) => Some(*h),
            None => None,
        }
    }

    /// The body a collider hangs from, if any.
    pub fn parent_of(&self, c: ColliderHandle) -> (r: Option<BodyHandle>)
        ensures
            r matches Some(b) ==> self@.parents.contains_key(c.parts()) && self@.parents[c.parts()] == b.parts(),
            r is None ==> !self@.parents.contains_key(c.parts()),
    {
        parent_of(&self.colliders, c)
    }

    /// The body store, for reading poses.
    pub fn bodies(&self) -> (r: &rapier3d::dynamics::RigidBodySet)
        ensures
            body_handles(*r) == self@.bodies,
    {
        &self.bodies
    }

    /// Both stores, for the physics step, which moves bodies but adds or
    /// removes none.
    pub fn stores_mut(&mut self) -> (r: (&mut rapier3d::dynamics::RigidBodySet, &mut rapier3d::geometry::ColliderSet))
        ensures
            body_handles(*r.0) == old(self)@.bodies,
            collider_handles(*r.1) == old(self)@.colliders,
            collider_parents(*r.1) == old(self)@.parents,
            final(self)@ == (WorldView {
                bodies: body_handles(*final(r.0)),
                colliders: collider_handles(*final(r.1)),
                parents: collider_parents(*final(r.1)),
                ..old(self)@
            }),
    {
        (&mut self.bodies, &mut self.colliders)
    }

    /// Adds a round's bodies, then its colliders. Each collider is attached
    /// to the body of its entity when the world has one (made earlier or in
    /// this round), and stands free otherwise. Returns the handles made, in
    /// request order.
    pub fn apply(&mut self, req: SyncRequest) -> (r: RoundHandles)
        requires
            old(self)@.wf(),
        ensures
            final(self)@.wf(),
            r.rigid_body_handles@.len() == req.rigid_bodies@.len(),
            r.collider_handles@.len() == req.colliders@.len(),
            forall|i: int| 0 <= i < req.rigid_bodies@.len() ==> (#[trigger] r.rigid_body_handles@[i]).0 == req.rigid_bodies@[i].0,
            forall|i: int| 0 <= i < req.colliders@.len() ==> (#[trigger] r.collider_handles@[i]).0 == req.colliders@[i].0,
            final(self)@.roster == old(self)@.roster + r.rigid_body_handles@,
            applied(old(self)@, (r.rigid_body_handles@, r.collider_handles@), final(self)@),
    {
        let SyncRequest { rigid_bodies, colliders } = req;
        let ghost w0 = self@;
        let ghost bs = rigid_bodies@;
        let k = rigid_bodies.len();
        let mut todo = reversed(rigid_bodies);
        let mut body_pairs: Vec<(u64, BodyHandle)> = Vec::new();
        while todo.len() > 0
            invariant
                self@.wf(),
                body_pairs@.len() + todo@.len() == k,
                k == bs.len(),
                forall|j: int| 0 <= j < todo@.len() ==> todo@[j] == bs[k - 1 - j],
                forall|j: int| 0 <= j < body_pairs@.len() ==> (#[trigger] body_pairs@[j]).0 == bs[j].0,
                fresh_handles(w0.bodies, body_parts(body_pairs@)),
                self@.bodies == w0.bodies + body_parts(body_pairs@).to_set(),
                self@.bodies.len() == w0.bodies.len() + body_pairs@.len(),
                self@.entity2body == with_pairs(w0.entity2body, body_pairs@),
                self@.roster == w0.roster + body_pairs@,
                self@.colliders == w0.colliders,
                self@.parents == w0.parents,
                self@.entity2collider == w0.entity2collider,
            decreases todo@.len(),
        {
            let ghost i = body_pairs@.len();
            let (entity, rb) = todo.pop().unwrap();
            let ghost before = self@;
            let handle = insert_body(&mut self.bodies, rb);
            self.entity2body.insert(entity, handle);
            proof {
                lemma_fresh_push(w0.bodies, before.bodies, body_parts(body_pairs@), handle.parts());
                lemma_track_push(before.roster, before.bodies, (entity, handle));
                assert(body_parts(body_pairs@.push((entity, handle))) =~= body_parts(body_pairs@).push(handle.parts()));
                assert(body_pairs@.push((entity, handle)).drop_last() =~= body_pairs@);
                assert(w0.roster + body_pairs@.push((entity, handle)) =~= before.roster.push((entity, handle)));
            }
            body_pairs.push((entity, handle));
            self.roster.push((entity, handle));
            proof {
                assert(body_pairs@[i as int].0 == bs[i as int].0);
            }
        }
        let ghost w1 = self@;
        let ghost cs = colliders@;
        let c = colliders.len();
        let mut todo = reversed(colliders);
        let mut collider_pairs: Vec<(u64, ColliderHandle)> = Vec::new();
        while todo.len() > 0
            invariant
                self@.wf(),
                collider_pairs@.len() + todo@.len() == c,
                c == cs.len(),
                forall|j: int| 0 <= j < todo@.len() ==> todo@[j] == cs[c - 1 - j],
                forall|j: int| 0 <= j < collider_pairs@.len() ==> (#[trigger] collider_pairs@[j]).0 == cs[j].0,
                fresh_handles(w1.colliders, collider_parts(collider_pairs@)),
                self@.colliders == w1.colliders + collider_parts(collider_pairs@).to_set(),
                self@.colliders.len() == w1.colliders.len() + collider_pairs@.len(),
                self@.entity2collider == with_pairs(w1.entity2collider, collider_pairs@),
                self@.bodies == w1.bodies,
                self@.roster == w1.roster,
                self@.entity2body == w1.entity2body,
                forall|i: int| 0 <= i < collider_pairs@.len() ==> {
                    let (e, h) = #[trigger] collider_pairs@[i];
                    if self@.entity2body.contains_key(e) {
                        self@.parents.contains_key(h.parts()) && self@.parents[h.parts()] == self@.entity2body[e].parts()
                    } else {
                        !self@.parents.contains_key(h.parts())
                    }
                },
            decreases todo@.len(),
        {
            let ghost i = collider_pairs@.len();
            let (entity, cb) = todo.pop().unwrap();
            let ghost before = self@;
            let handle = match self.entity2body.get(&entity) {
                Some(b) => insert_collider_with_parent(&mut self.colliders, cb, *b, &mut self.bodies),
                None => insert_collider(&mut self.colliders, cb),
            };
            self.entity2collider.insert(entity, handle);
            proof {
                lemma_fresh_push(w1.colliders, before.colliders, collider_parts(collider_pairs@), handle.parts());
                assert(collider_parts(collider_pairs@.push((entity, handle))) =~= collider_parts(collider_pairs@).push(handle.parts()));
                assert(collider_pairs@.push((entity, handle)).drop_last() =~= collider_pairs@);
                assert forall|i: int| 0 <= i < collider_pairs@.len() implies collider_pairs@[i].1.parts() != handle.parts() by {
                    assert(collider_parts(collider_pairs@)[i] == collider_pairs@[i].1.parts());
                    assert(collider_parts(collider_pairs@).to_set().contains(collider_parts(collider_pairs@)[i]));
                }
            }
            collider_pairs.push((entity, handle));
            proof {
                assert(collider_pairs@[i as int].0 == cs[i as int].0);
            }
        }
        RoundHandles { rigid_body_handles: body_pairs, collider_handles: collider_pairs }
    }

    /// Decides on one client message: a round is applied and its handles
    /// returned; the end of the session leaves the world as it is and asks
    /// for no answer.
    pub fn handle(&mut self, req: Request) -> (r: Option<RoundHandles>)
        requires
            old(self)@.wf(),
        ensures
            final(self)@.wf(),
            req is Shutdown ==> r is None && final(self)@ == old(self)@,
            req matches Request::SyncContext(s) ==> r matches Some(h) && h.rigid_body_handles@.len()
                == s.rigid_bodies@.len() && h.collider_handles@.len() == s.colliders@.len() && applied(
                old(self)@,
                (h.rigid_body_handles@, h.collider_handles@),
                final(self)@,
            ),
    {
        match req {
            Request::SyncContext(s) => Some(self.apply(s)),
            Request::Shutdown => None,
        }
    }

    /// The answer to a round: its handles, and every body the world holds
    /// with its entity, in the order the bodies were made.
    pub fn respond(&self, round: RoundHandles) -> (r: SyncResponse)
        requires
            self@.wf(),
        ensures
            r.rigid_body_handles == round.rigid_body_handles,
            r.collider_handles == round.collider_handles,
            r.bodies@ == self@.roster,
            r.bodies@.len() == self@.bodies.len(),
    {
        let mut bodies: Vec<(u64, BodyHandle)> = Vec::new();
        let mut i: usize = 0;
        while i < self.roster.len()
            invariant
                i <= self.roster@.len(),
                bodies@ == self.roster@.subrange(0, i as int),
            decreases self.roster@.len() - i,
        {
            bodies.push(self.roster[i]);
            i = i + 1;
            assert(bodies@ =~= self.roster@.subrange(0, i as int));
        }
        assert(self.roster@.subrange(0, self.roster@.len() as int) =~= self.roster@);
        proof { lemma_roster_len(self@.roster); }
        SyncResponse {
            rigid_body_handles: round.rigid_body_handles,
            collider_handles: round.collider_handles,
            bodies,
        }
    }
}

/// The items of `v` in reverse order, so that popping gives them in order.
fn reversed<T>(v: Vec<T>) -> (r: Vec<T>)
    ensures
        r@.len() == v@.len(),
        forall|j: int| 0 <= j < r@.len() ==> r@[j] == v@[v@.len() - 1 - j],
{
    let ghost orig = v@;
    let mut v = v;
    let mut r: Vec<T> = Vec::new();
    while v.len() > 0
        invariant
            r@.len() + v@.len() == orig.len(),
            v@ == orig.subrange(0, v@.len() as int),
            forall|j: int| 0 <= j < r@.len() ==> r@[j] == orig[orig.len() - 1 - j],
        decreases v@.len(),
    {
        let x = v.pop().unwrap();
        r.push(x);
    }
    r
}

} // verus!
