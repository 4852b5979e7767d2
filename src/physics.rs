//! The physics engine's body and collider stores (rapier's arenas), behind
//! the items whose contracts are trusted. Handles leave these items as
//! plain (index, generation) pairs.
use vstd::prelude::*;

verus! {

#[verifier::external_type_specification]
#[verifier::external_body]
pub struct ExRigidBodySet(rapier3d::dynamics::RigidBodySet);

#[verifier::external_type_specification]
#[verifier::external_body]
pub struct ExColliderSet(rapier3d::geometry::ColliderSet);

#[verifier::external_type_specification]
#[verifier::external_body]
pub struct ExRigidBody(rapier3d::dynamics::RigidBody);

#[verifier::external_type_specification]
#[verifier::external_body]
pub struct ExColliderBuilder(rapier3d::geometry::ColliderBuilder);

/// A rigid body's handle in the body store.
#[derive(Debug, Clone, Copy, PartialEq, Eq, Structural)]
pub struct BodyHandle {
    pub index: u32,
    pub generation: u32,
}

/// A collider's handle in the collider store.
#[derive(Debug, Clone, Copy, PartialEq, Eq, Structural)]
pub struct ColliderHandle {
    pub index: u32,
    pub generation: u32,
}

impl BodyHandle {
    pub open spec fn parts(self) -> (u32, u32) {
        (self.index, self.generation)
    }
}

impl ColliderHandle {
    pub open spec fn parts(self) -> (u32, u32) {
        (self.index, self.generation)
    }
}

/// The handles of the bodies a body store holds.
pub uninterp spec fn body_handles(s: rapier3d::dynamics::RigidBodySet) -> Set<(u32, u32)>;

/// The handles of the colliders a collider store holds.
pub uninterp spec fn collider_handles(s: rapier3d::geometry::ColliderSet) -> Set<(u32, u32)>;

/// For each collider of a store that is attached to a body, that body.
pub uninterp spec fn collider_parents(s: rapier3d::geometry::ColliderSet) -> Map<(u32, u32), (u32, u32)>;

/// Relies on rapier's RigidBodySet::new: an empty store.
pub assume_specification[ rapier3d::dynamics::RigidBodySet::new ]() -> (r: rapier3d::dynamics::RigidBodySet)
    ensures
        body_handles(r) == Set::<(u32, u32)>::empty(),
;

/// Relies on rapier's ColliderSet::new: an empty store.
pub assume_specification[ rapier3d::geometry::ColliderSet::new ]() -> (r: rapier3d::geometry::ColliderSet)
    ensures
        collider_handles(r) == Set::<(u32, u32)>::empty(),
        collider_parents(r).dom() == Set::<(u32, u32)>::empty(),
;

/// Relies on rapier's RigidBodySet::insert: the arena hands out a handle
/// that it does not hold yet (a free slot carries a new generation), and
/// holds it afterwards.
#[verifier::external_body]
pub(crate) fn insert_body(set: &mut rapier3d::dynamics::RigidBodySet, rb: rapier3d::dynamics::RigidBody) -> (r: BodyHandle)
    ensures
        !body_handles(*old(set)).contains(r.parts()),
        body_handles(*final(set)) == body_handles(*old(set)).insert(r.parts()),
{
    let (index, generation) = set.insert(rb).into_raw_parts();
    BodyHandle { index, generation }
}

/// Relies on rapier's ColliderSet::insert: a new handle for a collider
/// attached to no body.
#[verifier::external_body]
pub(crate) fn insert_collider(set: &mut rapier3d::geometry::ColliderSet, c: rapier3d::geometry::ColliderBuilder) -> (r: ColliderHandle)
    ensures
        !collider_handles(*old(set)).contains(r.parts()),
        collider_handles(*final(set)) == collider_handles(*old(set)).insert(r.parts()),
        collider_parents(*final(set)) == collider_parents(*old(set)).remove(r.parts()),
{
    let (index, generation) = set.insert(c).into_raw_parts();
    ColliderHandle { index, generation }
}

/// Relies on rapier's ColliderSet::insert_with_parent: a new handle for a
/// collider attached to `parent`; it panics when the body store does not
/// hold `parent`, and it keeps the store's bodies.
#[verifier::external_body]
pub(crate) fn insert_collider_with_parent(
    set: &mut rapier3d::geometry::ColliderSet,
    c: rapier3d::geometry::ColliderBuilder,
    parent: BodyHandle,
    bodies: &mut rapier3d::dynamics::RigidBodySet,
) -> (r: ColliderHandle)
    requires
        body_handles(*old(bodies)).contains(parent.parts()),
    ensures
        !collider_handles(*old(set)).contains(r.parts()),
        collider_handles(*final(set)) == collider_handles(*old(set)).insert(r.parts()),
        collider_parents(*final(set)) == collider_parents(*old(set)).insert(r.parts(), parent.parts()),
        body_handles(*final(bodies)) == body_handles(*old(bodies)),
{
    let parent = rapier3d::dynamics::RigidBodyHandle::from_raw_parts(parent.index, parent.generation);
    let (index, generation) = set.insert_with_parent(c, parent, bodies).into_raw_parts();
    ColliderHandle { index, generation }
}

/// Relies on rapier's Collider::parent, read through ColliderSet::get: the
/// body a stored collider is attached to.
#[verifier::external_body]
pub(crate) fn parent_of(set: &rapier3d::geometry::ColliderSet, c: ColliderHandle) -> (r: Option<BodyHandle>)
    ensures
        r matches Some(b) ==> collider_parents(*set).contains_key(c.parts()) && collider_parents(*set)[c.parts()] == b.parts(),
        r is None ==> !collider_parents(*set).contains_key(c.parts()),
{
    let c = rapier3d::geometry::ColliderHandle::from_raw_parts(c.index, c.generation);
    let parent = set.get(c).and_then(rapier3d::geometry::Collider::parent);
    parent.map(|b| {
        let (index, generation) = b.into_raw_parts();
        BodyHandle { index, generation }
    })
}

} // verus!
