//! Properties of whole sessions of the server world, over the contracts of
//! its rounds.
use vstd::prelude::*;
use crate::physics::{BodyHandle, ColliderHandle};
use crate::world::{WorldView, applied, with_pairs};

verus! {

/// The pairs of all rounds, one round after the other.
pub open spec fn flatten<H>(rounds: Seq<Seq<(u64, H)>>) -> Seq<(u64, H)>
    decreases rounds.len(),
{
    if rounds.len() == 0 {
        Seq::empty()
    } else {
        flatten(rounds.drop_last()) + rounds.last()
    }
}

/// Entities that are pairwise distinct and none of them a key of `m`.
pub open spec fn fresh_entities<H>(m: Map<u64, H>, pairs: Seq<(u64, H)>) -> bool {
    &&& forall|i: int| 0 <= i < pairs.len() ==> !m.contains_key(#[trigger] pairs[i].0)
    &&& forall|i: int, j: int| 0 <= i < j < pairs.len() ==> pairs[i].0 != pairs[j].0
}

/// Recording pairs of fresh, distinct entities adds one key per pair and
/// maps each entity to its own handle.
pub proof fn lemma_with_fresh_pairs<H>(m: Map<u64, H>, pairs: Seq<(u64, H)>)
    requires
        m.dom().finite(),
        fresh_entities(m, pairs),
    ensures
        with_pairs(m, pairs).dom().finite(),
        with_pairs(m, pairs).dom().len() == m.dom().len() + pairs.len(),
        forall|i: int| 0 <= i < pairs.len() ==> with_pairs(m, pairs).contains_key((#[trigger] pairs[i]).0)
            && with_pairs(m, pairs)[pairs[i].0] == pairs[i].1,
        forall|e: u64| #[trigger] m.contains_key(e) ==> with_pairs(m, pairs).contains_key(e) && with_pairs(m, pairs)[e] == m[e],
    decreases pairs.len(),
{
    if pairs.len() > 0 {
        let init = pairs.drop_last();
        assert(fresh_entities(m, init)) by {
            assert forall|i: int, j: int| 0 <= i < j < init.len() implies init[i].0 != init[j].0 by {
                assert(init[i] == pairs[i] && init[j] == pairs[j]);
            }
            assert forall|i: int| 0 <= i < init.len() implies !m.contains_key(#[trigger] init[i].0) by {
                assert(init[i] == pairs[i]);
            }
        }
        lemma_with_fresh_pairs(m, init);
        let last = pairs.last();
        assert(!with_pairs(m, init).contains_key(last.0)) by {
            if with_pairs(m, init).contains_key(last.0) {
                assert(!m.contains_key(pairs[pairs.len() - 1].0));
                assert(exists|i: int| 0 <= i < init.len() && init[i].0 == last.0) by {
                    assert(with_pairs(m, init).dom().contains(last.0));
                    lemma_with_pairs_keys(m, init, last.0);
                }
                let i = choose|i: int| 0 <= i < init.len() && init[i].0 == last.0;
                assert(pairs[i].0 != pairs[pairs.len() - 1].0);
            }
        }
        assert forall|e: u64| m.contains_key(e) implies with_pairs(m, pairs).contains_key(e) && with_pairs(m, pairs)[e] == m[e] by {
            assert(!m.contains_key(pairs[pairs.len() - 1].0));
        }
        assert forall|i: int| 0 <= i < pairs.len() implies with_pairs(m, pairs).contains_key((#[trigger] pairs[i]).0)
            && with_pairs(m, pairs)[pairs[i].0] == pairs[i].1 by {
            if i < pairs.len() - 1 {
                assert(init[i] == pairs[i]);
                assert(pairs[i].0 != pairs[pairs.len() - 1].0);
            }
        }
    }
}

/// A key of `with_pairs(m, pairs)` is a key of `m` or the entity of a pair.
pub proof fn lemma_with_pairs_keys<H>(m: Map<u64, H>, pairs: Seq<(u64, H)>, e: u64)
    requires
        with_pairs(m, pairs).contains_key(e),
        !m.contains_key(e),
    ensures
        exists|i: int| 0 <= i < pairs.len() && pairs[i].0 == e,
    decreases pairs.len(),
{
    if pairs.len() > 0 {
        if pairs.last().0 != e {
            lemma_with_pairs_keys(m, pairs.drop_last(), e);
            let i = choose|i: int| 0 <= i < pairs.drop_last().len() && pairs.drop_last()[i].0 == e;
            assert(pairs[i].0 == e);
        } else {
            assert(pairs[pairs.len() - 1].0 == e);
        }
    }
}

/// Growth accounting: over a session of rounds whose entities were never
/// seen before (none already in the world, none repeated), the body and
/// collider pairs handed back number exactly the bodies and colliders sent,
/// each handle map gains exactly one entry per pair (so no entity ends up
/// recorded twice), each entity maps to the handle handed back for it, and
/// each store grows by exactly its count.
pub proof fn growth_accounting(
    worlds: Seq<WorldView>,
    bodies: Seq<Seq<(u64, BodyHandle)>>,
    colliders: Seq<Seq<(u64, ColliderHandle)>>,
)
    requires
        worlds.len() == bodies.len() + 1,
        colliders.len() == bodies.len(),
        worlds[0].wf(),
        worlds[0].entity2body.dom().finite(),
        worlds[0].entity2collider.dom().finite(),
        forall|i: int| 0 <= i < bodies.len() ==> applied(#[trigger] worlds[i], (bodies[i], colliders[i]), worlds[i + 1]),
        fresh_entities(worlds[0].entity2body, flatten(bodies)),
        fresh_entities(worlds[0].entity2collider, flatten(colliders)),
    ensures
        worlds.last().entity2body == with_pairs(worlds[0].entity2body, flatten(bodies)),
        worlds.last().entity2collider == with_pairs(worlds[0].entity2collider, flatten(colliders)),
        worlds.last().entity2body.dom().len() == worlds[0].entity2body.dom().len() + flatten(bodies).len(),
        worlds.last().entity2collider.dom().len() == worlds[0].entity2collider.dom().len() + flatten(colliders).len(),
        worlds.last().bodies.len() == worlds[0].bodies.len() + flatten(bodies).len(),
        worlds.last().colliders.len() == worlds[0].colliders.len() + flatten(colliders).len(),
        forall|i: int| 0 <= i < flatten(bodies).len() ==> worlds.last().entity2body[(#[trigger] flatten(bodies)[i]).0]
            == flatten(bodies)[i].1,
        forall|i: int| 0 <= i < flatten(colliders).len() ==> worlds.last().entity2collider[(#[trigger] flatten(colliders)[i]).0]
            == flatten(colliders)[i].1,
    decreases bodies.len(),
{
    if bodies.len() > 0 {
        let n = bodies.len() - 1;
        let ws = worlds.drop_last();
        let bs = bodies.drop_last();
        let cs = colliders.drop_last();
        assert(flatten(bodies) == flatten(bs) + bodies[n]);
        assert(flatten(colliders) == flatten(cs) + colliders[n]);
        lemma_fresh_prefix(worlds[0].entity2body, flatten(bs), bodies[n]);
        lemma_fresh_prefix(worlds[0].entity2collider, flatten(cs), colliders[n]);
        assert forall|i: int| 0 <= i < bs.len() implies applied(#[trigger] ws[i], (bs[i], cs[i]), ws[i + 1]) by {
            assert(applied(worlds[i], (bodies[i], colliders[i]), worlds[i + 1]));
        }
        growth_accounting(ws, bs, cs);
        assert(applied(worlds[n], (bodies[n], colliders[n]), worlds[n + 1]));
        lemma_with_pairs_concat(worlds[0].entity2body, flatten(bs), bodies[n]);
        lemma_with_pairs_concat(worlds[0].entity2collider, flatten(cs), colliders[n]);
        lemma_with_fresh_pairs(worlds[0].entity2body, flatten(bodies));
        lemma_with_fresh_pairs(worlds[0].entity2collider, flatten(colliders));
    } else {
        assert(flatten(bodies) =~= Seq::<(u64, BodyHandle)>::empty());
        assert(flatten(colliders) =~= Seq::<(u64, ColliderHandle)>::empty());
    }
}

/// Freshness of a whole listing holds of its first part.
proof fn lemma_fresh_prefix<H>(m: Map<u64, H>, a: Seq<(u64, H)>, b: Seq<(u64, H)>)
    requires
        fresh_entities(m, a + b),
    ensures
        fresh_entities(m, a),
{
    assert forall|i: int| 0 <= i < a.len() implies !m.contains_key(#[trigger] a[i].0) by {
        assert((a + b)[i] == a[i]);
    }
    assert forall|i: int, j: int| 0 <= i < j < a.len() implies a[i].0 != a[j].0 by {
        assert((a + b)[i] == a[i] && (a + b)[j] == a[j]);
    }
}

/// Recording two listings in turn records their concatenation.
pub proof fn lemma_with_pairs_concat<H>(m: Map<u64, H>, a: Seq<(u64, H)>, b: Seq<(u64, H)>)
    ensures
        with_pairs(with_pairs(m, a), b) == with_pairs(m, a + b),
    decreases b.len(),
{
    if b.len() == 0 {
        assert(a + b =~= a);
    } else {
        lemma_with_pairs_concat(m, a, b.drop_last());
        assert((a + b).drop_last() =~= a + b.drop_last());
        assert((a + b).last() == b.last());
    }
}

/// Transform completeness: after a round that adds `k` bodies to a world
/// holding `m`, and a physics step that keeps the body store's handles, the
/// world holds `m + k` bodies, which is the number of poses the answer to
/// the round lists.
pub proof fn transform_completeness(
    before: WorldView,
    round: (Seq<(u64, BodyHandle)>, Seq<(u64, ColliderHandle)>),
    after_round: WorldView,
    after_step: WorldView,
)
    requires
        applied(before, round, after_round),
        after_step.bodies == after_round.bodies,
    ensures
        after_step.bodies.len() == before.bodies.len() + round.0.len(),
{
}

} // verus!
