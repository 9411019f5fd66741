use crate::ecs::EntityId;
use super::rigid_body::BodyType;
use vstd::prelude::*;

verus! {

/// Whether a pair of colliders is left out because both belong to static
/// bodies. A collider without a body is never left out.
pub open spec fn both_static(a: Option<BodyType>, b: Option<BodyType>) -> bool {
    a == Some(BodyType::Static) && b == Some(BodyType::Static)
}

/// The pairs that the collider in slot `i` forms with the colliders in the
/// slots after it and before `end`, in slot order, without the pairs of two
/// static bodies.
pub open spec fn pairs_with(
    colliders: Seq<(EntityId, Option<BodyType>)>,
    i: int,
    end: int,
) -> Seq<(EntityId, EntityId)>
    decreases end - i,
{
    if end <= i + 1 {
        Seq::empty()
    } else if both_static(colliders[i].1, colliders[end - 1].1) {
        pairs_with(colliders, i, end - 1)
    } else {
        pairs_with(colliders, i, end - 1).push((colliders[i].0, colliders[end - 1].0))
    }
}

/// The pairs that the colliders in the slots before `end` form with the
/// colliders after them, by first slot and then by second.
pub open spec fn pairs_until(colliders: Seq<(EntityId, Option<BodyType>)>, end: int) -> Seq<
    (EntityId, EntityId),
>
    decreases end,
{
    if end <= 0 {
        Seq::empty()
    } else {
        pairs_until(colliders, end - 1) + pairs_with(colliders, end - 1, colliders.len() as int)
    }
}

/// Every unordered pair of colliders once, by first slot and then by
/// second, without the pairs of two static bodies: what the broad phase
/// goes on to test for overlap.
pub open spec fn candidate_pairs(colliders: Seq<(EntityId, Option<BodyType>)>) -> Seq<
    (EntityId, EntityId),
> {
    pairs_until(colliders, colliders.len() as int)
}

/// A pair is among the pairs of slot `i` exactly if its second collider
/// sits in a later slot before `end` and the two are not both static.
pub proof fn lemma_pairs_with(
    colliders: Seq<(EntityId, Option<BodyType>)>,
    i: int,
    end: int,
    pair: (EntityId, EntityId),
)
    requires
        0 <= i < colliders.len(),
        end <= colliders.len(),
    ensures
        pairs_with(colliders, i, end).contains(pair) <==> exists|j: int|
            i < j < end && !both_static(colliders[i].1, (#[trigger] colliders[j]).1) && pair == (
                colliders[i].0,
                colliders[j].0,
            ),
    decreases end - i,
{
    if end > i + 1 {
        lemma_pairs_with(colliders, i, end - 1, pair);
        let before = pairs_with(colliders, i, end - 1);
        let last = (colliders[i].0, colliders[end - 1].0);
        let here = pairs_with(colliders, i, end);
        if both_static(colliders[i].1, colliders[end - 1].1) {
        } else {
            assert(here == before.push(last));
            if here.contains(pair) {
                let k = here.index_of(pair);
                if k < before.len() {
                    assert(before[k] == pair);
                } else {
                    assert(pair == last);
                    assert(colliders[end - 1].0 == pair.1);
                }
            }
            if before.contains(pair) {
                let k = before.index_of(pair);
                assert(here[k] == pair);
            }
            if pair == last {
                assert(here[before.len() as int] == pair);
            }
        }
    }
}

/// A pair is a candidate exactly if its colliders sit in two slots, the
/// first before the second, and are not both static.
pub proof fn lemma_candidate_pairs(
    colliders: Seq<(EntityId, Option<BodyType>)>,
    pair: (EntityId, EntityId),
)
    ensures
        candidate_pairs(colliders).contains(pair) <==> exists|i: int, j: int|
            0 <= i < j < colliders.len() && !both_static(
                (#[trigger] colliders[i]).1,
                (#[trigger] colliders[j]).1,
            ) && pair == (colliders[i].0, colliders[j].0),
{
    lemma_pairs_until(colliders, colliders.len() as int, pair);
}

/// A pair is among the pairs of the slots before `end` exactly if its
/// first collider sits in one of them, its second in a later slot, and the
/// two are not both static.
proof fn lemma_pairs_until(
    colliders: Seq<(EntityId, Option<BodyType>)>,
    end: int,
    pair: (EntityId, EntityId),
)
    requires
        0 <= end <= colliders.len(),
    ensures
        pairs_until(colliders, end).contains(pair) <==> exists|i: int, j: int|
            0 <= i < end && i < j < colliders.len() && !both_static(
                (#[trigger] colliders[i]).1,
                (#[trigger] colliders[j]).1,
            ) && pair == (colliders[i].0, colliders[j].0),
    decreases end,
{
    if end > 0 {
        let n = colliders.len() as int;
        lemma_pairs_until(colliders, end - 1, pair);
        lemma_pairs_with(colliders, end - 1, n, pair);
        let before = pairs_until(colliders, end - 1);
        let row = pairs_with(colliders, end - 1, n);
        let here = pairs_until(colliders, end);
        assert(here == before + row);
        if here.contains(pair) {
            let k = here.index_of(pair);
            if k < before.len() {
                assert(before[k] == pair);
            } else {
                assert(row[k - before.len()] == pair);
            }
        }
        if before.contains(pair) {
            let k = before.index_of(pair);
            assert(here[k] == pair);
        }
        if row.contains(pair) {
            let k = row.index_of(pair);
            assert(here[before.len() + k] == pair);
        }
    }
}

/// The pairs of colliders that the broad phase tests for overlap: every
/// unordered pair once, in the order of the nested walk over `colliders`,
/// skipping the pairs whose two bodies are static.
///
/// Each collider comes with the type of its entity's body, or with nothing
/// when the entity has no body.
pub fn broad_phase_pairs(colliders: &Vec<(EntityId, Option<BodyType>)>) -> (pairs: Vec<
    (EntityId, EntityId),
>)
    ensures
        pairs@ == candidate_pairs(colliders@),
{
    let n = colliders.len();
    let mut pairs: Vec<(EntityId, EntityId)> = Vec::new();
    let mut i: usize = 0;
    while i < n
        invariant
            i <= n,
            n == colliders@.len(),
            pairs@ == pairs_until(colliders@, i as int),
        decreases n - i,
    {
        let (entity_a, body_a) = colliders[i];
        let ghost before = pairs@;
        let mut j: usize = i + 1;
        while j < n
            invariant
                i < j <= n,
                n == colliders@.len(),
                (entity_a, body_a) == colliders@[i as int],
                pairs@ == before + pairs_with(colliders@, i as int, j as int),
            decreases n - j,
        {
            let (entity_b, body_b) = colliders[j];
            let skip = match (body_a, body_b) {
                (Some(a), Some(b)) => a == BodyType::Static && b == BodyType::Static,
                _ => false,
            };
            if !skip {
                pairs.push((entity_a, entity_b));
            }
            assert(pairs@ =~= before + pairs_with(colliders@, i as int, j + 1));
            j += 1;
        }
        i += 1;
    }
    pairs
}

} // verus!
