//! Looking over a subtree before it is despawned.

use crate::hierarchy::{
    children_in, in_generation, lemma_closed_set_holds_generation, lemma_generation_exists,
    lemma_listed_and_existing, listed_below, subtree, within_count,
};
use crate::world::{can_free, children_of, generation_of, hierarchy_of, same_entity};
use bevy::ecs::entity::Entity;
use bevy::ecs::world::World;
use vstd::prelude::*;
use vstd::set_lib::lemma_len_subset;

verus! {

/// Whether `entity` is one of `found`.
fn is_among(found: &Vec<Entity>, entity: Entity) -> (yes: bool)
    ensures
        yes == found@.contains(entity),
{
    let mut at: usize = 0;
    while at < found.len()
        invariant
            at <= found.len(),
            forall|i: int| 0 <= i < at ==> found@[i] != entity,
        decreases found.len() - at,
    {
        if same_entity(found[at], entity) {
            return true;
        }
        at = at + 1;
    }
    false
}

/// Goes through `top` and everything listed below it, as long as that is
/// at most `max_entities` entities, and says whether each of them can be
/// freed. The result is `None` where there are more.
pub(crate) fn survey(world: &World, top: Entity, max_entities: usize) -> (fit: Option<bool>)
    ensures
        fit is Some == within_count(
            listed_below(hierarchy_of(*world), top),
            max_entities as nat,
        ),
        fit matches Some(free) ==> free == can_free(listed_below(hierarchy_of(*world), top)),
{
    let ghost nodes = hierarchy_of(*world);
    let ghost all = listed_below(nodes, top);
    if max_entities == 0 {
        assert(all.contains(top));
        return None;
    }
    let mut found: Vec<Entity> = Vec::new();
    found.push(top);
    let mut looked: usize = 0;
    let mut free = true;
    while looked < found.len()
        invariant
            nodes == hierarchy_of(*world),
            all == listed_below(nodes, top),
            looked <= found.len() <= max_entities,
            found.len() > 0,
            found@[0] == top,
            found@.no_duplicates(),
            forall|i: int| 0 <= i < found.len() ==> all.contains(#[trigger] found@[i]),
            forall|i: int, child: Entity|
                0 <= i < looked && #[trigger] children_in(nodes, found@[i]).contains(child)
                    ==> found@.contains(child),
            free == forall|i: int|
                0 <= i < looked ==> generation_of(#[trigger] found@[i]) < u32::MAX,
        decreases max_entities - looked,
    {
        let entity = found[looked];
        if entity.generation() == u32::MAX {
            free = false;
        }
        let children = children_of(world, entity);
        let mut at: usize = 0;
        while at < children.len()
            invariant
                nodes == hierarchy_of(*world),
                all == listed_below(nodes, top),
                children@ == children_in(nodes, entity),
                at <= children.len(),
                looked < found.len() <= max_entities,
                found@[looked as int] == entity,
                found@[0] == top,
                found@.no_duplicates(),
                forall|i: int| 0 <= i < found.len() ==> all.contains(#[trigger] found@[i]),
                forall|i: int, child: Entity|
                    0 <= i < looked && #[trigger] children_in(nodes, found@[i]).contains(child)
                        ==> found@.contains(child),
                forall|k: int| 0 <= k < at ==> found@.contains(#[trigger] children@[k]),
                free == forall|i: int|
                    0 <= i <= looked ==> generation_of(#[trigger] found@[i]) < u32::MAX,
            decreases children.len() - at,
        {
            let child = children[at];
            proof {
                if nodes.dom().contains(entity) {
                    lemma_listed_and_existing(nodes, top, entity);
                    assert(nodes[entity].children.contains(child));
                }
                assert(all.contains(child));
            }
            if !is_among(&found, child) {
                if found.len() == max_entities {
                    proof {
                        let more = found@.to_set().insert(child);
                        found@.unique_seq_to_set();
                        assert(more.subset_of(all)) by {
                            assert forall|e: Entity| more.contains(e) implies all.contains(e) by {
                                if e != child {
                                    let i = choose|i: int| 0 <= i < found.len() && found@[i] == e;
                                }
                            }
                        }
                        if all.finite() {
                            lemma_len_subset(more, all);
                        }
                    }
                    return None;
                }
                let ghost before = found@;
                found.push(child);
                proof {
                    assert forall|i: int, c: Entity|
                        0 <= i < looked && #[trigger] children_in(nodes, found@[i]).contains(
                            c,
                        ) implies found@.contains(c) by {
                        assert(before[i] == found@[i]);
                        let j = choose|j: int| 0 <= j < before.len() && before[j] == c;
                        assert(found@[j] == c);
                    }
                    assert forall|k: int| 0 <= k < at implies found@.contains(
                        #[trigger] children@[k],
                    ) by {
                        let j = choose|j: int| 0 <= j < before.len() && before[j] == children@[k];
                        assert(found@[j] == children@[k]);
                    }
                    assert(forall|i: int| 0 <= i <= looked ==> before[i] == found@[i]);
                    assert(found@[found.len() - 1] == child);
                }
            }
            at = at + 1;
        }
        proof {
            assert forall|i: int, c: Entity|
                0 <= i < looked + 1 && #[trigger] children_in(nodes, found@[i]).contains(
                    c,
                ) implies found@.contains(c) by {
                if i == looked {
                    let k = choose|k: int| 0 <= k < children@.len() && children@[k] == c;
                    assert(found@.contains(children@[k]));
                }
            }
        }
        looked = looked + 1;
    }
    proof {
        let seen = found@.to_set();
        found@.unique_seq_to_set();
        assert forall|e: Entity| all.contains(e) implies seen.contains(e) by {
            assert(seen.contains(top)) by {
                assert(found@[0] == top);
            }
            assert forall|lister: Entity, child: Entity|
                seen.contains(lister) && #[trigger] children_in(nodes, lister).contains(
                    child,
                ) implies seen.contains(child) by {
                let i = choose|i: int| 0 <= i < found.len() && found@[i] == lister;
                assert(children_in(nodes, found@[i]).contains(child));
            }
            if e != top {
                let lister = choose|lister: Entity|
                    #[trigger] subtree(nodes, top).contains(lister)
                        && nodes[lister].children.contains(e);
                let level = choose|level: nat| in_generation(nodes, top, lister, level);
                lemma_closed_set_holds_generation(nodes, top, seen, lister, level);
                lemma_listed_and_existing(nodes, top, lister);
                lemma_generation_exists(nodes, top, lister, level);
                assert(children_in(nodes, lister).contains(e));
            }
        }
        assert forall|e: Entity| seen.contains(e) implies all.contains(e) by {
            let i = choose|i: int| 0 <= i < found.len() && found@[i] == e;
        }
        assert(seen =~= all);
        if free {
            assert forall|e: Entity| #[trigger] all.contains(e) implies generation_of(e)
                < u32::MAX by {
                let i = choose|i: int| 0 <= i < found.len() && found@[i] == e;
            }
        } else {
            let i = choose|i: int|
                0 <= i < looked && !(generation_of(#[trigger] found@[i]) < u32::MAX);
            assert(all.contains(found@[i]));
        }
    }
    Some(free)
}

} // verus!
