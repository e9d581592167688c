//! The tree-despawn command and the extension method that queues it.

use crate::hierarchy::{
    ancestor, detach, has_root, is_root, lemma_ancestor_next, lemma_ancestor_settles,
    lemma_may_free_is_listed, lemma_root_of, listed_below, may_free, root_of, root_within,
    still_reserved, tree_despawned, within_count, Hierarchy,
};
use crate::survey::survey;
use crate::world::{
    can_free, enqueue, handle_entity, hierarchy_of, parent_of, queued_commands, reserved_in,
};
use bevy::ecs::entity::Entity;
use bevy::ecs::system::Command;
use bevy::ecs::system::EntityCommands;
use bevy::ecs::world::World;
use bevy::hierarchy::despawn_with_children_recursive;
use vstd::prelude::*;

verus! {

/// Command that climbs the hierarchy from `entity` to the root of its tree
/// and despawns that root with all of its descendants.
///
/// On an entity without a parent this is a recursive despawn of the entity
/// itself. On an entity that does not exist it does nothing.
#[derive(Debug)]
pub struct DespawnTree {
    pub entity: Entity,
}

impl Command for DespawnTree {
    /// Despawns the tree of `self.entity`.
    ///
    /// The climb follows parent links until there is none, so the links
    /// above the entity must not run in a circle. Every entity that may be
    /// freed must have a generation left to be raised.
    fn write(self, world: &mut World)
        requires
            has_root(hierarchy_of(*old(world)), self.entity),
            can_free(
                may_free(
                    hierarchy_of(*old(world)),
                    reserved_in(*old(world)),
                    root_of(hierarchy_of(*old(world)), self.entity),
                ),
            ),
        ensures
            tree_despawned(
                hierarchy_of(*old(world)),
                reserved_in(*old(world)),
                hierarchy_of(*final(world)),
                self.entity,
            ),
            reserved_in(*final(world)) == still_reserved(
                hierarchy_of(*old(world)),
                reserved_in(*old(world)),
                root_of(hierarchy_of(*old(world)), self.entity),
            ),
    {
        let ghost nodes = hierarchy_of(*world);
        let ghost mut left: nat = choose|steps: nat| root_within(nodes, self.entity, steps);
        let mut current = self.entity;
        loop
            invariant
                *world == *old(world),
                nodes == hierarchy_of(*world),
                root_within(nodes, current, left),
                ancestor(nodes, current, left) == root_of(nodes, self.entity),
            ensures
                *world == *old(world),
                is_root(nodes, current),
                current == root_of(nodes, self.entity),
            decreases left,
        {
            match parent_of(world, current) {
                Some(parent) => {
                    proof {
                        left = (left - 1) as nat;
                    }
                    current = parent;
                },
                None => {
                    break ;
                },
            }
        }
        assert(detach(nodes, current) == nodes);
        despawn_with_children_recursive(world, current);
    }
}

/// What [`write_within`](DespawnTree::write_within) asks of a hierarchy
/// before it despawns: the root of `entity` is at most `max_steps` parent
/// links above it, that root and everything listed below it are at most
/// `max_entities` entities, and each of them can be freed.
pub open spec fn fit_to_write(
    nodes: Hierarchy,
    entity: Entity,
    max_steps: nat,
    max_entities: nat,
) -> bool {
    &&& root_within(nodes, entity, max_steps)
    &&& within_count(listed_below(nodes, root_of(nodes, entity)), max_entities)
    &&& can_free(listed_below(nodes, root_of(nodes, entity)))
}

impl DespawnTree {
    /// Despawns the tree of `self.entity` if the hierarchy is
    /// [fit](fit_to_write) for it, and says whether it did.
    ///
    /// This is [`write`](Command::write) for a world of which nothing is
    /// known. The climb gives up after `max_steps` parent links. From the
    /// root the tree is looked over first, and given up after
    /// `max_entities` entities or at an entity that cannot be freed.
    /// Where it gives up, the world is left as it was.
    pub fn write_within(self, world: &mut World, max_steps: usize, max_entities: usize) -> (done:
        bool)
        ensures
            done == fit_to_write(
                hierarchy_of(*old(world)),
                self.entity,
                max_steps as nat,
                max_entities as nat,
            ),
            done ==> tree_despawned(
                hierarchy_of(*old(world)),
                reserved_in(*old(world)),
                hierarchy_of(*final(world)),
                self.entity,
            ),
            done ==> reserved_in(*final(world)) == still_reserved(
                hierarchy_of(*old(world)),
                reserved_in(*old(world)),
                root_of(hierarchy_of(*old(world)), self.entity),
            ),
            !done ==> *final(world) == *old(world),
    {
        let ghost nodes = hierarchy_of(*world);
        let mut current = self.entity;
        let mut steps: usize = 0;
        loop
            invariant
                *world == *old(world),
                nodes == hierarchy_of(*world),
                steps <= max_steps,
                current == ancestor(nodes, self.entity, steps as nat),
            decreases max_steps - steps,
        {
            match parent_of(world, current) {
                Some(parent) => {
                    if steps == max_steps {
                        return false;
                    }
                    proof {
                        lemma_ancestor_next(nodes, self.entity, steps as nat);
                    }
                    steps = steps + 1;
                    current = parent;
                },
                None => {
                    proof {
                        lemma_ancestor_settles(
                            nodes,
                            self.entity,
                            steps as nat,
                            max_steps as nat,
                        );
                        lemma_root_of(nodes, self.entity, steps as nat);
                        lemma_root_of(nodes, current, 0);
                    }
                    match survey(world, current, max_entities) {
                        Some(true) => {
                            proof {
                                lemma_may_free_is_listed(nodes, reserved_in(*world), current);
                            }
                            DespawnTree { entity: current }.write(world);
                            return true;
                        },
                        _ => {
                            return false;
                        },
                    }
                },
            }
        }
    }
}

/// Adds [`despawn_tree`](DespawnTreeEntityCommandsExt::despawn_tree) to the
/// per-entity command handle.
pub trait DespawnTreeEntityCommandsExt {
    /// Queues a [`DespawnTree`] for the entity of this handle.
    fn despawn_tree(&mut self);
}

impl DespawnTreeEntityCommandsExt for EntityCommands<'_, '_, '_> {
    /// Queues a [`DespawnTree`] for the entity of this handle, behind every
    /// command that already waits in the queue. Nothing is despawned
    /// before the queue is applied to the world.
    fn despawn_tree(&mut self)
        ensures
            handle_entity(*final(self)) == handle_entity(*old(self)),
            queued_commands(*final(self)) == queued_commands(*old(self)).push(
                Some(handle_entity(*old(self))),
            ),
    {
        let entity = self.id();
        enqueue(self, DespawnTree { entity });
    }
}

} // verus!
