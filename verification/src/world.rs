//! What this crate takes on trust from Bevy.
//!
//! Verus sees nothing inside a `World`. What a world holds is given names
//! here: its hierarchy, and the entities that are reserved in it. Each
//! Bevy call that the crate makes is given a contract over those names.
//! None of these contracts is proved: each states what the source of the
//! called function does.

use crate::command::DespawnTree;
use crate::hierarchy::{
    children_in, detach, may_free, parent_in, still_reserved, subtree_despawned, Hierarchy,
};
use bevy::ecs::entity::Entity;
use bevy::ecs::system::EntityCommands;
use bevy::ecs::world::World;
use bevy::hierarchy::Children;
use bevy::hierarchy::Parent;
use vstd::prelude::*;

verus! {

/// Bevy's `Entity`: the id of one entity, used here as an opaque token.
#[verifier::external_type_specification]
#[verifier::external_body]
pub struct ExEntity(Entity);

/// Bevy's `World`: the store of all entities and their components.
#[verifier::external_type_specification]
#[verifier::external_body]
pub struct ExWorld(World);

/// Bevy's `EntityCommands`: the handle through which commands for one
/// entity are put on a command queue.
#[verifier::external_type_specification]
#[verifier::external_body]
pub struct ExEntityCommands<'w, 's, 'a>(EntityCommands<'w, 's, 'a>);

/// The hierarchy that a world holds: a node for each entity that has a
/// place in the world's storage, with the entity named by its `Parent`
/// component, if it has one, and the entities listed by its `Children`
/// component, if it has one. An entity that is only reserved, and not yet
/// flushed into storage, has no node.
pub uninterp spec fn hierarchy_of(world: World) -> Hierarchy;

/// The entities of a world that are reserved and not yet flushed into
/// storage: those that the next flush would bring into existence.
pub uninterp spec fn reserved_in(world: World) -> Set<Entity>;

/// The generation that an entity id carries: the count of its slot's
/// earlier uses, which freeing the entity raises by one for the next id.
pub uninterp spec fn generation_of(entity: Entity) -> u32;

/// The entity that a per-entity command handle stands for.
pub uninterp spec fn handle_entity(handle: EntityCommands) -> Entity;

/// The commands that wait in the queue behind a handle, oldest first: a
/// tree despawn by its target, a command of any other kind as `None`.
pub uninterp spec fn queued_commands(handle: EntityCommands) -> Seq<Option<Entity>>;

/// Each of `entities` can be freed: its generation can be raised by one.
pub open spec fn can_free(entities: Set<Entity>) -> bool {
    forall|entity: Entity| #[trigger] entities.contains(entity) ==> generation_of(entity) < u32::MAX
}

/// `Entity::generation`: the generation of the id.
pub assume_specification[ Entity::generation ](entity: Entity) -> (generation: u32)
    ensures
        generation == generation_of(entity),
;

/// `World::get::<Parent>`, then `Parent::get`: reads the `Parent`
/// component of `entity` and hands out the entity it names. The result is
/// `None` where the entity has no place in storage or no such component.
#[verifier::external_body]
pub(crate) fn parent_of(world: &World, entity: Entity) -> (parent: Option<Entity>)
    ensures
        parent == parent_in(hierarchy_of(*world), entity),
{
    world.get::<Parent>(entity).map(|parent| parent.get())
}

/// `World::get::<Children>`: reads the `Children` component of `entity`
/// and hands out a copy of its list. The list is empty where the entity
/// has no place in storage or no such component.
#[verifier::external_body]
pub(crate) fn children_of(world: &World, entity: Entity) -> (children: Vec<Entity>)
    ensures
        children@ == children_in(hierarchy_of(*world), entity),
{
    world.get::<Children>(entity).map(|children| children.to_vec()).unwrap_or_default()
}

/// `==` on `Entity`: two ids are equal exactly when they are the same id.
#[verifier::external_body]
pub(crate) fn same_entity(one: Entity, other: Entity) -> (same: bool)
    ensures
        same == (one == other),
{
    one == other
}

/// `despawn_with_children_recursive`: strikes `entity` from the list of
/// its parent, then goes down through the lists of children from `entity`
/// and despawns every entity it meets, `entity` itself last. Entities that
/// were in storage and are not met keep their components. The first
/// entity to be despawned flushes the reserved entities into storage,
/// without any component: these are the only ones that can appear, and
/// none is reserved afterwards. Where `entity` has no place in storage, the
/// world is left as it was.
///
/// Freeing an entity raises the generation of its slot by one, which
/// overflows at `u32::MAX`: the entities that may be freed are required to
/// be below it. The function calls itself once for each level of the
/// subtree; what happens when the stack runs out is not part of this
/// contract.
pub assume_specification[ bevy::hierarchy::despawn_with_children_recursive ](
    world: &mut World,
    entity: Entity,
)
    requires
        can_free(
            may_free(
                detach(hierarchy_of(*old(world)), entity),
                reserved_in(*old(world)),
                entity,
            ),
        ),
    ensures
        subtree_despawned(
            hierarchy_of(*old(world)),
            reserved_in(*old(world)),
            hierarchy_of(*final(world)),
            entity,
        ),
        reserved_in(*final(world)) == still_reserved(
            hierarchy_of(*old(world)),
            reserved_in(*old(world)),
            entity,
        ),
;

/// `EntityCommands::id`: the entity of the handle.
pub assume_specification<'w, 's, 'a>[ EntityCommands::<'w, 's, 'a>::id ](
    handle: &EntityCommands<'w, 's, 'a>,
) -> (entity: Entity)
    ensures
        entity == handle_entity(*handle),
;

/// `EntityCommands::commands`, then `Commands::add`: pushes `command` onto
/// the end of the queue behind the handle, after every command that waits
/// there. The command is stored, not run, and the handle keeps its entity.
#[verifier::external_body]
pub(crate) fn enqueue(handle: &mut EntityCommands, command: DespawnTree)
    ensures
        handle_entity(*final(handle)) == handle_entity(*old(handle)),
        queued_commands(*final(handle)) == queued_commands(*old(handle)).push(
            Some(command.entity),
        ),
{
    handle.commands().add(command);
}

} // verus!
