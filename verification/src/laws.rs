//! What callers may rely on.
//!
//! Each law is stated over the hierarchies before and after a command, as
//! the contracts of the commands relate them, and is proved from the
//! definitions alone.

use crate::command::fit_to_write;
use crate::hierarchy::{
    has_root, in_generation, kin, left_after, lemma_found_below_root, lemma_generation_exists,
    lemma_generation_keeps_root, lemma_may_free_is_listed, lemma_root_of, lists_child, may_free,
    root_of, root_within, still_reserved, subtree, tree_despawned, tree_of, well_formed,
    Hierarchy, Node,
};
use crate::world::can_free;
use bevy::ecs::entity::Entity;
use vstd::prelude::*;
use vstd::set_lib::{lemma_len_difference, lemma_len_subset, lemma_set_difference_len};

verus! {

/// In a well-formed hierarchy the tree that a command removes is the tree
/// in the usual sense: the existing entities that share the root of the
/// target, all of them and no others.
pub proof fn tree_is_kin(nodes: Hierarchy, target: Entity)
    requires
        well_formed(nodes),
    ensures
        tree_of(nodes, target) == kin(nodes, target),
{
    let root = root_of(nodes, target);
    assert(has_root(nodes, target));
    let steps = choose|n: nat| root_within(nodes, target, n);
    lemma_root_of(nodes, target, steps);
    lemma_root_of(nodes, root, 0);
    assert forall|entity: Entity| tree_of(nodes, target).contains(entity) implies kin(
        nodes,
        target,
    ).contains(entity) by {
        let level = choose|level: nat| in_generation(nodes, root, entity, level);
        lemma_generation_exists(nodes, root, entity, level);
        lemma_generation_keeps_root(nodes, root, entity, level);
    }
    assert forall|entity: Entity| kin(nodes, target).contains(entity) implies tree_of(
        nodes,
        target,
    ).contains(entity) by {
        assert(has_root(nodes, entity));
        let n = choose|n: nat| root_within(nodes, entity, n);
        lemma_root_of(nodes, entity, n);
        lemma_found_below_root(nodes, entity, n);
    }
    assert(tree_of(nodes, target) =~= kin(nodes, target));
}

/// Every member of a tree exists.
pub proof fn tree_members_exist(nodes: Hierarchy, target: Entity)
    ensures
        tree_of(nodes, target).subset_of(nodes.dom()),
{
    let root = root_of(nodes, target);
    assert forall|member: Entity| tree_of(nodes, target).contains(member) implies nodes.dom()
        .contains(member) by {
        let level = choose|level: nat| in_generation(nodes, root, member, level);
        lemma_generation_exists(nodes, root, member, level);
    }
}

/// Every member of the tree of the target is gone after the command.
pub proof fn tree_members_gone(
    before: Hierarchy,
    reserved: Set<Entity>,
    after: Hierarchy,
    target: Entity,
    member: Entity,
)
    requires
        tree_despawned(before, reserved, after, target),
        tree_of(before, target).contains(member),
    ensures
        before.dom().contains(member),
        !after.dom().contains(member),
{
    let root = root_of(before, target);
    let level = choose|level: nat| in_generation(before, root, member, level);
    lemma_generation_exists(before, root, member, level);
    if after.dom().contains(member) {
        assert(after.restrict(before.dom()).dom().contains(member));
        assert(before.remove_keys(tree_of(before, target)).dom().contains(member));
    }
}

/// Nothing is spawned: an entity that exists after the command and did not
/// exist before was reserved before, and takes no part in any hierarchy.
pub proof fn newcomers_were_reserved(
    before: Hierarchy,
    reserved: Set<Entity>,
    after: Hierarchy,
    target: Entity,
    newcomer: Entity,
)
    requires
        tree_despawned(before, reserved, after, target),
        after.dom().contains(newcomer),
        !before.dom().contains(newcomer),
    ensures
        reserved.contains(newcomer),
        after[newcomer] == Node::bare(),
{
}

/// The only effect: where no entity is reserved, the hierarchy after the
/// command is the hierarchy before it without the tree of the target. The
/// entities afterwards are exactly those that existed and are not in the
/// tree, each with the node it had.
pub proof fn only_the_tree_leaves(before: Hierarchy, after: Hierarchy, target: Entity)
    requires
        tree_despawned(before, Set::empty(), after, target),
    ensures
        after == before.remove_keys(tree_of(before, target)),
        after.dom() == before.dom().difference(tree_of(before, target)),
{
    let tree = tree_of(before, target);
    if before.dom().contains(root_of(before, target)) {
        assert forall|entity: Entity| after.dom().contains(entity) implies before.dom().contains(
            entity,
        ) by {}
        assert(after =~= after.restrict(before.dom()));
    } else {
        assert forall|member: Entity| !tree.contains(member) by {
            if tree.contains(member) {
                let level = choose|level: nat|
                    in_generation(before, root_of(before, target), member, level);
                lemma_generation_exists(before, root_of(before, target), member, level);
            }
        }
        assert(before.remove_keys(tree) =~= before);
    }
    assert(after.dom() =~= before.dom().difference(tree));
}

/// The count: where no entity is reserved, the command lowers the number of
/// entities by exactly the size of the tree of the target.
pub proof fn count_drops_by_tree(before: Hierarchy, after: Hierarchy, target: Entity)
    requires
        before.dom().finite(),
        tree_despawned(before, Set::empty(), after, target),
    ensures
        tree_of(before, target).finite(),
        after.dom().finite(),
        after.dom().len() == before.dom().len() - tree_of(before, target).len(),
{
    let tree = tree_of(before, target);
    only_the_tree_leaves(before, after, target);
    tree_members_exist(before, target);
    lemma_len_subset(tree, before.dom());
    lemma_set_difference_len(before.dom(), tree);
    assert(before.dom().intersect(tree) =~= tree);
    lemma_len_difference(before.dom(), tree);
    lemma_len_subset(before.dom().difference(tree), before.dom());
}

/// Root invariance: in a well-formed hierarchy it makes no difference on
/// which member of a tree the command is written. Whatever is a possible
/// outcome for one member is a possible outcome for any other: every
/// entity that shares their root leaves, and, where no entity is reserved,
/// nothing else happens.
pub proof fn root_invariance(
    before: Hierarchy,
    reserved: Set<Entity>,
    after: Hierarchy,
    target: Entity,
    other: Entity,
)
    requires
        well_formed(before),
        tree_of(before, target).contains(other),
    ensures
        tree_of(before, other) == tree_of(before, target),
        tree_of(before, target) == kin(before, target),
        tree_despawned(before, reserved, after, other) == tree_despawned(
            before,
            reserved,
            after,
            target,
        ),
        tree_despawned(before, Set::empty(), after, other) ==> after == before.remove_keys(
            kin(before, target),
        ),
{
    tree_is_kin(before, target);
    if tree_despawned(before, Set::empty(), after, other) {
        only_the_tree_leaves(before, after, other);
    }
}

/// Idempotence in effect: once the tree of `target` is gone, a command
/// written on any of its former members changes nothing, and nothing
/// stands in its way.
pub proof fn second_despawn_changes_nothing(
    before: Hierarchy,
    reserved_before: Set<Entity>,
    between: Hierarchy,
    reserved_between: Set<Entity>,
    after: Hierarchy,
    target: Entity,
    again: Entity,
)
    requires
        tree_despawned(before, reserved_before, between, target),
        reserved_between == still_reserved(before, reserved_before, root_of(before, target)),
        tree_of(before, target).contains(again),
        tree_despawned(between, reserved_between, after, again),
    ensures
        has_root(between, again),
        may_free(between, reserved_between, root_of(between, again)) == Set::<Entity>::empty(),
        after == between,
        still_reserved(between, reserved_between, root_of(between, again)) == reserved_between,
{
    tree_members_gone(before, reserved_before, between, target, again);
    lemma_root_of(between, again, 0);
    lemma_nothing_below_missing(between, reserved_between, again);
}

/// A missing target is no error and no change: the climb from an entity
/// that does not exist ends at once, no entity stands to be freed, and the
/// command leaves the hierarchy and the reserved entities as they were.
pub proof fn missing_target_changes_nothing(
    before: Hierarchy,
    reserved: Set<Entity>,
    after: Hierarchy,
    target: Entity,
)
    requires
        !before.dom().contains(target),
    ensures
        has_root(before, target),
        may_free(before, reserved, root_of(before, target)) == Set::<Entity>::empty(),
        tree_despawned(before, reserved, after, target) ==> after == before,
        still_reserved(before, reserved, root_of(before, target)) == reserved,
{
    lemma_root_of(before, target, 0);
    lemma_nothing_below_missing(before, reserved, target);
}

/// Isolation: an entity outside the tree of the target is still there
/// after the command, with the same parent and the same children.
pub proof fn outsiders_untouched(
    before: Hierarchy,
    reserved: Set<Entity>,
    after: Hierarchy,
    target: Entity,
    outsider: Entity,
)
    requires
        tree_despawned(before, reserved, after, target),
        before.dom().contains(outsider),
        !tree_of(before, target).contains(outsider),
    ensures
        after.dom().contains(outsider),
        after[outsider] == before[outsider],
{
    if before.dom().contains(root_of(before, target)) {
        let kept = before.remove_keys(tree_of(before, target));
        assert(kept.dom().contains(outsider));
        assert(after.restrict(before.dom()).dom().contains(outsider));
        assert(after.restrict(before.dom())[outsider] == kept[outsider]);
    }
}

/// Isolation between trees: in a well-formed hierarchy an entity whose root
/// is not the root of the target is outside the tree of the target, so the
/// command leaves it as it was.
pub proof fn other_trees_untouched(
    before: Hierarchy,
    reserved: Set<Entity>,
    after: Hierarchy,
    target: Entity,
    outsider: Entity,
)
    requires
        well_formed(before),
        tree_despawned(before, reserved, after, target),
        before.dom().contains(outsider),
        root_of(before, outsider) != root_of(before, target),
    ensures
        after.dom().contains(outsider),
        after[outsider] == before[outsider],
{
    tree_is_kin(before, target);
    outsiders_untouched(before, reserved, after, target, outsider);
}

/// A tree of one: an existing entity without parent and without children
/// is its whole tree. The command removes it and touches no other entity
/// that existed; where no entity is reserved, it removes it and nothing
/// else happens.
pub proof fn single_entity_tree(
    before: Hierarchy,
    reserved: Set<Entity>,
    after: Hierarchy,
    target: Entity,
)
    requires
        before.dom().contains(target),
        before[target].parent is None,
        before[target].children.len() == 0,
    ensures
        tree_of(before, target) == set![target],
        may_free(before, reserved, root_of(before, target)) == set![target],
        tree_despawned(before, reserved, after, target) ==> !after.dom().contains(target)
            && left_after(before, reserved, after, set![target]),
        tree_despawned(before, Set::empty(), after, target) ==> after == before.remove(target),
{
    lemma_root_of(before, target, 0);
    assert forall|entity: Entity| subtree(before, target).contains(entity) implies entity
        == target by {
        let level = choose|level: nat| in_generation(before, target, entity, level);
        lemma_no_generation_below_bare(before, target, entity, level);
    }
    assert(in_generation(before, target, target, 0));
    assert(tree_of(before, target) =~= set![target]);
    assert(may_free(before, reserved, target) =~= set![target]);
    if tree_despawned(before, reserved, after, target) {
        if after.dom().contains(target) {
            assert(after.restrict(before.dom()).dom().contains(target));
        }
    }
    if tree_despawned(before, Set::empty(), after, target) {
        only_the_tree_leaves(before, after, target);
        assert(before.remove_keys(set![target]) =~= before.remove(target));
    }
}

/// A tree of one, counted: where no entity is reserved, the command on an
/// entity without parent and without children lowers the number of
/// entities by exactly one.
pub proof fn single_entity_tree_counts_one(before: Hierarchy, after: Hierarchy, target: Entity)
    requires
        before.dom().finite(),
        before.dom().contains(target),
        before[target].parent is None,
        before[target].children.len() == 0,
        tree_despawned(before, Set::empty(), after, target),
    ensures
        after.dom().len() == before.dom().len() - 1,
{
    single_entity_tree(before, Set::empty(), after, target);
    count_drops_by_tree(before, after, target);
}

/// A hierarchy that is fit for the guarded command meets all that the
/// plain command requires: the climb ends, and whatever may be freed can
/// be freed.
pub proof fn fit_is_enough(
    nodes: Hierarchy,
    reserved: Set<Entity>,
    target: Entity,
    max_steps: nat,
    max_entities: nat,
)
    requires
        fit_to_write(nodes, target, max_steps, max_entities),
    ensures
        has_root(nodes, target),
        can_free(may_free(nodes, reserved, root_of(nodes, target))),
{
    lemma_root_of(nodes, target, max_steps);
    lemma_may_free_is_listed(nodes, reserved, root_of(nodes, target));
}

/// Below an entity that lists no children there is only the entity itself.
proof fn lemma_no_generation_below_bare(
    nodes: Hierarchy,
    top: Entity,
    entity: Entity,
    level: nat,
)
    requires
        nodes.dom().contains(top),
        nodes[top].children.len() == 0,
        in_generation(nodes, top, entity, level),
    ensures
        level == 0,
        entity == top,
    decreases level,
{
    if level > 0 {
        let above = choose|above: Entity|
            in_generation(nodes, top, above, (level - 1) as nat) && #[trigger] lists_child(
                nodes,
                above,
                entity,
            );
        lemma_no_generation_below_bare(nodes, top, above, (level - 1) as nat);
    }
}

/// Below an entity that does not exist there is nothing, so a despawn of
/// it frees nothing.
proof fn lemma_nothing_below_missing(nodes: Hierarchy, reserved: Set<Entity>, top: Entity)
    requires
        !nodes.dom().contains(top),
    ensures
        subtree(nodes, top) == Set::<Entity>::empty(),
        may_free(nodes, reserved, top) == Set::<Entity>::empty(),
{
    assert forall|entity: Entity| !subtree(nodes, top).contains(entity) by {
        if subtree(nodes, top).contains(entity) {
            let level = choose|level: nat| in_generation(nodes, top, entity, level);
            lemma_generation_exists(nodes, top, entity, level);
        }
    }
    assert(subtree(nodes, top) =~= Set::<Entity>::empty());
    assert(may_free(nodes, reserved, top) =~= Set::<Entity>::empty());
}

} // verus!
