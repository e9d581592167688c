//! The parent/child relation of a world as a mathematical value.

use bevy::ecs::entity::Entity;
use vstd::prelude::*;

verus! {

/// What a hierarchy records about one entity: the parent it names, if any,
/// and the children it lists (none when it lists nothing).
pub struct Node {
    pub parent: Option<Entity>,
    pub children: Seq<Entity>,
}

/// The hierarchy of a world: one node for each entity that exists in it.
pub type Hierarchy = Map<Entity, Node>;

impl Node {
    /// The node of an entity that takes no part in any hierarchy.
    pub open spec fn bare() -> Node {
        Node { parent: None, children: Seq::empty() }
    }
}

/// The parent that `entity` names. An entity that does not exist names none.
pub open spec fn parent_in(nodes: Hierarchy, entity: Entity) -> Option<Entity> {
    if nodes.dom().contains(entity) {
        nodes[entity].parent
    } else {
        None
    }
}

/// A root is an entity without a parent. An entity that does not exist is
/// a root in this sense: the climb cannot go past it.
pub open spec fn is_root(nodes: Hierarchy, entity: Entity) -> bool {
    parent_in(nodes, entity) is None
}

/// Where one arrives after following at most `steps` parent links upwards
/// from `entity`, stopping early at a root.
pub open spec fn ancestor(nodes: Hierarchy, entity: Entity, steps: nat) -> Entity
    decreases steps,
{
    if steps == 0 {
        entity
    } else {
        match parent_in(nodes, entity) {
            Some(parent) => ancestor(nodes, parent, (steps - 1) as nat),
            None => entity,
        }
    }
}

/// The climb from `entity` comes to a root within `steps` parent links.
pub open spec fn root_within(nodes: Hierarchy, entity: Entity, steps: nat) -> bool {
    is_root(nodes, ancestor(nodes, entity, steps))
}

/// The climb from `entity` ends: its parent links do not run in a circle.
pub open spec fn has_root(nodes: Hierarchy, entity: Entity) -> bool {
    exists|steps: nat| root_within(nodes, entity, steps)
}

/// The root at which the climb from `entity` ends. Meaningful where
/// [`has_root`] holds.
pub open spec fn root_of(nodes: Hierarchy, entity: Entity) -> Entity {
    ancestor(nodes, entity, choose|steps: nat| root_within(nodes, entity, steps))
}

/// `child` exists and is listed among the children of `parent`, which
/// exists too.
pub open spec fn lists_child(nodes: Hierarchy, parent: Entity, child: Entity) -> bool {
    &&& nodes.dom().contains(parent)
    &&& nodes.dom().contains(child)
    &&& nodes[parent].children.contains(child)
}

/// `entity` is found `level` generations below `top` by going down through
/// the lists of children: `top` itself at level 0, provided that it
/// exists, and on each further level the existing children of the level
/// above.
pub open spec fn in_generation(nodes: Hierarchy, top: Entity, entity: Entity, level: nat) -> bool
    decreases level,
{
    if level == 0 {
        entity == top && nodes.dom().contains(top)
    } else {
        exists|above: Entity|
            in_generation(nodes, top, above, (level - 1) as nat) && #[trigger] lists_child(
                nodes,
                above,
                entity,
            )
    }
}

/// `top`, if it exists, and every existing entity that can be reached from
/// it through lists of children.
pub open spec fn subtree(nodes: Hierarchy, top: Entity) -> Set<Entity> {
    Set::new(|entity: Entity| exists|level: nat| in_generation(nodes, top, entity, level))
}

/// The whole tree that `entity` belongs to: the subtree of its root.
pub open spec fn tree_of(nodes: Hierarchy, entity: Entity) -> Set<Entity> {
    subtree(nodes, root_of(nodes, entity))
}

/// The hierarchy after the parent of `entity` has struck `entity` from its
/// list of children. Nothing changes where `entity` names no parent or the
/// parent does not exist.
pub open spec fn detach(nodes: Hierarchy, entity: Entity) -> Hierarchy {
    match parent_in(nodes, entity) {
        Some(parent) => if nodes.dom().contains(parent) {
            nodes.insert(
                parent,
                Node {
                    parent: nodes[parent].parent,
                    children: nodes[parent].children.filter(|child: Entity| child != entity),
                },
            )
        } else {
            nodes
        },
        None => nodes,
    }
}

/// How a hierarchy looks after the entities in `gone` have been despawned
/// from `before`: of the entities that existed, exactly those outside
/// `gone` are left, each with its node untouched. An entity that exists
/// only afterwards was among the `reserved` ones and is bare.
pub open spec fn left_after(
    before: Hierarchy,
    reserved: Set<Entity>,
    after: Hierarchy,
    gone: Set<Entity>,
) -> bool {
    &&& after.restrict(before.dom()) == before.remove_keys(gone)
    &&& forall|entity: Entity|
        #![trigger after.dom().contains(entity)]
        after.dom().contains(entity) && !before.dom().contains(entity) ==> reserved.contains(
            entity,
        ) && after[entity] == Node::bare()
}

/// `after` is what despawning `entity` with all its descendants makes of
/// `before`: its parent forgets it, then its subtree leaves, and of the
/// `reserved` entities some may have come into existence. Where `entity`
/// does not exist, nothing happens at all.
pub open spec fn subtree_despawned(
    before: Hierarchy,
    reserved: Set<Entity>,
    after: Hierarchy,
    entity: Entity,
) -> bool {
    if before.dom().contains(entity) {
        left_after(
            detach(before, entity),
            reserved,
            after,
            subtree(detach(before, entity), entity),
        )
    } else {
        after == before
    }
}

/// `after` is what despawning the tree of `target` makes of `before`: the
/// root of `target` leaves with its whole subtree, and of the `reserved`
/// entities some may have come into existence. Where that root does not
/// exist, nothing happens at all.
pub open spec fn tree_despawned(
    before: Hierarchy,
    reserved: Set<Entity>,
    after: Hierarchy,
    target: Entity,
) -> bool {
    if before.dom().contains(root_of(before, target)) {
        left_after(before, reserved, after, tree_of(before, target))
    } else {
        after == before
    }
}

/// The entities that are still reserved after `entity` has been despawned
/// with its descendants: none where `entity` existed, since the despawn
/// of an existing entity brings every reserved one into existence first;
/// the same as before where it did not.
pub open spec fn still_reserved(nodes: Hierarchy, reserved: Set<Entity>, entity: Entity) -> Set<
    Entity,
> {
    if nodes.dom().contains(entity) {
        Set::empty()
    } else {
        reserved
    }
}

/// The entities that despawning `top` with its descendants may free: the
/// subtree of `top`, and each reserved entity that a member of that
/// subtree lists as a child, since it may have come into existence by the
/// time the despawn gets to it.
pub open spec fn may_free(nodes: Hierarchy, reserved: Set<Entity>, top: Entity) -> Set<Entity> {
    Set::new(
        |entity: Entity|
            subtree(nodes, top).contains(entity) || (reserved.contains(entity) && exists|
                lister: Entity,
            |
                #[trigger] subtree(nodes, top).contains(lister)
                    && nodes[lister].children.contains(entity)),
    )
}

/// The children that `entity` lists. An entity that does not exist lists
/// none.
pub open spec fn children_in(nodes: Hierarchy, entity: Entity) -> Seq<Entity> {
    if nodes.dom().contains(entity) {
        nodes[entity].children
    } else {
        Seq::empty()
    }
}

/// `top` and every entity that `top` or one of its descendants lists as a
/// child, whether the listed entity exists or not.
pub open spec fn listed_below(nodes: Hierarchy, top: Entity) -> Set<Entity> {
    Set::new(
        |entity: Entity|
            entity == top || exists|lister: Entity|
                #[trigger] subtree(nodes, top).contains(lister)
                    && nodes[lister].children.contains(entity),
    )
}

/// `entities` has at most `count` members.
pub open spec fn within_count(entities: Set<Entity>, count: nat) -> bool {
    entities.finite() && entities.len() <= count
}

/// Every child that is listed names the entity that lists it as its
/// parent, and every entity that names a parent is listed by it.
pub open spec fn links_agree(nodes: Hierarchy) -> bool {
    forall|parent: Entity, child: Entity| #[trigger]
        lists_child(nodes, parent, child) <==> nodes.dom().contains(child) && nodes[child].parent
            == Some(parent)
}

/// A hierarchy made of trees: parents and children agree about each other
/// and no chain of parents runs in a circle.
pub open spec fn well_formed(nodes: Hierarchy) -> bool {
    &&& links_agree(nodes)
    &&& forall|entity: Entity| #[trigger] has_root(nodes, entity)
}

/// The existing entities whose climb ends at the same root as that of
/// `entity`.
pub open spec fn kin(nodes: Hierarchy, entity: Entity) -> Set<Entity> {
    Set::new(
        |other: Entity|
            nodes.dom().contains(other) && root_of(nodes, other) == root_of(nodes, entity),
    )
}

/// Once the climb has come to a root it stays there.
pub proof fn lemma_ancestor_settles(nodes: Hierarchy, entity: Entity, steps: nat, more: nat)
    requires
        root_within(nodes, entity, steps),
        steps <= more,
    ensures
        root_within(nodes, entity, more),
        ancestor(nodes, entity, more) == ancestor(nodes, entity, steps),
    decreases steps,
{
    if steps > 0 {
        match parent_in(nodes, entity) {
            Some(parent) => {
                lemma_ancestor_settles(nodes, parent, (steps - 1) as nat, (more - 1) as nat);
            },
            None => {},
        }
    }
}

/// One more step of the climb goes to the parent of where it stood, or
/// stays where there is none.
pub proof fn lemma_ancestor_next(nodes: Hierarchy, entity: Entity, steps: nat)
    ensures
        ancestor(nodes, entity, steps + 1) == match parent_in(
            nodes,
            ancestor(nodes, entity, steps),
        ) {
            Some(parent) => parent,
            None => ancestor(nodes, entity, steps),
        },
    decreases steps,
{
    match parent_in(nodes, entity) {
        Some(parent) => {
            assert(ancestor(nodes, entity, steps + 1) == ancestor(nodes, parent, steps));
            if steps > 0 {
                lemma_ancestor_next(nodes, parent, (steps - 1) as nat);
            } else {
                assert(ancestor(nodes, parent, 0) == parent);
            }
        },
        None => {},
    }
}

/// Any root that the climb comes to is the root of the entity.
pub proof fn lemma_root_of(nodes: Hierarchy, entity: Entity, steps: nat)
    requires
        root_within(nodes, entity, steps),
    ensures
        has_root(nodes, entity),
        root_of(nodes, entity) == ancestor(nodes, entity, steps),
        is_root(nodes, root_of(nodes, entity)),
{
    let chosen = choose|n: nat| root_within(nodes, entity, n);
    if chosen <= steps {
        lemma_ancestor_settles(nodes, entity, chosen, steps);
    } else {
        lemma_ancestor_settles(nodes, entity, steps, chosen);
    }
}

/// An entity and its parent have the same root, and the climb from the one
/// ends exactly when the climb from the other does.
pub proof fn lemma_root_of_parent(nodes: Hierarchy, entity: Entity, parent: Entity)
    requires
        parent_in(nodes, entity) == Some(parent),
    ensures
        has_root(nodes, entity) == has_root(nodes, parent),
        has_root(nodes, entity) ==> root_of(nodes, entity) == root_of(nodes, parent),
{
    if has_root(nodes, parent) {
        let steps = choose|n: nat| root_within(nodes, parent, n);
        assert(ancestor(nodes, entity, steps + 1) == ancestor(nodes, parent, steps));
        lemma_root_of(nodes, parent, steps);
        lemma_root_of(nodes, entity, steps + 1);
    }
    if has_root(nodes, entity) {
        let steps = choose|n: nat| root_within(nodes, entity, n);
        assert(steps > 0);
        assert(ancestor(nodes, entity, steps) == ancestor(nodes, parent, (steps - 1) as nat));
        lemma_root_of(nodes, entity, steps);
        lemma_root_of(nodes, parent, (steps - 1) as nat);
    }
}

/// Whatever is found below `top` exists, and so does `top`.
pub proof fn lemma_generation_exists(nodes: Hierarchy, top: Entity, entity: Entity, level: nat)
    requires
        in_generation(nodes, top, entity, level),
    ensures
        nodes.dom().contains(top),
        nodes.dom().contains(entity),
    decreases level,
{
    if level > 0 {
        let above = choose|above: Entity|
            in_generation(nodes, top, above, (level - 1) as nat) && #[trigger] lists_child(
                nodes,
                above,
                entity,
            );
        lemma_generation_exists(nodes, top, above, (level - 1) as nat);
    }
}

/// Where links agree, going down from `top` never leaves the tree of
/// `top`.
pub proof fn lemma_generation_keeps_root(
    nodes: Hierarchy,
    top: Entity,
    entity: Entity,
    level: nat,
)
    requires
        links_agree(nodes),
        has_root(nodes, top),
        in_generation(nodes, top, entity, level),
    ensures
        has_root(nodes, entity),
        root_of(nodes, entity) == root_of(nodes, top),
    decreases level,
{
    if level > 0 {
        let above = choose|above: Entity|
            in_generation(nodes, top, above, (level - 1) as nat) && #[trigger] lists_child(
                nodes,
                above,
                entity,
            );
        lemma_generation_keeps_root(nodes, top, above, (level - 1) as nat);
        lemma_root_of_parent(nodes, entity, above);
    }
}

/// Where links agree, an existing entity is found below the root that its
/// climb comes to.
pub proof fn lemma_found_below_root(nodes: Hierarchy, entity: Entity, steps: nat)
    requires
        links_agree(nodes),
        nodes.dom().contains(entity),
        root_within(nodes, entity, steps),
    ensures
        subtree(nodes, ancestor(nodes, entity, steps)).contains(entity),
    decreases steps,
{
    let root = ancestor(nodes, entity, steps);
    match parent_in(nodes, entity) {
        Some(parent) => {
            assert(lists_child(nodes, parent, entity));
            lemma_found_below_root(nodes, parent, (steps - 1) as nat);
            let level = choose|level: nat| in_generation(nodes, root, parent, level);
            assert(in_generation(nodes, root, entity, level + 1));
        },
        None => {
            assert(in_generation(nodes, root, entity, 0));
        },
    }
}

/// An existing entity among those listed below `top` belongs to the
/// subtree of `top`.
pub proof fn lemma_listed_and_existing(nodes: Hierarchy, top: Entity, entity: Entity)
    requires
        listed_below(nodes, top).contains(entity),
        nodes.dom().contains(entity),
    ensures
        subtree(nodes, top).contains(entity),
{
    if entity == top {
        assert(in_generation(nodes, top, entity, 0));
    } else {
        let lister = choose|lister: Entity|
            #[trigger] subtree(nodes, top).contains(lister) && nodes[lister].children.contains(
                entity,
            );
        let level = choose|level: nat| in_generation(nodes, top, lister, level);
        lemma_generation_exists(nodes, top, lister, level);
        assert(lists_child(nodes, lister, entity));
        assert(in_generation(nodes, top, entity, level + 1));
    }
}

/// A set that holds `top` and, with each entity, the children it lists
/// holds every entity found below `top`.
pub proof fn lemma_closed_set_holds_generation(
    nodes: Hierarchy,
    top: Entity,
    closed: Set<Entity>,
    entity: Entity,
    level: nat,
)
    requires
        closed.contains(top),
        forall|lister: Entity, child: Entity|
            closed.contains(lister) && #[trigger] children_in(nodes, lister).contains(child)
                ==> closed.contains(child),
        in_generation(nodes, top, entity, level),
    ensures
        closed.contains(entity),
    decreases level,
{
    if level > 0 {
        let above = choose|above: Entity|
            in_generation(nodes, top, above, (level - 1) as nat) && #[trigger] lists_child(
                nodes,
                above,
                entity,
            );
        lemma_closed_set_holds_generation(nodes, top, closed, above, (level - 1) as nat);
        assert(children_in(nodes, above).contains(entity));
    }
}

/// Whatever a despawn of `top` may free is listed below `top`.
pub proof fn lemma_may_free_is_listed(nodes: Hierarchy, reserved: Set<Entity>, top: Entity)
    ensures
        may_free(nodes, reserved, top).subset_of(listed_below(nodes, top)),
{
    assert forall|entity: Entity| may_free(nodes, reserved, top).contains(
        entity,
    ) implies listed_below(nodes, top).contains(entity) by {
        if subtree(nodes, top).contains(entity) && entity != top {
            let level = choose|level: nat| in_generation(nodes, top, entity, level);
            let above = choose|above: Entity|
                in_generation(nodes, top, above, (level - 1) as nat) && #[trigger] lists_child(
                    nodes,
                    above,
                    entity,
                );
            assert(subtree(nodes, top).contains(above));
        }
    }
}

} // verus!
