use bevy::ecs::entity::Entity;
use bevy::ecs::system::CommandQueue;
use bevy::prelude::{BuildChildren, Children, Commands, Parent, World};
use bevy_despawn_tree::DespawnTree;

/// A world with the chain `chain[0] -> chain[1] -> ...` (root first) and one
/// entity beside it.
fn chain_and_bystander(length: usize) -> (World, Vec<Entity>, Entity) {
    let mut world = World::new();
    let chain: Vec<Entity> = (0..length).map(|_| world.spawn().id()).collect();
    let bystander = world.spawn().id();
    let mut queue = CommandQueue::default();
    let mut commands = Commands::new(&mut queue, &world);
    for pair in chain.windows(2) {
        commands.entity(pair[0]).add_child(pair[1]);
    }
    queue.apply(&mut world);
    (world, chain, bystander)
}

#[test]
fn write_within_reaches_root_in_time() {
    let (mut world, chain, bystander) = chain_and_bystander(4);
    let done = DespawnTree { entity: chain[3] }.write_within(&mut world, 3, 4);
    assert!(done);
    for gone in chain {
        assert!(!world.entities().contains(gone));
    }
    assert!(world.entities().contains(bystander));
    assert_eq!(world.entities().len(), 1);
}

#[test]
fn write_within_gives_up_one_step_short() {
    let (mut world, chain, bystander) = chain_and_bystander(4);
    let done = DespawnTree { entity: chain[3] }.write_within(&mut world, 2, 100);
    assert!(!done);
    for kept in &chain {
        assert!(world.entities().contains(*kept));
    }
    assert!(world.entities().contains(bystander));
    assert_eq!(world.entities().len(), 5);
    assert_eq!(world.get::<Parent>(chain[3]).map(|parent| parent.get()), Some(chain[2]));
}

#[test]
fn write_within_takes_a_root_in_no_steps() {
    let (mut world, chain, bystander) = chain_and_bystander(3);
    let done = DespawnTree { entity: chain[0] }.write_within(&mut world, 0, 3);
    assert!(done);
    assert_eq!(world.entities().len(), 1);
    assert!(world.entities().contains(bystander));
}

#[test]
fn write_within_refuses_a_child_in_no_steps() {
    let (mut world, chain, _) = chain_and_bystander(3);
    let done = DespawnTree { entity: chain[1] }.write_within(&mut world, 0, 100);
    assert!(!done);
    assert_eq!(world.entities().len(), 4);
}

#[test]
fn write_within_ends_on_a_circle() {
    let mut world = World::new();
    let one = world.spawn().id();
    let other = world.spawn().id();
    let mut queue = CommandQueue::default();
    let mut commands = Commands::new(&mut queue, &world);
    commands.entity(one).add_child(other);
    commands.entity(other).add_child(one);
    queue.apply(&mut world);
    assert_eq!(world.get::<Parent>(one).map(|parent| parent.get()), Some(other));
    assert_eq!(world.get::<Parent>(other).map(|parent| parent.get()), Some(one));

    let done = DespawnTree { entity: one }.write_within(&mut world, 1000, 1000);

    assert!(!done);
    assert!(world.entities().contains(one));
    assert!(world.entities().contains(other));
    assert_eq!(world.entities().len(), 2);
}

#[test]
fn write_within_on_a_missing_entity_does_nothing() {
    let (mut world, chain, bystander) = chain_and_bystander(2);
    let stranger = Entity::from_raw(9000);
    let done = DespawnTree { entity: stranger }.write_within(&mut world, 0, 1);
    assert!(done);
    assert_eq!(world.entities().len(), 3);
    assert!(world.entities().contains(chain[0]));
    assert!(world.entities().contains(chain[1]));
    assert!(world.entities().contains(bystander));
}

#[test]
fn write_within_gives_up_one_entity_short() {
    let (mut world, chain, bystander) = chain_and_bystander(4);
    let done = DespawnTree { entity: chain[3] }.write_within(&mut world, 3, 3);
    assert!(!done);
    for kept in &chain {
        assert!(world.entities().contains(*kept));
    }
    assert!(world.entities().contains(bystander));
    assert_eq!(world.entities().len(), 5);
}

#[test]
fn write_within_counts_no_entity() {
    let (mut world, chain, _) = chain_and_bystander(1);
    let done = DespawnTree { entity: chain[0] }.write_within(&mut world, 0, 0);
    assert!(!done);
    assert_eq!(world.entities().len(), 2);
}

#[test]
fn write_within_counts_a_wide_tree_once_each() {
    let mut world = World::new();
    let root = world.spawn().id();
    let kids: Vec<Entity> = (0..5).map(|_| world.spawn().id()).collect();
    let mut queue = CommandQueue::default();
    let mut commands = Commands::new(&mut queue, &world);
    commands.entity(root).push_children(&kids);
    commands.entity(kids[4]).add_child(kids[0]);
    queue.apply(&mut world);

    assert!(!DespawnTree { entity: kids[0] }.write_within(&mut world, 2, 5));
    assert_eq!(world.entities().len(), 6);
    assert!(DespawnTree { entity: kids[0] }.write_within(&mut world, 2, 6));
    assert_eq!(world.entities().len(), 0);
}

#[test]
fn write_within_counts_a_child_listed_twice_once() {
    let mut world = World::new();
    let root = world.spawn().id();
    let child = world.spawn().id();
    world.entity_mut(root).insert(Children::with(&[child, child, root]));

    assert!(!DespawnTree { entity: root }.write_within(&mut world, 0, 1));
    assert!(DespawnTree { entity: root }.write_within(&mut world, 0, 2));
    assert_eq!(world.entities().len(), 0);
}

#[test]
fn write_within_refuses_an_entity_in_its_last_generation() {
    let mut world = World::new();
    let worn = Entity::from_bits(u64::from(u32::MAX) << 32);
    assert_eq!(worn.generation(), u32::MAX);
    assert!(world.get_or_spawn(worn).is_some());
    let root = world.spawn().id();
    let mut queue = CommandQueue::default();
    let mut commands = Commands::new(&mut queue, &world);
    commands.entity(root).add_child(worn);
    queue.apply(&mut world);

    let done = DespawnTree { entity: worn }.write_within(&mut world, 10, 10);

    assert!(!done);
    assert!(world.entities().contains(worn));
    assert!(world.entities().contains(root));
    assert_eq!(world.entities().len(), 2);
    assert_eq!(world.get::<Parent>(worn).map(|parent| parent.get()), Some(root));
}

#[test]
fn write_within_counts_a_stale_child() {
    let (mut world, chain, _) = chain_and_bystander(3);
    assert!(world.despawn(chain[2]));
    // `chain[1]` still lists the despawned entity.
    assert!(!DespawnTree { entity: chain[1] }.write_within(&mut world, 1, 2));
    assert!(DespawnTree { entity: chain[1] }.write_within(&mut world, 1, 3));
    assert_eq!(world.entities().len(), 1);
}
