//! Despawning a whole entity tree from any of its members.
//!
//! A [`DespawnTree`] command climbs the parent links of a Bevy world from its
//! target to the root of the target's tree and despawns that root together
//! with all of its descendants.
//!
//! * [`hierarchy`] is the mathematical model: what a world records about
//!   parents and children, what the root and the tree of an entity are.
//! * [`world`] states, without proof, what the Bevy calls used here do to
//!   that model.
//! * [`command`] holds the command and the extension method that queues it.
//! * `survey` looks over a subtree before it is despawned.
//! * [`laws`] proves what follows for callers.

pub mod command;
pub mod hierarchy;
pub mod laws;
mod survey;
pub mod world;

pub use command::DespawnTree;
pub use command::DespawnTreeEntityCommandsExt;
