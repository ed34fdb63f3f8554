//! A typed relation graph over an entity store.
//!
//! Entities are linked by directed edges, each of a registered relation
//! type that carries a cascade policy and an arity. The store keeps a
//! bidirectional edge index: for every entity the targets it points at, in
//! one bucket per policy, and the fosters that point at it.
//!
//! - [`world`] holds the store and its index, [`graph`] the mathematical
//!   model that every contract speaks of.
//! - [`commands`] holds the three commands that change the graph, each
//!   followed by the cascade that it sets off.
//! - [`policies`] resolves a cascade in two phases: collect the operations
//!   while the graph is only read, then apply them in order. [`cascade`]
//!   says what each operation does, [`laws`] what holds of every cascade.
//! - [`query`], [`joins`] and [`rows`] hold the query algebra: joins of a
//!   base query against sources keyed by entity, breadth-first traversal
//!   along one relation type, and iteration with early exit. [`walk`] holds
//!   the breadth-first walk that traversal and cascade share.
//! - [`collections`] holds the hashed collections and the inline vector
//!   that the index is built from.

pub mod cascade;
pub mod collections;
pub mod commands;
pub mod graph;
pub mod joins;
pub mod laws;
pub mod policies;
pub mod query;
pub mod rows;
mod sealed;
pub mod walk;
pub mod world;

pub use cascade::Operation;
pub use collections::{Entity, RelationId};
pub use commands::{CheckeDespawn, SetRelation, UnSet};
pub use graph::{DespawnPolicy, Graph, RelationInfo};
pub use joins::{ControlFlow, Joinable, Joined, Table};
pub use query::{BreadthFirst, ForEachPermutations, Ops, Query};
pub use rows::{Collect, First, Row, Visitor};
pub use world::World;
