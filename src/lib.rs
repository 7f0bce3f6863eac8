//! In-memory storage core of a small graph database: slotted arenas with
//! recycled identifiers, a property graph over two such arenas, a structural
//! equivalence check between graphs, and schema-validated property storage.

pub mod availability_manager;
pub mod database;
pub mod equivalence;
pub mod graph;
pub mod id;
pub mod import;
pub mod property;
pub mod property_manager;
pub mod store;
pub mod type_registry;
