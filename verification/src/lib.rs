//! Query engine for an archetype-based entity-component world.
//!
//! Entities that share the same set of component types are grouped into an
//! archetype whose components are stored as parallel columns. A query is a
//! declarative description of component accesses; evaluating it against a
//! world produces, per matching archetype, a chunk of aligned component
//! slices.

mod archetype;
mod chunk;
mod component;
mod filter;
mod query;
mod view;
mod world;

pub use archetype::Archetype;
pub use chunk::collect_chunks;
pub use chunk::ChunkIter;
pub use chunk::ChunkView;
pub use component::ComponentTypeId;
pub use component::Entity;
pub use component::Value;
pub use filter::DynamicFilter;
pub use filter::EntityFilter;
pub use query::validate_archetype_access;
pub use query::Cache;
pub use query::Query;
pub use query::QueryError;
pub use query::QueryResult;
pub use view::AccessMode;
pub use view::Fetch;
pub use view::FetchSlice;
pub use view::QueryView;
pub use view::ViewElement;
pub use world::ArchetypeAccess;
pub use world::CompAccess;
pub use world::ComponentPermissions;
pub use world::Group;
pub use world::StorageAccessor;
pub use world::SubGroup;
pub use world::World;
