//! An archetype-based entity-component store with typed queries.
//!
//! Entities of one shape live together in an [`Archetype`]: one dense column
//! per component, an entity list parallel to the columns, and a sparse table
//! from entity id to dense position. A [`World`] owns one archetype per declared
//! shape and answers queries that span every archetype holding the requested
//! component types. Every operation is stated over a mathematical model of the
//! store and proved against it.
pub mod archetype;
pub mod collect;
pub mod declaration;
pub mod entity;
pub mod fields;
pub mod laws;
pub mod naming;
pub mod parallel;
pub mod query;
pub mod schedule;
pub mod sequence;
pub mod shape;
pub mod signature;
pub mod text;
pub mod traverse;
pub mod world;

pub use archetype::{Archetype, ArchetypeModel, Row, RowView};
pub use declaration::{
    CollectedData, CollectionComponentField, EntityDef, Field, Query, SystemDef, SystemDefParam,
    SystemDefParamReference,
};
pub use entity::{ArchetypeTag, Entity};
pub use naming::{format_collection_name, format_field_name, pascal_case_to_snake_case, singular_to_plural};
pub use query::WithQuery;
pub use world::{QueryId, World, WorldModel};
