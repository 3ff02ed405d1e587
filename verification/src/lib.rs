//! Client-side data model of a remote-entity catalog: lazy references to
//! remote entities with a bounded, least-recently-used object cache per entity
//! type, references to URL-addressed resources, and two small wire values.

pub mod cache;
pub mod ptr;
pub mod text;
pub mod position;
pub mod level;
pub mod file;
