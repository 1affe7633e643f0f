//! An in-memory entity/component store: integer entity identifiers, one
//! dense column of optional component values per component-type tag, a
//! runtime-checked shared/exclusive borrow discipline on every column, and a
//! conjunctive query engine that visits, in ascending identifier order,
//! exactly the entities carrying every requested component type.

pub mod laws;
pub mod model;
pub mod query;
pub mod world;
