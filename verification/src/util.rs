//! Small shared helpers: integer vectors, grid sizes and face directions.

pub mod face;
pub mod fx_set;
pub mod size;
pub mod vector;
