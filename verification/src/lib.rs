//! Verified core of a voxel terrain engine: block and chunk data, packed light
//! values and their flood-fill propagation, chunk connectivity, greedy meshing
//! decisions, chunk loading bookkeeping and the task scheduler's queue.

pub mod runtime;
pub mod renderer;
pub mod terrain;
pub mod util;
