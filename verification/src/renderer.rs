//! Rendering decisions that do not depend on the GPU: which faces of a chunk are
//! drawn, merged into which quads, with which light.

pub mod terrain;
