//! Engine services: the task queue, frame timing and input state.

pub mod input;
pub mod tasks;
pub mod time;
