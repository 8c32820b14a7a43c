//! Uniform-buffer synchronisation for a shader material: the per-entity
//! material inputs, their byte layout in a GPU uniform block, the per-frame
//! extraction snapshot, the buffer mirror and the keyboard adjustment rules.
//!
//! Every 32-bit float is held by its IEEE-754 bit pattern, so that the logic
//! here stays on integers and bytes.
pub mod record;
pub mod layout;
pub mod extract;
pub mod mirror;
pub mod input;
