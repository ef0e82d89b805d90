//! The GPU-facing logic of the renderer: memory type selection, bindless
//! texture slots, timestamp queries, shader code decoding, attachment
//! transitions and frame presentation decisions.

pub mod bindless;
pub mod fsr;
pub mod geometry;
pub mod instance;
pub mod memory;
pub mod present;
pub mod shader;
pub mod texture;
pub mod timestamps;
