//! Frame-graph scheduling, layout tracking and frame hand-off logic of the
//! engine's Vulkan renderer, with the contracts that Verus checks.

pub mod triple_buffer;
pub mod render_graph;
pub mod gpu;
pub mod extract;
pub mod frame_pipeline;
pub mod render_loop;
