//! The render graph: passes declare how they access resources, the graph orders
//! them, plans the image layout transitions and tracks layouts while recording.

pub mod access;
pub mod barrier;
pub mod edges;
pub mod graph;
pub mod laws;
pub mod resource;
pub mod tracked_graph;
