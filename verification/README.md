# engine

The decision-making core of a Vulkan renderer, written in Verus with its
contracts proved.

- `src/render_graph/` — passes declare how they access images; the graph
  derives dependencies from those accesses (and explicit `after` edges),
  orders the passes topologically (Kahn's algorithm, so the same passes
  always get the same order), plans the image layout transitions each
  pass needs, and tracks layouts while a frame is recorded. `laws.rs` states
  what holds for every graph: hazards alone never form a cycle, dependencies
  run first, every pass finds its images in the layouts it declared, external
  images end the frame in their final layout. `tracked_graph.rs` is the
  simpler graph that orders passes by read-after-write dependencies only and
  moves images into each pass's layouts through the tracker as it records.
- `src/triple_buffer.rs` — the hand-off of frames from the game thread to the
  render thread, with its state-byte protocol.
- `src/gpu/` — memory type choice, bindless slots, SPIR-V decoding, timestamp
  queries, texture upload and mip-chain commands, geometry draw batching,
  swapchain decisions.
- `src/render_loop.rs`, `src/extract.rs`, `src/frame_pipeline.rs` — the render
  thread's decisions, what extraction keeps, and the loading-screen graph.
- `app/` — the Vulkan calls, floating-point shader constants, SVG loading and
  the lock-free sharing of the triple buffer, driven by the library.
- `tests/` — scenarios on concrete values.
