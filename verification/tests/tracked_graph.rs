use engine::render_graph::access::{ImageLayout, PassAccess, PassHandle, PassNode, ResourceHandle};
use engine::render_graph::edges::{schedule_passes_after_writers, GraphError};
use engine::render_graph::graph::pass;
use engine::render_graph::resource::{LayoutTransition, ResourceDesc, ResourceExtent, ResourcePool};
use engine::render_graph::tracked_graph::RenderGraph;

const SCALE_ONE: u32 = 0x3f80_0000;

fn node(name: &str, accesses: Vec<PassAccess>) -> PassNode {
    PassNode::new(name.to_string(), accesses)
}

#[test]
fn reads_wait_for_the_last_writer_only() {
    let r = ResourceHandle(0);
    let nodes = vec![
        node("reader", vec![PassAccess::read(r, ImageLayout::ShaderReadOnlyOptimal)]),
        node("writer", vec![PassAccess::write(r, ImageLayout::ColorAttachmentOptimal)]),
        node("late_reader", vec![PassAccess::read(r, ImageLayout::ShaderReadOnlyOptimal)]),
    ];
    // The first reader comes before any write, so nothing orders it; the
    // late reader waits for the writer.
    let order = schedule_passes_after_writers(&nodes).unwrap();
    let pos = |p: usize| order.iter().position(|&x| x == p).unwrap();
    assert!(pos(1) < pos(2));
    assert_eq!(order.len(), 3);
}

#[test]
fn read_write_access_does_not_wait_for_the_previous_writer() {
    let r = ResourceHandle(0);
    let nodes = vec![
        node("a", vec![]),
        node("writer", vec![PassAccess::write(r, ImageLayout::ColorAttachmentOptimal)]),
        node("blend", vec![PassAccess::read_write(r, ImageLayout::ColorAttachmentOptimal)]),
    ];
    // A read-write access only records its pass as the new writer.
    assert_eq!(schedule_passes_after_writers(&nodes), Ok(vec![0, 1, 2]));
    let mut reversed = nodes;
    reversed[1].depends_on.push(PassHandle(2));
    assert_eq!(schedule_passes_after_writers(&reversed), Ok(vec![0, 2, 1]));
}

#[test]
fn explicit_targets_are_released_after_read_targets() {
    let r = ResourceHandle(0);
    let mut plain = node("plain", vec![]);
    plain.depends_on.push(PassHandle(0));
    let nodes = vec![
        node("writer", vec![PassAccess::write(r, ImageLayout::ColorAttachmentOptimal)]),
        plain,
        node("reader_a", vec![PassAccess::read(r, ImageLayout::ShaderReadOnlyOptimal)]),
        node("reader_b", vec![PassAccess::read(r, ImageLayout::ShaderReadOnlyOptimal)]),
    ];
    // The writer's targets are its readers in ascending order, then the pass
    // naming it explicitly, and they become ready in that order.
    assert_eq!(schedule_passes_after_writers(&nodes), Ok(vec![0, 2, 3, 1]));
}

#[test]
fn writer_scheduling_detects_cycles() {
    let r = ResourceHandle(0);
    let mut writer = node("writer", vec![PassAccess::write(r, ImageLayout::ColorAttachmentOptimal)]);
    let reader = node("reader", vec![PassAccess::read(r, ImageLayout::ShaderReadOnlyOptimal)]);
    writer.depends_on.push(PassHandle(1));
    assert_eq!(schedule_passes_after_writers(&vec![writer, reader]), Err(GraphError::CycleDetected));
}

#[test]
fn tracked_graph_moves_images_into_declared_layouts() {
    let mut pool = ResourcePool::new();
    let albedo = pool.register(ResourceDesc::color("albedo".to_string(), 37, ResourceExtent::ScaleInternal(SCALE_ONE)));
    let hdr = pool.register(ResourceDesc::color("hdr".to_string(), 97, ResourceExtent::ScaleOutput(SCALE_ONE)));
    let mut graph = RenderGraph::new(pool, (640, 360), (1280, 720));
    let lighting = pass("lighting".to_string())
        .read(albedo, ImageLayout::ShaderReadOnlyOptimal)
        .write(hdr, ImageLayout::ColorAttachmentOptimal)
        .finish()
        .build_tracked(&mut graph);
    let geometry = pass("geometry".to_string())
        .write(albedo, ImageLayout::ColorAttachmentOptimal)
        .bind_sampled(albedo, 4, 0, 8)
        .finish()
        .build_tracked(&mut graph);
    assert_eq!((lighting, geometry), (PassHandle(0), PassHandle(1)));
    assert!(graph.dependencies_valid());
    assert_eq!(graph.compile(), Ok(()));
    assert!(graph.compiled());
    // The lighting pass was added first but reads nothing written before it,
    // so insertion order stands.
    assert_eq!(graph.compiled_node_index(0), 0);
    let first = graph.begin_pass(0).unwrap();
    assert_eq!(first, vec![
        LayoutTransition { handle: albedo, old_layout: ImageLayout::Undefined, new_layout: ImageLayout::ShaderReadOnlyOptimal },
        LayoutTransition { handle: hdr, old_layout: ImageLayout::Undefined, new_layout: ImageLayout::ColorAttachmentOptimal },
    ]);
    let second = graph.begin_pass(1).unwrap();
    assert_eq!(second, vec![LayoutTransition {
        handle: albedo,
        old_layout: ImageLayout::ShaderReadOnlyOptimal,
        new_layout: ImageLayout::ColorAttachmentOptimal
    }]);
    // Next frame: albedo comes back to be sampled.
    let again = graph.begin_pass(0).unwrap();
    assert_eq!(again, vec![LayoutTransition {
        handle: albedo,
        old_layout: ImageLayout::ColorAttachmentOptimal,
        new_layout: ImageLayout::ShaderReadOnlyOptimal
    }]);
    assert_eq!(graph.bindings_for(&[albedo]).len(), 1);
    let affected = graph.resize_output((800, 600));
    assert_eq!(affected, vec![hdr]);
    assert_eq!(graph.output_resolution(), (800, 600));
    assert_eq!(graph.resize_internal((400, 300)), vec![albedo]);
    assert_eq!(graph.internal_resolution(), (400, 300));
    // After the resize the images are new: their layouts start over.
    let fresh = graph.begin_pass(0).unwrap();
    assert_eq!(fresh[0].old_layout, ImageLayout::Undefined);
    graph.pass_mut(PassHandle(0)).enabled = false;
    assert_eq!(graph.begin_pass(0), None);
}
