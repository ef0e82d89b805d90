use engine::frame_pipeline::build_loading_graph;
use engine::render_graph::access::{AccessType, ImageLayout, PassAccess, PassHandle, PassNode, ResourceHandle};
use engine::render_graph::barrier::{
    attachment_transition_masks, is_supported_transition, layout_transition_masks, make_barrier,
    upload_transition_masks, AccessMask, PipelineStage,
};
use engine::render_graph::edges::{add_edge, add_edges_from_readers, schedule_passes, topological_sort, GraphError};
use engine::render_graph::graph::{pass, RenderGraph};
use engine::render_graph::resource::{
    DescriptorBinding, DescriptorBindingRegistry, DescriptorImageType, ImageAspect, LayoutTracker,
    LayoutTransition, ResourceDesc, ResourceExtent, ResourceKind, ResourcePool, USAGE_COLOR_ATTACHMENT,
    USAGE_DEPTH_STENCIL_ATTACHMENT, USAGE_SAMPLED,
};
use std::collections::HashMap;

const SCALE_ONE: u32 = 0x3f80_0000;

fn empty_graph(n: usize) -> (Vec<Vec<usize>>, Vec<usize>) {
    (vec![Vec::new(); n], vec![0; n])
}

#[test]
fn add_edge_counts_predecessors_once() {
    let (mut adj, mut deg) = empty_graph(3);
    add_edge(&mut adj, &mut deg, Some(0), 2);
    add_edge(&mut adj, &mut deg, Some(0), 2);
    add_edge(&mut adj, &mut deg, Some(1), 2);
    add_edge(&mut adj, &mut deg, None, 1);
    add_edge(&mut adj, &mut deg, Some(1), 1);
    assert_eq!(adj[0], vec![2]);
    assert_eq!(adj[1], vec![2]);
    assert_eq!(deg, vec![0, 0, 2]);
}

#[test]
fn add_edges_from_readers_links_every_reader() {
    let (mut adj, mut deg) = empty_graph(4);
    let mut readers: HashMap<u32, Vec<usize>> = HashMap::new();
    readers.insert(7, vec![0, 1]);
    add_edges_from_readers(&mut adj, &mut deg, &readers, 7, 3);
    add_edges_from_readers(&mut adj, &mut deg, &readers, 8, 2);
    assert_eq!(adj[0], vec![3]);
    assert_eq!(adj[1], vec![3]);
    assert_eq!(deg, vec![0, 0, 0, 2]);
}

#[test]
fn topological_sort_orders_a_chain() {
    let (mut adj, mut deg) = empty_graph(3);
    add_edge(&mut adj, &mut deg, Some(2), 1);
    add_edge(&mut adj, &mut deg, Some(1), 0);
    assert_eq!(topological_sort(3, adj, deg), Ok(vec![2, 1, 0]));
}

#[test]
fn topological_sort_keeps_independent_nodes_in_index_order() {
    let (adj, deg) = empty_graph(3);
    assert_eq!(topological_sort(3, adj, deg), Ok(vec![0, 1, 2]));
}

#[test]
fn topological_sort_takes_ready_nodes_first_in_first_out() {
    let (mut adj, mut deg) = empty_graph(4);
    add_edge(&mut adj, &mut deg, Some(0), 3);
    add_edge(&mut adj, &mut deg, Some(1), 2);
    // 3 becomes ready before 2, so it runs first although its index is larger.
    assert_eq!(topological_sort(4, adj, deg), Ok(vec![0, 1, 3, 2]));
}

#[test]
fn topological_sort_gives_the_same_order_twice() {
    let (mut adj, mut deg) = empty_graph(5);
    add_edge(&mut adj, &mut deg, Some(4), 0);
    add_edge(&mut adj, &mut deg, Some(2), 0);
    add_edge(&mut adj, &mut deg, Some(3), 1);
    let first = topological_sort(5, adj.clone(), deg.clone());
    let second = topological_sort(5, adj, deg);
    assert_eq!(first, second);
    assert_eq!(first, Ok(vec![2, 3, 4, 1, 0]));
}

#[test]
fn add_edge_appends_new_targets() {
    let (mut adj, mut deg) = empty_graph(3);
    add_edge(&mut adj, &mut deg, Some(0), 2);
    add_edge(&mut adj, &mut deg, Some(0), 1);
    add_edge(&mut adj, &mut deg, Some(0), 2);
    assert_eq!(adj[0], vec![2, 1]);
    assert_eq!(deg, vec![0, 1, 1]);
}

#[test]
fn topological_sort_detects_cycle() {
    let (mut adj, mut deg) = empty_graph(3);
    add_edge(&mut adj, &mut deg, Some(0), 1);
    add_edge(&mut adj, &mut deg, Some(1), 2);
    add_edge(&mut adj, &mut deg, Some(2), 0);
    assert_eq!(topological_sort(3, adj, deg), Err(GraphError::CycleDetected));
}

fn node(name: &str, accesses: Vec<PassAccess>) -> PassNode {
    PassNode::new(name.to_string(), accesses)
}

#[test]
fn writer_runs_before_reader_added_earlier() {
    let r = ResourceHandle(0);
    let nodes = vec![
        node("reader", vec![PassAccess::read(r, ImageLayout::ShaderReadOnlyOptimal)]),
        node("writer", vec![PassAccess::write(r, ImageLayout::ColorAttachmentOptimal)]),
    ];
    // The reader comes first in the list, so it reads before the write:
    // the later writer must wait for it.
    assert_eq!(schedule_passes(&nodes), Ok(vec![0, 1]));
}

#[test]
fn explicit_dependency_reorders_passes() {
    let mut first = node("first", vec![]);
    let second = node("second", vec![]);
    first.depends_on.push(PassHandle(1));
    let nodes = vec![first, second];
    assert_eq!(schedule_passes(&nodes), Ok(vec![1, 0]));
}

#[test]
fn explicit_dependency_against_hazard_is_a_cycle() {
    let r = ResourceHandle(0);
    let writer = node("writer", vec![PassAccess::write(r, ImageLayout::ColorAttachmentOptimal)]);
    let mut reader = node("reader", vec![PassAccess::read(r, ImageLayout::ShaderReadOnlyOptimal)]);
    reader.depends_on.push(PassHandle(0));
    let mut writer = writer;
    writer.depends_on.push(PassHandle(1));
    let nodes = vec![writer, reader];
    assert_eq!(schedule_passes(&nodes), Err(GraphError::CycleDetected));
}

/// The pipeline of the project's description: shadow and depth prepass feed
/// the geometry pass, then lighting, post-processing and presentation.
fn deferred_graph() -> (RenderGraph, [ResourceHandle; 6], Vec<PassHandle>) {
    let mut pool = ResourcePool::new();
    let shadow = pool.register(ResourceDesc::depth("shadow".to_string(), 126, ResourceExtent::Absolute(2048, 2048)));
    let depth = pool.register(ResourceDesc::depth("depth".to_string(), 126, ResourceExtent::ScaleInternal(SCALE_ONE)));
    let albedo = pool.register(ResourceDesc::color("albedo".to_string(), 37, ResourceExtent::ScaleInternal(SCALE_ONE)));
    let hdr = pool.register(ResourceDesc::color("hdr".to_string(), 97, ResourceExtent::ScaleInternal(SCALE_ONE)));
    let ldr = pool.register(ResourceDesc::color("ldr".to_string(), 37, ResourceExtent::ScaleOutput(SCALE_ONE)));
    let swapchain = pool.register_swapchain_external(50);
    let mut graph = RenderGraph::new(pool, (1280, 720), (1920, 1080));
    let mut handles = Vec::new();
    // Added out of execution order on purpose.
    handles.push(pass("post_process".to_string())
        .read(hdr, ImageLayout::ShaderReadOnlyOptimal)
        .write(ldr, ImageLayout::ColorAttachmentOptimal)
        .finish()
        .build(&mut graph)
        .0);
    handles.push(pass("shadow".to_string())
        .write(shadow, ImageLayout::DepthAttachmentOptimal)
        .finish()
        .build(&mut graph)
        .0);
    handles.push(pass("depth_prepass".to_string())
        .write(depth, ImageLayout::DepthAttachmentOptimal)
        .finish()
        .build(&mut graph)
        .0);
    handles.push(pass("geometry".to_string())
        .read_write(depth, ImageLayout::DepthAttachmentOptimal)
        .write(albedo, ImageLayout::ColorAttachmentOptimal)
        .finish()
        .build(&mut graph)
        .0);
    handles.push(pass("lighting".to_string())
        .read(albedo, ImageLayout::ShaderReadOnlyOptimal)
        .read(shadow, ImageLayout::ShaderReadOnlyOptimal)
        .write(hdr, ImageLayout::ColorAttachmentOptimal)
        .finish()
        .build(&mut graph)
        .0);
    handles.push(pass("blit".to_string())
        .read(ldr, ImageLayout::ShaderReadOnlyOptimal)
        .write(swapchain, ImageLayout::ColorAttachmentOptimal)
        .finish()
        .build(&mut graph)
        .0);
    (graph, [shadow, depth, albedo, hdr, ldr, swapchain], handles)
}

fn position(order: &[usize], pass: usize) -> usize {
    order.iter().position(|&p| p == pass).unwrap()
}

#[test]
fn deferred_pipeline_compiles_in_dependency_order() {
    let (mut graph, _, _) = deferred_graph();
    assert_eq!(graph.compile(), Ok(()));
    let order: Vec<usize> = (0..graph.compiled_pass_count()).map(|i| graph.compiled_node_index(i)).collect();
    assert_eq!(order.len(), 6);
    // post_process(0) reads hdr, written by lighting(4): the hazard through
    // hdr is a read before a later write, so post_process runs first.
    assert!(position(&order, 0) < position(&order, 4));
    assert!(position(&order, 1) < position(&order, 4));
    assert!(position(&order, 2) < position(&order, 3));
    assert!(position(&order, 3) < position(&order, 4));
    assert!(position(&order, 0) < position(&order, 5));
}

#[test]
fn deferred_pipeline_order_is_the_same_on_every_compile() {
    let (mut graph, _, _) = deferred_graph();
    graph.compile().unwrap();
    let first: Vec<usize> = (0..graph.compiled_pass_count()).map(|i| graph.compiled_node_index(i)).collect();
    // shadow(1) and depth_prepass(2) are independent: they keep index order.
    assert_eq!(first, vec![0, 1, 2, 5, 3, 4]);
    graph.compile().unwrap();
    let second: Vec<usize> = (0..graph.compiled_pass_count()).map(|i| graph.compiled_node_index(i)).collect();
    assert_eq!(first, second);
}

#[test]
fn execution_inserts_only_needed_transitions() {
    let (mut graph, res, _) = deferred_graph();
    let [shadow, depth, albedo, _hdr, _ldr, swapchain] = res;
    graph.compile().unwrap();
    graph.reset_external_layouts();
    let mut all: Vec<LayoutTransition> = Vec::new();
    for i in 0..graph.compiled_pass_count() {
        let ts = graph.begin_pass(i).expect("every pass is enabled");
        for t in &ts {
            assert_ne!(t.old_layout, t.new_layout);
        }
        let node = graph.compiled_node_index(i);
        let name = graph.pass_name(node).clone();
        if name == "geometry" {
            // depth stays a depth attachment between prepass and geometry: no barrier.
            assert!(ts.iter().all(|t| t.handle != depth));
            assert!(ts.contains(&LayoutTransition {
                handle: albedo,
                old_layout: ImageLayout::Undefined,
                new_layout: ImageLayout::ColorAttachmentOptimal
            }));
        }
        if name == "lighting" {
            assert!(ts.contains(&LayoutTransition {
                handle: shadow,
                old_layout: ImageLayout::DepthAttachmentOptimal,
                new_layout: ImageLayout::ShaderReadOnlyOptimal
            }));
        }
        all.extend(ts);
    }
    let finals = graph.final_transitions();
    assert_eq!(finals, vec![LayoutTransition {
        handle: swapchain,
        old_layout: ImageLayout::ColorAttachmentOptimal,
        new_layout: ImageLayout::PresentSrc
    }]);
    // Every transition recorded is one the barrier table knows.
    for t in all.iter().chain(finals.iter()) {
        assert!(is_supported_transition(t.old_layout, t.new_layout));
    }
}

#[test]
fn second_frame_starts_from_previous_layouts() {
    let (mut graph, res, _) = deferred_graph();
    let swapchain = res[5];
    graph.compile().unwrap();
    for _frame in 0..2 {
        graph.reset_external_layouts();
        for i in 0..graph.compiled_pass_count() {
            graph.begin_pass(i);
        }
        graph.final_transitions();
        graph.finish_frame();
    }
    // After the reset of the third frame the swapchain is back to Undefined.
    graph.reset_external_layouts();
    let node_of_blit = (0..graph.compiled_pass_count())
        .find(|&i| graph.pass_name(graph.compiled_node_index(i)) == "blit")
        .unwrap();
    for i in 0..node_of_blit {
        graph.begin_pass(i);
    }
    let ts = graph.begin_pass(node_of_blit).unwrap();
    assert!(ts.contains(&LayoutTransition {
        handle: swapchain,
        old_layout: ImageLayout::Undefined,
        new_layout: ImageLayout::ColorAttachmentOptimal
    }));
}

#[test]
fn disabled_pass_is_skipped() {
    let (mut graph, _, handles) = deferred_graph();
    graph.pass_mut(handles[1]).enabled = false;
    graph.compile().unwrap();
    let shadow_index = (0..graph.compiled_pass_count())
        .find(|&i| graph.compiled_node_index(i) == 1)
        .unwrap();
    assert_eq!(graph.begin_pass(shadow_index), None);
}

#[test]
fn pass_enabled_after_compile_gets_its_barriers_once_recompiled() {
    let (mut graph, res, handles) = deferred_graph();
    let shadow = res[0];
    graph.pass_mut(handles[1]).enabled = false;
    graph.compile().unwrap();
    graph.pass_mut(handles[1]).enabled = true;
    assert!(!graph.compiled());
    graph.compile().unwrap();
    graph.reset_external_layouts();
    let shadow_index = (0..graph.compiled_pass_count())
        .find(|&i| graph.compiled_node_index(i) == 1)
        .unwrap();
    for i in 0..shadow_index {
        graph.begin_pass(i);
    }
    let ts = graph.begin_pass(shadow_index).expect("the shadow pass is enabled again");
    assert!(ts.contains(&LayoutTransition {
        handle: shadow,
        old_layout: ImageLayout::Undefined,
        new_layout: ImageLayout::DepthAttachmentOptimal
    }));
}

#[test]
fn add_pass_gives_resources_the_usage_of_their_layouts() {
    let mut pool = ResourcePool::new();
    let a = pool.register(ResourceDesc::color("a".to_string(), 37, ResourceExtent::Absolute(4, 4)).with_usage(0));
    let mut graph = RenderGraph::new(pool, (4, 4), (4, 4));
    let plain = ResourceDesc {
        name: "b".to_string(),
        format: 37,
        extent: ResourceExtent::Absolute(4, 4),
        kind: ResourceKind::Color,
        usage: 0,
    };
    let b = graph.pool_mut().register(plain);
    pass("p".to_string())
        .read(b, ImageLayout::ShaderReadOnlyOptimal)
        .write(a, ImageLayout::ColorAttachmentOptimal)
        .finish()
        .build(&mut graph);
    assert_eq!(graph.pool().desc(b).usage, USAGE_SAMPLED);
    assert_eq!(graph.pool().desc(a).usage, USAGE_COLOR_ATTACHMENT | USAGE_SAMPLED);
    assert!(!graph.compiled());
}

#[test]
fn loading_graph_presents_the_swapchain() {
    let mut graph = RenderGraph::new(ResourcePool::new(), (1280, 720), (1280, 720));
    let (handles, passes) = build_loading_graph(&mut graph, 44);
    assert_eq!(handles.swapchain, ResourceHandle(0));
    assert_eq!(passes.background, PassHandle(0));
    assert_eq!(passes.logo, PassHandle(1));
    graph.compile().unwrap();
    assert_eq!(graph.compiled_node_index(0), 0);
    assert_eq!(graph.compiled_node_index(1), 1);
    graph.reset_external_layouts();
    assert_eq!(graph.begin_pass(0), Some(vec![LayoutTransition {
        handle: handles.swapchain,
        old_layout: ImageLayout::Undefined,
        new_layout: ImageLayout::ColorAttachmentOptimal
    }]));
    assert_eq!(graph.begin_pass(1), Some(vec![]));
    assert_eq!(graph.final_transitions(), vec![LayoutTransition {
        handle: handles.swapchain,
        old_layout: ImageLayout::ColorAttachmentOptimal,
        new_layout: ImageLayout::PresentSrc
    }]);
}

#[test]
fn resize_output_forgets_output_sized_layouts() {
    let (mut graph, res, _) = deferred_graph();
    let [shadow, _depth, _albedo, _hdr, ldr, swapchain] = res;
    graph.compile().unwrap();
    graph.reset_external_layouts();
    for i in 0..graph.compiled_pass_count() {
        graph.begin_pass(i);
    }
    let affected = graph.resize_output((800, 600));
    assert_eq!(affected, vec![ldr, swapchain]);
    assert_eq!(graph.output_resolution(), (800, 600));
    assert_eq!(graph.internal_resolution(), (1280, 720));
    let internal = graph.resize_internal((640, 360));
    assert_eq!(internal.len(), 3);
    assert!(!internal.contains(&shadow));
}

#[test]
fn frame_counter_cycles_through_frames_in_flight() {
    let (mut graph, _, _) = deferred_graph();
    graph.compile().unwrap();
    assert_eq!(graph.current_frame(), 0);
    graph.finish_frame();
    assert_eq!(graph.current_frame(), 0);
    graph.set_frames_in_flight(3);
    graph.finish_frame();
    graph.finish_frame();
    assert_eq!(graph.current_frame(), 2);
    graph.finish_frame();
    assert_eq!(graph.current_frame(), 0);
}

#[test]
fn bindings_are_rewritten_for_affected_resources_only() {
    let (mut graph, res, _) = deferred_graph();
    let [shadow, _depth, albedo, _hdr, ldr, _swapchain] = res;
    graph.bind_sampled(albedo, 11, 0, 99);
    graph.bind_sampled(ldr, 12, 1, 99);
    graph.bind_resource(DescriptorBinding {
        resource: shadow,
        set: 13,
        binding: 2,
        array_element: 0,
        image_type: DescriptorImageType::SampledImage,
        image_layout: ImageLayout::ShaderReadOnlyOptimal,
    });
    let affected = graph.resize_output((10, 10));
    let rewrite = graph.bindings_for(&affected);
    assert_eq!(rewrite.len(), 1);
    assert_eq!(rewrite[0].resource, ldr);
    assert_eq!(rewrite[0].set, 12);
    assert_eq!(rewrite[0].image_type, DescriptorImageType::CombinedImageSampler(99));
    assert_eq!(graph.bindings_for_all().len(), 3);
}

#[test]
fn builder_bindings_are_reported_after_allocation() {
    let mut pool = ResourcePool::new();
    let a = pool.register(ResourceDesc::color("a".to_string(), 37, ResourceExtent::Absolute(4, 4)));
    let mut graph = RenderGraph::new(pool, (4, 4), (4, 4));
    let (_, flushes) = pass("before".to_string())
        .bind_sampled(a, 1, 0, 5)
        .finish()
        .build(&mut graph);
    assert!(flushes.is_empty());
    graph.mark_allocated();
    assert!(graph.allocated());
    let (_, flushes) = pass("after".to_string())
        .read(a, ImageLayout::ShaderReadOnlyOptimal)
        .bind_sampled(a, 2, 0, 5)
        .finish()
        .build(&mut graph);
    assert_eq!(flushes.len(), 1);
    assert_eq!(flushes[0].len(), 2);
}

#[test]
fn layout_tracker_transition_reports_changes_only() {
    let mut tracker = LayoutTracker::default();
    let a = ResourceHandle(0);
    let b = ResourceHandle(1);
    tracker.set(b, ImageLayout::ShaderReadOnlyOptimal);
    let barriers = tracker.transition(&[
        (a, ImageLayout::ColorAttachmentOptimal),
        (b, ImageLayout::ShaderReadOnlyOptimal),
    ]);
    assert_eq!(barriers, vec![LayoutTransition {
        handle: a,
        old_layout: ImageLayout::Undefined,
        new_layout: ImageLayout::ColorAttachmentOptimal
    }]);
    assert_eq!(tracker.current(a), ImageLayout::ColorAttachmentOptimal);
    assert!(tracker.transition(&[(a, ImageLayout::ColorAttachmentOptimal)]).is_empty());
    tracker.invalidate(&vec![a]);
    assert_eq!(tracker.current(a), ImageLayout::Undefined);
    assert_eq!(tracker.current(b), ImageLayout::ShaderReadOnlyOptimal);
    tracker.reset();
    assert_eq!(tracker.current(b), ImageLayout::Undefined);
}

#[test]
fn pool_lists_handles_by_size_class() {
    let mut pool = ResourcePool::new();
    let fixed = pool.register(ResourceDesc::color("f".to_string(), 1, ResourceExtent::Absolute(8, 8)));
    let internal = pool.register(ResourceDesc::depth("i".to_string(), 2, ResourceExtent::ScaleInternal(SCALE_ONE)));
    let output = pool.register(ResourceDesc::color("o".to_string(), 3, ResourceExtent::ScaleOutput(SCALE_ONE)));
    let sc = pool.register_swapchain_external(4);
    assert_eq!(pool.count(), 4);
    assert_eq!(pool.internal_handles(), vec![internal]);
    assert_eq!(pool.output_handles(), vec![output, sc]);
    assert_eq!(pool.external_handles(), vec![sc]);
    assert_eq!(pool.external_initial_layout(sc), Some(ImageLayout::Undefined));
    assert_eq!(pool.external_final_layout(sc), Some(ImageLayout::PresentSrc));
    assert_eq!(pool.external_final_layout(fixed), None);
    assert_eq!(pool.desc(internal).usage, USAGE_DEPTH_STENCIL_ATTACHMENT | USAGE_SAMPLED);
    pool.add_usage(fixed, 0x1);
    assert_eq!(pool.desc(fixed).usage, USAGE_COLOR_ATTACHMENT | USAGE_SAMPLED | 0x1);
    assert_eq!(pool.desc(fixed).kind.aspect_mask(), ImageAspect::Color);
    assert_eq!(pool.desc(internal).kind.aspect_mask(), ImageAspect::Depth);
}

#[test]
fn registry_filters_bindings_in_registration_order() {
    let mut reg = DescriptorBindingRegistry::new();
    let mk = |r: u32, set: u64| DescriptorBinding {
        resource: ResourceHandle(r),
        set,
        binding: 0,
        array_element: 0,
        image_type: DescriptorImageType::SampledImage,
        image_layout: ImageLayout::ShaderReadOnlyOptimal,
    };
    reg.register(mk(1, 10));
    reg.register(mk(2, 20));
    reg.register(mk(1, 30));
    let rel = reg.relevant(&[ResourceHandle(1)]);
    assert_eq!(rel.iter().map(|b| b.set).collect::<Vec<_>>(), vec![10, 30]);
    assert_eq!(reg.all_resources(), vec![ResourceHandle(1), ResourceHandle(2), ResourceHandle(1)]);
}

#[test]
fn transition_masks_follow_the_table() {
    let m = layout_transition_masks(ImageLayout::DepthAttachmentOptimal, ImageLayout::ShaderReadOnlyOptimal, ResourceKind::Depth);
    assert_eq!(m.src_stage, PipelineStage::LateFragmentTests);
    assert_eq!(m.src_access, AccessMask::DepthStencilAttachmentWrite);
    assert_eq!(m.dst_stage, PipelineStage::FragmentShader);
    assert_eq!(m.dst_access, AccessMask::ShaderRead);
    let p = layout_transition_masks(ImageLayout::ColorAttachmentOptimal, ImageLayout::PresentSrc, ResourceKind::Color);
    assert_eq!(p.dst_stage, PipelineStage::BottomOfPipe);
    assert_eq!(p.dst_access, AccessMask::NoAccess);
    assert!(!is_supported_transition(ImageLayout::PresentSrc, ImageLayout::ShaderReadOnlyOptimal));
    let a = attachment_transition_masks(ImageLayout::Undefined, ImageLayout::DepthAttachmentOptimal);
    assert_eq!(a.dst_stage, PipelineStage::EarlyFragmentTests);
    assert_eq!(a.dst_access, AccessMask::DepthStencilAttachmentReadWrite);
    let u = upload_transition_masks(ImageLayout::TransferDstOptimal, ImageLayout::TransferSrcOptimal);
    assert_eq!(u.src_access, AccessMask::TransferWrite);
    assert_eq!(u.dst_access, AccessMask::TransferRead);
    assert_eq!(u.src_stage, PipelineStage::Transfer);
}

#[test]
fn make_barrier_uses_the_kind_aspect() {
    let t = LayoutTransition {
        handle: ResourceHandle(3),
        old_layout: ImageLayout::Undefined,
        new_layout: ImageLayout::DepthAttachmentOptimal,
    };
    let b = make_barrier(t, ResourceKind::Depth);
    assert_eq!(b.handle, ResourceHandle(3));
    assert_eq!(b.aspect, ImageAspect::Depth);
    assert_eq!(b.masks.src_stage, PipelineStage::TopOfPipe);
}

#[test]
fn pass_access_constructors_set_the_access_type() {
    let r = ResourceHandle(5);
    assert_eq!(PassAccess::read(r, ImageLayout::General).access, AccessType::Read);
    assert_eq!(PassAccess::write(r, ImageLayout::General).access, AccessType::Write);
    assert_eq!(PassAccess::read_write(r, ImageLayout::General).access, AccessType::ReadWrite);
    assert!(!AccessType::Read.writes());
    assert!(AccessType::ReadWrite.writes());
}

#[test]
fn every_pass_sees_its_declared_layouts() {
    let (mut graph, _, _) = deferred_graph();
    graph.compile().unwrap();
    // Layouts as the recorded transitions leave them, frame after frame.
    let mut layouts: HashMap<u32, ImageLayout> = HashMap::new();
    for _frame in 0..3 {
        graph.reset_external_layouts();
        layouts.insert(5, ImageLayout::Undefined);
        for i in 0..graph.compiled_pass_count() {
            for t in graph.begin_pass(i).unwrap() {
                let before = layouts.get(&t.handle.0).copied().unwrap_or(ImageLayout::Undefined);
                assert_eq!(before, t.old_layout);
                layouts.insert(t.handle.0, t.new_layout);
            }
            let node = graph.compiled_node_index(i);
            let name = graph.pass_name(node).clone();
            let expected: Vec<(u32, ImageLayout)> = match name.as_str() {
                "shadow" => vec![(0, ImageLayout::DepthAttachmentOptimal)],
                "depth_prepass" => vec![(1, ImageLayout::DepthAttachmentOptimal)],
                "geometry" => vec![(1, ImageLayout::DepthAttachmentOptimal), (2, ImageLayout::ColorAttachmentOptimal)],
                "lighting" => vec![
                    (2, ImageLayout::ShaderReadOnlyOptimal),
                    (0, ImageLayout::ShaderReadOnlyOptimal),
                    (3, ImageLayout::ColorAttachmentOptimal),
                ],
                "post_process" => vec![(3, ImageLayout::ShaderReadOnlyOptimal), (4, ImageLayout::ColorAttachmentOptimal)],
                "blit" => vec![(4, ImageLayout::ShaderReadOnlyOptimal), (5, ImageLayout::ColorAttachmentOptimal)],
                other => panic!("unexpected pass {other}"),
            };
            for (h, l) in expected {
                assert_eq!(layouts.get(&h).copied(), Some(l), "pass {name}, resource {h}");
            }
        }
        for t in graph.final_transitions() {
            layouts.insert(t.handle.0, t.new_layout);
        }
        assert_eq!(layouts.get(&5).copied(), Some(ImageLayout::PresentSrc));
        graph.finish_frame();
    }
}

#[test]
fn bindings_for_all_lists_every_binding_in_order() {
    let (mut graph, res, _) = deferred_graph();
    graph.bind_sampled(res[2], 1, 0, 7);
    graph.bind_sampled(res[0], 2, 0, 7);
    graph.bind_sampled(res[2], 3, 1, 7);
    let all = graph.bindings_for_all();
    assert_eq!(all.iter().map(|b| (b.resource, b.set)).collect::<Vec<_>>(), vec![(res[2], 1), (res[0], 2), (res[2], 3)]);
}
