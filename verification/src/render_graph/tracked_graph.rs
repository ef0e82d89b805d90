//! A render graph that orders passes by read-after-write dependencies and,
//! while a frame is recorded, moves each image a pass accesses into the
//! layout the pass declares, through the layout tracker.
use vstd::prelude::*;
use crate::render_graph::access::{ImageLayout, PassAccess, PassHandle, PassNode, ResourceHandle};
use crate::render_graph::edges::{
    GraphError, dependencies_in_range, has_writer_order, is_writer_order, schedule_passes_after_writers,
    writer_schedule,
};
use crate::render_graph::graph::{PassNodeReady, add_required_usage, with_required_usage};
use crate::render_graph::resource::{
    DescriptorBinding, DescriptorBindingRegistry, DescriptorImageType, LayoutTracker, LayoutTransition,
    ResourcePool, apply_requests, batch_transitions, bindings_for, is_internal_extent, is_output_extent, layout_in,
    lists_exactly,
};

verus! {

/// The layout requests of a pass: each accessed resource with its layout.
pub open spec fn requests_of(accs: Seq<PassAccess>) -> Seq<(ResourceHandle, ImageLayout)> {
    accs.map_values(|a: PassAccess| (a.handle, a.layout))
}

/// The graph of passes over a pool of resources, with layouts tracked per pass.
pub struct RenderGraph {
    pool: ResourcePool,
    nodes: Vec<PassNode>,
    sorted_order: Vec<usize>,
    tracker: LayoutTracker,
    bindings: DescriptorBindingRegistry,
    internal_resolution: (u32, u32),
    output_resolution: (u32, u32),
    compiled: bool,
}

impl RenderGraph {
    /// The resource pool.
    pub closed spec fn pool_view(&self) -> ResourcePool {
        self.pool
    }

    /// The passes, by handle.
    pub closed spec fn nodes_view(&self) -> Seq<PassNode> {
        self.nodes@
    }

    /// The execution order computed by the last successful compile.
    pub closed spec fn order_view(&self) -> Seq<usize> {
        self.sorted_order@
    }

    /// The tracked layouts.
    pub closed spec fn layouts_view(&self) -> Map<u32, ImageLayout> {
        self.tracker.view()
    }

    /// The registered descriptor bindings.
    pub closed spec fn bindings_view(&self) -> Seq<DescriptorBinding> {
        self.bindings.view()
    }

    /// Whether the graph was compiled since the last pass was added.
    pub closed spec fn is_compiled(&self) -> bool {
        self.compiled
    }

    /// Internal resolution.
    pub closed spec fn internal_view(&self) -> (u32, u32) {
        self.internal_resolution
    }

    /// Output resolution.
    pub closed spec fn output_view(&self) -> (u32, u32) {
        self.output_resolution
    }

    /// Well formed: the pool is well formed and the execution order names
    /// passes of the graph.
    pub closed spec fn wf(&self) -> bool {
        &&& self.pool.wf()
        &&& forall|j: int| 0 <= j < self.sorted_order@.len() ==> #[trigger] self.sorted_order@[j] < self.nodes@.len()
        &&& self.nodes@.len() <= u32::MAX
    }

    /// The layout the tracker holds for `h`.
    pub open spec fn layout_of(&self, h: ResourceHandle) -> ImageLayout {
        layout_in(self.layouts_view(), h.0)
    }

    /// A graph over `pool` with no passes, at the given resolutions.
    pub fn new(pool: ResourcePool, internal_resolution: (u32, u32), output_resolution: (u32, u32)) -> (g: Self)
        requires
            pool.wf(),
        ensures
            g.wf(),
            g.pool_view() == pool,
            g.nodes_view().len() == 0,
            g.order_view().len() == 0,
            !g.is_compiled(),
            g.layouts_view() == Map::<u32, ImageLayout>::empty(),
            g.bindings_view().len() == 0,
            g.internal_view() == internal_resolution,
            g.output_view() == output_resolution,
    {
        RenderGraph {
            pool,
            nodes: Vec::new(),
            sorted_order: Vec::new(),
            tracker: LayoutTracker::new(),
            bindings: DescriptorBindingRegistry::new(),
            internal_resolution,
            output_resolution,
            compiled: false,
        }
    }

    /// The resource pool.
    pub fn pool(&self) -> (p: &ResourcePool)
        ensures
            *p == self.pool_view(),
    {
        &self.pool
    }

    /// Mutable access to the resource pool, to register resources. The graph
    /// stays well formed as long as the pool does.
    pub fn pool_mut(&mut self) -> (p: &mut ResourcePool)
        requires
            old(self).wf(),
        ensures
            *p == old(self).pool_view(),
            p.wf(),
            final(self).pool_view() == *final(p),
            final(p).wf() ==> final(self).wf(),
            final(self).nodes_view() == old(self).nodes_view(),
            final(self).order_view() == old(self).order_view(),
            final(self).layouts_view() == old(self).layouts_view(),
            final(self).bindings_view() == old(self).bindings_view(),
            final(self).is_compiled() == old(self).is_compiled(),
            final(self).internal_view() == old(self).internal_view(),
            final(self).output_view() == old(self).output_view(),
    {
        &mut self.pool
    }

    /// Number of passes.
    pub fn pass_count(&self) -> (n: usize)
        ensures
            n == self.nodes_view().len(),
    {
        self.nodes.len()
    }

    /// Whether the graph is compiled.
    pub fn compiled(&self) -> (c: bool)
        ensures
            c == self.is_compiled(),
    {
        self.compiled
    }

    /// Add a pass. Each resource it accesses gains the usage its layout needs;
    /// the graph needs compiling again.
    pub fn add_pass(&mut self, node: PassNode) -> (h: PassHandle)
        requires
            old(self).wf(),
            old(self).nodes_view().len() < u32::MAX,
            forall|k: int|
                0 <= k < node.accesses@.len() ==> (#[trigger] node.accesses@[k]).handle.0 < old(
                    self,
                ).pool_view().len(),
        ensures
            final(self).wf(),
            h.0 == old(self).nodes_view().len(),
            final(self).nodes_view() == old(self).nodes_view().push(node),
            !final(self).is_compiled(),
            final(self).pool_view().view() == with_required_usage(old(self).pool_view().view(), node.accesses@),
            final(self).pool_view().names() == old(self).pool_view().names(),
            final(self).order_view() == old(self).order_view(),
            final(self).layouts_view() == old(self).layouts_view(),
            final(self).bindings_view() == old(self).bindings_view(),
            final(self).internal_view() == old(self).internal_view(),
            final(self).output_view() == old(self).output_view(),
    {
        add_required_usage(&mut self.pool, &node.accesses);
        let handle = PassHandle(self.nodes.len() as u32);
        self.nodes.push(node);
        self.compiled = false;
        handle
    }

    /// Whether every explicit dependency names a pass of the graph, as
    /// compiling requires.
    pub fn dependencies_valid(&self) -> (b: bool)
        ensures
            b == dependencies_in_range(self.nodes_view()),
    {
        let n = self.nodes.len();
        let mut v: usize = 0;
        while v < n
            invariant
                n == self.nodes@.len(),
                v <= n,
                forall|a: int, d: int|
                    0 <= a < v && 0 <= d < self.nodes@[a].depends_on@.len() ==> (#[trigger] self.nodes@[a].depends_on@[d]).0
                        < n,
            decreases n - v,
        {
            let deps = &self.nodes[v].depends_on;
            let mut d: usize = 0;
            while d < deps.len()
                invariant
                    n == self.nodes@.len(),
                    v < n,
                    deps@ == self.nodes@[v as int].depends_on@,
                    d <= deps@.len(),
                    forall|a: int, e: int|
                        0 <= a < v && 0 <= e < self.nodes@[a].depends_on@.len() ==> (#[trigger] self.nodes@[a].depends_on@[e]).0
                            < n,
                    forall|e: int| 0 <= e < d ==> (#[trigger] deps@[e]).0 < n,
                decreases deps@.len() - d,
            {
                if deps[d].0 as usize >= n {
                    return false;
                }
                d = d + 1;
            }
            v = v + 1;
        }
        true
    }

    /// Order the passes so that each runs after the last writer of every
    /// resource it reads and after the passes it names. Fails, leaving the
    /// graph as it was, exactly when those dependencies form a cycle.
    pub fn compile(&mut self) -> (r: Result<(), GraphError>)
        requires
            old(self).wf(),
            dependencies_in_range(old(self).nodes_view()),
        ensures
            final(self).wf(),
            r is Ok <==> has_writer_order(old(self).nodes_view()),
            r matches Err(e) ==> {
                &&& e == GraphError::CycleDetected
                &&& final(self).is_compiled() == old(self).is_compiled()
                &&& final(self).order_view() == old(self).order_view()
            },
            r is Ok ==> final(self).is_compiled() && is_writer_order(old(self).nodes_view(), final(self).order_view()),
            r is Ok ==> final(self).order_view() == writer_schedule(old(self).nodes_view()),
            final(self).pool_view() == old(self).pool_view(),
            final(self).nodes_view() == old(self).nodes_view(),
            final(self).layouts_view() == old(self).layouts_view(),
            final(self).bindings_view() == old(self).bindings_view(),
            final(self).internal_view() == old(self).internal_view(),
            final(self).output_view() == old(self).output_view(),
    {
        match schedule_passes_after_writers(&self.nodes) {
            Ok(order) => {
                self.sorted_order = order;
                self.compiled = true;
                Ok(())
            },
            Err(e) => Err(e),
        }
    }

    /// Register a descriptor binding to rewrite whenever its resource's image changes.
    pub fn bind_resource(&mut self, binding: DescriptorBinding)
        requires
            old(self).wf(),
        ensures
            final(self).wf(),
            final(self).bindings_view() == old(self).bindings_view().push(binding),
            final(self).pool_view() == old(self).pool_view(),
            final(self).nodes_view() == old(self).nodes_view(),
            final(self).order_view() == old(self).order_view(),
            final(self).layouts_view() == old(self).layouts_view(),
            final(self).is_compiled() == old(self).is_compiled(),
            final(self).internal_view() == old(self).internal_view(),
            final(self).output_view() == old(self).output_view(),
    {
        self.bindings.register(binding);
    }

    /// Register a combined image-sampler binding (array element 0, read in
    /// shader-read-only layout) for `resource`.
    pub fn bind_sampled(&mut self, resource: ResourceHandle, set: u64, binding: u32, sampler: u64)
        requires
            old(self).wf(),
        ensures
            final(self).wf(),
            final(self).bindings_view() == old(self).bindings_view().push(
                DescriptorBinding {
                    resource,
                    set,
                    binding,
                    array_element: 0,
                    image_type: DescriptorImageType::CombinedImageSampler(sampler),
                    image_layout: ImageLayout::ShaderReadOnlyOptimal,
                },
            ),
            final(self).pool_view() == old(self).pool_view(),
            final(self).nodes_view() == old(self).nodes_view(),
            final(self).order_view() == old(self).order_view(),
            final(self).layouts_view() == old(self).layouts_view(),
            final(self).is_compiled() == old(self).is_compiled(),
            final(self).internal_view() == old(self).internal_view(),
            final(self).output_view() == old(self).output_view(),
    {
        self.bindings.register(
            DescriptorBinding {
                resource,
                set,
                binding,
                array_element: 0,
                image_type: DescriptorImageType::CombinedImageSampler(sampler),
                image_layout: ImageLayout::ShaderReadOnlyOptimal,
            },
        );
    }

    /// The bindings to rewrite after the images of `affected` changed.
    pub fn bindings_for(&self, affected: &[ResourceHandle]) -> (bs: Vec<DescriptorBinding>)
        ensures
            bs@ == bindings_for(self.bindings_view(), affected@),
    {
        self.bindings.relevant(affected)
    }

    /// The bindings to rewrite after every image was created: all of them.
    pub fn bindings_for_all(&self) -> (bs: Vec<DescriptorBinding>)
        ensures
            bs@ == bindings_for(
                self.bindings_view(),
                self.bindings_view().map_values(|b: DescriptorBinding| b.resource),
            ),
    {
        let all = self.bindings.all_resources();
        self.bindings.relevant(all.as_slice())
    }

    /// Number of passes in the execution order.
    pub fn compiled_pass_count(&self) -> (n: usize)
        ensures
            n == self.order_view().len(),
    {
        self.sorted_order.len()
    }

    /// The pass at position `order_idx` of the execution order.
    pub fn compiled_node_index(&self, order_idx: usize) -> (i: usize)
        requires
            self.wf(),
            order_idx < self.order_view().len(),
        ensures
            i == self.order_view()[order_idx as int],
            i < self.nodes_view().len(),
    {
        self.sorted_order[order_idx]
    }

    /// Start pass `order_idx` of the execution order while recording a frame.
    /// Returns `None` when the pass is disabled (it is skipped); otherwise the
    /// layout transitions to record before it: every accessed resource not in
    /// the layout the pass declares, judged against the layouts before the
    /// pass. When there is any, every declared layout is recorded.
    pub fn begin_pass(&mut self, order_idx: usize) -> (r: Option<Vec<LayoutTransition>>)
        requires
            old(self).wf(),
            old(self).is_compiled(),
            order_idx < old(self).order_view().len(),
        ensures
            final(self).wf(),
            !old(self).nodes_view()[old(self).order_view()[order_idx as int] as int].enabled ==> {
                &&& r is None
                &&& final(self).layouts_view() == old(self).layouts_view()
            },
            old(self).nodes_view()[old(self).order_view()[order_idx as int] as int].enabled ==> {
                let reqs = requests_of(old(self).nodes_view()[old(self).order_view()[order_idx as int] as int].accesses@);
                let ts = batch_transitions(old(self).layouts_view(), reqs);
                &&& r is Some
                &&& r->0@ == ts
                &&& final(self).layouts_view() == if ts.len() == 0 {
                    old(self).layouts_view()
                } else {
                    apply_requests(old(self).layouts_view(), reqs)
                }
            },
            final(self).pool_view() == old(self).pool_view(),
            final(self).nodes_view() == old(self).nodes_view(),
            final(self).order_view() == old(self).order_view(),
            final(self).bindings_view() == old(self).bindings_view(),
            final(self).is_compiled() == old(self).is_compiled(),
            final(self).internal_view() == old(self).internal_view(),
            final(self).output_view() == old(self).output_view(),
    {
        let idx = self.sorted_order[order_idx];
        if !self.nodes[idx].enabled {
            return None;
        }
        let reqs = pass_requests(&self.nodes[idx].accesses);
        let ts = self.tracker.transition(reqs.as_slice());
        Some(ts)
    }

    /// Change the output resolution. Returns the output-sized resources,
    /// whose images must be recreated and whose bindings rewritten; their
    /// tracked layouts are forgotten.
    pub fn resize_output(&mut self, new_output: (u32, u32)) -> (affected: Vec<ResourceHandle>)
        requires
            old(self).wf(),
        ensures
            final(self).wf(),
            final(self).output_view() == new_output,
            lists_exactly(
                affected@,
                old(self).pool_view().len() as int,
                |i: int| is_output_extent(old(self).pool_view().extent_of(i)),
            ),
            forall|h: ResourceHandle|
                #[trigger] final(self).layout_of(h) == if affected@.contains(h) {
                    ImageLayout::Undefined
                } else {
                    old(self).layout_of(h)
                },
            final(self).internal_view() == old(self).internal_view(),
            final(self).bindings_view() == old(self).bindings_view(),
            final(self).pool_view() == old(self).pool_view(),
            final(self).nodes_view() == old(self).nodes_view(),
            final(self).order_view() == old(self).order_view(),
            final(self).is_compiled() == old(self).is_compiled(),
    {
        self.output_resolution = new_output;
        let affected = self.pool.output_handles();
        forget_layouts(&mut self.tracker, &affected);
        affected
    }

    /// Change the internal resolution. Returns the internal-sized resources,
    /// whose images must be recreated and whose bindings rewritten; their
    /// tracked layouts are forgotten.
    pub fn resize_internal(&mut self, new_internal: (u32, u32)) -> (affected: Vec<ResourceHandle>)
        requires
            old(self).wf(),
        ensures
            final(self).wf(),
            final(self).internal_view() == new_internal,
            lists_exactly(
                affected@,
                old(self).pool_view().len() as int,
                |i: int| is_internal_extent(old(self).pool_view().extent_of(i)),
            ),
            forall|h: ResourceHandle|
                #[trigger] final(self).layout_of(h) == if affected@.contains(h) {
                    ImageLayout::Undefined
                } else {
                    old(self).layout_of(h)
                },
            final(self).output_view() == old(self).output_view(),
            final(self).bindings_view() == old(self).bindings_view(),
            final(self).pool_view() == old(self).pool_view(),
            final(self).nodes_view() == old(self).nodes_view(),
            final(self).order_view() == old(self).order_view(),
            final(self).is_compiled() == old(self).is_compiled(),
    {
        self.internal_resolution = new_internal;
        let affected = self.pool.internal_handles();
        forget_layouts(&mut self.tracker, &affected);
        affected
    }

    /// The internal (pre-upscale) resolution.
    pub fn internal_resolution(&self) -> (r: (u32, u32))
        ensures
            r == self.internal_view(),
    {
        self.internal_resolution
    }

    /// The output resolution.
    pub fn output_resolution(&self) -> (r: (u32, u32))
        ensures
            r == self.output_view(),
    {
        self.output_resolution
    }

    /// Mutable access to a pass, to enable or disable it.
    pub fn pass_mut(&mut self, handle: PassHandle) -> (node: &mut PassNode)
        requires
            old(self).wf(),
            handle.0 < old(self).nodes_view().len(),
        ensures
            *node == old(self).nodes_view()[handle.0 as int],
            final(self).nodes_view() == old(self).nodes_view().update(handle.0 as int, *final(node)),
            final(self).wf(),
            final(self).pool_view() == old(self).pool_view(),
            final(self).order_view() == old(self).order_view(),
            final(self).layouts_view() == old(self).layouts_view(),
            final(self).bindings_view() == old(self).bindings_view(),
            final(self).is_compiled() == old(self).is_compiled(),
            final(self).internal_view() == old(self).internal_view(),
            final(self).output_view() == old(self).output_view(),
    {
        &mut self.nodes[handle.0 as usize]
    }
}

/// The layout requests of a pass's accesses, in order.
fn pass_requests(accs: &Vec<PassAccess>) -> (reqs: Vec<(ResourceHandle, ImageLayout)>)
    ensures
        reqs@ == requests_of(accs@),
{
    let mut reqs: Vec<(ResourceHandle, ImageLayout)> = Vec::new();
    let mut k: usize = 0;
    while k < accs.len()
        invariant
            k <= accs@.len(),
            reqs@ == requests_of(accs@.subrange(0, k as int)),
        decreases accs@.len() - k,
    {
        let a = accs[k];
        reqs.push((a.handle, a.layout));
        proof {
            assert(requests_of(accs@.subrange(0, k + 1)) == requests_of(accs@.subrange(0, k as int)).push(
                (a.handle, a.layout),
            ));
        }
        k = k + 1;
    }
    proof {
        assert(accs@.subrange(0, accs@.len() as int) == accs@);
    }
    reqs
}

/// Forget the tracked layouts of `handles`.
fn forget_layouts(tracker: &mut LayoutTracker, handles: &Vec<ResourceHandle>)
    ensures
        forall|h: ResourceHandle|
            #[trigger] layout_in(final(tracker).view(), h.0) == if handles@.contains(h) {
                ImageLayout::Undefined
            } else {
                layout_in(old(tracker).view(), h.0)
            },
{
    tracker.invalidate(handles);
    proof {
        assert forall|h: ResourceHandle|
            #[trigger] layout_in(tracker.view(), h.0) == if handles@.contains(h) {
                ImageLayout::Undefined
            } else {
                layout_in(old(tracker).view(), h.0)
            } by {
            assert(tracker.layout_of(h) == layout_in(tracker.view(), h.0));
            if exists|i: int| 0 <= i < handles@.len() && handles@[i].0 == h.0 {
                let i = choose|i: int| 0 <= i < handles@.len() && handles@[i].0 == h.0;
                assert(handles@[i] == h);
            }
            if handles@.contains(h) {
                let i = choose|i: int| 0 <= i < handles@.len() && handles@[i] == h;
                assert(handles@[i].0 == h.0);
            }
        }
    }
}

impl PassNodeReady {
    /// Register the pass's bindings and add the pass to a tracked graph.
    pub fn build_tracked(self, graph: &mut RenderGraph) -> (h: PassHandle)
        requires
            old(graph).wf(),
            old(graph).nodes_view().len() < u32::MAX,
            forall|k: int|
                0 <= k < self.node.accesses@.len() ==> (#[trigger] self.node.accesses@[k]).handle.0 < old(
                    graph,
                ).pool_view().len(),
        ensures
            final(graph).wf(),
            h.0 == old(graph).nodes_view().len(),
            final(graph).nodes_view() == old(graph).nodes_view().push(self.node),
            final(graph).bindings_view() == old(graph).bindings_view() + self.deferred_bindings@,
            final(graph).pool_view().view() == with_required_usage(
                old(graph).pool_view().view(),
                self.node.accesses@,
            ),
            !final(graph).is_compiled(),
    {
        let ghost b0 = graph.bindings_view();
        let ghost bs = self.deferred_bindings@;
        let mut k: usize = 0;
        while k < self.deferred_bindings.len()
            invariant
                graph.wf(),
                bs == self.deferred_bindings@,
                k <= bs.len(),
                graph.bindings_view() == b0 + bs.subrange(0, k as int),
                graph.nodes_view() == old(graph).nodes_view(),
                graph.pool_view() == old(graph).pool_view(),
            decreases bs.len() - k,
        {
            graph.bind_resource(self.deferred_bindings[k]);
            proof {
                assert(bs.subrange(0, k + 1) == bs.subrange(0, k as int).push(bs[k as int]));
                assert(b0 + bs.subrange(0, k + 1) == (b0 + bs.subrange(0, k as int)).push(bs[k as int]));
            }
            k = k + 1;
        }
        proof {
            assert(bs.subrange(0, bs.len() as int) == bs);
        }
        graph.add_pass(self.node)
    }
}

} // verus!
