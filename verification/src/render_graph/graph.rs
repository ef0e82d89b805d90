//! The render graph: passes, their order, the planned layout transitions and
//! the layout bookkeeping done while a frame is recorded.
use vstd::prelude::*;
use std::collections::HashMap;
use crate::render_graph::access::{AccessType, ImageLayout, PassAccess, PassHandle, PassNode, ResourceHandle};
use crate::render_graph::edges::{
    GraphError, dependencies_in_range, has_pass_order, is_pass_order, pass_schedule, schedule_passes,
};
use crate::render_graph::resource::{
    DescriptorBinding, DescriptorBindingRegistry, DescriptorImageType, LayoutTracker, LayoutTransition,
    ResourceEntry, ResourcePool, USAGE_COLOR_ATTACHMENT, USAGE_DEPTH_STENCIL_ATTACHMENT, USAGE_SAMPLED, bindings_for,
    is_internal_extent, is_output_extent, layout_in, lists_exactly,
};

verus! {

broadcast use vstd::std_specs::hash::group_hash_axioms;

/// A planned transition of one resource to `new_layout`.
#[derive(Debug, Clone, Copy, PartialEq, Eq, Structural)]
pub struct CompiledBarrier {
    pub handle: ResourceHandle,
    pub new_layout: ImageLayout,
}

/// A pass in execution order with the transitions planned before it.
pub struct CompiledPass {
    pub node_index: usize,
    pub barriers: Vec<CompiledBarrier>,
}

/// Usage bits an image needs to be used in `layout`.
pub open spec fn layout_usage(layout: ImageLayout) -> u32 {
    match layout {
        ImageLayout::ShaderReadOnlyOptimal => USAGE_SAMPLED,
        ImageLayout::ColorAttachmentOptimal => USAGE_COLOR_ATTACHMENT,
        ImageLayout::DepthAttachmentOptimal => USAGE_DEPTH_STENCIL_ATTACHMENT,
        _ => 0,
    }
}

/// Usage bits that the accesses `accs` require of resource `i`.
pub open spec fn usage_required(accs: Seq<PassAccess>, i: int) -> u32
    decreases accs.len(),
{
    if accs.len() == 0 {
        0
    } else {
        usage_required(accs.drop_last(), i) | if accs.last().handle.0 == i {
            layout_usage(accs.last().layout)
        } else {
            0
        }
    }
}

/// Barriers planned for the accesses `accs` of one pass starting from the
/// simulated layouts `sim`: a barrier for each access whose resource is not
/// already in the requested layout; returns the barriers and the layouts after them.
pub open spec fn plan_accesses(sim: Map<u32, ImageLayout>, accs: Seq<PassAccess>) -> (
    Seq<CompiledBarrier>,
    Map<u32, ImageLayout>,
)
    decreases accs.len(),
{
    if accs.len() == 0 {
        (seq![], sim)
    } else {
        let (bs, s) = plan_accesses(sim, accs.drop_last());
        let a = accs.last();
        if layout_in(s, a.handle.0) != a.layout {
            (bs.push(CompiledBarrier { handle: a.handle, new_layout: a.layout }), s.insert(a.handle.0, a.layout))
        } else {
            (bs, s)
        }
    }
}

/// Barriers planned for the passes in `order`, starting with every resource
/// `Undefined`; disabled passes get none. Returns the per-pass barriers and the final layouts.
pub open spec fn plan_passes(nodes: Seq<PassNode>, order: Seq<usize>) -> (
    Seq<Seq<CompiledBarrier>>,
    Map<u32, ImageLayout>,
)
    decreases order.len(),
{
    if order.len() == 0 {
        (seq![], Map::empty())
    } else {
        let (plan, s) = plan_passes(nodes, order.drop_last());
        let node = nodes[order.last() as int];
        if !node.enabled {
            (plan.push(seq![]), s)
        } else {
            let (bs, s2) = plan_accesses(s, node.accesses@);
            (plan.push(bs), s2)
        }
    }
}

/// Transitions performed for the planned barriers `cbs` given the tracked
/// layouts `m`, one after another: each barrier whose resource is not already
/// in its layout yields a transition and updates the layout.
pub open spec fn run_barriers(m: Map<u32, ImageLayout>, cbs: Seq<CompiledBarrier>) -> (
    Seq<LayoutTransition>,
    Map<u32, ImageLayout>,
)
    decreases cbs.len(),
{
    if cbs.len() == 0 {
        (seq![], m)
    } else {
        let (ts, s) = run_barriers(m, cbs.drop_last());
        let b = cbs.last();
        let old_layout = layout_in(s, b.handle.0);
        if old_layout == b.new_layout {
            (ts, s)
        } else {
            (
                ts.push(LayoutTransition { handle: b.handle, old_layout, new_layout: b.new_layout }),
                s.insert(b.handle.0, b.new_layout),
            )
        }
    }
}

/// The graph of passes over a pool of resources.
pub struct RenderGraph {
    pool: ResourcePool,
    nodes: Vec<PassNode>,
    sorted_order: Vec<usize>,
    tracker: LayoutTracker,
    bindings: DescriptorBindingRegistry,
    internal_resolution: (u32, u32),
    output_resolution: (u32, u32),
    compiled: bool,
    allocated: bool,
    compiled_passes: Vec<CompiledPass>,
    compiled_finals: Vec<CompiledBarrier>,
    current_frame: usize,
    frames_in_flight: usize,
}

impl RenderGraph {
    /// The resource pool.
    pub closed spec fn pool_view(&self) -> ResourcePool {
        self.pool
    }

    /// The passes, by handle.
    pub closed spec fn nodes_view(&self) -> Seq<PassNode> {
        self.nodes@
    }

    /// The execution order found by the last successful compile.
    pub closed spec fn order_view(&self) -> Seq<usize> {
        self.sorted_order@
    }

    /// The barriers planned before each pass of the execution order.
    pub closed spec fn plan_view(&self) -> Seq<Seq<CompiledBarrier>> {
        Seq::new(self.compiled_passes@.len(), |j: int| self.compiled_passes@[j].barriers@)
    }

    /// The barriers planned after the last pass.
    pub closed spec fn finals_view(&self) -> Seq<CompiledBarrier> {
        self.compiled_finals@
    }

    /// The tracked layouts.
    pub closed spec fn layouts_view(&self) -> Map<u32, ImageLayout> {
        self.tracker.view()
    }

    /// The registered descriptor bindings.
    pub closed spec fn bindings_view(&self) -> Seq<DescriptorBinding> {
        self.bindings.view()
    }

    /// Whether the graph is compiled.
    pub closed spec fn is_compiled(&self) -> bool {
        self.compiled
    }

    /// Whether the pool images were allocated.
    pub closed spec fn is_allocated(&self) -> bool {
        self.allocated
    }

    /// Index of the frame in flight being recorded.
    pub closed spec fn frame_view(&self) -> nat {
        self.current_frame as nat
    }

    /// Number of frames in flight.
    pub closed spec fn frames_in_flight_view(&self) -> nat {
        self.frames_in_flight as nat
    }

    /// Internal (pre-upscale) resolution.
    pub closed spec fn internal_view(&self) -> (u32, u32) {
        self.internal_resolution
    }

    /// Output resolution.
    pub closed spec fn output_view(&self) -> (u32, u32) {
        self.output_resolution
    }

    /// Well formed: the pool is well formed and the compiled passes follow the
    /// execution order, which names passes of the graph.
    pub closed spec fn wf(&self) -> bool {
        &&& self.pool.wf()
        &&& self.compiled_passes@.len() == self.sorted_order@.len()
        &&& forall|j: int|
            0 <= j < self.sorted_order@.len() ==> (#[trigger] self.compiled_passes@[j]).node_index
                == self.sorted_order@[j]
        &&& forall|j: int| 0 <= j < self.sorted_order@.len() ==> #[trigger] self.sorted_order@[j] < self.nodes@.len()
        &&& self.nodes@.len() <= u32::MAX
        &&& self.current_frame < frame_cycle(self.frames_in_flight as nat)
    }

    /// The layout the tracker holds for `h`.
    pub open spec fn layout_of(&self, h: ResourceHandle) -> ImageLayout {
        layout_in(self.layouts_view(), h.0)
    }

    /// A graph over `pool` with no passes, at the given resolutions.
    pub fn new(pool: ResourcePool, internal_resolution: (u32, u32), output_resolution: (u32, u32)) -> (g:
        Self)
        requires
            pool.wf(),
        ensures
            g.wf(),
            g.pool_view() == pool,
            g.nodes_view().len() == 0,
            !g.is_compiled(),
            !g.is_allocated(),
            g.layouts_view() == Map::<u32, ImageLayout>::empty(),
            g.bindings_view().len() == 0,
            g.internal_view() == internal_resolution,
            g.output_view() == output_resolution,
            g.frame_view() == 0,
            g.frames_in_flight_view() == 0,
    {
        RenderGraph {
            pool,
            nodes: Vec::new(),
            sorted_order: Vec::new(),
            tracker: LayoutTracker::new(),
            bindings: DescriptorBindingRegistry::new(),
            internal_resolution,
            output_resolution,
            compiled: false,
            allocated: false,
            compiled_passes: Vec::new(),
            compiled_finals: Vec::new(),
            current_frame: 0,
            frames_in_flight: 0,
        }
    }
}


proof fn lemma_or_assoc(a: u32, b: u32, c: u32)
    ensures
        (a | b) | c == a | (b | c),
        a | 0u32 == a,
{
    assert((a | b) | c == a | (b | c)) by (bit_vector);
    assert(a | 0u32 == a) by (bit_vector);
}

/// The entries after giving each resource the usage bits `accs` require of it.
pub open spec fn with_required_usage(entries: Seq<ResourceEntry>, accs: Seq<PassAccess>) -> Seq<
    ResourceEntry,
> {
    Seq::new(
        entries.len(),
        |i: int| ResourceEntry { usage: entries[i].usage | usage_required(accs, i), ..entries[i] },
    )
}

/// Give every resource accessed by `accs` the usage bits its requested layout needs.
pub(crate) fn add_required_usage(pool: &mut ResourcePool, accs: &Vec<PassAccess>)
    requires
        old(pool).wf(),
        forall|k: int| 0 <= k < accs@.len() ==> (#[trigger] accs@[k]).handle.0 < old(pool).len(),
    ensures
        final(pool).wf(),
        final(pool).view() == with_required_usage(old(pool).view(), accs@),
        final(pool).names() == old(pool).names(),
{
    let ghost e0 = pool.view();
    proof {
        assert(e0 =~= with_required_usage(e0, accs@.subrange(0, 0))) by {
            assert forall|i: int| 0 <= i < e0.len() implies e0[i].usage | usage_required(
                accs@.subrange(0, 0),
                i,
            ) == e0[i].usage by {
                lemma_or_assoc(e0[i].usage, 0, 0);
            }
        }
    }
    let mut k: usize = 0;
    while k < accs.len()
        invariant
            k <= accs@.len(),
            pool.wf(),
            forall|k: int| 0 <= k < accs@.len() ==> (#[trigger] accs@[k]).handle.0 < e0.len(),
            pool.view() == with_required_usage(e0, accs@.subrange(0, k as int)),
            pool.names() == old(pool).names(),
        decreases accs@.len() - k,
    {
        let access = accs[k];
        let extra = match access.layout {
            ImageLayout::ShaderReadOnlyOptimal => USAGE_SAMPLED,
            ImageLayout::ColorAttachmentOptimal => USAGE_COLOR_ATTACHMENT,
            ImageLayout::DepthAttachmentOptimal => USAGE_DEPTH_STENCIL_ATTACHMENT,
            _ => 0,
        };
        let ghost e1 = pool.view();
        pool.add_usage(access.handle, extra);
        proof {
            let pre = accs@.subrange(0, k as int);
            let post = accs@.subrange(0, k + 1);
            assert(post.drop_last() == pre);
            assert(post.last() == access);
            assert(pool.view() =~= with_required_usage(e0, post)) by {
                assert forall|i: int| 0 <= i < e0.len() implies #[trigger] pool.view()[i] == with_required_usage(
                    e0,
                    post,
                )[i] by {
                    lemma_or_assoc(e0[i].usage, usage_required(pre, i), if access.handle.0 == i {
                        layout_usage(access.layout)
                    } else {
                        0
                    });
                    lemma_or_assoc(usage_required(pre, i), 0, 0);
                    assert(usage_required(post, i) == usage_required(pre, i) | if access.handle.0 == i {
                        layout_usage(access.layout)
                    } else {
                        0
                    });
                    assert(extra == layout_usage(access.layout));
                    assert(e1[i] == with_required_usage(e0, pre)[i]);
                }
            }
        }
        k = k + 1;
    }
    proof {
        assert(accs@.subrange(0, accs@.len() as int) == accs@);
    }
}

impl RenderGraph {
    /// The resource pool.
    pub fn pool(&self) -> (p: &ResourcePool)
        ensures
            *p == self.pool_view(),
    {
        &self.pool
    }

    /// Mutable access to the resource pool, to register resources. The graph
    /// stays well formed as long as the pool does. The final transitions were
    /// planned from the pool as it was, so the graph is no longer compiled
    /// afterwards.
    pub fn pool_mut(&mut self) -> (p: &mut ResourcePool)
        requires
            old(self).wf(),
        ensures
            *p == old(self).pool_view(),
            p.wf(),
            final(self).pool_view() == *final(p),
            final(p).wf() ==> final(self).wf(),
            final(self).nodes_view() == old(self).nodes_view(),
            final(self).order_view() == old(self).order_view(),
            final(self).plan_view() == old(self).plan_view(),
            final(self).finals_view() == old(self).finals_view(),
            final(self).layouts_view() == old(self).layouts_view(),
            final(self).bindings_view() == old(self).bindings_view(),
            !final(self).is_compiled(),
            final(self).is_allocated() == old(self).is_allocated(),
            final(self).frame_view() == old(self).frame_view(),
            final(self).frames_in_flight_view() == old(self).frames_in_flight_view(),
            final(self).internal_view() == old(self).internal_view(),
            final(self).output_view() == old(self).output_view(),
    {
        self.compiled = false;
        &mut self.pool
    }

    /// Whether every explicit dependency names a pass of the graph, as
    /// compiling requires.
    pub fn dependencies_valid(&self) -> (b: bool)
        ensures
            b == dependencies_in_range(self.nodes_view()),
    {
        let n = self.nodes.len();
        let mut v: usize = 0;
        while v < n
            invariant
                n == self.nodes@.len(),
                v <= n,
                forall|a: int, d: int|
                    0 <= a < v && 0 <= d < self.nodes@[a].depends_on@.len() ==> (#[trigger] self.nodes@[a].depends_on@[d]).0
                        < n,
            decreases n - v,
        {
            let deps = &self.nodes[v].depends_on;
            let mut d: usize = 0;
            while d < deps.len()
                invariant
                    n == self.nodes@.len(),
                    v < n,
                    deps@ == self.nodes@[v as int].depends_on@,
                    d <= deps@.len(),
                    forall|a: int, e: int|
                        0 <= a < v && 0 <= e < self.nodes@[a].depends_on@.len() ==> (#[trigger] self.nodes@[a].depends_on@[e]).0
                            < n,
                    forall|e: int| 0 <= e < d ==> (#[trigger] deps@[e]).0 < n,
                decreases deps@.len() - d,
            {
                if deps[d].0 as usize >= n {
                    return false;
                }
                d = d + 1;
            }
            v = v + 1;
        }
        true
    }

    /// Number of passes.
    pub fn pass_count(&self) -> (n: usize)
        ensures
            n == self.nodes_view().len(),
    {
        self.nodes.len()
    }

    /// Add a pass. Each resource it accesses gains the usage its layout needs
    /// (sampled, colour attachment, depth attachment); the graph needs compiling again.
    pub fn add_pass(&mut self, node: PassNode) -> (h: PassHandle)
        requires
            old(self).wf(),
            old(self).nodes_view().len() < u32::MAX,
            forall|k: int|
                0 <= k < node.accesses@.len() ==> (#[trigger] node.accesses@[k]).handle.0 < old(
                    self,
                ).pool_view().len(),
        ensures
            final(self).wf(),
            h.0 == old(self).nodes_view().len(),
            final(self).nodes_view() == old(self).nodes_view().push(node),
            !final(self).is_compiled(),
            final(self).pool_view().view() == with_required_usage(
                old(self).pool_view().view(),
                node.accesses@,
            ),
            final(self).pool_view().names() == old(self).pool_view().names(),
            final(self).order_view() == old(self).order_view(),
            final(self).plan_view() == old(self).plan_view(),
            final(self).finals_view() == old(self).finals_view(),
            final(self).layouts_view() == old(self).layouts_view(),
            final(self).bindings_view() == old(self).bindings_view(),
            final(self).is_allocated() == old(self).is_allocated(),
            final(self).frame_view() == old(self).frame_view(),
            final(self).frames_in_flight_view() == old(self).frames_in_flight_view(),
            final(self).internal_view() == old(self).internal_view(),
            final(self).output_view() == old(self).output_view(),
    {
        add_required_usage(&mut self.pool, &node.accesses);
        let handle = PassHandle(self.nodes.len() as u32);
        self.nodes.push(node);
        self.compiled = false;
        handle
    }
}


/// Barriers planned after the last pass: each external resource with a final
/// layout is moved to it, in handle order.
pub open spec fn external_finals(entries: Seq<ResourceEntry>) -> Seq<CompiledBarrier>
    decreases entries.len(),
{
    if entries.len() == 0 {
        seq![]
    } else {
        let prev = external_finals(entries.drop_last());
        match entries.last().external {
            Some(x) => match x.final_layout {
                Some(l) => prev.push(
                    CompiledBarrier { handle: ResourceHandle((entries.len() - 1) as u32), new_layout: l },
                ),
                None => prev,
            },
            None => prev,
        }
    }
}

/// Plan the barriers of one pass against the simulated layouts `sim`, updating them.
fn plan_pass_barriers(sim: &mut HashMap<u32, ImageLayout>, accs: &Vec<PassAccess>) -> (bs: Vec<
    CompiledBarrier,
>)
    ensures
        (bs@, final(sim)@) == plan_accesses(old(sim)@, accs@),
{
    let ghost s0 = sim@;
    let mut bs: Vec<CompiledBarrier> = Vec::new();
    let mut k: usize = 0;
    while k < accs.len()
        invariant
            k <= accs@.len(),
            (bs@, sim@) == plan_accesses(s0, accs@.subrange(0, k as int)),
        decreases accs@.len() - k,
    {
        let a = accs[k];
        let old_layout = match sim.get(&a.handle.0) {
            Some(l) => *l,
            None => ImageLayout::Undefined,
        };
        if old_layout != a.layout {
            bs.push(CompiledBarrier { handle: a.handle, new_layout: a.layout });
            sim.insert(a.handle.0, a.layout);
        }
        proof {
            assert(accs@.subrange(0, k + 1).drop_last() == accs@.subrange(0, k as int));
        }
        k = k + 1;
    }
    proof {
        assert(accs@.subrange(0, accs@.len() as int) == accs@);
    }
    bs
}

impl RenderGraph {
    /// Recompute the planned barriers for the current execution order:
    /// simulate the layouts along the order, starting from `Undefined`, and
    /// plan the final transitions of the external resources.
    fn build_compiled_passes(&mut self)
        requires
            old(self).wf(),
        ensures
            final(self).wf(),
            final(self).plan_view() == plan_passes(old(self).nodes_view(), old(self).order_view()).0,
            final(self).finals_view() == external_finals(old(self).pool_view().view()),
            final(self).pool_view() == old(self).pool_view(),
            final(self).nodes_view() == old(self).nodes_view(),
            final(self).order_view() == old(self).order_view(),
            final(self).layouts_view() == old(self).layouts_view(),
            final(self).bindings_view() == old(self).bindings_view(),
            final(self).is_compiled() == old(self).is_compiled(),
            final(self).is_allocated() == old(self).is_allocated(),
            final(self).frame_view() == old(self).frame_view(),
            final(self).frames_in_flight_view() == old(self).frames_in_flight_view(),
            final(self).internal_view() == old(self).internal_view(),
            final(self).output_view() == old(self).output_view(),
    {
        let ghost ns = self.nodes@;
        let ghost order = self.sorted_order@;
        let mut sim: HashMap<u32, ImageLayout> = HashMap::new();
        let mut passes: Vec<CompiledPass> = Vec::new();
        let mut j: usize = 0;
        while j < self.sorted_order.len()
            invariant
                self.wf(),
                ns == self.nodes@,
                order == self.sorted_order@,
                j <= order.len(),
                passes@.len() == j,
                forall|t: int| 0 <= t < j ==> (#[trigger] passes@[t]).node_index == order[t],
                forall|t: int| 0 <= t < j ==> (#[trigger] passes@[t]).barriers@ == plan_passes(
                    ns,
                    order.subrange(0, j as int),
                ).0[t],
                plan_passes(ns, order.subrange(0, j as int)).0.len() == j,
                sim@ == plan_passes(ns, order.subrange(0, j as int)).1,
            decreases order.len() - j,
        {
            let idx = self.sorted_order[j];
            let ghost pre = order.subrange(0, j as int);
            let ghost post = order.subrange(0, j + 1);
            proof {
                assert(post.drop_last() == pre);
                assert(idx < ns.len());
            }
            let node = &self.nodes[idx];
            if !node.enabled {
                passes.push(CompiledPass { node_index: idx, barriers: Vec::new() });
            } else {
                let bs = plan_pass_barriers(&mut sim, &node.accesses);
                passes.push(CompiledPass { node_index: idx, barriers: bs });
            }
            proof {
                assert forall|t: int| 0 <= t < j + 1 implies (#[trigger] passes@[t]).barriers@ == plan_passes(
                    ns,
                    post,
                ).0[t] by {
                    if t < j {
                        assert(plan_passes(ns, post).0[t] == plan_passes(ns, pre).0[t]);
                    }
                }
            }
            j = j + 1;
        }
        let mut finals: Vec<CompiledBarrier> = Vec::new();
        let n = self.pool.count();
        let ghost entries = self.pool.view();
        let mut i: usize = 0;
        while i < n
            invariant
                self.pool.wf(),
                entries == self.pool.view(),
                n == entries.len(),
                n <= u32::MAX,
                i <= n,
                finals@ == external_finals(entries.subrange(0, i as int)),
            decreases n - i,
        {
            let fl = self.pool.external_final_layout(ResourceHandle(i as u32));
            proof {
                assert(entries.subrange(0, i + 1).drop_last() == entries.subrange(0, i as int));
                assert(entries.subrange(0, i + 1).last() == entries[i as int]);
            }
            match fl {
                Some(l) => {
                    finals.push(CompiledBarrier { handle: ResourceHandle(i as u32), new_layout: l });
                },
                None => {},
            }
            i = i + 1;
        }
        proof {
            assert(entries.subrange(0, n as int) == entries);
            assert(order.subrange(0, order.len() as int) == order);
        }
        self.compiled_passes = passes;
        self.compiled_finals = finals;
        proof {
            assert(self.plan_view() =~= plan_passes(ns, order).0);
        }
    }
}


/// The tracked layouts after every external resource is set to the layout it
/// starts a frame in.
pub open spec fn with_external_initials(m: Map<u32, ImageLayout>, entries: Seq<ResourceEntry>) -> Map<
    u32,
    ImageLayout,
>
    decreases entries.len(),
{
    if entries.len() == 0 {
        m
    } else {
        let prev = with_external_initials(m, entries.drop_last());
        match entries.last().external {
            Some(x) => prev.insert((entries.len() - 1) as u32, x.initial),
            None => prev,
        }
    }
}

/// Number of frames the frame counter cycles through.
pub open spec fn frame_cycle(frames_in_flight: nat) -> nat {
    if frames_in_flight == 0 {
        1
    } else {
        frames_in_flight
    }
}

impl RenderGraph {
    /// Order the passes and plan their layout transitions. Fails, leaving the
    /// graph as it was, exactly when the dependencies between passes form a cycle.
    pub fn compile(&mut self) -> (r: Result<(), GraphError>)
        requires
            old(self).wf(),
            dependencies_in_range(old(self).nodes_view()),
        ensures
            final(self).wf(),
            r is Ok <==> has_pass_order(old(self).nodes_view()),
            r matches Err(e) ==> {
                &&& e == GraphError::CycleDetected
                &&& final(self).is_compiled() == old(self).is_compiled()
                &&& final(self).order_view() == old(self).order_view()
                &&& final(self).plan_view() == old(self).plan_view()
                &&& final(self).finals_view() == old(self).finals_view()
            },
            r is Ok ==> {
                &&& final(self).is_compiled()
                &&& is_pass_order(old(self).nodes_view(), final(self).order_view())
                &&& final(self).order_view() == pass_schedule(old(self).nodes_view())
                &&& final(self).plan_view() == plan_passes(old(self).nodes_view(), final(self).order_view()).0
                &&& final(self).finals_view() == external_finals(old(self).pool_view().view())
            },
            final(self).pool_view() == old(self).pool_view(),
            final(self).nodes_view() == old(self).nodes_view(),
            final(self).layouts_view() == old(self).layouts_view(),
            final(self).bindings_view() == old(self).bindings_view(),
            final(self).is_allocated() == old(self).is_allocated(),
            final(self).frame_view() == old(self).frame_view(),
            final(self).frames_in_flight_view() == old(self).frames_in_flight_view(),
            final(self).internal_view() == old(self).internal_view(),
            final(self).output_view() == old(self).output_view(),
    {
        let order = match schedule_passes(&self.nodes) {
            Ok(o) => o,
            Err(e) => {
                return Err(e);
            },
        };
        let ghost o = order@;
        self.sorted_order = order;
        proof {
            assert forall|j: int| 0 <= j < o.len() implies #[trigger] o[j] < self.nodes@.len() by {}
        }
        let mut passes: Vec<CompiledPass> = Vec::new();
        let mut j: usize = 0;
        while j < self.sorted_order.len()
            invariant
                j <= self.sorted_order@.len(),
                passes@.len() == j,
                forall|t: int| 0 <= t < j ==> (#[trigger] passes@[t]).node_index == self.sorted_order@[t],
            decreases self.sorted_order@.len() - j,
        {
            passes.push(CompiledPass { node_index: self.sorted_order[j], barriers: Vec::new() });
            j = j + 1;
        }
        self.compiled_passes = passes;
        self.compiled = true;
        self.build_compiled_passes();
        Ok(())
    }

    /// Start pass `order_idx` of the execution order while recording a frame.
    /// Returns `None` when the pass is disabled (it is skipped); otherwise the
    /// layout transitions to record before it, each planned barrier whose
    /// resource is not already in its layout, with the tracker updated.
    pub fn begin_pass(&mut self, order_idx: usize) -> (r: Option<Vec<LayoutTransition>>)
        requires
            old(self).wf(),
            old(self).is_compiled(),
            order_idx < old(self).order_view().len(),
        ensures
            final(self).wf(),
            !old(self).nodes_view()[old(self).order_view()[order_idx as int] as int].enabled ==> {
                &&& r is None
                &&& final(self).layouts_view() == old(self).layouts_view()
            },
            old(self).nodes_view()[old(self).order_view()[order_idx as int] as int].enabled ==> {
                let (ts, m) = run_barriers(old(self).layouts_view(), old(self).plan_view()[order_idx as int]);
                &&& r is Some
                &&& r->0@ == ts
                &&& final(self).layouts_view() == m
            },
            final(self).pool_view() == old(self).pool_view(),
            final(self).nodes_view() == old(self).nodes_view(),
            final(self).order_view() == old(self).order_view(),
            final(self).plan_view() == old(self).plan_view(),
            final(self).finals_view() == old(self).finals_view(),
            final(self).bindings_view() == old(self).bindings_view(),
            final(self).is_compiled() == old(self).is_compiled(),
            final(self).is_allocated() == old(self).is_allocated(),
            final(self).frame_view() == old(self).frame_view(),
            final(self).frames_in_flight_view() == old(self).frames_in_flight_view(),
            final(self).internal_view() == old(self).internal_view(),
            final(self).output_view() == old(self).output_view(),
    {
        let node_index = self.compiled_passes[order_idx].node_index;
        if !self.nodes[node_index].enabled {
            return None;
        }
        let ts = run_planned_barriers(&mut self.tracker, &self.compiled_passes[order_idx].barriers);
        Some(ts)
    }

    /// The layout transitions to record after the last pass: external
    /// resources that are not yet in their final layout, with the tracker updated.
    pub fn final_transitions(&mut self) -> (ts: Vec<LayoutTransition>)
        requires
            old(self).wf(),
        ensures
            final(self).wf(),
            (ts@, final(self).layouts_view()) == run_barriers(old(self).layouts_view(), old(self).finals_view()),
            final(self).pool_view() == old(self).pool_view(),
            final(self).nodes_view() == old(self).nodes_view(),
            final(self).order_view() == old(self).order_view(),
            final(self).plan_view() == old(self).plan_view(),
            final(self).finals_view() == old(self).finals_view(),
            final(self).bindings_view() == old(self).bindings_view(),
            final(self).is_compiled() == old(self).is_compiled(),
            final(self).is_allocated() == old(self).is_allocated(),
            final(self).frame_view() == old(self).frame_view(),
            final(self).frames_in_flight_view() == old(self).frames_in_flight_view(),
            final(self).internal_view() == old(self).internal_view(),
            final(self).output_view() == old(self).output_view(),
    {
        run_planned_barriers(&mut self.tracker, &self.compiled_finals)
    }

    /// Move to the next frame in flight, cycling through `frames_in_flight`
    /// frames (through one when it is zero).
    pub fn finish_frame(&mut self)
        requires
            old(self).wf(),
        ensures
            final(self).wf(),
            final(self).frame_view() == (old(self).frame_view() + 1) % frame_cycle(
                old(self).frames_in_flight_view(),
            ),
            final(self).pool_view() == old(self).pool_view(),
            final(self).nodes_view() == old(self).nodes_view(),
            final(self).order_view() == old(self).order_view(),
            final(self).plan_view() == old(self).plan_view(),
            final(self).finals_view() == old(self).finals_view(),
            final(self).layouts_view() == old(self).layouts_view(),
            final(self).bindings_view() == old(self).bindings_view(),
            final(self).is_compiled() == old(self).is_compiled(),
            final(self).is_allocated() == old(self).is_allocated(),
            final(self).frames_in_flight_view() == old(self).frames_in_flight_view(),
            final(self).internal_view() == old(self).internal_view(),
            final(self).output_view() == old(self).output_view(),
    {
        let cycle = if self.frames_in_flight == 0 {
            1
        } else {
            self.frames_in_flight
        };
        self.current_frame = (self.current_frame + 1) % cycle;
    }

    /// The frame in flight being recorded.
    pub fn current_frame(&self) -> (f: usize)
        ensures
            f == self.frame_view(),
    {
        self.current_frame
    }

    /// Set the number of frames in flight (done when timestamps are enabled,
    /// after compiling).
    pub fn set_frames_in_flight(&mut self, frames_in_flight: u32)
        requires
            old(self).wf(),
            old(self).is_compiled(),
            old(self).frame_view() < frame_cycle(frames_in_flight as nat),
        ensures
            final(self).wf(),
            final(self).frames_in_flight_view() == frames_in_flight,
            final(self).frame_view() == old(self).frame_view(),
            final(self).pool_view() == old(self).pool_view(),
            final(self).nodes_view() == old(self).nodes_view(),
            final(self).order_view() == old(self).order_view(),
            final(self).plan_view() == old(self).plan_view(),
            final(self).finals_view() == old(self).finals_view(),
            final(self).layouts_view() == old(self).layouts_view(),
            final(self).bindings_view() == old(self).bindings_view(),
            final(self).is_compiled() == old(self).is_compiled(),
            final(self).is_allocated() == old(self).is_allocated(),
            final(self).internal_view() == old(self).internal_view(),
            final(self).output_view() == old(self).output_view(),
    {
        self.frames_in_flight = frames_in_flight as usize;
    }

    /// Put every external resource into the layout it starts a frame in.
    pub fn reset_external_layouts(&mut self)
        requires
            old(self).wf(),
        ensures
            final(self).wf(),
            final(self).layouts_view() == with_external_initials(
                old(self).layouts_view(),
                old(self).pool_view().view(),
            ),
            final(self).pool_view() == old(self).pool_view(),
            final(self).nodes_view() == old(self).nodes_view(),
            final(self).order_view() == old(self).order_view(),
            final(self).plan_view() == old(self).plan_view(),
            final(self).finals_view() == old(self).finals_view(),
            final(self).bindings_view() == old(self).bindings_view(),
            final(self).is_compiled() == old(self).is_compiled(),
            final(self).is_allocated() == old(self).is_allocated(),
            final(self).frame_view() == old(self).frame_view(),
            final(self).frames_in_flight_view() == old(self).frames_in_flight_view(),
            final(self).internal_view() == old(self).internal_view(),
            final(self).output_view() == old(self).output_view(),
    {
        apply_external_initials(&mut self.tracker, &self.pool);
    }
}

/// Set each external resource of `pool` to its initial layout in `tracker`.
fn apply_external_initials(tracker: &mut LayoutTracker, pool: &ResourcePool)
    requires
        pool.wf(),
    ensures
        final(tracker).view() == with_external_initials(old(tracker).view(), pool.view()),
{
    let n = pool.count();
    let ghost entries = pool.view();
    let ghost m0 = tracker.view();
    let mut i: usize = 0;
    while i < n
        invariant
            pool.wf(),
            entries == pool.view(),
            n == entries.len(),
            n <= u32::MAX,
            i <= n,
            tracker.view() == with_external_initials(m0, entries.subrange(0, i as int)),
        decreases n - i,
    {
        let init = pool.external_initial_layout(ResourceHandle(i as u32));
        proof {
            assert(entries.subrange(0, i + 1).drop_last() == entries.subrange(0, i as int));
            assert(entries.subrange(0, i + 1).last() == entries[i as int]);
        }
        match init {
            Some(l) => {
                tracker.set(ResourceHandle(i as u32), l);
            },
            None => {},
        }
        i = i + 1;
    }
    proof {
        assert(entries.subrange(0, n as int) == entries);
    }
}

/// Run the planned barriers `cbs` against the tracker, one after another.
fn run_planned_barriers(tracker: &mut LayoutTracker, cbs: &Vec<CompiledBarrier>) -> (ts: Vec<LayoutTransition>)
    ensures
        (ts@, final(tracker).view()) == run_barriers(old(tracker).view(), cbs@),
{
    let ghost m0 = tracker.view();
    let mut ts: Vec<LayoutTransition> = Vec::new();
    let mut k: usize = 0;
    while k < cbs.len()
        invariant
            k <= cbs@.len(),
            (ts@, tracker.view()) == run_barriers(m0, cbs@.subrange(0, k as int)),
        decreases cbs@.len() - k,
    {
        let cb = cbs[k];
        let old_layout = tracker.current(cb.handle);
        if old_layout != cb.new_layout {
            ts.push(LayoutTransition { handle: cb.handle, old_layout, new_layout: cb.new_layout });
            tracker.set(cb.handle, cb.new_layout);
        }
        proof {
            assert(cbs@.subrange(0, k + 1).drop_last() == cbs@.subrange(0, k as int));
        }
        k = k + 1;
    }
    proof {
        assert(cbs@.subrange(0, cbs@.len() as int) == cbs@);
    }
    ts
}


impl RenderGraph {
    /// Register a descriptor binding to rewrite whenever its resource's image changes.
    pub fn bind_resource(&mut self, binding: DescriptorBinding)
        requires
            old(self).wf(),
        ensures
            final(self).wf(),
            final(self).bindings_view() == old(self).bindings_view().push(binding),
            final(self).pool_view() == old(self).pool_view(),
            final(self).nodes_view() == old(self).nodes_view(),
            final(self).order_view() == old(self).order_view(),
            final(self).plan_view() == old(self).plan_view(),
            final(self).finals_view() == old(self).finals_view(),
            final(self).layouts_view() == old(self).layouts_view(),
            final(self).is_compiled() == old(self).is_compiled(),
            final(self).is_allocated() == old(self).is_allocated(),
            final(self).frame_view() == old(self).frame_view(),
            final(self).frames_in_flight_view() == old(self).frames_in_flight_view(),
            final(self).internal_view() == old(self).internal_view(),
            final(self).output_view() == old(self).output_view(),
    {
        self.bindings.register(binding);
    }

    /// Register a combined image-sampler binding (array element 0, read in
    /// shader-read-only layout) for `resource`.
    pub fn bind_sampled(&mut self, resource: ResourceHandle, set: u64, binding: u32, sampler: u64)
        requires
            old(self).wf(),
        ensures
            final(self).wf(),
            final(self).bindings_view() == old(self).bindings_view().push(
                DescriptorBinding {
                    resource,
                    set,
                    binding,
                    array_element: 0,
                    image_type: DescriptorImageType::CombinedImageSampler(sampler),
                    image_layout: ImageLayout::ShaderReadOnlyOptimal,
                },
            ),
            final(self).pool_view() == old(self).pool_view(),
            final(self).nodes_view() == old(self).nodes_view(),
            final(self).order_view() == old(self).order_view(),
            final(self).plan_view() == old(self).plan_view(),
            final(self).finals_view() == old(self).finals_view(),
            final(self).layouts_view() == old(self).layouts_view(),
            final(self).is_compiled() == old(self).is_compiled(),
            final(self).is_allocated() == old(self).is_allocated(),
            final(self).frame_view() == old(self).frame_view(),
            final(self).frames_in_flight_view() == old(self).frames_in_flight_view(),
            final(self).internal_view() == old(self).internal_view(),
            final(self).output_view() == old(self).output_view(),
    {
        self.bindings.register(
            DescriptorBinding {
                resource,
                set,
                binding,
                array_element: 0,
                image_type: DescriptorImageType::CombinedImageSampler(sampler),
                image_layout: ImageLayout::ShaderReadOnlyOptimal,
            },
        );
    }

    /// The bindings to rewrite after the images of `affected` changed.
    pub fn bindings_for(&self, affected: &[ResourceHandle]) -> (bs: Vec<DescriptorBinding>)
        ensures
            bs@ == bindings_for(self.bindings_view(), affected@),
    {
        self.bindings.relevant(affected)
    }

    /// The bindings to rewrite after every image was (re)created: those of
    /// every registered binding's resource.
    pub fn bindings_for_all(&self) -> (bs: Vec<DescriptorBinding>)
        ensures
            bs@ == bindings_for(
                self.bindings_view(),
                self.bindings_view().map_values(|b: DescriptorBinding| b.resource),
            ),
    {
        let all = self.bindings.all_resources();
        self.bindings.relevant(all.as_slice())
    }

    /// Record that the pool images were allocated (and all bindings written).
    pub fn mark_allocated(&mut self)
        requires
            old(self).wf(),
        ensures
            final(self).wf(),
            final(self).is_allocated(),
            final(self).bindings_view() == old(self).bindings_view(),
            final(self).pool_view() == old(self).pool_view(),
            final(self).nodes_view() == old(self).nodes_view(),
            final(self).order_view() == old(self).order_view(),
            final(self).plan_view() == old(self).plan_view(),
            final(self).finals_view() == old(self).finals_view(),
            final(self).layouts_view() == old(self).layouts_view(),
            final(self).is_compiled() == old(self).is_compiled(),
            final(self).frame_view() == old(self).frame_view(),
            final(self).frames_in_flight_view() == old(self).frames_in_flight_view(),
            final(self).internal_view() == old(self).internal_view(),
            final(self).output_view() == old(self).output_view(),
    {
        self.allocated = true;
    }

    /// Whether the pool images were allocated.
    pub fn allocated(&self) -> (a: bool)
        ensures
            a == self.is_allocated(),
    {
        self.allocated
    }

    /// Whether the graph is compiled.
    pub fn compiled(&self) -> (c: bool)
        ensures
            c == self.is_compiled(),
    {
        self.compiled
    }

    /// Change the output resolution. Returns the output-sized resources,
    /// whose images must be recreated and whose bindings rewritten; their
    /// tracked layouts are forgotten and the barriers are planned anew.
    pub fn resize_output(&mut self, new_output: (u32, u32)) -> (affected: Vec<ResourceHandle>)
        requires
            old(self).wf(),
        ensures
            final(self).wf(),
            final(self).output_view() == new_output,
            lists_exactly(
                affected@,
                old(self).pool_view().len() as int,
                |i: int| is_output_extent(old(self).pool_view().extent_of(i)),
            ),
            forall|h: ResourceHandle|
                #[trigger] final(self).layout_of(h) == if affected@.contains(h) {
                    ImageLayout::Undefined
                } else {
                    old(self).layout_of(h)
                },
            final(self).plan_view() == plan_passes(old(self).nodes_view(), old(self).order_view()).0,
            final(self).finals_view() == external_finals(old(self).pool_view().view()),
            final(self).internal_view() == old(self).internal_view(),
            final(self).bindings_view() == old(self).bindings_view(),
            final(self).pool_view() == old(self).pool_view(),
            final(self).nodes_view() == old(self).nodes_view(),
            final(self).order_view() == old(self).order_view(),
            final(self).is_compiled() == old(self).is_compiled(),
            final(self).is_allocated() == old(self).is_allocated(),
            final(self).frame_view() == old(self).frame_view(),
            final(self).frames_in_flight_view() == old(self).frames_in_flight_view(),
    {
        self.output_resolution = new_output;
        let affected = self.pool.output_handles();
        self.tracker.invalidate(&affected);
        proof {
            assert forall|h: ResourceHandle|
                #[trigger] layout_in(self.tracker.view(), h.0) == if affected@.contains(h) {
                    ImageLayout::Undefined
                } else {
                    old(self).layout_of(h)
                } by {
                assert(self.tracker.layout_of(h) == layout_in(self.tracker.view(), h.0));
                if exists|i: int| 0 <= i < affected@.len() && affected@[i].0 == h.0 {
                    let i = choose|i: int| 0 <= i < affected@.len() && affected@[i].0 == h.0;
                    assert(affected@[i] == h);
                }
                if affected@.contains(h) {
                    let i = choose|i: int| 0 <= i < affected@.len() && affected@[i] == h;
                    assert(affected@[i].0 == h.0);
                }
            }
        }
        self.build_compiled_passes();
        affected
    }

    /// Change the internal resolution. Returns the internal-sized resources,
    /// whose images must be recreated and whose bindings rewritten; their
    /// tracked layouts are forgotten.
    pub fn resize_internal(&mut self, new_internal: (u32, u32)) -> (affected: Vec<ResourceHandle>)
        requires
            old(self).wf(),
        ensures
            final(self).wf(),
            final(self).internal_view() == new_internal,
            lists_exactly(
                affected@,
                old(self).pool_view().len() as int,
                |i: int| is_internal_extent(old(self).pool_view().extent_of(i)),
            ),
            forall|h: ResourceHandle|
                #[trigger] final(self).layout_of(h) == if affected@.contains(h) {
                    ImageLayout::Undefined
                } else {
                    old(self).layout_of(h)
                },
            final(self).output_view() == old(self).output_view(),
            final(self).plan_view() == old(self).plan_view(),
            final(self).finals_view() == old(self).finals_view(),
            final(self).bindings_view() == old(self).bindings_view(),
            final(self).pool_view() == old(self).pool_view(),
            final(self).nodes_view() == old(self).nodes_view(),
            final(self).order_view() == old(self).order_view(),
            final(self).is_compiled() == old(self).is_compiled(),
            final(self).is_allocated() == old(self).is_allocated(),
            final(self).frame_view() == old(self).frame_view(),
            final(self).frames_in_flight_view() == old(self).frames_in_flight_view(),
    {
        self.internal_resolution = new_internal;
        let affected = self.pool.internal_handles();
        self.tracker.invalidate(&affected);
        proof {
            assert forall|h: ResourceHandle|
                #[trigger] layout_in(self.tracker.view(), h.0) == if affected@.contains(h) {
                    ImageLayout::Undefined
                } else {
                    old(self).layout_of(h)
                } by {
                assert(self.tracker.layout_of(h) == layout_in(self.tracker.view(), h.0));
                if exists|i: int| 0 <= i < affected@.len() && affected@[i].0 == h.0 {
                    let i = choose|i: int| 0 <= i < affected@.len() && affected@[i].0 == h.0;
                    assert(affected@[i] == h);
                }
                if affected@.contains(h) {
                    let i = choose|i: int| 0 <= i < affected@.len() && affected@[i] == h;
                    assert(affected@[i].0 == h.0);
                }
            }
        }
        affected
    }

    /// The internal (pre-upscale) resolution.
    pub fn internal_resolution(&self) -> (r: (u32, u32))
        ensures
            r == self.internal_view(),
    {
        self.internal_resolution
    }

    /// The output resolution.
    pub fn output_resolution(&self) -> (r: (u32, u32))
        ensures
            r == self.output_view(),
    {
        self.output_resolution
    }

    /// The pass with the given handle, for changes such as enabling or disabling it.
    /// The barrier plan was made for the passes as they were, so the graph is no
    /// longer compiled afterwards: compile it again before recording.
    pub fn pass_mut(&mut self, handle: PassHandle) -> (node: &mut PassNode)
        requires
            old(self).wf(),
            handle.0 < old(self).nodes_view().len(),
        ensures
            *node == old(self).nodes_view()[handle.0 as int],
            final(self).nodes_view() == old(self).nodes_view().update(handle.0 as int, *final(node)),
            final(self).wf(),
            final(self).pool_view() == old(self).pool_view(),
            final(self).order_view() == old(self).order_view(),
            final(self).plan_view() == old(self).plan_view(),
            final(self).finals_view() == old(self).finals_view(),
            final(self).layouts_view() == old(self).layouts_view(),
            final(self).bindings_view() == old(self).bindings_view(),
            !final(self).is_compiled(),
            final(self).is_allocated() == old(self).is_allocated(),
            final(self).frame_view() == old(self).frame_view(),
            final(self).frames_in_flight_view() == old(self).frames_in_flight_view(),
            final(self).internal_view() == old(self).internal_view(),
            final(self).output_view() == old(self).output_view(),
    {
        self.compiled = false;
        &mut self.nodes[handle.0 as usize]
    }

    /// The pass index at position `order_idx` of the execution order.
    pub fn compiled_node_index(&self, order_idx: usize) -> (i: usize)
        requires
            self.wf(),
            order_idx < self.order_view().len(),
        ensures
            i == self.order_view()[order_idx as int],
            i < self.nodes_view().len(),
    {
        self.compiled_passes[order_idx].node_index
    }

    /// Number of passes in the execution order.
    pub fn compiled_pass_count(&self) -> (n: usize)
        requires
            self.wf(),
        ensures
            n == self.order_view().len(),
    {
        self.compiled_passes.len()
    }

    /// The name of a pass.
    pub fn pass_name(&self, index: usize) -> (name: &String)
        requires
            index < self.nodes_view().len(),
        ensures
            name@ == self.nodes_view()[index as int].name@,
    {
        &self.nodes[index].name
    }
}

/// A pass under construction: name, accesses, descriptor bindings to register
/// with it, and explicit dependencies.
pub struct PassBuilder {
    name: String,
    accesses: Vec<PassAccess>,
    deferred_bindings: Vec<DescriptorBinding>,
    explicit_deps: Vec<PassHandle>,
}

/// A pass ready to be added to a graph, with the bindings to register with it.
pub struct PassNodeReady {
    pub node: PassNode,
    pub deferred_bindings: Vec<DescriptorBinding>,
}

impl PassBuilder {
    /// The name given to the pass.
    pub closed spec fn name_view(&self) -> Seq<char> {
        self.name@
    }

    /// The accesses declared so far.
    pub closed spec fn accesses_view(&self) -> Seq<PassAccess> {
        self.accesses@
    }

    /// The bindings declared so far.
    pub closed spec fn bindings_view(&self) -> Seq<DescriptorBinding> {
        self.deferred_bindings@
    }

    /// The explicit dependencies declared so far.
    pub closed spec fn deps_view(&self) -> Seq<PassHandle> {
        self.explicit_deps@
    }

    /// Start a pass with the given name.
    pub fn new(name: String) -> (b: Self)
        ensures
            b.name_view() == name@,
            b.accesses_view().len() == 0,
            b.bindings_view().len() == 0,
            b.deps_view().len() == 0,
    {
        PassBuilder {
            name,
            accesses: Vec::new(),
            deferred_bindings: Vec::new(),
            explicit_deps: Vec::new(),
        }
    }

    /// Declare a read of `handle` in `layout`.
    pub fn read(self, handle: ResourceHandle, layout: ImageLayout) -> (b: Self)
        ensures
            b.name_view() == self.name_view(),
            b.accesses_view() == self.accesses_view().push(
                PassAccess { handle, access: AccessType::Read, layout },
            ),
            b.bindings_view() == self.bindings_view(),
            b.deps_view() == self.deps_view(),
    {
        let mut b = self;
        b.accesses.push(PassAccess::read(handle, layout));
        b
    }

    /// Declare a write of `handle` in `layout`.
    pub fn write(self, handle: ResourceHandle, layout: ImageLayout) -> (b: Self)
        ensures
            b.name_view() == self.name_view(),
            b.accesses_view() == self.accesses_view().push(
                PassAccess { handle, access: AccessType::Write, layout },
            ),
            b.bindings_view() == self.bindings_view(),
            b.deps_view() == self.deps_view(),
    {
        let mut b = self;
        b.accesses.push(PassAccess::write(handle, layout));
        b
    }

    /// Declare a read-modify-write of `handle` in `layout`.
    pub fn read_write(self, handle: ResourceHandle, layout: ImageLayout) -> (b: Self)
        ensures
            b.name_view() == self.name_view(),
            b.accesses_view() == self.accesses_view().push(
                PassAccess { handle, access: AccessType::ReadWrite, layout },
            ),
            b.bindings_view() == self.bindings_view(),
            b.deps_view() == self.deps_view(),
    {
        let mut b = self;
        b.accesses.push(PassAccess::read_write(handle, layout));
        b
    }

    /// Declare a descriptor binding to register when the pass is built.
    pub fn bind_resource(self, binding: DescriptorBinding) -> (b: Self)
        ensures
            b.name_view() == self.name_view(),
            b.accesses_view() == self.accesses_view(),
            b.bindings_view() == self.bindings_view().push(binding),
            b.deps_view() == self.deps_view(),
    {
        let mut b = self;
        b.deferred_bindings.push(binding);
        b
    }

    /// Declare a combined image-sampler binding (array element 0, shader-read-only layout).
    pub fn bind_sampled(self, resource: ResourceHandle, set: u64, binding: u32, sampler: u64) -> (b: Self)
        ensures
            b.name_view() == self.name_view(),
            b.accesses_view() == self.accesses_view(),
            b.bindings_view() == self.bindings_view().push(
                DescriptorBinding {
                    resource,
                    set,
                    binding,
                    array_element: 0,
                    image_type: DescriptorImageType::CombinedImageSampler(sampler),
                    image_layout: ImageLayout::ShaderReadOnlyOptimal,
                },
            ),
            b.deps_view() == self.deps_view(),
    {
        let mut b = self;
        b.deferred_bindings.push(
            DescriptorBinding {
                resource,
                set,
                binding,
                array_element: 0,
                image_type: DescriptorImageType::CombinedImageSampler(sampler),
                image_layout: ImageLayout::ShaderReadOnlyOptimal,
            },
        );
        b
    }

    /// Declare a combined image-sampler binding at an array element, read in `image_layout`.
    pub fn bind_sampled_at(
        self,
        resource: ResourceHandle,
        set: u64,
        binding: u32,
        array_element: u32,
        sampler: u64,
        image_layout: ImageLayout,
    ) -> (b: Self)
        ensures
            b.name_view() == self.name_view(),
            b.accesses_view() == self.accesses_view(),
            b.bindings_view() == self.bindings_view().push(
                DescriptorBinding {
                    resource,
                    set,
                    binding,
                    array_element,
                    image_type: DescriptorImageType::CombinedImageSampler(sampler),
                    image_layout,
                },
            ),
            b.deps_view() == self.deps_view(),
    {
        let mut b = self;
        b.deferred_bindings.push(
            DescriptorBinding {
                resource,
                set,
                binding,
                array_element,
                image_type: DescriptorImageType::CombinedImageSampler(sampler),
                image_layout,
            },
        );
        b
    }

    /// Declare that the pass runs after the pass `handle`.
    pub fn after(self, handle: PassHandle) -> (b: Self)
        ensures
            b.name_view() == self.name_view(),
            b.accesses_view() == self.accesses_view(),
            b.bindings_view() == self.bindings_view(),
            b.deps_view() == self.deps_view().push(handle),
    {
        let mut b = self;
        b.explicit_deps.push(handle);
        b
    }

    /// Finish the declaration: an enabled pass with the declared accesses and
    /// dependencies, and the bindings to register with it.
    pub fn finish(self) -> (r: PassNodeReady)
        ensures
            r.node.name@ == self.name_view(),
            r.node.accesses@ == self.accesses_view(),
            r.node.enabled,
            r.node.depends_on@ == self.deps_view(),
            r.deferred_bindings@ == self.bindings_view(),
    {
        PassNodeReady {
            node: PassNode {
                name: self.name,
                accesses: self.accesses,
                enabled: true,
                depends_on: self.explicit_deps,
            },
            deferred_bindings: self.deferred_bindings,
        }
    }
}

impl PassNodeReady {
    /// Register the pass's bindings and add the pass to the graph. When the
    /// graph's images already exist, each binding's resource must be flushed
    /// right away: the result lists, per binding in order, the registered
    /// bindings to rewrite at that point.
    pub fn build(self, graph: &mut RenderGraph) -> (r: (PassHandle, Vec<Vec<DescriptorBinding>>))
        requires
            old(graph).wf(),
            old(graph).nodes_view().len() < u32::MAX,
            forall|k: int|
                0 <= k < self.node.accesses@.len() ==> (#[trigger] self.node.accesses@[k]).handle.0 < old(
                    graph,
                ).pool_view().len(),
        ensures
            final(graph).wf(),
            r.0.0 == old(graph).nodes_view().len(),
            final(graph).nodes_view() == old(graph).nodes_view().push(self.node),
            final(graph).bindings_view() == old(graph).bindings_view() + self.deferred_bindings@,
            final(graph).pool_view().view() == with_required_usage(
                old(graph).pool_view().view(),
                self.node.accesses@,
            ),
            final(graph).pool_view().names() == old(graph).pool_view().names(),
            !final(graph).is_compiled(),
            r.1@.len() == if old(graph).is_allocated() {
                self.deferred_bindings@.len()
            } else {
                0
            },
            old(graph).is_allocated() ==> forall|k: int|
                0 <= k < self.deferred_bindings@.len() ==> (#[trigger] r.1@[k])@ == bindings_for(
                    old(graph).bindings_view() + self.deferred_bindings@.subrange(0, k + 1),
                    seq![self.deferred_bindings@[k].resource],
                ),
    {
        let ghost b0 = graph.bindings_view();
        let ghost bs = self.deferred_bindings@;
        let allocated = graph.allocated;
        let mut flushes: Vec<Vec<DescriptorBinding>> = Vec::new();
        let mut k: usize = 0;
        while k < self.deferred_bindings.len()
            invariant
                graph.wf(),
                bs == self.deferred_bindings@,
                k <= bs.len(),
                allocated == graph.is_allocated(),
                allocated == old(graph).is_allocated(),
                graph.bindings_view() == b0 + bs.subrange(0, k as int),
                graph.nodes_view() == old(graph).nodes_view(),
                graph.pool_view() == old(graph).pool_view(),
                flushes@.len() == if allocated {
                    k as int
                } else {
                    0
                },
                allocated ==> forall|t: int|
                    0 <= t < k ==> (#[trigger] flushes@[t])@ == bindings_for(
                        b0 + bs.subrange(0, t + 1),
                        seq![bs[t].resource],
                    ),
            decreases bs.len() - k,
        {
            let b = self.deferred_bindings[k];
            graph.bind_resource(b);
            proof {
                assert(bs.subrange(0, k + 1) == bs.subrange(0, k as int).push(b));
                assert(b0 + bs.subrange(0, k + 1) == (b0 + bs.subrange(0, k as int)).push(b));
            }
            if allocated {
                let one = [b.resource];
                let f = graph.bindings_for(&one);
                proof {
                    assert(one@ == seq![b.resource]);
                }
                flushes.push(f);
            }
            k = k + 1;
        }
        proof {
            assert(bs.subrange(0, bs.len() as int) == bs);
        }
        let h = graph.add_pass(self.node);
        (h, flushes)
    }
}

/// Start declaring a pass with the given name.
pub fn pass(name: String) -> (b: PassBuilder)
    ensures
        b.name_view() == name@,
        b.accesses_view().len() == 0,
        b.bindings_view().len() == 0,
        b.deps_view().len() == 0,
{
    PassBuilder::new(name)
}

} // verus!
