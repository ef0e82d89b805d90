//! Resource descriptions, descriptor bindings and the layout tracker.
use vstd::prelude::*;
use std::collections::HashMap;
use crate::render_graph::access::{ImageLayout, ResourceHandle};

verus! {

broadcast use vstd::std_specs::hash::group_hash_axioms;

/// The layout recorded for `h` in a layout map, `Undefined` when none is.
pub open spec fn layout_in(m: Map<u32, ImageLayout>, h: u32) -> ImageLayout {
    if m.dom().contains(h) {
        m[h]
    } else {
        ImageLayout::Undefined
    }
}

/// One layout change of one resource.
#[derive(Debug, Clone, Copy, PartialEq, Eq, Structural)]
pub struct LayoutTransition {
    pub handle: ResourceHandle,
    pub old_layout: ImageLayout,
    pub new_layout: ImageLayout,
}

/// The layout each resource is currently in, as far as the recorded commands go.
pub struct LayoutTracker {
    layouts: HashMap<u32, ImageLayout>,
}

impl LayoutTracker {
    /// The recorded layouts, by resource index.
    pub closed spec fn view(&self) -> Map<u32, ImageLayout> {
        self.layouts@
    }

    /// The layout that `current` reports for `h`.
    pub open spec fn layout_of(&self, h: ResourceHandle) -> ImageLayout {
        layout_in(self.view(), h.0)
    }

    /// A tracker that knows no layout yet.
    pub fn new() -> (t: Self)
        ensures
            t.view() == Map::<u32, ImageLayout>::empty(),
    {
        LayoutTracker { layouts: HashMap::new() }
    }

    /// Forget every recorded layout: afterwards every resource reads as `Undefined`.
    pub fn reset(&mut self)
        ensures
            final(self).view() == Map::<u32, ImageLayout>::empty(),
            forall|h: ResourceHandle| #[trigger] final(self).layout_of(h) == ImageLayout::Undefined,
    {
        self.layouts.clear();
    }

    /// Forget the layouts of `handles`: they read as `Undefined` afterwards.
    pub fn invalidate(&mut self, handles: &Vec<ResourceHandle>)
        ensures
            forall|h: ResourceHandle|
                #[trigger] final(self).layout_of(h) == if (exists|i: int|
                    0 <= i < handles@.len() && handles@[i].0 == h.0) {
                    ImageLayout::Undefined
                } else {
                    old(self).layout_of(h)
                },
    {
        let mut i: usize = 0;
        while i < handles.len()
            invariant
                i <= handles@.len(),
                forall|h: ResourceHandle|
                    #[trigger] layout_in(self.layouts@, h.0) == if (exists|j: int|
                        0 <= j < i && handles@[j].0 == h.0) {
                        ImageLayout::Undefined
                    } else {
                        old(self).layout_of(h)
                    },
            decreases handles@.len() - i,
        {
            let key = handles[i].0;
            let ghost before = self.layouts@;
            self.layouts.remove(&key);
            proof {
                assert(self.layouts@ == before.remove(key));
                assert forall|h: ResourceHandle|
                    #[trigger] layout_in(self.layouts@, h.0) == if (exists|j: int|
                        0 <= j < i + 1 && handles@[j].0 == h.0) {
                        ImageLayout::Undefined
                    } else {
                        old(self).layout_of(h)
                    } by {
                    assert(layout_in(before, h.0) == if (exists|j: int|
                        0 <= j < i && handles@[j].0 == h.0) {
                        ImageLayout::Undefined
                    } else {
                        old(self).layout_of(h)
                    });
                    if h.0 == key {
                        assert(handles@[i as int].0 == h.0);
                    } else if exists|j: int| 0 <= j < i + 1 && handles@[j].0 == h.0 {
                        let j = choose|j: int| 0 <= j < i + 1 && handles@[j].0 == h.0;
                        assert(j < i);
                    }
                }
            }
            i = i + 1;
        }
    }

    /// The layout recorded for `handle`, or `Undefined` when none is.
    pub fn current(&self, handle: ResourceHandle) -> (l: ImageLayout)
        ensures
            l == self.layout_of(handle),
    {
        match self.layouts.get(&handle.0) {
            Some(l) => *l,
            None => ImageLayout::Undefined,
        }
    }

    /// Record that `handle` is now in `layout`.
    pub fn set(&mut self, handle: ResourceHandle, layout: ImageLayout)
        ensures
            final(self).view() == old(self).view().insert(handle.0, layout),
    {
        self.layouts.insert(handle.0, layout);
    }

    /// Record a batch of layout requests: every request whose resource is not
    /// already in the requested layout yields a transition from the layout
    /// recorded before the batch. When at least one transition is needed the
    /// requests are then recorded in order, so the last request per resource wins;
    /// otherwise nothing changes.
    pub fn transition(&mut self, transitions: &[(ResourceHandle, ImageLayout)]) -> (barriers: Vec<
        LayoutTransition,
    >)
        ensures
            barriers@ == batch_transitions(old(self).view(), transitions@),
            final(self).view() == if barriers@.len() == 0 {
                old(self).view()
            } else {
                apply_requests(old(self).view(), transitions@)
            },
    {
        let ghost m0 = self.layouts@;
        let mut barriers: Vec<LayoutTransition> = Vec::new();
        let mut i: usize = 0;
        while i < transitions.len()
            invariant
                self.layouts@ == m0,
                i <= transitions@.len(),
                barriers@ == batch_transitions(m0, transitions@.subrange(0, i as int)),
            decreases transitions@.len() - i,
        {
            let (handle, new_layout) = transitions[i];
            let old_layout = self.current(handle);
            if old_layout != new_layout {
                barriers.push(LayoutTransition { handle, old_layout, new_layout });
            }
            proof {
                assert(transitions@.subrange(0, i + 1).drop_last() == transitions@.subrange(0, i as int));
            }
            i = i + 1;
        }
        proof {
            assert(transitions@.subrange(0, transitions@.len() as int) == transitions@);
        }
        if barriers.len() == 0 {
            return barriers;
        }
        let mut j: usize = 0;
        while j < transitions.len()
            invariant
                j <= transitions@.len(),
                self.layouts@ == apply_requests(m0, transitions@.subrange(0, j as int)),
            decreases transitions@.len() - j,
        {
            let (handle, new_layout) = transitions[j];
            self.set(handle, new_layout);
            proof {
                assert(transitions@.subrange(0, j + 1).drop_last() == transitions@.subrange(0, j as int));
            }
            j = j + 1;
        }
        proof {
            assert(transitions@.subrange(0, transitions@.len() as int) == transitions@);
        }
        barriers
    }
}

impl Default for LayoutTracker {
    /// A tracker that knows no layout yet.
    fn default() -> (t: Self)
        ensures
            t.view() == Map::<u32, ImageLayout>::empty(),
    {
        LayoutTracker::new()
    }
}

/// The transitions a batch of layout requests needs, judged against the
/// layouts `m` recorded before the batch.
pub open spec fn batch_transitions(m: Map<u32, ImageLayout>, ts: Seq<(ResourceHandle, ImageLayout)>) -> Seq<
    LayoutTransition,
>
    decreases ts.len(),
{
    if ts.len() == 0 {
        seq![]
    } else {
        let prev = batch_transitions(m, ts.drop_last());
        let (h, l) = ts.last();
        if layout_in(m, h.0) != l {
            prev.push(LayoutTransition { handle: h, old_layout: layout_in(m, h.0), new_layout: l })
        } else {
            prev
        }
    }
}

/// The layouts after recording each request of `ts` in order.
pub open spec fn apply_requests(m: Map<u32, ImageLayout>, ts: Seq<(ResourceHandle, ImageLayout)>) -> Map<
    u32,
    ImageLayout,
>
    decreases ts.len(),
{
    if ts.len() == 0 {
        m
    } else {
        apply_requests(m, ts.drop_last()).insert(ts.last().0.0, ts.last().1)
    }
}


// ───────────────────────── resource descriptions ─────────────────────────

/// Image usage bit: the image can be sampled (Vulkan `SAMPLED`).
pub const USAGE_SAMPLED: u32 = 0x4;

/// Image usage bit: colour attachment (Vulkan `COLOR_ATTACHMENT`).
pub const USAGE_COLOR_ATTACHMENT: u32 = 0x10;

/// Image usage bit: depth/stencil attachment (Vulkan `DEPTH_STENCIL_ATTACHMENT`).
pub const USAGE_DEPTH_STENCIL_ATTACHMENT: u32 = 0x20;

/// Whether an image holds colour or depth data.
#[derive(Debug, Clone, Copy, PartialEq, Eq, Structural)]
pub enum ResourceKind {
    Color,
    Depth,
}

/// Which aspect of an image a view or barrier covers.
#[derive(Debug, Clone, Copy, PartialEq, Eq, Structural)]
pub enum ImageAspect {
    Color,
    Depth,
}

impl ResourceKind {
    /// The image aspect of this kind of resource.
    pub fn aspect_mask(self) -> (a: ImageAspect)
        ensures
            a == (match self {
                ResourceKind::Color => ImageAspect::Color,
                ResourceKind::Depth => ImageAspect::Depth,
            }),
    {
        match self {
            ResourceKind::Color => ImageAspect::Color,
            ResourceKind::Depth => ImageAspect::Depth,
        }
    }
}

/// Size of a resource: fixed, or a scale of the internal (pre-upscale) or
/// output resolution. A scale is carried as the bit pattern of its `f32`.
#[derive(Debug, Clone, Copy, PartialEq, Eq, Structural)]
pub enum ResourceExtent {
    Absolute(u32, u32),
    ScaleInternal(u32),
    ScaleOutput(u32),
}

/// Description of a transient image: name, raw Vulkan format, extent, kind and usage bits.
pub struct ResourceDesc {
    pub name: String,
    pub format: i32,
    pub extent: ResourceExtent,
    pub kind: ResourceKind,
    pub usage: u32,
}

impl ResourceDesc {
    /// A colour target, usable as colour attachment and sampled.
    pub fn color(name: String, format: i32, extent: ResourceExtent) -> (d: Self)
        ensures
            d.name@ == name@,
            d.format == format,
            d.extent == extent,
            d.kind == ResourceKind::Color,
            d.usage == USAGE_COLOR_ATTACHMENT | USAGE_SAMPLED,
    {
        ResourceDesc {
            name,
            format,
            extent,
            kind: ResourceKind::Color,
            usage: USAGE_COLOR_ATTACHMENT | USAGE_SAMPLED,
        }
    }

    /// A depth target, usable as depth attachment and sampled.
    pub fn depth(name: String, format: i32, extent: ResourceExtent) -> (d: Self)
        ensures
            d.name@ == name@,
            d.format == format,
            d.extent == extent,
            d.kind == ResourceKind::Depth,
            d.usage == USAGE_DEPTH_STENCIL_ATTACHMENT | USAGE_SAMPLED,
    {
        ResourceDesc {
            name,
            format,
            extent,
            kind: ResourceKind::Depth,
            usage: USAGE_DEPTH_STENCIL_ATTACHMENT | USAGE_SAMPLED,
        }
    }

    /// The same description with the usage bits `flags` added.
    pub fn with_usage(self, flags: u32) -> (d: Self)
        ensures
            d.name@ == self.name@,
            d.format == self.format,
            d.extent == self.extent,
            d.kind == self.kind,
            d.usage == self.usage | flags,
    {
        let mut d = self;
        d.usage = d.usage | flags;
        d
    }
}

/// How a resource enters and leaves a frame when its image comes from outside
/// the pool (a swapchain image): its layout when the frame starts and, if
/// any, the layout it must be left in.
#[derive(Debug, Clone, Copy, PartialEq, Eq, Structural)]
pub struct ExternalLayouts {
    pub initial: ImageLayout,
    pub final_layout: Option<ImageLayout>,
}

/// What the graph logic knows of one registered resource.
#[derive(Debug, Clone, Copy, PartialEq, Eq, Structural)]
pub struct ResourceEntry {
    pub format: i32,
    pub extent: ResourceExtent,
    pub kind: ResourceKind,
    pub usage: u32,
    pub external: Option<ExternalLayouts>,
}

/// The entry a description registers as, with its external layouts.
pub open spec fn entry_of(desc: ResourceDesc, external: Option<ExternalLayouts>) -> ResourceEntry {
    ResourceEntry { format: desc.format, extent: desc.extent, kind: desc.kind, usage: desc.usage, external }
}

/// The descriptions of the resources a graph uses; resource `i` has handle `i`.
pub struct ResourcePool {
    descs: Vec<ResourceDesc>,
    external: Vec<Option<ExternalLayouts>>,
}

/// The resource-size class of an extent matches the internal resolution.
pub open spec fn is_internal_extent(e: ResourceExtent) -> bool {
    e is ScaleInternal
}

/// The resource-size class of an extent matches the output resolution.
pub open spec fn is_output_extent(e: ResourceExtent) -> bool {
    e is ScaleOutput
}

/// `hs` lists, in increasing order, exactly the indices below `n` that satisfy `p`.
pub open spec fn lists_exactly(hs: Seq<ResourceHandle>, n: int, p: spec_fn(int) -> bool) -> bool {
    &&& forall|a: int, b: int| 0 <= a < b < hs.len() ==> hs[a].0 < hs[b].0
    &&& forall|a: int| 0 <= a < hs.len() ==> #[trigger] hs[a].0 < n && p(hs[a].0 as int)
    &&& forall|i: int| 0 <= i < n && #[trigger] p(i) ==> exists|a: int| 0 <= a < hs.len() && hs[a].0 == i
}

impl ResourcePool {
    /// The registered resources, by handle.
    pub closed spec fn view(&self) -> Seq<ResourceEntry> {
        Seq::new(self.descs@.len(), |i: int| entry_of(self.descs@[i], self.external@[i]))
    }

    /// The names of the registered resources, by handle.
    pub closed spec fn names(&self) -> Seq<Seq<char>> {
        Seq::new(self.descs@.len(), |i: int| self.descs@[i].name@)
    }

    /// Number of registered resources.
    pub open spec fn len(&self) -> nat {
        self.view().len()
    }

    /// Usage bits of resource `i`.
    pub open spec fn usage_of(&self, i: int) -> u32 {
        self.view()[i].usage
    }

    /// Extent of resource `i`.
    pub open spec fn extent_of(&self, i: int) -> ResourceExtent {
        self.view()[i].extent
    }

    /// Kind of resource `i`.
    pub open spec fn kind_of(&self, i: int) -> ResourceKind {
        self.view()[i].kind
    }

    /// External layouts of resource `i`, when its image comes from outside.
    pub open spec fn external_of(&self, i: int) -> Option<ExternalLayouts> {
        self.view()[i].external
    }

    /// Well formed: one external entry per description, and handles fit in `u32`.
    pub closed spec fn wf(&self) -> bool {
        self.descs@.len() == self.external@.len() && self.descs@.len() <= u32::MAX
    }

    /// An empty pool.
    pub fn new() -> (p: Self)
        ensures
            p.wf(),
            p.view() == Seq::<ResourceEntry>::empty(),
            p.names() == Seq::<Seq<char>>::empty(),
    {
        let p = ResourcePool { descs: Vec::new(), external: Vec::new() };
        proof {
            assert(p.view() =~= Seq::<ResourceEntry>::empty());
            assert(p.names() =~= Seq::<Seq<char>>::empty());
        }
        p
    }

    /// Register a resource whose image the pool allocates; its handle is its index.
    pub fn register(&mut self, desc: ResourceDesc) -> (h: ResourceHandle)
        requires
            old(self).wf(),
            old(self).len() < u32::MAX,
        ensures
            final(self).wf(),
            h.0 == old(self).len(),
            final(self).view() == old(self).view().push(entry_of(desc, None)),
            final(self).names() == old(self).names().push(desc.name@),
    {
        let ghost d = desc;
        let handle = ResourceHandle(self.descs.len() as u32);
        self.descs.push(desc);
        self.external.push(None);
        proof {
            assert(self.view() =~= old(self).view().push(entry_of(d, None)));
            assert(self.names() =~= old(self).names().push(d.name@));
        }
        handle
    }

    /// Register a resource whose image comes from outside the pool, with the
    /// layout it starts each frame in and the layout it must end the frame in.
    pub fn register_external(
        &mut self,
        desc: ResourceDesc,
        initial: ImageLayout,
        final_layout: Option<ImageLayout>,
    ) -> (h: ResourceHandle)
        requires
            old(self).wf(),
            old(self).len() < u32::MAX,
        ensures
            final(self).wf(),
            h.0 == old(self).len(),
            final(self).view() == old(self).view().push(
                entry_of(desc, Some(ExternalLayouts { initial, final_layout })),
            ),
            final(self).names() == old(self).names().push(desc.name@),
    {
        let ghost d = desc;
        let handle = ResourceHandle(self.descs.len() as u32);
        self.descs.push(desc);
        self.external.push(Some(ExternalLayouts { initial, final_layout }));
        proof {
            assert(self.view() =~= old(self).view().push(
                entry_of(d, Some(ExternalLayouts { initial, final_layout })),
            ));
            assert(self.names() =~= old(self).names().push(d.name@));
        }
        handle
    }

    /// Register the swapchain image of the given raw format: a colour
    /// attachment sized like the output, undefined when a frame starts and
    /// presented when it ends.
    pub fn register_swapchain_external(&mut self, format: i32) -> (h: ResourceHandle)
        requires
            old(self).wf(),
            old(self).len() < u32::MAX,
        ensures
            final(self).wf(),
            h.0 == old(self).len(),
            final(self).view() == old(self).view().push(
                ResourceEntry {
                    format,
                    extent: ResourceExtent::ScaleOutput(0x3f80_0000u32),
                    kind: ResourceKind::Color,
                    usage: USAGE_COLOR_ATTACHMENT,
                    external: Some(
                        ExternalLayouts {
                            initial: ImageLayout::Undefined,
                            final_layout: Some(ImageLayout::PresentSrc),
                        },
                    ),
                },
            ),
            final(self).names() == old(self).names().push("swapchain"@),
    {
        let desc = ResourceDesc {
            name: String::from_str("swapchain"),
            format,
            extent: ResourceExtent::ScaleOutput(0x3f80_0000u32),
            kind: ResourceKind::Color,
            usage: USAGE_COLOR_ATTACHMENT,
        };
        self.register_external(desc, ImageLayout::Undefined, Some(ImageLayout::PresentSrc))
    }

    /// Number of registered resources.
    pub fn count(&self) -> (n: usize)
        ensures
            n == self.len(),
            self.wf() ==> n <= u32::MAX,
    {
        self.descs.len()
    }

    /// Add usage bits to a resource.
    pub fn add_usage(&mut self, handle: ResourceHandle, flags: u32)
        requires
            old(self).wf(),
            handle.0 < old(self).len(),
        ensures
            final(self).wf(),
            final(self).view() == old(self).view().update(
                handle.0 as int,
                ResourceEntry { usage: old(self).usage_of(handle.0 as int) | flags, ..old(self).view()[handle.0 as int] },
            ),
            final(self).names() == old(self).names(),
    {
        let i = handle.0 as usize;
        let u = self.descs[i].usage;
        self.descs[i].usage = u | flags;
        proof {
            assert(self.view() =~= old(self).view().update(
                handle.0 as int,
                ResourceEntry { usage: old(self).usage_of(handle.0 as int) | flags, ..old(self).view()[handle.0 as int] },
            ));
            assert(self.names() =~= old(self).names());
        }
    }

    /// The description of a resource.
    pub fn desc(&self, handle: ResourceHandle) -> (d: &ResourceDesc)
        requires
            self.wf(),
            handle.0 < self.len(),
        ensures
            d.usage == self.usage_of(handle.0 as int),
            d.extent == self.extent_of(handle.0 as int),
            d.kind == self.kind_of(handle.0 as int),
            d.format == self.view()[handle.0 as int].format,
            d.name@ == self.names()[handle.0 as int],
    {
        &self.descs[handle.0 as usize]
    }

    /// The external layouts of a resource, `None` for pool-owned images.
    pub fn external_layouts(&self, handle: ResourceHandle) -> (e: Option<ExternalLayouts>)
        requires
            self.wf(),
            handle.0 < self.len(),
        ensures
            e == self.external_of(handle.0 as int),
    {
        self.external[handle.0 as usize]
    }

    /// The layout an external resource is in when a frame starts.
    pub fn external_initial_layout(&self, handle: ResourceHandle) -> (l: Option<ImageLayout>)
        requires
            self.wf(),
            handle.0 < self.len(),
        ensures
            l == match self.external_of(handle.0 as int) {
                Some(e) => Some(e.initial),
                None => None,
            },
    {
        match self.external[handle.0 as usize] {
            Some(e) => Some(e.initial),
            None => None,
        }
    }

    /// The layout an external resource must end a frame in, if any.
    pub fn external_final_layout(&self, handle: ResourceHandle) -> (l: Option<ImageLayout>)
        requires
            self.wf(),
            handle.0 < self.len(),
        ensures
            l == match self.external_of(handle.0 as int) {
                Some(e) => e.final_layout,
                None => None,
            },
    {
        match self.external[handle.0 as usize] {
            Some(e) => e.final_layout,
            None => None,
        }
    }

    /// Handles of the resources sized from the internal resolution, in order.
    pub fn internal_handles(&self) -> (hs: Vec<ResourceHandle>)
        requires
            self.wf(),
        ensures
            lists_exactly(hs@, self.len() as int, |i: int| is_internal_extent(self.extent_of(i))),
    {
        let mut hs: Vec<ResourceHandle> = Vec::new();
        let mut i: usize = 0;
        while i < self.descs.len()
            invariant
                self.wf(),
                i <= self.descs@.len(),
                forall|a: int, b: int| 0 <= a < b < hs@.len() ==> hs@[a].0 < hs@[b].0,
                forall|a: int| 0 <= a < hs@.len() ==> #[trigger] hs@[a].0 < i && is_internal_extent(
                    self.extent_of(hs@[a].0 as int),
                ),
                forall|j: int|
                    0 <= j < i && #[trigger] is_internal_extent(self.extent_of(j)) ==> exists|a: int|
                        0 <= a < hs@.len() && hs@[a].0 == j,
            decreases self.descs@.len() - i,
        {
            let ghost hs0 = hs@;
            if let ResourceExtent::ScaleInternal(_) = self.descs[i].extent {
                hs.push(ResourceHandle(i as u32));
                proof {
                    assert(hs@[hs@.len() - 1].0 == i);
                }
            }
            proof {
                assert forall|j: int| 0 <= j < i + 1 && #[trigger] is_internal_extent(self.extent_of(j)) implies exists|a: int|
                    0 <= a < hs@.len() && hs@[a].0 == j by {
                    if j < i {
                        let a = choose|a: int| 0 <= a < hs0.len() && hs0[a].0 == j;
                        assert(hs@[a] == hs0[a]);
                    } else {
                        assert(hs@[hs@.len() - 1].0 == i);
                    }
                }
            }
            i = i + 1;
        }
        hs
    }

    /// Handles of the resources sized from the output resolution, in order.
    pub fn output_handles(&self) -> (hs: Vec<ResourceHandle>)
        requires
            self.wf(),
        ensures
            lists_exactly(hs@, self.len() as int, |i: int| is_output_extent(self.extent_of(i))),
    {
        let mut hs: Vec<ResourceHandle> = Vec::new();
        let mut i: usize = 0;
        while i < self.descs.len()
            invariant
                self.wf(),
                i <= self.descs@.len(),
                forall|a: int, b: int| 0 <= a < b < hs@.len() ==> hs@[a].0 < hs@[b].0,
                forall|a: int| 0 <= a < hs@.len() ==> #[trigger] hs@[a].0 < i && is_output_extent(
                    self.extent_of(hs@[a].0 as int),
                ),
                forall|j: int|
                    0 <= j < i && #[trigger] is_output_extent(self.extent_of(j)) ==> exists|a: int|
                        0 <= a < hs@.len() && hs@[a].0 == j,
            decreases self.descs@.len() - i,
        {
            let ghost hs0 = hs@;
            if let ResourceExtent::ScaleOutput(_) = self.descs[i].extent {
                hs.push(ResourceHandle(i as u32));
                proof {
                    assert(hs@[hs@.len() - 1].0 == i);
                }
            }
            proof {
                assert forall|j: int| 0 <= j < i + 1 && #[trigger] is_output_extent(self.extent_of(j)) implies exists|a: int|
                    0 <= a < hs@.len() && hs@[a].0 == j by {
                    if j < i {
                        let a = choose|a: int| 0 <= a < hs0.len() && hs0[a].0 == j;
                        assert(hs@[a] == hs0[a]);
                    } else {
                        assert(hs@[hs@.len() - 1].0 == i);
                    }
                }
            }
            i = i + 1;
        }
        hs
    }

    /// Handles of the resources whose images come from outside, in order.
    pub fn external_handles(&self) -> (hs: Vec<ResourceHandle>)
        requires
            self.wf(),
        ensures
            lists_exactly(hs@, self.len() as int, |i: int| self.external_of(i) is Some),
    {
        let mut hs: Vec<ResourceHandle> = Vec::new();
        let mut i: usize = 0;
        while i < self.descs.len()
            invariant
                self.wf(),
                i <= self.descs@.len(),
                forall|a: int, b: int| 0 <= a < b < hs@.len() ==> hs@[a].0 < hs@[b].0,
                forall|a: int| 0 <= a < hs@.len() ==> #[trigger] hs@[a].0 < i && self.external_of(
                    hs@[a].0 as int,
                ) is Some,
                forall|j: int|
                    0 <= j < i && #[trigger] self.external_of(j) is Some ==> exists|a: int|
                        0 <= a < hs@.len() && hs@[a].0 == j,
            decreases self.descs@.len() - i,
        {
            let ghost hs0 = hs@;
            if self.external[i].is_some() {
                hs.push(ResourceHandle(i as u32));
                proof {
                    assert(hs@[hs@.len() - 1].0 == i);
                }
            }
            proof {
                assert forall|j: int| 0 <= j < i + 1 && #[trigger] self.external_of(j) is Some implies exists|a: int|
                    0 <= a < hs@.len() && hs@[a].0 == j by {
                    if j < i {
                        let a = choose|a: int| 0 <= a < hs0.len() && hs0[a].0 == j;
                        assert(hs@[a] == hs0[a]);
                    } else {
                        assert(hs@[hs@.len() - 1].0 == i);
                    }
                }
            }
            i = i + 1;
        }
        hs
    }
}

// ───────────────────────── descriptor bindings ─────────────────────────

/// How a descriptor refers to an image: with a sampler (raw handle) or as a sampled image.
#[derive(Debug, Clone, Copy, PartialEq, Eq, Structural)]
pub enum DescriptorImageType {
    CombinedImageSampler(u64),
    SampledImage,
}

/// A descriptor that must point at the current image of `resource`.
#[derive(Debug, Clone, Copy, PartialEq, Eq, Structural)]
pub struct DescriptorBinding {
    pub resource: ResourceHandle,
    pub set: u64,
    pub binding: u32,
    pub array_element: u32,
    pub image_type: DescriptorImageType,
    pub image_layout: ImageLayout,
}

/// All descriptors that refer to graph resources, to be rewritten when the
/// images behind those resources are (re)created.
pub struct DescriptorBindingRegistry {
    bindings: Vec<DescriptorBinding>,
}

/// The bindings of `bs`, in order, whose resource is one of `affected`.
pub open spec fn bindings_for(bs: Seq<DescriptorBinding>, affected: Seq<ResourceHandle>) -> Seq<
    DescriptorBinding,
> {
    bs.filter(|b: DescriptorBinding| affected.contains(b.resource))
}

impl DescriptorBindingRegistry {
    /// The registered bindings, in registration order.
    pub closed spec fn view(&self) -> Seq<DescriptorBinding> {
        self.bindings@
    }

    /// An empty registry.
    pub fn new() -> (r: Self)
        ensures
            r.view() == Seq::<DescriptorBinding>::empty(),
    {
        DescriptorBindingRegistry { bindings: Vec::new() }
    }

    /// Register one more binding.
    pub fn register(&mut self, binding: DescriptorBinding)
        ensures
            final(self).view() == old(self).view().push(binding),
    {
        self.bindings.push(binding);
    }

    /// The bindings that must be rewritten when the images of `affected` change.
    pub fn relevant(&self, affected: &[ResourceHandle]) -> (r: Vec<DescriptorBinding>)
        ensures
            r@ == bindings_for(self.view(), affected@),
    {
        let mut r: Vec<DescriptorBinding> = Vec::new();
        let mut i: usize = 0;
        while i < self.bindings.len()
            invariant
                i <= self.bindings@.len(),
                r@ == bindings_for(self.bindings@.subrange(0, i as int), affected@),
            decreases self.bindings@.len() - i,
        {
            let b = self.bindings[i];
            let hit = handle_in(affected, b.resource);
            if hit {
                r.push(b);
            }
            proof {
                let s1 = self.bindings@.subrange(0, i + 1);
                assert(s1.drop_last() == self.bindings@.subrange(0, i as int));
                reveal_with_fuel(Seq::filter, 1);
            }
            i = i + 1;
        }
        proof {
            assert(self.bindings@.subrange(0, self.bindings@.len() as int) == self.bindings@);
        }
        r
    }

    /// The resources of every registered binding, in order (what a full flush rewrites).
    pub fn all_resources(&self) -> (hs: Vec<ResourceHandle>)
        ensures
            hs@ == self.view().map_values(|b: DescriptorBinding| b.resource),
    {
        let mut hs: Vec<ResourceHandle> = Vec::new();
        let mut i: usize = 0;
        while i < self.bindings.len()
            invariant
                i <= self.bindings@.len(),
                hs@ == self.bindings@.subrange(0, i as int).map_values(|b: DescriptorBinding| b.resource),
            decreases self.bindings@.len() - i,
        {
            hs.push(self.bindings[i].resource);
            proof {
                assert(self.bindings@.subrange(0, i + 1).map_values(|b: DescriptorBinding| b.resource)
                    == self.bindings@.subrange(0, i as int).map_values(|b: DescriptorBinding| b.resource).push(
                    self.bindings@[i as int].resource,
                ));
            }
            i = i + 1;
        }
        proof {
            assert(self.bindings@.subrange(0, self.bindings@.len() as int) == self.bindings@);
        }
        hs
    }
}

/// Whether `h` is one of `hs`.
pub fn handle_in(hs: &[ResourceHandle], h: ResourceHandle) -> (found: bool)
    ensures
        found == hs@.contains(h),
{
    let mut i: usize = 0;
    while i < hs.len()
        invariant
            i <= hs@.len(),
            forall|j: int| 0 <= j < i ==> hs@[j] != h,
        decreases hs@.len() - i,
    {
        if hs[i].0 == h.0 {
            proof {
                assert(hs@[i as int] == h);
            }
            return true;
        }
        i = i + 1;
    }
    false
}

proof fn lemma_filter_keeps_all(s: Seq<DescriptorBinding>, p: spec_fn(DescriptorBinding) -> bool)
    requires
        forall|i: int| 0 <= i < s.len() ==> p(#[trigger] s[i]),
    ensures
        s.filter(p) == s,
    decreases s.len(),
{
    reveal(Seq::filter);
    if s.len() > 0 {
        let pre = s.drop_last();
        assert forall|i: int| 0 <= i < pre.len() implies p(#[trigger] pre[i]) by {
            assert(pre[i] == s[i]);
        }
        lemma_filter_keeps_all(pre, p);
        assert(p(s[s.len() - 1]));
        assert(pre.push(s.last()) == s);
    }
}

/// Rewriting the bindings of every bound resource rewrites every
/// registered binding, in registration order.
pub proof fn law_all_bindings_rewritten(bs: Seq<DescriptorBinding>)
    ensures
        bindings_for(bs, bs.map_values(|b: DescriptorBinding| b.resource)) == bs,
{
    let all = bs.map_values(|b: DescriptorBinding| b.resource);
    let p = |b: DescriptorBinding| all.contains(b.resource);
    assert forall|i: int| 0 <= i < bs.len() implies p(#[trigger] bs[i]) by {
        assert(all[i] == bs[i].resource);
    }
    lemma_filter_keeps_all(bs, p);
}

proof fn lemma_no_transition_means_in_place(m: Map<u32, ImageLayout>, ts: Seq<(ResourceHandle, ImageLayout)>)
    requires
        batch_transitions(m, ts).len() == 0,
    ensures
        forall|j: int| 0 <= j < ts.len() ==> layout_in(m, (#[trigger] ts[j]).0.0) == ts[j].1,
    decreases ts.len(),
{
    if ts.len() > 0 {
        let pre = ts.drop_last();
        if batch_transitions(m, pre).len() != 0 {
            assert(batch_transitions(m, ts).len() >= batch_transitions(m, pre).len());
        }
        lemma_no_transition_means_in_place(m, pre);
        assert forall|j: int| 0 <= j < ts.len() implies layout_in(m, (#[trigger] ts[j]).0.0) == ts[j].1 by {
            if j < pre.len() {
                assert(pre[j] == ts[j]);
            }
        }
    }
}

proof fn lemma_last_request_wins(m: Map<u32, ImageLayout>, ts: Seq<(ResourceHandle, ImageLayout)>, k: int)
    requires
        0 <= k < ts.len(),
        forall|k2: int| k < k2 < ts.len() ==> (#[trigger] ts[k2]).0.0 != ts[k].0.0,
    ensures
        layout_in(apply_requests(m, ts), ts[k].0.0) == ts[k].1,
    decreases ts.len(),
{
    let pre = ts.drop_last();
    if k < ts.len() - 1 {
        assert(pre[k] == ts[k]);
        assert forall|k2: int| k < k2 < pre.len() implies (#[trigger] pre[k2]).0.0 != pre[k].0.0 by {
            assert(pre[k2] == ts[k2]);
        }
        lemma_last_request_wins(m, pre, k);
        assert(ts[ts.len() - 1].0.0 != ts[k].0.0);
    }
}

/// After a batch of layout requests, every resource is in the layout of its
/// last request in the batch, whether transitions were recorded or the
/// resources already were in place.
pub proof fn law_transition_reaches_requested_layouts(
    m: Map<u32, ImageLayout>,
    ts: Seq<(ResourceHandle, ImageLayout)>,
    k: int,
)
    requires
        0 <= k < ts.len(),
        forall|k2: int| k < k2 < ts.len() ==> (#[trigger] ts[k2]).0.0 != ts[k].0.0,
    ensures
        layout_in(
            if batch_transitions(m, ts).len() == 0 {
                m
            } else {
                apply_requests(m, ts)
            },
            ts[k].0.0,
        ) == ts[k].1,
{
    if batch_transitions(m, ts).len() == 0 {
        lemma_no_transition_means_in_place(m, ts);
        assert(layout_in(m, ts[k].0.0) == ts[k].1);
    } else {
        lemma_last_request_wins(m, ts, k);
    }
}

} // verus!
