//! Frame pipelines describe their passes to the render graph; this module
//! holds what they hand back and the graph of the loading screen.
use vstd::prelude::*;
use crate::render_graph::access::{AccessType, ImageLayout, PassAccess, PassHandle, ResourceHandle};
use crate::render_graph::resource::{ExternalLayouts, ResourceExtent, ResourceKind};
use crate::render_graph::graph::{RenderGraph, layout_usage, pass, usage_required, with_required_usage};
use crate::render_graph::resource::{ResourceEntry, USAGE_COLOR_ATTACHMENT};

verus! {

/// Resources of the graph that the renderer updates every frame.
#[derive(Debug, Clone, Copy, PartialEq, Eq, Structural)]
pub struct PipelineHandles {
    /// The swapchain image the frame is presented from.
    pub swapchain: ResourceHandle,
}

/// The passes of the loading screen.
#[derive(Debug, Clone, Copy, PartialEq, Eq, Structural)]
pub struct LoadingPasses {
    /// Clears the swapchain image and paints the animated background.
    pub background: PassHandle,
    /// Draws the logo over the background.
    pub logo: PassHandle,
}

/// Register the swapchain image and add the two passes of the loading
/// screen: the background writes the swapchain image as a colour
/// attachment, then the logo is drawn onto it.
pub fn build_loading_graph(graph: &mut RenderGraph, swapchain_format: i32) -> (r: (PipelineHandles, LoadingPasses))
    requires
        old(graph).wf(),
        old(graph).pool_view().len() < u32::MAX,
        old(graph).nodes_view().len() + 2 < u32::MAX,
    ensures
        final(graph).wf(),
        r.0.swapchain.0 == old(graph).pool_view().len(),
        final(graph).pool_view().len() == old(graph).pool_view().len() + 1,
        final(graph).pool_view().view().subrange(0, old(graph).pool_view().len() as int) == old(
            graph,
        ).pool_view().view(),
        final(graph).pool_view().view()[r.0.swapchain.0 as int].usage == USAGE_COLOR_ATTACHMENT,
        final(graph).pool_view().view()[r.0.swapchain.0 as int].format == swapchain_format,
        final(graph).pool_view().view()[r.0.swapchain.0 as int].kind == ResourceKind::Color,
        final(graph).pool_view().view()[r.0.swapchain.0 as int].extent == ResourceExtent::ScaleOutput(0x3f80_0000u32),
        final(graph).pool_view().view()[r.0.swapchain.0 as int].external == Some(
            ExternalLayouts { initial: ImageLayout::Undefined, final_layout: Some(ImageLayout::PresentSrc) },
        ),
        r.1.background.0 == old(graph).nodes_view().len(),
        r.1.logo.0 == old(graph).nodes_view().len() + 1,
        final(graph).nodes_view().len() == old(graph).nodes_view().len() + 2,
        final(graph).nodes_view().subrange(0, old(graph).nodes_view().len() as int) == old(graph).nodes_view(),
        final(graph).nodes_view()[r.1.background.0 as int].name@ == "loading_background"@,
        final(graph).nodes_view()[r.1.background.0 as int].accesses@ == seq![
            PassAccess { handle: r.0.swapchain, access: AccessType::Write, layout: ImageLayout::ColorAttachmentOptimal },
        ],
        final(graph).nodes_view()[r.1.background.0 as int].enabled,
        final(graph).nodes_view()[r.1.background.0 as int].depends_on@.len() == 0,
        final(graph).nodes_view()[r.1.logo.0 as int].name@ == "loading_logo"@,
        final(graph).nodes_view()[r.1.logo.0 as int].accesses@ == seq![
            PassAccess {
                handle: r.0.swapchain,
                access: AccessType::ReadWrite,
                layout: ImageLayout::ColorAttachmentOptimal,
            },
        ],
        final(graph).nodes_view()[r.1.logo.0 as int].enabled,
        final(graph).nodes_view()[r.1.logo.0 as int].depends_on@.len() == 0,
        final(graph).bindings_view() == old(graph).bindings_view(),
        !final(graph).is_compiled(),
{
    let ghost e0 = graph.pool_view().view();
    let h_swapchain = graph.pool_mut().register_swapchain_external(swapchain_format);
    let ghost n0 = graph.nodes_view();
    let ghost e1 = graph.pool_view().view();
    let bg = pass(String::from_str("loading_background")).write(
        h_swapchain,
        ImageLayout::ColorAttachmentOptimal,
    ).finish();
    let ghost a_bg = bg.node.accesses@[0];
    let (h_bg, _) = bg.build(graph);
    let ghost e2 = graph.pool_view().view();
    proof {
        assert(bg.node.accesses@ == seq![a_bg]);
        lemma_single_access_usage(e1, a_bg);
    }
    let logo = pass(String::from_str("loading_logo")).read_write(
        h_swapchain,
        ImageLayout::ColorAttachmentOptimal,
    ).finish();
    let ghost a_logo = logo.node.accesses@[0];
    let (h_logo, _) = logo.build(graph);
    proof {
        assert(graph.nodes_view().subrange(0, n0.len() as int) == n0);
        assert(logo.node.accesses@ == seq![a_logo]);
        lemma_single_access_usage(e2, a_logo);
        assert(USAGE_COLOR_ATTACHMENT | USAGE_COLOR_ATTACHMENT == USAGE_COLOR_ATTACHMENT) by (bit_vector);
        assert(graph.pool_view().view().subrange(0, e0.len() as int) =~= e0);
    }
    (PipelineHandles { swapchain: h_swapchain }, LoadingPasses { background: h_bg, logo: h_logo })
}

proof fn lemma_single_access_usage(entries: Seq<ResourceEntry>, a: PassAccess)
    ensures
        with_required_usage(entries, seq![a]).len() == entries.len(),
        forall|i: int|
            0 <= i < entries.len() ==> #[trigger] with_required_usage(entries, seq![a])[i] == if a.handle.0 == i {
                ResourceEntry { usage: entries[i].usage | layout_usage(a.layout), ..entries[i] }
            } else {
                entries[i]
            },
{
    assert forall|i: int| 0 <= i < entries.len() implies #[trigger] with_required_usage(entries, seq![a])[i]
        == if a.handle.0 == i {
        ResourceEntry { usage: entries[i].usage | layout_usage(a.layout), ..entries[i] }
    } else {
        entries[i]
    } by {
        assert(seq![a].drop_last() == Seq::<PassAccess>::empty());
        assert(usage_required(Seq::<PassAccess>::empty(), i) == 0);
        let u = entries[i].usage;
        let l = layout_usage(a.layout);
        assert(0u32 | l == l) by (bit_vector);
        assert(0u32 | 0u32 == 0u32) by (bit_vector);
        assert(u | 0u32 == u) by (bit_vector);
    }
}

} // verus!
