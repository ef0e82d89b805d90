//! Pipeline stages and memory accesses that a layout transition must wait for
//! and block.
use vstd::prelude::*;
use crate::render_graph::access::ImageLayout;
use crate::render_graph::resource::{ImageAspect, LayoutTransition, ResourceKind};
use crate::render_graph::access::ResourceHandle;

verus! {

/// A pipeline stage a barrier synchronises with.
#[derive(Debug, Clone, Copy, PartialEq, Eq, Structural)]
pub enum PipelineStage {
    TopOfPipe,
    ColorAttachmentOutput,
    EarlyFragmentTests,
    LateFragmentTests,
    FragmentShader,
    BottomOfPipe,
    Transfer,
}

/// The memory accesses a barrier makes available or visible.
#[derive(Debug, Clone, Copy, PartialEq, Eq, Structural)]
pub enum AccessMask {
    NoAccess,
    ColorAttachmentWrite,
    DepthStencilAttachmentWrite,
    DepthStencilAttachmentReadWrite,
    ShaderRead,
    TransferWrite,
    TransferRead,
}

/// Source and destination stages and accesses of one layout transition.
#[derive(Debug, Clone, Copy, PartialEq, Eq, Structural)]
pub struct BarrierMasks {
    pub src_stage: PipelineStage,
    pub src_access: AccessMask,
    pub dst_stage: PipelineStage,
    pub dst_access: AccessMask,
}

/// The stage and access with which work writes an image held in layout `l`:
/// colour attachment output, the depth tests (whose writes finish in the
/// late tests) and transfers; `None` for the layouts nothing writes in.
pub open spec fn written_in(l: ImageLayout) -> Option<(PipelineStage, AccessMask)> {
    match l {
        ImageLayout::ColorAttachmentOptimal => Some(
            (PipelineStage::ColorAttachmentOutput, AccessMask::ColorAttachmentWrite),
        ),
        ImageLayout::DepthAttachmentOptimal => Some(
            (PipelineStage::LateFragmentTests, AccessMask::DepthStencilAttachmentWrite),
        ),
        ImageLayout::TransferDstOptimal => Some((PipelineStage::Transfer, AccessMask::TransferWrite)),
        _ => None,
    }
}

/// What a barrier out of layout `l` must wait for: the writes made in `l`,
/// the reads made in a read-only layout, and nothing for an image with no
/// contents (`Undefined`) or one handed to presentation.
pub open spec fn last_use(l: ImageLayout) -> Option<(PipelineStage, AccessMask)> {
    match l {
        ImageLayout::Undefined => Some((PipelineStage::TopOfPipe, AccessMask::NoAccess)),
        ImageLayout::ShaderReadOnlyOptimal => Some((PipelineStage::FragmentShader, AccessMask::ShaderRead)),
        ImageLayout::TransferSrcOptimal => Some((PipelineStage::Transfer, AccessMask::TransferRead)),
        ImageLayout::PresentSrc => Some((PipelineStage::BottomOfPipe, AccessMask::NoAccess)),
        _ => written_in(l),
    }
}

/// What a barrier into layout `l` must hold back: the first work that uses
/// the image in `l`, and nothing for presentation.
pub open spec fn first_use(l: ImageLayout) -> Option<(PipelineStage, AccessMask)> {
    match l {
        ImageLayout::ColorAttachmentOptimal => Some(
            (PipelineStage::ColorAttachmentOutput, AccessMask::ColorAttachmentWrite),
        ),
        ImageLayout::DepthAttachmentOptimal => Some(
            (PipelineStage::EarlyFragmentTests, AccessMask::DepthStencilAttachmentReadWrite),
        ),
        ImageLayout::ShaderReadOnlyOptimal => Some((PipelineStage::FragmentShader, AccessMask::ShaderRead)),
        ImageLayout::TransferDstOptimal => Some((PipelineStage::Transfer, AccessMask::TransferWrite)),
        ImageLayout::TransferSrcOptimal => Some((PipelineStage::Transfer, AccessMask::TransferRead)),
        ImageLayout::PresentSrc => Some((PipelineStage::BottomOfPipe, AccessMask::NoAccess)),
        _ => None,
    }
}

/// The source half of `m` is what the old layout's last use needs and the
/// destination half what the new layout's first use needs.
pub open spec fn masks_follow_uses(m: BarrierMasks, from: ImageLayout, to: ImageLayout) -> bool {
    &&& last_use(from) == Some((m.src_stage, m.src_access))
    &&& first_use(to) == Some((m.dst_stage, m.dst_access))
}

/// The table of layout transitions the renderer knows how to synchronise.
pub open spec fn transition_masks(from: ImageLayout, to: ImageLayout) -> Option<BarrierMasks> {
    match (from, to) {
        (ImageLayout::Undefined, ImageLayout::ColorAttachmentOptimal) => Some(
            BarrierMasks {
                src_stage: PipelineStage::TopOfPipe,
                src_access: AccessMask::NoAccess,
                dst_stage: PipelineStage::ColorAttachmentOutput,
                dst_access: AccessMask::ColorAttachmentWrite,
            },
        ),
        (ImageLayout::Undefined, ImageLayout::DepthAttachmentOptimal) => Some(
            BarrierMasks {
                src_stage: PipelineStage::TopOfPipe,
                src_access: AccessMask::NoAccess,
                dst_stage: PipelineStage::EarlyFragmentTests,
                dst_access: AccessMask::DepthStencilAttachmentReadWrite,
            },
        ),
        (ImageLayout::Undefined, ImageLayout::ShaderReadOnlyOptimal) => Some(
            BarrierMasks {
                src_stage: PipelineStage::TopOfPipe,
                src_access: AccessMask::NoAccess,
                dst_stage: PipelineStage::FragmentShader,
                dst_access: AccessMask::ShaderRead,
            },
        ),
        (ImageLayout::ColorAttachmentOptimal, ImageLayout::ShaderReadOnlyOptimal) => Some(
            BarrierMasks {
                src_stage: PipelineStage::ColorAttachmentOutput,
                src_access: AccessMask::ColorAttachmentWrite,
                dst_stage: PipelineStage::FragmentShader,
                dst_access: AccessMask::ShaderRead,
            },
        ),
        (ImageLayout::DepthAttachmentOptimal, ImageLayout::ShaderReadOnlyOptimal) => Some(
            BarrierMasks {
                src_stage: PipelineStage::LateFragmentTests,
                src_access: AccessMask::DepthStencilAttachmentWrite,
                dst_stage: PipelineStage::FragmentShader,
                dst_access: AccessMask::ShaderRead,
            },
        ),
        (ImageLayout::ShaderReadOnlyOptimal, ImageLayout::ColorAttachmentOptimal) => Some(
            BarrierMasks {
                src_stage: PipelineStage::FragmentShader,
                src_access: AccessMask::ShaderRead,
                dst_stage: PipelineStage::ColorAttachmentOutput,
                dst_access: AccessMask::ColorAttachmentWrite,
            },
        ),
        (ImageLayout::ShaderReadOnlyOptimal, ImageLayout::DepthAttachmentOptimal) => Some(
            BarrierMasks {
                src_stage: PipelineStage::FragmentShader,
                src_access: AccessMask::ShaderRead,
                dst_stage: PipelineStage::EarlyFragmentTests,
                dst_access: AccessMask::DepthStencilAttachmentReadWrite,
            },
        ),
        (ImageLayout::DepthAttachmentOptimal, ImageLayout::DepthAttachmentOptimal) => Some(
            BarrierMasks {
                src_stage: PipelineStage::LateFragmentTests,
                src_access: AccessMask::DepthStencilAttachmentWrite,
                dst_stage: PipelineStage::EarlyFragmentTests,
                dst_access: AccessMask::DepthStencilAttachmentReadWrite,
            },
        ),
        (ImageLayout::Undefined, ImageLayout::PresentSrc) => Some(
            BarrierMasks {
                src_stage: PipelineStage::TopOfPipe,
                src_access: AccessMask::NoAccess,
                dst_stage: PipelineStage::BottomOfPipe,
                dst_access: AccessMask::NoAccess,
            },
        ),
        (ImageLayout::ColorAttachmentOptimal, ImageLayout::PresentSrc) => Some(
            BarrierMasks {
                src_stage: PipelineStage::ColorAttachmentOutput,
                src_access: AccessMask::ColorAttachmentWrite,
                dst_stage: PipelineStage::BottomOfPipe,
                dst_access: AccessMask::NoAccess,
            },
        ),
        (ImageLayout::PresentSrc, ImageLayout::ColorAttachmentOptimal) => Some(
            BarrierMasks {
                src_stage: PipelineStage::BottomOfPipe,
                src_access: AccessMask::NoAccess,
                dst_stage: PipelineStage::ColorAttachmentOutput,
                dst_access: AccessMask::ColorAttachmentWrite,
            },
        ),
        _ => None,
    }
}

/// Whether the renderer knows how to synchronise a transition from `from` to `to`.
pub fn is_supported_transition(from: ImageLayout, to: ImageLayout) -> (ok: bool)
    ensures
        ok == transition_masks(from, to) is Some,
{
    match (from, to) {
        (ImageLayout::Undefined, ImageLayout::ColorAttachmentOptimal) => true,
        (ImageLayout::Undefined, ImageLayout::DepthAttachmentOptimal) => true,
        (ImageLayout::Undefined, ImageLayout::ShaderReadOnlyOptimal) => true,
        (ImageLayout::ColorAttachmentOptimal, ImageLayout::ShaderReadOnlyOptimal) => true,
        (ImageLayout::DepthAttachmentOptimal, ImageLayout::ShaderReadOnlyOptimal) => true,
        (ImageLayout::ShaderReadOnlyOptimal, ImageLayout::ColorAttachmentOptimal) => true,
        (ImageLayout::ShaderReadOnlyOptimal, ImageLayout::DepthAttachmentOptimal) => true,
        (ImageLayout::DepthAttachmentOptimal, ImageLayout::DepthAttachmentOptimal) => true,
        (ImageLayout::Undefined, ImageLayout::PresentSrc) => true,
        (ImageLayout::ColorAttachmentOptimal, ImageLayout::PresentSrc) => true,
        (ImageLayout::PresentSrc, ImageLayout::ColorAttachmentOptimal) => true,
        _ => false,
    }
}

/// Stages and accesses for the transition `from -> to` of an image of the
/// given kind. Only the transitions of the table are supported.
pub fn layout_transition_masks(from: ImageLayout, to: ImageLayout, kind: ResourceKind) -> (m:
    BarrierMasks)
    requires
        transition_masks(from, to) is Some,
    ensures
        Some(m) == transition_masks(from, to),
        masks_follow_uses(m, from, to),
        written_in(from) matches Some(w) ==> (m.src_stage, m.src_access) == w,
{
    proof {
        law_transition_waits_for_last_use(from, to);
    }
    let top = PipelineStage::TopOfPipe;
    let color_out = PipelineStage::ColorAttachmentOutput;
    let early = PipelineStage::EarlyFragmentTests;
    let late = PipelineStage::LateFragmentTests;
    let frag = PipelineStage::FragmentShader;
    let bottom = PipelineStage::BottomOfPipe;
    let none = AccessMask::NoAccess;
    let color_w = AccessMask::ColorAttachmentWrite;
    let depth_w = AccessMask::DepthStencilAttachmentWrite;
    let depth_rw = AccessMask::DepthStencilAttachmentReadWrite;
    let shader_r = AccessMask::ShaderRead;
    let (src_stage, src_access, dst_stage, dst_access) = match (from, to) {
        (ImageLayout::Undefined, ImageLayout::ColorAttachmentOptimal) => (top, none, color_out, color_w),
        (ImageLayout::Undefined, ImageLayout::DepthAttachmentOptimal) => (top, none, early, depth_rw),
        (ImageLayout::Undefined, ImageLayout::ShaderReadOnlyOptimal) => (top, none, frag, shader_r),
        (ImageLayout::ColorAttachmentOptimal, ImageLayout::ShaderReadOnlyOptimal) => (
            color_out,
            color_w,
            frag,
            shader_r,
        ),
        (ImageLayout::DepthAttachmentOptimal, ImageLayout::ShaderReadOnlyOptimal) => (
            late,
            depth_w,
            frag,
            shader_r,
        ),
        (ImageLayout::ShaderReadOnlyOptimal, ImageLayout::ColorAttachmentOptimal) => (
            frag,
            shader_r,
            color_out,
            color_w,
        ),
        (ImageLayout::ShaderReadOnlyOptimal, ImageLayout::DepthAttachmentOptimal) => (
            frag,
            shader_r,
            early,
            depth_rw,
        ),
        (ImageLayout::DepthAttachmentOptimal, ImageLayout::DepthAttachmentOptimal) => (
            late,
            depth_w,
            early,
            depth_rw,
        ),
        (ImageLayout::Undefined, ImageLayout::PresentSrc) => (top, none, bottom, none),
        (ImageLayout::ColorAttachmentOptimal, ImageLayout::PresentSrc) => (color_out, color_w, bottom, none),
        (ImageLayout::PresentSrc, ImageLayout::ColorAttachmentOptimal) => (bottom, none, color_out, color_w),
        _ => vstd::pervasive::unreached(),
    };
    BarrierMasks { src_stage, src_access, dst_stage, dst_access }
}

/// Transitions of an image between a pass writing it as an attachment and
/// a pass sampling it, as the geometry pass records them itself.
pub open spec fn is_attachment_transition(from: ImageLayout, to: ImageLayout) -> bool {
    ||| (from == ImageLayout::Undefined && to == ImageLayout::ColorAttachmentOptimal)
    ||| (from == ImageLayout::Undefined && to == ImageLayout::DepthAttachmentOptimal)
    ||| (from == ImageLayout::ColorAttachmentOptimal && to == ImageLayout::ShaderReadOnlyOptimal)
}

/// Stages and accesses of an attachment transition recorded by the
/// geometry pass; they are those of the general table.
pub fn attachment_transition_masks(from: ImageLayout, to: ImageLayout) -> (m: BarrierMasks)
    requires
        is_attachment_transition(from, to),
    ensures
        Some(m) == transition_masks(from, to),
{
    layout_transition_masks(from, to, ResourceKind::Color)
}

/// The transitions of a texture upload: into a copy destination, between
/// copy destination and source while the mip chain is generated, and into
/// the sampled layout.
pub open spec fn upload_masks(from: ImageLayout, to: ImageLayout) -> Option<BarrierMasks> {
    match (from, to) {
        (ImageLayout::Undefined, ImageLayout::TransferDstOptimal) => Some(
            BarrierMasks {
                src_stage: PipelineStage::TopOfPipe,
                src_access: AccessMask::NoAccess,
                dst_stage: PipelineStage::Transfer,
                dst_access: AccessMask::TransferWrite,
            },
        ),
        (ImageLayout::TransferDstOptimal, ImageLayout::TransferSrcOptimal) => Some(
            BarrierMasks {
                src_stage: PipelineStage::Transfer,
                src_access: AccessMask::TransferWrite,
                dst_stage: PipelineStage::Transfer,
                dst_access: AccessMask::TransferRead,
            },
        ),
        (ImageLayout::TransferSrcOptimal, ImageLayout::ShaderReadOnlyOptimal) => Some(
            BarrierMasks {
                src_stage: PipelineStage::Transfer,
                src_access: AccessMask::TransferRead,
                dst_stage: PipelineStage::FragmentShader,
                dst_access: AccessMask::ShaderRead,
            },
        ),
        (ImageLayout::TransferDstOptimal, ImageLayout::ShaderReadOnlyOptimal) => Some(
            BarrierMasks {
                src_stage: PipelineStage::Transfer,
                src_access: AccessMask::TransferWrite,
                dst_stage: PipelineStage::FragmentShader,
                dst_access: AccessMask::ShaderRead,
            },
        ),
        _ => None,
    }
}

/// Stages and accesses of a transition recorded while uploading a texture.
/// Only the transitions of the upload table are supported.
pub fn upload_transition_masks(from: ImageLayout, to: ImageLayout) -> (m: BarrierMasks)
    requires
        upload_masks(from, to) is Some,
    ensures
        Some(m) == upload_masks(from, to),
        masks_follow_uses(m, from, to),
        written_in(from) matches Some(w) ==> (m.src_stage, m.src_access) == w,
{
    proof {
        law_upload_waits_for_last_use(from, to);
    }
    let top = PipelineStage::TopOfPipe;
    let transfer = PipelineStage::Transfer;
    let frag = PipelineStage::FragmentShader;
    let none = AccessMask::NoAccess;
    let tw = AccessMask::TransferWrite;
    let tr = AccessMask::TransferRead;
    let shader_r = AccessMask::ShaderRead;
    let (src_stage, src_access, dst_stage, dst_access) = match (from, to) {
        (ImageLayout::Undefined, ImageLayout::TransferDstOptimal) => (top, none, transfer, tw),
        (ImageLayout::TransferDstOptimal, ImageLayout::TransferSrcOptimal) => (transfer, tw, transfer, tr),
        (ImageLayout::TransferSrcOptimal, ImageLayout::ShaderReadOnlyOptimal) => (transfer, tr, frag, shader_r),
        (ImageLayout::TransferDstOptimal, ImageLayout::ShaderReadOnlyOptimal) => (transfer, tw, frag, shader_r),
        _ => vstd::pervasive::unreached(),
    };
    BarrierMasks { src_stage, src_access, dst_stage, dst_access }
}

/// An image memory barrier of the whole first mip level of one resource.
#[derive(Debug, Clone, Copy, PartialEq, Eq, Structural)]
pub struct ImageBarrier {
    pub handle: ResourceHandle,
    pub old_layout: ImageLayout,
    pub new_layout: ImageLayout,
    pub masks: BarrierMasks,
    pub aspect: ImageAspect,
}

/// The barrier that performs a layout transition of a resource of the given
/// kind. Only the transitions of the table are supported.
pub fn make_barrier(t: LayoutTransition, kind: ResourceKind) -> (b: ImageBarrier)
    requires
        transition_masks(t.old_layout, t.new_layout) is Some,
    ensures
        b.handle == t.handle,
        b.old_layout == t.old_layout,
        b.new_layout == t.new_layout,
        Some(b.masks) == transition_masks(t.old_layout, t.new_layout),
        b.aspect == (match kind {
            ResourceKind::Color => ImageAspect::Color,
            ResourceKind::Depth => ImageAspect::Depth,
        }),
{
    let masks = layout_transition_masks(t.old_layout, t.new_layout, kind);
    ImageBarrier {
        handle: t.handle,
        old_layout: t.old_layout,
        new_layout: t.new_layout,
        masks,
        aspect: kind.aspect_mask(),
    }
}

/// Every transition the renderer synchronises waits for the last use of the
/// image in its old layout and holds back the first use in its new layout;
/// in particular a barrier out of a layout that is written in (colour or
/// depth attachment, copy destination) makes those writes available before
/// the image is used again, whatever the new layout, presentation included.
pub proof fn law_transition_waits_for_last_use(from: ImageLayout, to: ImageLayout)
    requires
        transition_masks(from, to) is Some,
    ensures
        masks_follow_uses(transition_masks(from, to)->0, from, to),
        written_in(from) matches Some(w) ==> (transition_masks(from, to)->0.src_stage, transition_masks(
            from,
            to,
        )->0.src_access) == w,
{
}

/// Every transition of a texture upload waits for the last use of the image
/// in its old layout and holds back the first use in its new one; a level
/// leaving the copy destination layout waits for the transfer writes of the
/// copy or blit that filled it.
pub proof fn law_upload_waits_for_last_use(from: ImageLayout, to: ImageLayout)
    requires
        upload_masks(from, to) is Some,
    ensures
        masks_follow_uses(upload_masks(from, to)->0, from, to),
        from == ImageLayout::TransferDstOptimal ==> upload_masks(from, to)->0.src_stage == PipelineStage::Transfer
            && upload_masks(from, to)->0.src_access == AccessMask::TransferWrite,
{
}

/// A barrier never waits on nothing when the old layout holds written
/// contents: the source access of a transition out of a written layout is a
/// write, and the source stage is not the top of the pipe.
pub proof fn law_written_contents_are_waited_for(from: ImageLayout, to: ImageLayout)
    requires
        transition_masks(from, to) is Some || upload_masks(from, to) is Some,
        written_in(from) is Some,
    ensures
        transition_masks(from, to) matches Some(m) ==> m.src_stage != PipelineStage::TopOfPipe && is_write_access(
            m.src_access,
        ),
        upload_masks(from, to) matches Some(m) ==> m.src_stage != PipelineStage::TopOfPipe && is_write_access(
            m.src_access,
        ),
{
    if transition_masks(from, to) is Some {
        law_transition_waits_for_last_use(from, to);
    }
    if upload_masks(from, to) is Some {
        law_upload_waits_for_last_use(from, to);
    }
}

/// Whether an access writes memory.
pub open spec fn is_write_access(a: AccessMask) -> bool {
    a == AccessMask::ColorAttachmentWrite || a == AccessMask::DepthStencilAttachmentWrite
        || a == AccessMask::DepthStencilAttachmentReadWrite || a == AccessMask::TransferWrite
}

} // verus!
