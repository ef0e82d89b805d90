//! Handles, access kinds and image layouts that passes declare.
use vstd::prelude::*;

verus! {

/// Index of a resource registered in a [`crate::render_graph::resource::ResourcePool`].
#[derive(Debug, Clone, Copy, PartialEq, Eq, Hash, Structural)]
pub struct ResourceHandle(pub u32);

/// Index of a pass added to a [`crate::render_graph::graph::RenderGraph`].
#[derive(Debug, Clone, Copy, PartialEq, Eq, Hash, Structural)]
pub struct PassHandle(pub u32);

/// How a pass uses a resource.
#[derive(Debug, Clone, Copy, PartialEq, Eq, Structural)]
pub enum AccessType {
    Read,
    Write,
    ReadWrite,
}

/// Layout of an image, as far as the graph distinguishes layouts. Every layout
/// that the graph does not name itself is carried as `Other` with its raw code.
#[derive(Debug, Clone, Copy, PartialEq, Eq, Structural)]
pub enum ImageLayout {
    Undefined,
    General,
    ColorAttachmentOptimal,
    DepthAttachmentOptimal,
    ShaderReadOnlyOptimal,
    TransferSrcOptimal,
    TransferDstOptimal,
    PresentSrc,
    Other(i32),
}

/// One resource access declared by a pass: the resource, whether it is read
/// or written, and the layout the pass needs the image in.
#[derive(Debug, Clone, Copy, PartialEq, Eq, Structural)]
pub struct PassAccess {
    pub handle: ResourceHandle,
    pub access: AccessType,
    pub layout: ImageLayout,
}

/// Whether an access kind writes the resource (`Write` and `ReadWrite` do).
pub open spec fn is_writing(a: AccessType) -> bool {
    a != AccessType::Read
}

impl AccessType {
    /// Whether this access kind writes the resource.
    pub fn writes(self) -> (w: bool)
        ensures
            w == is_writing(self),
    {
        match self {
            AccessType::Read => false,
            AccessType::Write => true,
            AccessType::ReadWrite => true,
        }
    }
}

impl PassAccess {
    /// A read of `handle` in `layout`.
    pub fn read(handle: ResourceHandle, layout: ImageLayout) -> (a: Self)
        ensures
            a == (PassAccess { handle, access: AccessType::Read, layout }),
    {
        Self { handle, access: AccessType::Read, layout }
    }

    /// A write of `handle` in `layout`.
    pub fn write(handle: ResourceHandle, layout: ImageLayout) -> (a: Self)
        ensures
            a == (PassAccess { handle, access: AccessType::Write, layout }),
    {
        Self { handle, access: AccessType::Write, layout }
    }

    /// A read-modify-write of `handle` in `layout`.
    pub fn read_write(handle: ResourceHandle, layout: ImageLayout) -> (a: Self)
        ensures
            a == (PassAccess { handle, access: AccessType::ReadWrite, layout }),
    {
        Self { handle, access: AccessType::ReadWrite, layout }
    }
}

/// The declarative part of a pass: its name, the resources it accesses, whether
/// it runs, and the passes it must run after.
#[derive(Debug)]
pub struct PassNode {
    pub name: String,
    pub accesses: Vec<PassAccess>,
    pub enabled: bool,
    pub depends_on: Vec<PassHandle>,
}

impl PassNode {
    /// A new enabled pass with no explicit dependencies.
    pub fn new(name: String, accesses: Vec<PassAccess>) -> (node: Self)
        ensures
            node.name@ == name@,
            node.accesses@ == accesses@,
            node.enabled,
            node.depends_on@.len() == 0,
    {
        PassNode { name, accesses, enabled: true, depends_on: Vec::new() }
    }
}

} // verus!
