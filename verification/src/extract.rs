//! What the extraction systems decide when they copy a game world into the
//! render world: which point lights fit the light buffer and which mesh
//! instances are drawn and cast shadows.
use vstd::prelude::*;

verus! {

/// Number of point lights the lighting buffer holds.
pub const MAX_POINT_LIGHTS: usize = 16;

/// The point-light slots of the lighting buffer filled from `lights`: the
/// first `MAX_POINT_LIGHTS` lights in order, the remaining slots `empty`, and
/// the number of lights kept.
pub fn pack_point_lights<T: Copy>(lights: &[T], empty: T) -> (r: (Vec<T>, u32))
    ensures
        r.0@.len() == MAX_POINT_LIGHTS,
        r.1 as int == if lights@.len() < MAX_POINT_LIGHTS { lights@.len() as int } else { MAX_POINT_LIGHTS as int },
        forall|i: int| 0 <= i < r.1 ==> #[trigger] r.0@[i] == lights@[i],
        forall|i: int| r.1 <= i < MAX_POINT_LIGHTS ==> #[trigger] r.0@[i] == empty,
{
    let mut slots: Vec<T> = Vec::new();
    let mut count: u32 = 0;
    let mut i: usize = 0;
    while i < MAX_POINT_LIGHTS
        invariant
            i <= MAX_POINT_LIGHTS,
            slots@.len() == i,
            count as int == if lights@.len() < i { lights@.len() as int } else { i as int },
            forall|j: int| 0 <= j < count ==> #[trigger] slots@[j] == lights@[j],
            forall|j: int| count <= j < i ==> #[trigger] slots@[j] == empty,
        decreases MAX_POINT_LIGHTS - i,
    {
        if i < lights.len() {
            slots.push(lights[i]);
            count = count + 1;
        } else {
            slots.push(empty);
        }
        i = i + 1;
    }
    (slots, count)
}

/// The indices, in order, of the instances whose mesh is on the GPU.
pub open spec fn shadow_casters(on_gpu: Seq<bool>) -> Seq<usize> {
    Seq::new(on_gpu.len(), |i: int| i as usize).filter(|i: usize| on_gpu[i as int])
}

/// The indices, in order, of the instances whose mesh is on the GPU and
/// that the camera sees.
pub open spec fn drawn_instances(on_gpu: Seq<bool>, visible: Seq<bool>) -> Seq<usize> {
    Seq::new(on_gpu.len(), |i: int| i as usize).filter(|i: usize| on_gpu[i as int] && visible[i as int])
}

/// The instances of a frame: `shadow` lists, in order, every instance whose
/// mesh is on the GPU (shadow casters are not culled against the camera);
/// `main` lists those of them that are also visible to the camera.
pub fn partition_instances(on_gpu: &[bool], visible: &[bool]) -> (r: (Vec<usize>, Vec<usize>))
    requires
        on_gpu@.len() == visible@.len(),
    ensures
        r.1@ == shadow_casters(on_gpu@),
        r.0@ == drawn_instances(on_gpu@, visible@),
{
    let n = on_gpu.len();
    let ghost all = Seq::new(n as nat, |i: int| i as usize);
    let ghost p_shadow = |i: usize| on_gpu@[i as int];
    let ghost p_main = |i: usize| on_gpu@[i as int] && visible@[i as int];
    let mut main: Vec<usize> = Vec::new();
    let mut shadow: Vec<usize> = Vec::new();
    let mut i: usize = 0;
    while i < n
        invariant
            n == on_gpu@.len(),
            n == visible@.len(),
            i <= n,
            all == Seq::new(n as nat, |i: int| i as usize),
            p_shadow == (|k: usize| on_gpu@[k as int]),
            p_main == (|k: usize| on_gpu@[k as int] && visible@[k as int]),
            shadow@ == all.subrange(0, i as int).filter(p_shadow),
            main@ == all.subrange(0, i as int).filter(p_main),
        decreases n - i,
    {
        proof {
            let s1 = all.subrange(0, i + 1);
            assert(s1.drop_last() == all.subrange(0, i as int));
            assert(s1.last() == i);
            all.subrange(0, i as int).lemma_filter_push(i, p_shadow);
            all.subrange(0, i as int).lemma_filter_push(i, p_main);
            assert(all.subrange(0, i as int).push(i) == s1);
        }
        if on_gpu[i] {
            shadow.push(i);
            if visible[i] {
                main.push(i);
            }
        }
        i = i + 1;
    }
    proof {
        assert(all.subrange(0, n as int) == all);
    }
    (main, shadow)
}

/// Copies the game world's lights into the render world.
pub struct LightExtract;

/// Copies the game world's mesh instances into the render world.
pub struct MeshExtract;

/// Copies the game world's UI rectangles and texts into the render world.
pub struct UiExtract;

/// Turns the extracted UI into a draw list, shaping text into the glyph atlas.
pub struct ShapeUiSystem;

impl LightExtract {
    /// The name the system is profiled under.
    pub fn name(&self) -> (s: &'static str)
        ensures
            s@ == "extract_lights"@,
    {
        "extract_lights"
    }
}

impl MeshExtract {
    /// The name the system is profiled under.
    pub fn name(&self) -> (s: &'static str)
        ensures
            s@ == "extract_meshes"@,
    {
        "extract_meshes"
    }
}

impl UiExtract {
    /// The name the system is profiled under.
    pub fn name(&self) -> (s: &'static str)
        ensures
            s@ == "extract_ui"@,
    {
        "extract_ui"
    }
}

impl ShapeUiSystem {
    /// The name the system is profiled under.
    pub fn name(&self) -> (s: &'static str)
        ensures
            s@ == "shape_ui"@,
    {
        "shape_ui"
    }
}

} // verus!
