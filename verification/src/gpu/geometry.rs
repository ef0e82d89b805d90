//! The order in which the geometry pass records its draws: grouped by
//! shader, binding each shader's pipeline once per group.
use vstd::prelude::*;

verus! {

/// One command of the geometry pass.
#[derive(Debug, Clone, Copy, PartialEq, Eq, Structural)]
pub enum DrawStep {
    /// Bind the pipeline (and descriptor sets) of a shader.
    BindPipeline(u32),
    /// Draw the draw call with this index.
    Draw(usize),
}

/// What the geometry pass reads of a draw call besides its mesh buffers and
/// transform: the shader it is drawn with and its material, if any.
#[derive(Debug, Clone, Copy, PartialEq, Eq, Structural)]
pub struct DrawCall {
    pub shader: u32,
    pub material: Option<u32>,
}

impl DrawCall {
    /// The material index pushed to the shaders: the draw's material, or the
    /// default material 0.
    pub fn material_id(&self) -> (id: u32)
        ensures
            id == match self.material {
                Some(m) => m,
                None => 0,
            },
    {
        match self.material {
            Some(m) => m,
            None => 0,
        }
    }
}

/// The shaders of a list of draw calls.
pub open spec fn shaders_of(calls: Seq<DrawCall>) -> Seq<u32> {
    calls.map_values(|c: DrawCall| c.shader)
}

/// Draw `a` is recorded before draw `b`: by shader, then by submission order.
pub open spec fn draw_before(shaders: Seq<u32>, a: usize, b: usize) -> bool {
    shaders[a as int] < shaders[b as int] || (shaders[a as int] == shaders[b as int] && a < b)
}

/// `order` lists the draw calls sorted by shader, keeping submission order
/// among draws of one shader (a stable sort by shader).
pub open spec fn is_draw_order(shaders: Seq<u32>, order: Seq<usize>) -> bool {
    &&& order.len() == shaders.len()
    &&& forall|i: int| 0 <= i < order.len() ==> #[trigger] order[i] < shaders.len()
    &&& forall|i: int, j: int|
        0 <= i < j < order.len() ==> draw_before(shaders, #[trigger] order[i], #[trigger] order[j])
}

/// The commands recorded for the draws in `order`, and the shader whose
/// pipeline is bound afterwards. A draw whose shader is bound is drawn; else
/// its shader's pipeline is bound first if it exists, and the draw is skipped
/// if it does not.
pub open spec fn draw_plan(shaders: Seq<u32>, has_pipeline: Seq<bool>, order: Seq<usize>) -> (
    Seq<DrawStep>,
    Option<u32>,
)
    decreases order.len(),
{
    if order.len() == 0 {
        (seq![], None)
    } else {
        let (steps, cur) = draw_plan(shaders, has_pipeline, order.drop_last());
        let d = order.last();
        let s = shaders[d as int];
        if cur == Some(s) {
            (steps.push(DrawStep::Draw(d)), cur)
        } else if has_pipeline[d as int] {
            (steps.push(DrawStep::BindPipeline(s)).push(DrawStep::Draw(d)), Some(s))
        } else {
            (steps, cur)
        }
    }
}

/// The shader whose pipeline is bound before command `t`.
pub open spec fn bound_at(steps: Seq<DrawStep>, t: int) -> Option<u32>
    decreases t,
{
    if t <= 0 {
        None
    } else {
        match steps[t - 1] {
            DrawStep::BindPipeline(s) => Some(s),
            DrawStep::Draw(_) => bound_at(steps, t - 1),
        }
    }
}

/// Sort the draw calls by shader, stably.
fn sort_draws(shaders: &[u32]) -> (order: Vec<usize>)
    ensures
        is_draw_order(shaders@, order@),
{
    let n = shaders.len();
    let mut order: Vec<usize> = Vec::new();
    let mut i: usize = 0;
    while i < n
        invariant
            n == shaders@.len(),
            i <= n,
            order@.len() == i,
            forall|a: int| 0 <= a < order@.len() ==> #[trigger] order@[a] < i,
            forall|a: int, b: int|
                0 <= a < b < order@.len() ==> draw_before(shaders@, #[trigger] order@[a], #[trigger] order@[b]),
        decreases n - i,
    {
        let key = shaders[i];
        let mut p: usize = 0;
        while p < order.len() && shaders[order[p]] <= key
            invariant
                n == shaders@.len(),
                i < n,
                p <= order@.len(),
                forall|a: int| 0 <= a < order@.len() ==> #[trigger] order@[a] < i,
                forall|a: int| 0 <= a < p ==> shaders@[(#[trigger] order@[a]) as int] <= key,
            decreases order@.len() - p,
        {
            p = p + 1;
        }
        let ghost old_order = order@;
        proof {
            assert forall|b: int| p <= b < old_order.len() implies key < shaders@[(#[trigger] old_order[b]) as int] by {
                if b > p {
                    assert(draw_before(shaders@, old_order[p as int], old_order[b]));
                }
            }
        }
        order.insert(p, i);
        proof {
            let no = order@;
            assert(no == old_order.insert(p as int, i));
            assert forall|a: int| 0 <= a < no.len() implies #[trigger] no[a] < i + 1 by {
                if a < p {
                    assert(no[a] == old_order[a]);
                } else if a > p {
                    assert(no[a] == old_order[a - 1]);
                }
            }
            assert forall|a: int, b: int| 0 <= a < b < no.len() implies draw_before(
                shaders@,
                #[trigger] no[a],
                #[trigger] no[b],
            ) by {
                if b < p {
                    assert(no[a] == old_order[a] && no[b] == old_order[b]);
                } else if b == p {
                    assert(no[a] == old_order[a]);
                } else if a < p {
                    assert(no[a] == old_order[a] && no[b] == old_order[b - 1]);
                } else if a == p {
                    assert(no[b] == old_order[b - 1]);
                } else {
                    assert(no[a] == old_order[a - 1] && no[b] == old_order[b - 1]);
                }
            }
        }
        i = i + 1;
    }
    order
}

/// The recording plan of the geometry pass for draw calls with the given
/// shaders, where `has_pipeline[i]` says whether draw `i`'s shader has a
/// pipeline: the draw order, and the commands to record in that order.
pub fn plan_geometry_draws(shaders: &[u32], has_pipeline: &[bool]) -> (r: (Vec<usize>, Vec<DrawStep>))
    requires
        shaders@.len() == has_pipeline@.len(),
    ensures
        is_draw_order(shaders@, r.0@),
        r.1@ == draw_plan(shaders@, has_pipeline@, r.0@).0,
{
    let order = sort_draws(shaders);
    let mut steps: Vec<DrawStep> = Vec::new();
    let mut current: Option<u32> = None;
    let mut k: usize = 0;
    while k < order.len()
        invariant
            is_draw_order(shaders@, order@),
            shaders@.len() == has_pipeline@.len(),
            k <= order@.len(),
            (steps@, current) == draw_plan(shaders@, has_pipeline@, order@.subrange(0, k as int)),
        decreases order@.len() - k,
    {
        let d = order[k];
        let s = shaders[d];
        proof {
            let pre = order@.subrange(0, k + 1);
            assert(pre.drop_last() == order@.subrange(0, k as int));
            assert(pre.last() == d);
        }
        let bound = match current {
            Some(c) => c == s,
            None => false,
        };
        if bound {
            steps.push(DrawStep::Draw(d));
        } else if has_pipeline[d] {
            steps.push(DrawStep::BindPipeline(s));
            steps.push(DrawStep::Draw(d));
            current = Some(s);
        }
        k = k + 1;
    }
    proof {
        assert(order@.subrange(0, order@.len() as int) == order@);
    }
    (order, steps)
}

/// The recording plan of the geometry pass for `calls`, where
/// `has_pipeline[i]` says whether the shader of call `i` has a pipeline.
pub fn plan_draw_calls(calls: &[DrawCall], has_pipeline: &[bool]) -> (r: (Vec<usize>, Vec<DrawStep>))
    requires
        calls@.len() == has_pipeline@.len(),
    ensures
        is_draw_order(shaders_of(calls@), r.0@),
        r.1@ == draw_plan(shaders_of(calls@), has_pipeline@, r.0@).0,
{
    let mut shaders: Vec<u32> = Vec::new();
    let mut i: usize = 0;
    while i < calls.len()
        invariant
            i <= calls@.len(),
            shaders@ == shaders_of(calls@.subrange(0, i as int)),
        decreases calls@.len() - i,
    {
        shaders.push(calls[i].shader);
        proof {
            assert(shaders_of(calls@.subrange(0, i + 1)) == shaders_of(calls@.subrange(0, i as int)).push(
                calls@[i as int].shader,
            ));
        }
        i = i + 1;
    }
    proof {
        assert(calls@.subrange(0, calls@.len() as int) == calls@);
    }
    plan_geometry_draws(shaders.as_slice(), has_pipeline)
}

proof fn lemma_bound_at_push(steps: Seq<DrawStep>, x: DrawStep, t: int)
    requires
        0 <= t <= steps.len(),
    ensures
        bound_at(steps.push(x), t) == bound_at(steps, t),
    decreases t,
{
    if t > 0 {
        lemma_bound_at_push(steps, x, t - 1);
        assert(steps.push(x)[t - 1] == steps[t - 1]);
    }
}

proof fn lemma_plan_bound(shaders: Seq<u32>, has_pipeline: Seq<bool>, order: Seq<usize>)
    ensures
        draw_plan(shaders, has_pipeline, order).1 == bound_at(
            draw_plan(shaders, has_pipeline, order).0,
            draw_plan(shaders, has_pipeline, order).0.len() as int,
        ),
        forall|t: int|
            0 <= t < draw_plan(shaders, has_pipeline, order).0.len() && (#[trigger] draw_plan(
                shaders,
                has_pipeline,
                order,
            ).0[t]) is Draw ==> bound_at(draw_plan(shaders, has_pipeline, order).0, t) == Some(
                shaders[draw_plan(shaders, has_pipeline, order).0[t]->Draw_0 as int],
            ),
    decreases order.len(),
{
    if order.len() > 0 {
        let pre = order.drop_last();
        lemma_plan_bound(shaders, has_pipeline, pre);
        let (steps, cur) = draw_plan(shaders, has_pipeline, pre);
        let d = order.last();
        let s = shaders[d as int];
        let (steps2, cur2) = draw_plan(shaders, has_pipeline, order);
        if cur == Some(s) {
            assert(steps2 == steps.push(DrawStep::Draw(d)));
            assert forall|t: int| 0 <= t < steps2.len() && (#[trigger] steps2[t]) is Draw implies bound_at(steps2, t)
                == Some(shaders[steps2[t]->Draw_0 as int]) by {
                lemma_bound_at_push(steps, DrawStep::Draw(d), t);
                if t < steps.len() {
                    assert(steps2[t] == steps[t]);
                }
            }
            lemma_bound_at_push(steps, DrawStep::Draw(d), steps.len() as int);
        } else if has_pipeline[d as int] {
            let mid = steps.push(DrawStep::BindPipeline(s));
            assert(steps2 == mid.push(DrawStep::Draw(d)));
            assert forall|t: int| 0 <= t < steps2.len() && (#[trigger] steps2[t]) is Draw implies bound_at(steps2, t)
                == Some(shaders[steps2[t]->Draw_0 as int]) by {
                lemma_bound_at_push(mid, DrawStep::Draw(d), t);
                if t < steps.len() {
                    lemma_bound_at_push(steps, DrawStep::BindPipeline(s), t);
                    assert(steps2[t] == steps[t]);
                } else if t == steps.len() {
                    assert(steps2[t] == DrawStep::BindPipeline(s));
                } else {
                    assert(mid[t - 1] == DrawStep::BindPipeline(s));
                }
            }
            lemma_bound_at_push(mid, DrawStep::Draw(d), mid.len() as int);
        }
    }
}

/// Every draw of the geometry pass is recorded while the pipeline of its own
/// shader is bound.
pub proof fn law_draws_use_their_pipeline(shaders: Seq<u32>, has_pipeline: Seq<bool>, order: Seq<usize>, t: int)
    requires
        0 <= t < draw_plan(shaders, has_pipeline, order).0.len(),
        draw_plan(shaders, has_pipeline, order).0[t] is Draw,
    ensures
        bound_at(draw_plan(shaders, has_pipeline, order).0, t) == Some(
            shaders[draw_plan(shaders, has_pipeline, order).0[t]->Draw_0 as int],
        ),
{
    lemma_plan_bound(shaders, has_pipeline, order);
}

/// The draw calls drawn by `steps`, in order.
pub open spec fn drawn(steps: Seq<DrawStep>) -> Seq<usize>
    decreases steps.len(),
{
    if steps.len() == 0 {
        seq![]
    } else {
        let prev = drawn(steps.drop_last());
        match steps.last() {
            DrawStep::Draw(d) => prev.push(d),
            DrawStep::BindPipeline(_) => prev,
        }
    }
}

/// Draw calls of one shader agree on whether that shader has a pipeline.
pub open spec fn pipelines_per_shader(shaders: Seq<u32>, has_pipeline: Seq<bool>) -> bool {
    forall|i: int, j: int|
        0 <= i < shaders.len() && 0 <= j < shaders.len() && #[trigger] shaders[i] == #[trigger] shaders[j]
            ==> has_pipeline[i] == has_pipeline[j]
}

proof fn lemma_drawn_push(steps: Seq<DrawStep>, x: DrawStep)
    ensures
        drawn(steps.push(x)) == match x {
            DrawStep::Draw(d) => drawn(steps).push(d),
            DrawStep::BindPipeline(_) => drawn(steps),
        },
{
    assert(steps.push(x).drop_last() == steps);
}

proof fn lemma_plan_draws(shaders: Seq<u32>, has_pipeline: Seq<bool>, order: Seq<usize>)
    requires
        shaders.len() == has_pipeline.len(),
        pipelines_per_shader(shaders, has_pipeline),
        forall|i: int| 0 <= i < order.len() ==> #[trigger] order[i] < shaders.len(),
    ensures
        drawn(draw_plan(shaders, has_pipeline, order).0) == order.filter(|d: usize| has_pipeline[d as int]),
        draw_plan(shaders, has_pipeline, order).1 matches Some(c) ==> forall|i: int|
            0 <= i < shaders.len() && #[trigger] shaders[i] == c ==> has_pipeline[i],
    decreases order.len(),
{
    let p = |d: usize| has_pipeline[d as int];
    if order.len() == 0 {
        reveal(Seq::filter);
    } else {
        let pre = order.drop_last();
        let d = order.last();
        assert(d == order[order.len() - 1]);
        assert forall|i: int| 0 <= i < pre.len() implies #[trigger] pre[i] < shaders.len() by {
            assert(pre[i] == order[i]);
        }
        lemma_plan_draws(shaders, has_pipeline, pre);
        assert(pre.push(d) == order);
        pre.lemma_filter_push(d, p);
        let (steps, cur) = draw_plan(shaders, has_pipeline, pre);
        let s = shaders[d as int];
        if cur == Some(s) {
            assert(has_pipeline[d as int]);
            lemma_drawn_push(steps, DrawStep::Draw(d));
        } else if has_pipeline[d as int] {
            let mid = steps.push(DrawStep::BindPipeline(s));
            lemma_drawn_push(steps, DrawStep::BindPipeline(s));
            lemma_drawn_push(mid, DrawStep::Draw(d));
        }
    }
}

/// When draws of one shader agree on whether it has a pipeline, the
/// geometry pass draws, in draw order, exactly the draw calls whose shader
/// has a pipeline, each of them once.
pub proof fn law_drawable_calls_drawn_once(shaders: Seq<u32>, has_pipeline: Seq<bool>, order: Seq<usize>)
    requires
        shaders.len() == has_pipeline.len(),
        is_draw_order(shaders, order),
        pipelines_per_shader(shaders, has_pipeline),
    ensures
        drawn(draw_plan(shaders, has_pipeline, order).0) == order.filter(|d: usize| has_pipeline[d as int]),
{
    lemma_plan_draws(shaders, has_pipeline, order);
}

/// The shaders bound by `steps`, in order.
pub open spec fn binds(steps: Seq<DrawStep>) -> Seq<u32>
    decreases steps.len(),
{
    if steps.len() == 0 {
        seq![]
    } else {
        let prev = binds(steps.drop_last());
        match steps.last() {
            DrawStep::BindPipeline(s) => prev.push(s),
            DrawStep::Draw(_) => prev,
        }
    }
}

proof fn lemma_binds_push(steps: Seq<DrawStep>, x: DrawStep)
    ensures
        binds(steps.push(x)) == match x {
            DrawStep::BindPipeline(s) => binds(steps).push(s),
            DrawStep::Draw(_) => binds(steps),
        },
{
    assert(steps.push(x).drop_last() == steps);
}

proof fn lemma_plan_binds(shaders: Seq<u32>, has_pipeline: Seq<bool>, order: Seq<usize>)
    requires
        forall|i: int, j: int|
            0 <= i < j < order.len() ==> shaders[#[trigger] order[i] as int] <= shaders[#[trigger] order[j] as int],
    ensures
        ({
            let (steps, cur) = draw_plan(shaders, has_pipeline, order);
            let bs = binds(steps);
            &&& forall|i: int, j: int| 0 <= i < j < bs.len() ==> bs[i] < bs[j]
            &&& cur == if bs.len() == 0 {
                None::<u32>
            } else {
                Some(bs.last())
            }
            &&& order.len() > 0 ==> forall|i: int| 0 <= i < bs.len() ==> bs[i] <= shaders[order.last() as int]
            &&& order.len() == 0 ==> bs.len() == 0
        }),
    decreases order.len(),
{
    if order.len() > 0 {
        let pre = order.drop_last();
        assert forall|i: int, j: int| 0 <= i < j < pre.len() implies shaders[#[trigger] pre[i] as int]
            <= shaders[#[trigger] pre[j] as int] by {
            assert(pre[i] == order[i] && pre[j] == order[j]);
        }
        lemma_plan_binds(shaders, has_pipeline, pre);
        let (steps, cur) = draw_plan(shaders, has_pipeline, pre);
        let bs = binds(steps);
        let d = order.last();
        let s = shaders[d as int];
        if pre.len() > 0 {
            assert(pre.last() == order[pre.len() - 1]);
            assert(d == order[order.len() - 1]);
            assert(shaders[order[pre.len() - 1] as int] <= shaders[order[order.len() - 1] as int]);
        }
        assert forall|i: int| 0 <= i < bs.len() implies bs[i] <= s by {}
        if cur == Some(s) {
            lemma_binds_push(steps, DrawStep::Draw(d));
        } else if has_pipeline[d as int] {
            let mid = steps.push(DrawStep::BindPipeline(s));
            lemma_binds_push(steps, DrawStep::BindPipeline(s));
            lemma_binds_push(mid, DrawStep::Draw(d));
            let nb = bs.push(s);
            assert forall|i: int, j: int| 0 <= i < j < nb.len() implies nb[i] < nb[j] by {
                if j == bs.len() {
                    assert(nb[i] == bs[i]);
                    if bs[i] == s {
                        assert(bs[i] <= bs.last());
                        if i < bs.len() - 1 {
                            assert(bs[i] < bs[bs.len() - 1]);
                        }
                    }
                } else {
                    assert(nb[i] == bs[i] && nb[j] == bs[j]);
                }
            }
        }
    }
}

/// The geometry pass binds each shader's pipeline at most once: the shaders
/// it binds come in strictly increasing order.
pub proof fn law_each_pipeline_bound_once(shaders: Seq<u32>, has_pipeline: Seq<bool>, order: Seq<usize>)
    requires
        is_draw_order(shaders, order),
    ensures
        forall|i: int, j: int|
            0 <= i < j < binds(draw_plan(shaders, has_pipeline, order).0).len() ==> binds(
                draw_plan(shaders, has_pipeline, order).0,
            )[i] < binds(draw_plan(shaders, has_pipeline, order).0)[j],
{
    assert forall|i: int, j: int| 0 <= i < j < order.len() implies shaders[#[trigger] order[i] as int]
        <= shaders[#[trigger] order[j] as int] by {
        assert(draw_before(shaders, order[i], order[j]));
    }
    lemma_plan_binds(shaders, has_pipeline, order);
}

} // verus!
