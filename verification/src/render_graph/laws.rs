//! Properties of pass ordering and of the planned layout transitions that
//! hold for every graph.
use vstd::prelude::*;
use crate::render_graph::access::{ImageLayout, PassAccess, PassNode};
use crate::render_graph::edges::{
    dependency_edge, explicit_edge, has_pass_order, has_writer_order, hazard_edge, hazard_pair, is_pass_order,
    is_writer_order, lemma_full_permutation, pos_lt, quiet_between, read_after_write, read_edge, reads_at,
    writer_dependency_edge, writes_at,
};
use crate::render_graph::graph::{CompiledBarrier, external_finals, plan_accesses, plan_passes, run_barriers};
use crate::render_graph::resource::{ResourceEntry, layout_in};

verus! {

/// The layouts tracked after starting the first `p` passes of `order` from the
/// layouts `m`: each enabled pass runs its planned barriers `plan[i]`, a
/// disabled pass changes nothing.
pub open spec fn record_passes(
    m: Map<u32, ImageLayout>,
    nodes: Seq<PassNode>,
    order: Seq<usize>,
    plan: Seq<Seq<CompiledBarrier>>,
    p: nat,
) -> Map<u32, ImageLayout>
    decreases p,
{
    if p == 0 {
        m
    } else {
        let prev = record_passes(m, nodes, order, plan, (p - 1) as nat);
        if nodes[order[p - 1] as int].enabled {
            run_barriers(prev, plan[p - 1]).1
        } else {
            prev
        }
    }
}

/// Every layout the simulation has settled is the layout the tracker holds.
spec fn agrees(m: Map<u32, ImageLayout>, s: Map<u32, ImageLayout>) -> bool {
    forall|h: u32| #[trigger] s.dom().contains(h) ==> layout_in(m, h) == s[h]
}

/// Passes that only depend on each other through the resources they access
/// can always be ordered: a graph without explicit dependencies has no cycle.
pub proof fn law_resource_hazards_never_cycle(nodes: Seq<PassNode>)
    requires
        nodes.len() <= usize::MAX,
        forall|v: int| 0 <= v < nodes.len() ==> (#[trigger] nodes[v]).depends_on@.len() == 0,
    ensures
        has_pass_order(nodes),
{
    let order = Seq::new(nodes.len(), |i: int| i as usize);
    assert forall|i: int, j: int| 0 <= i < j < order.len() implies !dependency_edge(
        nodes,
        #[trigger] order[j] as int,
        #[trigger] order[i] as int,
    ) by {
        let u = order[j] as int;
        let v = order[i] as int;
        if hazard_edge(nodes, u, v) {
            let (ku, kv) = choose|ku: int, kv: int|
                pos_lt(v, kv, nodes.len() as int, 0) && #[trigger] hazard_pair(nodes, u, ku, v, kv);
            assert(pos_lt(u, ku, v, kv));
        }
        if explicit_edge(nodes, u, v) {
            assert(nodes[v].depends_on@.len() == 0);
        }
    }
    assert(is_pass_order(nodes, order));
}

/// In any valid pass order, a pass runs after every pass it depends on, be
/// it through a resource it reads or overwrites or through `after`.
pub proof fn law_dependency_runs_first(nodes: Seq<PassNode>, order: Seq<usize>, u: int, v: int)
    requires
        nodes.len() <= usize::MAX,
        is_pass_order(nodes, order),
        0 <= u < nodes.len(),
        0 <= v < nodes.len(),
        dependency_edge(nodes, u, v),
    ensures
        exists|i: int, j: int| 0 <= i < j < order.len() && order[i] == u && order[j] == v,
{
    let n = nodes.len() as int;
    lemma_full_permutation(order, n, u);
    lemma_full_permutation(order, n, v);
    let i = choose|i: int| 0 <= i < order.len() && order[i] == u as usize;
    let j = choose|j: int| 0 <= j < order.len() && order[j] == v as usize;
    assert(u != v);
    if j < i {
        assert(!dependency_edge(nodes, order[i] as int, order[j] as int));
    }
    assert(i < j);
}

/// A pass that uses a resource after another pass wrote it, with no write in
/// between, runs after that writer in any valid pass order.
pub proof fn law_reader_runs_after_last_writer(
    nodes: Seq<PassNode>,
    order: Seq<usize>,
    h: u32,
    u: int,
    ku: int,
    v: int,
    kv: int,
)
    requires
        nodes.len() <= usize::MAX,
        is_pass_order(nodes, order),
        u < v,
        writes_at(nodes, u, ku, h),
        0 <= kv < nodes[v].accesses@.len(),
        v < nodes.len(),
        nodes[v].accesses@[kv].handle.0 == h,
        quiet_between(nodes, h, u, ku, v, kv),
    ensures
        exists|i: int, j: int| 0 <= i < j < order.len() && order[i] == u && order[j] == v,
{
    assert(hazard_pair(nodes, u, ku, v, kv));
    assert(pos_lt(v, kv, nodes.len() as int, 0));
    assert(hazard_edge(nodes, u, v));
    law_dependency_runs_first(nodes, order, u, v);
}

/// A pass that overwrites a resource runs after every pass that read the
/// previous contents, with no write in between, in any valid pass order.
pub proof fn law_writer_runs_after_readers(
    nodes: Seq<PassNode>,
    order: Seq<usize>,
    h: u32,
    u: int,
    ku: int,
    v: int,
    kv: int,
)
    requires
        nodes.len() <= usize::MAX,
        is_pass_order(nodes, order),
        u < v,
        reads_at(nodes, u, ku, h),
        writes_at(nodes, v, kv, h),
        quiet_between(nodes, h, u, ku, v, kv),
    ensures
        exists|i: int, j: int| 0 <= i < j < order.len() && order[i] == u && order[j] == v,
{
    assert(hazard_pair(nodes, u, ku, v, kv));
    assert(pos_lt(v, kv, nodes.len() as int, 0));
    assert(hazard_edge(nodes, u, v));
    law_dependency_runs_first(nodes, order, u, v);
}

/// When only reads wait for writes, passes without explicit dependencies
/// can always be ordered.
pub proof fn law_read_dependencies_never_cycle(nodes: Seq<PassNode>)
    requires
        nodes.len() <= usize::MAX,
        forall|v: int| 0 <= v < nodes.len() ==> (#[trigger] nodes[v]).depends_on@.len() == 0,
    ensures
        has_writer_order(nodes),
{
    let order = Seq::new(nodes.len(), |i: int| i as usize);
    assert forall|i: int, j: int| 0 <= i < j < order.len() implies !writer_dependency_edge(
        nodes,
        #[trigger] order[j] as int,
        #[trigger] order[i] as int,
    ) by {
        let u = order[j] as int;
        let v = order[i] as int;
        if read_edge(nodes, u, v) {
            let (ku, kv) = choose|ku: int, kv: int|
                pos_lt(v, kv, nodes.len() as int, 0) && #[trigger] read_after_write(nodes, u, ku, v, kv);
            assert(pos_lt(u, ku, v, kv));
        }
        if explicit_edge(nodes, u, v) {
            assert(nodes[v].depends_on@.len() == 0);
        }
    }
    assert(is_writer_order(nodes, order));
}

/// When only reads wait for writes, a pass that reads a resource runs after
/// the pass that last wrote it before that read, in any valid order.
pub proof fn law_read_waits_for_last_writer(
    nodes: Seq<PassNode>,
    order: Seq<usize>,
    u: int,
    ku: int,
    v: int,
    kv: int,
)
    requires
        nodes.len() <= usize::MAX,
        is_writer_order(nodes, order),
        u != v,
        read_after_write(nodes, u, ku, v, kv),
    ensures
        exists|i: int, j: int| 0 <= i < j < order.len() && order[i] == u && order[j] == v,
{
    let n = nodes.len() as int;
    assert(pos_lt(v, kv, n, 0));
    assert(read_edge(nodes, u, v));
    assert(0 <= u < n);
    lemma_full_permutation(order, n, u);
    lemma_full_permutation(order, n, v);
    let i = choose|i: int| 0 <= i < order.len() && order[i] == u as usize;
    let j = choose|j: int| 0 <= j < order.len() && order[j] == v as usize;
    if j < i {
        assert(!writer_dependency_edge(nodes, order[i] as int, order[j] as int));
    }
    assert(i < j);
}

/// Running planned barriers records a transition only for a resource whose
/// layout actually changes, and at most one per planned barrier.
pub proof fn law_transitions_change_layout(m: Map<u32, ImageLayout>, cbs: Seq<CompiledBarrier>)
    ensures
        run_barriers(m, cbs).0.len() <= cbs.len(),
        forall|i: int|
            0 <= i < run_barriers(m, cbs).0.len() ==> (#[trigger] run_barriers(m, cbs).0[i]).old_layout
                != run_barriers(m, cbs).0[i].new_layout,
    decreases cbs.len(),
{
    if cbs.len() > 0 {
        law_transitions_change_layout(m, cbs.drop_last());
    }
}

/// A disabled pass gets no planned barrier.
pub proof fn law_disabled_pass_plans_nothing(nodes: Seq<PassNode>, order: Seq<usize>, p: int)
    requires
        0 <= p < order.len(),
        !nodes[order[p] as int].enabled,
    ensures
        plan_passes(nodes, order).0[p].len() == 0,
{
    lemma_plan_passes_prefix(nodes, order, p);
    lemma_plan_passes_len(nodes, order.subrange(0, p));
    assert(order.subrange(0, p + 1).drop_last() == order.subrange(0, p));
}

/// Passes recorded in `order` with the barriers compiled for them: whatever
/// layouts the resources start the frame in, once the planned barriers of a
/// pass have run, each resource the pass accesses is in the layout of the
/// pass's last access to it (an access that asks for `Undefined` asks for no
/// particular layout).
pub proof fn law_pass_sees_declared_layouts(
    m0: Map<u32, ImageLayout>,
    nodes: Seq<PassNode>,
    order: Seq<usize>,
    p: int,
    k: int,
)
    requires
        0 <= p < order.len(),
        order[p] < nodes.len(),
        nodes[order[p] as int].enabled,
        0 <= k < nodes[order[p] as int].accesses@.len(),
        nodes[order[p] as int].accesses@[k].layout != ImageLayout::Undefined,
        forall|k2: int|
            k < k2 < nodes[order[p] as int].accesses@.len() ==> (#[trigger] nodes[order[p] as int].accesses@[k2]).handle.0
                != nodes[order[p] as int].accesses@[k].handle.0,
    ensures
        layout_in(
            record_passes(m0, nodes, order, plan_passes(nodes, order).0, (p + 1) as nat),
            nodes[order[p] as int].accesses@[k].handle.0,
        ) == nodes[order[p] as int].accesses@[k].layout,
{
    let accs = nodes[order[p] as int].accesses@;
    let a = accs[k];
    lemma_record_agrees(m0, nodes, order, (p + 1) as nat);
    let op = order.subrange(0, p + 1);
    assert(op.drop_last() == order.subrange(0, p));
    assert(op.last() == order[p]);
    let s_p = plan_passes(nodes, order.subrange(0, p)).1;
    lemma_plan_last_access(s_p, accs, k);
    let s = plan_passes(nodes, op).1;
    assert(s == plan_accesses(s_p, accs).1);
    assert(s.dom().contains(a.handle.0));
}

/// After the barriers planned for the end of a frame have run, every
/// external resource with a final layout is in that layout, whatever layout
/// it was in before.
pub proof fn law_externals_end_in_final_layout(m: Map<u32, ImageLayout>, entries: Seq<ResourceEntry>, i: int)
    requires
        entries.len() <= u32::MAX,
        0 <= i < entries.len(),
        entries[i].external is Some,
        entries[i].external->0.final_layout is Some,
    ensures
        layout_in(run_barriers(m, external_finals(entries)).1, i as u32)
            == entries[i].external->0.final_layout->0,
{
    let ef = external_finals(entries);
    lemma_external_finals_shape(entries, i);
    lemma_external_finals_sorted(entries);
    let t = choose|t: int|
        0 <= t < ef.len() && ef[t].handle.0 == i as u32 && ef[t].new_layout
            == entries[i].external->0.final_layout->0;
    assert forall|t2: int| t < t2 < ef.len() implies (#[trigger] ef[t2]).handle.0 != ef[t].handle.0 by {}
    lemma_run_last_barrier(m, ef, t);
}

proof fn lemma_run_follows_plan(m: Map<u32, ImageLayout>, s: Map<u32, ImageLayout>, accs: Seq<PassAccess>)
    requires
        agrees(m, s),
    ensures
        agrees(run_barriers(m, plan_accesses(s, accs).0).1, plan_accesses(s, accs).1),
    decreases accs.len(),
{
    if accs.len() > 0 {
        let pre = accs.drop_last();
        lemma_run_follows_plan(m, s, pre);
        let (bs0, s1) = plan_accesses(s, pre);
        let a = accs.last();
        if layout_in(s1, a.handle.0) != a.layout {
            let b = CompiledBarrier { handle: a.handle, new_layout: a.layout };
            let bs = bs0.push(b);
            assert(bs.drop_last() == bs0);
            assert(bs.last() == b);
            let m2 = run_barriers(m, bs).1;
            assert(layout_in(m2, a.handle.0) == a.layout);
            let s2 = s1.insert(a.handle.0, a.layout);
            assert forall|h: u32| #[trigger] s2.dom().contains(h) implies layout_in(m2, h) == s2[h] by {
                if h != a.handle.0 {
                    assert(s1.dom().contains(h));
                }
            }
        }
    }
}

proof fn lemma_plan_last_access(s: Map<u32, ImageLayout>, accs: Seq<PassAccess>, k: int)
    requires
        0 <= k < accs.len(),
        forall|k2: int| k < k2 < accs.len() ==> (#[trigger] accs[k2]).handle.0 != accs[k].handle.0,
    ensures
        layout_in(plan_accesses(s, accs).1, accs[k].handle.0) == accs[k].layout,
    decreases accs.len(),
{
    let pre = accs.drop_last();
    if k < accs.len() - 1 {
        assert(pre[k] == accs[k]);
        assert forall|k2: int| k < k2 < pre.len() implies (#[trigger] pre[k2]).handle.0 != pre[k].handle.0 by {
            assert(pre[k2] == accs[k2]);
        }
        lemma_plan_last_access(s, pre, k);
        assert(accs[accs.len() - 1].handle.0 != accs[k].handle.0);
    }
}

proof fn lemma_run_last_barrier(m: Map<u32, ImageLayout>, cbs: Seq<CompiledBarrier>, t: int)
    requires
        0 <= t < cbs.len(),
        forall|t2: int| t < t2 < cbs.len() ==> (#[trigger] cbs[t2]).handle.0 != cbs[t].handle.0,
    ensures
        layout_in(run_barriers(m, cbs).1, cbs[t].handle.0) == cbs[t].new_layout,
    decreases cbs.len(),
{
    let pre = cbs.drop_last();
    if t < cbs.len() - 1 {
        assert(pre[t] == cbs[t]);
        assert forall|t2: int| t < t2 < pre.len() implies (#[trigger] pre[t2]).handle.0 != pre[t].handle.0 by {
            assert(pre[t2] == cbs[t2]);
        }
        lemma_run_last_barrier(m, pre, t);
        assert(cbs[cbs.len() - 1].handle.0 != cbs[t].handle.0);
    }
}

proof fn lemma_plan_passes_len(nodes: Seq<PassNode>, order: Seq<usize>)
    ensures
        plan_passes(nodes, order).0.len() == order.len(),
    decreases order.len(),
{
    if order.len() > 0 {
        lemma_plan_passes_len(nodes, order.drop_last());
    }
}

proof fn lemma_plan_passes_prefix(nodes: Seq<PassNode>, order: Seq<usize>, p: int)
    requires
        0 <= p < order.len(),
    ensures
        plan_passes(nodes, order).0.len() == order.len(),
        plan_passes(nodes, order).0[p] == plan_passes(nodes, order.subrange(0, p + 1)).0[p],
    decreases order.len(),
{
    lemma_plan_passes_len(nodes, order);
    if p == order.len() - 1 {
        assert(order.subrange(0, p + 1) == order);
    } else {
        let pre = order.drop_last();
        lemma_plan_passes_prefix(nodes, pre, p);
        assert(pre.subrange(0, p + 1) == order.subrange(0, p + 1));
    }
}

proof fn lemma_record_agrees(m0: Map<u32, ImageLayout>, nodes: Seq<PassNode>, order: Seq<usize>, p: nat)
    requires
        p <= order.len(),
    ensures
        agrees(
            record_passes(m0, nodes, order, plan_passes(nodes, order).0, p),
            plan_passes(nodes, order.subrange(0, p as int)).1,
        ),
    decreases p,
{
    if p == 0 {
        assert(order.subrange(0, 0).len() == 0);
    } else {
        let q = (p - 1) as nat;
        lemma_record_agrees(m0, nodes, order, q);
        let op = order.subrange(0, p as int);
        assert(op.drop_last() == order.subrange(0, q as int));
        assert(op.last() == order[q as int]);
        let s_q = plan_passes(nodes, order.subrange(0, q as int)).1;
        let node = nodes[order[q as int] as int];
        if node.enabled {
            lemma_plan_passes_prefix(nodes, order, q as int);
            lemma_plan_passes_len(nodes, order.subrange(0, q as int));
            let prev = record_passes(m0, nodes, order, plan_passes(nodes, order).0, q);
            lemma_run_follows_plan(prev, s_q, node.accesses@);
        }
    }
}

proof fn lemma_external_finals_shape(entries: Seq<ResourceEntry>, i: int)
    requires
        entries.len() <= u32::MAX,
        0 <= i < entries.len(),
        entries[i].external is Some,
        entries[i].external->0.final_layout is Some,
    ensures
        exists|t: int|
            0 <= t < external_finals(entries).len() && (#[trigger] external_finals(entries)[t]).handle.0 == i as u32
                && external_finals(entries)[t].new_layout == entries[i].external->0.final_layout->0,
    decreases entries.len(),
{
    let pre = entries.drop_last();
    let ef = external_finals(entries);
    let ep = external_finals(pre);
    if i < entries.len() - 1 {
        assert(pre[i] == entries[i]);
        lemma_external_finals_shape(pre, i);
        let t = choose|t: int|
            0 <= t < ep.len() && (#[trigger] ep[t]).handle.0 == i as u32 && ep[t].new_layout
                == entries[i].external->0.final_layout->0;
        assert(ef[t] == ep[t]);
    } else {
        assert(ef[ef.len() - 1].handle.0 == i as u32);
    }
}

proof fn lemma_external_finals_bound(entries: Seq<ResourceEntry>)
    requires
        entries.len() <= u32::MAX,
    ensures
        external_finals(entries).len() <= entries.len(),
        forall|a: int|
            0 <= a < external_finals(entries).len() ==> (#[trigger] external_finals(entries)[a]).handle.0
                < entries.len(),
    decreases entries.len(),
{
    if entries.len() > 0 {
        let pre = entries.drop_last();
        lemma_external_finals_bound(pre);
        let ef = external_finals(entries);
        let ep = external_finals(pre);
        assert forall|a: int| 0 <= a < ef.len() implies (#[trigger] ef[a]).handle.0 < entries.len() by {
            if a < ep.len() {
                assert(ef[a] == ep[a]);
            }
        }
    }
}

proof fn lemma_external_finals_sorted(entries: Seq<ResourceEntry>)
    requires
        entries.len() <= u32::MAX,
    ensures
        forall|a: int, b: int|
            0 <= a < b < external_finals(entries).len() ==> (#[trigger] external_finals(entries)[a]).handle.0
                < (#[trigger] external_finals(entries)[b]).handle.0,
    decreases entries.len(),
{
    if entries.len() > 0 {
        let pre = entries.drop_last();
        lemma_external_finals_sorted(pre);
        lemma_external_finals_bound(pre);
        let ef = external_finals(entries);
        let ep = external_finals(pre);
        assert forall|a: int, b: int| 0 <= a < b < ef.len() implies (#[trigger] ef[a]).handle.0
            < (#[trigger] ef[b]).handle.0 by {
            if b < ep.len() {
                assert(ef[a] == ep[a] && ef[b] == ep[b]);
            } else {
                assert(ef[a] == ep[a]);
            }
        }
    }
}

} // verus!
