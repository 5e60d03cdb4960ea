//! Renumbering and grafting: what they do to a well-formed tree.

use crate::etreenode::NodeView;
use crate::model::{
    graft_fits, grafted, identities_distinct, is_max_identity, is_parent_of, lemma_position_from,
    lemma_prefix_chain, max_identity, plan_child, plan_next, plan_previous, position_from,
    range_is_free, renumber_step, renumbered, renumbered_for, replace_id, same_shape, sound,
    well_formed, with_graft, Plan, TreeView,
};
use crate::wellformed::{
    fits_at, is_opening, lemma_child_fits, lemma_next_fits, lemma_previous_fits,
};
use vstd::prelude::*;

verus! {

/// What the identity `e` has become once the first `k` nodes have been
/// renumbered from `start` on: the new identity of the node that carried it,
/// where that node is one of the `k`, and `e` itself otherwise.
pub open spec fn mapped_id(nodes: Seq<NodeView>, start: int, k: int, e: usize) -> usize {
    match position_from(nodes, e, 0) {
        Some(p) => if p < k {
            (start + p) as usize
        } else {
            e
        },
        None => e,
    }
}

/// A label with every identity mapped.
pub open spec fn mapped_chain(nodes: Seq<NodeView>, start: int, k: int, chain: Seq<usize>) -> Seq<
    usize,
> {
    Seq::new(chain.len(), |m: int| mapped_id(nodes, start, k, chain[m]))
}

/// The node at `j` once the first `k` nodes have been renumbered.
pub open spec fn mapped_node(nodes: Seq<NodeView>, start: int, k: int, j: int) -> NodeView {
    NodeView {
        idx: if j < k {
            (start + j) as usize
        } else {
            nodes[j].idx
        },
        route: mapped_chain(nodes, start, k, nodes[j].route),
        ..nodes[j]
    }
}

/// The identity that node `m` gets in a renumbering from `start` on.
pub open spec fn new_id(start: int, m: int) -> int {
    start + m
}

/// None of the identities `start, ..., start + n - 1` is in use.
pub open spec fn range_unused(nodes: Seq<NodeView>, start: int) -> bool {
    forall|i: int, m: int|
        0 <= i < nodes.len() && 0 <= m < nodes.len() ==> (#[trigger] nodes[i]).idx
            != #[trigger] new_id(start, m)
}

/// Where no identity occurs twice, the node at `p` is the first with its
/// identity.
pub proof fn lemma_position_of(nodes: Seq<NodeView>, p: int)
    requires
        identities_distinct(nodes),
        0 <= p < nodes.len(),
    ensures
        position_from(nodes, nodes[p].idx, 0) == Some(p),
{
    lemma_position_from(nodes, nodes[p].idx, 0);
    let q = position_from(nodes, nodes[p].idx, 0).unwrap();
    if q < p {
        assert(nodes[q].idx != nodes[p].idx);
    }
}

/// One more pass maps one more identity.
proof fn lemma_mapped_step(nodes: Seq<NodeView>, start: int, k: int, e: usize)
    requires
        identities_distinct(nodes),
        0 < k <= nodes.len(),
        0 <= start,
        start + nodes.len() <= usize::MAX + 1,
        range_unused(nodes, start),
    ensures
        mapped_id(nodes, start, k, e) == if mapped_id(nodes, start, k - 1, e) == nodes[k
            - 1].idx {
            (start + k - 1) as usize
        } else {
            mapped_id(nodes, start, k - 1, e)
        },
{
    lemma_position_from(nodes, e, 0);
    lemma_position_of(nodes, k - 1);
    match position_from(nodes, e, 0) {
        Some(p) => {
            if p < k - 1 {
                assert(nodes[k - 1].idx != new_id(start, p));
            } else if p == k - 1 {
            } else {
                assert(nodes[k - 1].idx != nodes[p].idx);
            }
        },
        None => {
            assert(nodes[k - 1].idx != e);
        },
    }
}

/// After the first `k` nodes have been renumbered from `start` on, into a
/// range that is not in use, every node is the node it was with its
/// identity and its label mapped.
pub proof fn lemma_renumbered_form(nodes: Seq<NodeView>, start: int, k: int)
    requires
        identities_distinct(nodes),
        0 <= k <= nodes.len(),
        0 <= start,
        start + nodes.len() <= usize::MAX + 1,
        range_unused(nodes, start),
    ensures
        renumbered(nodes, start, k).len() == nodes.len(),
        forall|j: int|
            0 <= j < nodes.len() ==> (#[trigger] renumbered(nodes, start, k)[j]) == mapped_node(
                nodes,
                start,
                k,
                j,
            ),
    decreases k,
{
    if k == 0 {
        assert forall|j: int| 0 <= j < nodes.len() implies (#[trigger] renumbered(
            nodes,
            start,
            k,
        )[j]) == mapped_node(nodes, start, k, j) by {
            assert forall|m: int| 0 <= m < nodes[j].route.len() implies mapped_id(
                nodes,
                start,
                0,
                nodes[j].route[m],
            ) == nodes[j].route[m] by {
                lemma_position_from(nodes, nodes[j].route[m], 0);
            }
            assert(mapped_chain(nodes, start, 0, nodes[j].route) =~= nodes[j].route);
        }
    } else {
        lemma_renumbered_form(nodes, start, k - 1);
        let before = renumbered(nodes, start, k - 1);
        let new = (start + k - 1) as usize;
        let after = renumber_step(before, k - 1, new);
        assert(before[k - 1] == mapped_node(nodes, start, k - 1, k - 1));
        assert(before[k - 1].idx == nodes[k - 1].idx);
        assert forall|j: int| 0 <= j < nodes.len() implies (#[trigger] after[j]) == mapped_node(
            nodes,
            start,
            k,
            j,
        ) by {
            assert(before[j] == mapped_node(nodes, start, k - 1, j));
            let was = before[j].route;
            let goal = mapped_chain(nodes, start, k, nodes[j].route);
            assert forall|m: int| 0 <= m < was.len() implies replace_id(
                was,
                nodes[k - 1].idx,
                new,
            )[m] == goal[m] by {
                lemma_mapped_step(nodes, start, k, nodes[j].route[m]);
            }
            assert(replace_id(was, nodes[k - 1].idx, new) =~= goal);
        }
    }
}

/// A range that is free is not in use.
pub proof fn lemma_free_is_unused(nodes: Seq<NodeView>, start: int)
    requires
        range_is_free(nodes, start),
    ensures
        range_unused(nodes, start),
{
    assert forall|i: int, m: int| 0 <= i < nodes.len() && 0 <= m < nodes.len() implies (
    #[trigger] nodes[i]).idx != #[trigger] new_id(start, m) by {}
}

/// Mapping keeps a label that opens another opening it.
proof fn lemma_mapped_prefix(nodes: Seq<NodeView>, start: int, k: int, a: Seq<usize>, b: Seq<usize>)
    requires
        a.is_prefix_of(b),
    ensures
        mapped_chain(nodes, start, k, a).is_prefix_of(mapped_chain(nodes, start, k, b)),
{
    let ma = mapped_chain(nodes, start, k, a);
    let mb = mapped_chain(nodes, start, k, b);
    assert(a =~= b.subrange(0, a.len() as int));
    assert forall|m: int| 0 <= m < ma.len() implies ma[m] == mb.subrange(0, ma.len() as int)[m] by {
        assert(a[m] == b.subrange(0, a.len() as int)[m]);
    }
    assert(ma =~= mb.subrange(0, ma.len() as int));
}

/// The label of the children of a renumbered node is the mapped label of
/// the children of the node.
proof fn lemma_mapped_child(nodes: Seq<NodeView>, start: int, j: int)
    requires
        identities_distinct(nodes),
        0 <= j < nodes.len(),
    ensures
        mapped_node(nodes, start, nodes.len() as int, j).child_route() == mapped_chain(
            nodes,
            start,
            nodes.len() as int,
            nodes[j].child_route(),
        ),
{
    lemma_position_of(nodes, j);
    let n = nodes.len() as int;
    assert(mapped_node(nodes, start, n, j).child_route() =~= mapped_chain(
        nodes,
        start,
        n,
        nodes[j].child_route(),
    ));
}

/// A parent stays a parent under renumbering.
proof fn lemma_renumbered_parent(nodes: Seq<NodeView>, start: int, j: int, i: int)
    requires
        identities_distinct(nodes),
        is_parent_of(nodes, j, i),
        0 <= start,
        start + nodes.len() <= usize::MAX + 1,
        range_unused(nodes, start),
    ensures
        is_parent_of(renumbered(nodes, start, nodes.len() as int), j, i),
{
    let n = nodes.len() as int;
    let r = renumbered(nodes, start, n);
    lemma_renumbered_form(nodes, start, n);
    assert(r[j] == mapped_node(nodes, start, n, j));
    assert(r[i] == mapped_node(nodes, start, n, i));
    lemma_mapped_child(nodes, start, j);
    assert forall|k: int| j < k <= i implies r[j].child_route().is_prefix_of(
        #[trigger] r[k].route,
    ) by {
        assert(r[k] == mapped_node(nodes, start, n, k));
        lemma_mapped_prefix(nodes, start, n, nodes[j].child_route(), nodes[k].route);
    }
}

/// Renumbering into a free range keeps a tree well-formed; node `j` carries
/// `start + j` afterwards.
pub proof fn lemma_renumbered_well_formed(nodes: Seq<NodeView>, start: int)
    requires
        well_formed(nodes),
        range_is_free(nodes, start),
        0 <= start,
        start + nodes.len() <= usize::MAX + 1,
    ensures
        well_formed(renumbered(nodes, start, nodes.len() as int)),
        renumbered(nodes, start, nodes.len() as int).len() == nodes.len(),
        forall|j: int|
            0 <= j < nodes.len() ==> (#[trigger] renumbered(
                nodes,
                start,
                nodes.len() as int,
            )[j]).idx == start + j,
{
    let n = nodes.len() as int;
    let r = renumbered(nodes, start, n);
    lemma_free_is_unused(nodes, start);
    lemma_renumbered_form(nodes, start, n);
    assert forall|j: int| 0 <= j < n implies (#[trigger] r[j]).idx == start + j by {
        assert(r[j] == mapped_node(nodes, start, n, j));
    }
    assert forall|a: int, b: int| 0 <= a < b < r.len() implies r[a].idx != r[b].idx by {
        assert(r[a].idx == start + a && r[b].idx == start + b);
    }
    assert forall|i: int| 0 <= i < r.len() implies (#[trigger] r[i]).route.len() == 0 || exists|
        j: int,
    |
        is_parent_of(r, j, i) by {
        assert(r[i] == mapped_node(nodes, start, n, i));
        if r[i].route.len() > 0 {
            assert(nodes[i].route.len() > 0);
            let j = choose|j: int| is_parent_of(nodes, j, i);
            lemma_renumbered_parent(nodes, start, j, i);
        }
    }
}

/// Renumbering for a counter keeps a tree well-formed; node `j` carries
/// `count + j` afterwards.
pub proof fn lemma_renumbered_for_well_formed(nodes: Seq<NodeView>, count: int)
    requires
        well_formed(nodes),
        nodes.len() > 0,
        0 <= count,
        graft_fits(nodes, count),
        is_max_identity(nodes, max_identity(nodes)),
    ensures
        well_formed(renumbered_for(nodes, count)),
        renumbered_for(nodes, count).len() == nodes.len(),
        forall|j: int|
            0 <= j < nodes.len() ==> (#[trigger] renumbered_for(nodes, count)[j]).idx == count
                + j,
{
    let n = nodes.len() as int;
    if range_is_free(nodes, count) {
        lemma_renumbered_well_formed(nodes, count);
    } else {
        let m = max_identity(nodes);
        let high = m + n + 1;
        assert(range_is_free(nodes, high));
        lemma_renumbered_well_formed(nodes, high);
        let mid = renumbered(nodes, high, n);
        let k = choose|k: int| 0 <= k < nodes.len() && !((#[trigger] nodes[k]).idx < count);
        assert(nodes[k].idx <= m);
        assert forall|i: int| 0 <= i < mid.len() implies count + mid.len() <= (
        #[trigger] mid[i]).idx by {
            assert(mid[i].idx == high + i);
        }
        assert(range_is_free(mid, count));
        lemma_renumbered_well_formed(mid, count);
    }
}

/// Some identity is the largest of a tree that has nodes.
pub proof fn lemma_max_identity(nodes: Seq<NodeView>)
    requires
        nodes.len() > 0,
    ensures
        is_max_identity(nodes, max_identity(nodes)),
{
    let n = nodes.len() as int;
    lemma_max_upto(nodes, n);
    let m = choose|m: usize| is_max_upto(nodes, n, m);
    assert(is_max_identity(nodes, m));
}

/// Whether `m` is the largest identity among the first `k` nodes.
pub open spec fn is_max_upto(nodes: Seq<NodeView>, k: int, m: usize) -> bool {
    &&& forall|i: int| 0 <= i < k ==> (#[trigger] nodes[i]).idx <= m
    &&& exists|i: int| 0 <= i < k && (#[trigger] nodes[i]).idx == m
}

proof fn lemma_max_upto(nodes: Seq<NodeView>, k: int)
    requires
        0 < k <= nodes.len(),
    ensures
        exists|m: usize| is_max_upto(nodes, k, m),
    decreases k,
{
    if k == 1 {
        assert(is_max_upto(nodes, 1, nodes[0].idx));
    } else {
        let k1 = k - 1;
        lemma_max_upto(nodes, k1);
        let m = choose|m: usize| is_max_upto(nodes, k1, m);
        let w = choose|i: int| 0 <= i < k1 && (#[trigger] nodes[i]).idx == m;
        let last = nodes[k - 1].idx;
        if last > m {
            assert(is_max_upto(nodes, k, last));
        } else {
            assert(nodes[w].idx == m);
            assert(is_max_upto(nodes, k, m));
        }
    }
}

/// The sequence `base` with the nodes `block` put in at `slot`.
pub open spec fn spliced(base: Seq<NodeView>, slot: int, block: Seq<NodeView>) -> Seq<NodeView> {
    base.subrange(0, slot) + block + base.subrange(slot, base.len() as int)
}

/// A label opens itself with another label behind it.
proof fn lemma_prefix_front(a: Seq<usize>, b: Seq<usize>)
    ensures
        a.is_prefix_of(a + b),
{
    assert(a =~= (a + b).subrange(0, a.len() as int));
}

/// Two labels with the same label in front: one opens the other where it
/// did without.
proof fn lemma_prefix_behind(front: Seq<usize>, a: Seq<usize>, b: Seq<usize>)
    requires
        a.is_prefix_of(b),
    ensures
        (front + a).is_prefix_of(front + b),
{
    assert(a =~= b.subrange(0, a.len() as int));
    assert(front + a =~= (front + b).subrange(0, (front + a).len() as int));
}

/// A node before the block keeps its parent.
proof fn lemma_block_before(
    base: Seq<NodeView>,
    slot: int,
    block: Seq<NodeView>,
    j: int,
    i: int,
)
    requires
        is_parent_of(base, j, i),
        i < slot <= base.len(),
    ensures
        is_parent_of(spliced(base, slot, block), j, i),
{
    let after = spliced(base, slot, block);
    assert(after[j] == base[j]);
    assert(after[i] == base[i]);
    assert forall|k: int| j < k <= i implies after[j].child_route().is_prefix_of(
        #[trigger] after[k].route,
    ) by {
        assert(after[k] == base[k]);
    }
}

/// A node behind the block keeps its parent, where that stands behind the
/// block too.
proof fn lemma_block_shifted(
    base: Seq<NodeView>,
    slot: int,
    block: Seq<NodeView>,
    j: int,
    i: int,
)
    requires
        is_parent_of(base, j, i),
        0 <= slot <= j,
    ensures
        is_parent_of(spliced(base, slot, block), j + block.len(), i + block.len()),
{
    let after = spliced(base, slot, block);
    let n = block.len() as int;
    let nj = j + n;
    let ni = i + n;
    assert(after[nj] == base[j]);
    assert(after[ni] == base[i]);
    assert forall|k: int| nj < k <= ni implies after[nj].child_route().is_prefix_of(
        #[trigger] after[k].route,
    ) by {
        assert(after[k] == base[k - n]);
    }
}

/// A node behind the block keeps its parent, where that stands before the
/// block and is an ancestor of every node of the block.
proof fn lemma_block_across(
    base: Seq<NodeView>,
    slot: int,
    block: Seq<NodeView>,
    j: int,
    i: int,
)
    requires
        is_parent_of(base, j, i),
        j < slot <= i,
        forall|k: int|
            0 <= k < block.len() ==> base[j].child_route().is_prefix_of(#[trigger] block[k].route),
    ensures
        is_parent_of(spliced(base, slot, block), j, i + block.len()),
{
    let after = spliced(base, slot, block);
    let n = block.len() as int;
    let ni = i + n;
    assert(after[j] == base[j]);
    assert(after[ni] == base[i]);
    assert forall|k: int| j < k <= ni implies after[j].child_route().is_prefix_of(
        #[trigger] after[k].route,
    ) by {
        if k < slot {
            assert(after[k] == base[k]);
        } else if k < slot + n {
            assert(after[k] == block[k - slot]);
        } else {
            assert(after[k] == base[k - n]);
        }
    }
}

/// A node of the block whose label is that of the place has the parent of
/// the place.
proof fn lemma_block_top(
    base: Seq<NodeView>,
    slot: int,
    block: Seq<NodeView>,
    probe: NodeView,
    j: int,
    k: int,
)
    requires
        is_opening(base, slot, probe, j),
        0 <= k < block.len(),
        block[k].route == probe.route,
        forall|m: int| 0 <= m < block.len() ==> probe.route.is_prefix_of(#[trigger] block[m].route),
    ensures
        is_parent_of(spliced(base, slot, block), j, slot + k),
{
    let after = spliced(base, slot, block);
    let i = slot + k;
    assert(after[j] == base[j]);
    assert(after[i] == block[k]);
    assert forall|m: int| j < m <= i implies after[j].child_route().is_prefix_of(
        #[trigger] after[m].route,
    ) by {
        if m < slot {
            assert(after[m] == base[m]);
        } else {
            assert(after[m] == block[m - slot]);
        }
    }
}

/// A node of the block keeps the parent that it had in the incoming tree.
proof fn lemma_block_inner(
    base: Seq<NodeView>,
    slot: int,
    incoming: Seq<NodeView>,
    route: Seq<usize>,
    tail: Seq<char>,
    j: int,
    k: int,
)
    requires
        is_parent_of(incoming, j, k),
        0 <= slot <= base.len(),
    ensures
        is_parent_of(spliced(base, slot, grafted(incoming, route, tail)), slot + j, slot + k),
{
    let block = grafted(incoming, route, tail);
    let after = spliced(base, slot, block);
    let nj = slot + j;
    let nk = slot + k;
    assert(after[nj] == block[j]);
    assert(after[nk] == block[k]);
    assert(block[j].child_route() =~= route + incoming[j].child_route());
    assert forall|m: int| nj < m <= nk implies after[nj].child_route().is_prefix_of(
        #[trigger] after[m].route,
    ) by {
        assert(after[m] == block[m - slot]);
        lemma_prefix_behind(route, incoming[j].child_route(), incoming[m - slot].route);
    }
}

/// No identity occurs twice after a block was put in whose identities are
/// its own.
proof fn lemma_block_distinct(base: Seq<NodeView>, slot: int, block: Seq<NodeView>)
    requires
        identities_distinct(base),
        identities_distinct(block),
        0 <= slot <= base.len(),
        forall|a: int, b: int|
            0 <= a < base.len() && 0 <= b < block.len() ==> (#[trigger] base[a]).idx != (
            #[trigger] block[b]).idx,
    ensures
        identities_distinct(spliced(base, slot, block)),
{
    let after = spliced(base, slot, block);
    let n = block.len() as int;
    assert forall|a: int, b: int| 0 <= a < b < after.len() implies after[a].idx
        != after[b].idx by {
        if a < slot {
            assert(after[a] == base[a]);
        } else if a < slot + n {
            assert(after[a] == block[a - slot]);
        } else {
            assert(after[a] == base[a - n]);
        }
        if b < slot {
            assert(after[b] == base[b]);
        } else if b < slot + n {
            assert(after[b] == block[b - slot]);
        } else {
            assert(after[b] == base[b - n]);
        }
    }
}

/// A well-formed tree put into a well-formed tree at a place where a node
/// with the place's label fits leaves it well-formed, where the identities
/// of the two are apart.
pub proof fn lemma_graft_well_formed(
    base: Seq<NodeView>,
    slot: int,
    probe: NodeView,
    incoming: Seq<NodeView>,
    tail: Seq<char>,
)
    requires
        well_formed(base),
        well_formed(incoming),
        fits_at(base, slot, probe),
        forall|a: int, b: int|
            0 <= a < base.len() && 0 <= b < incoming.len() ==> (#[trigger] base[a]).idx != (
            #[trigger] incoming[b]).idx,
    ensures
        well_formed(spliced(base, slot, grafted(incoming, probe.route, tail))),
{
    let route = probe.route;
    let block = grafted(incoming, route, tail);
    let after = spliced(base, slot, block);
    let n = block.len() as int;
    assert forall|a: int, b: int| 0 <= a < b < block.len() implies block[a].idx
        != block[b].idx by {
        assert(block[a].idx == incoming[a].idx && block[b].idx == incoming[b].idx);
    }
    assert forall|a: int, b: int|
        0 <= a < base.len() && 0 <= b < block.len() implies (#[trigger] base[a]).idx != (
    #[trigger] block[b]).idx by {
        assert(block[b].idx == incoming[b].idx);
    }
    lemma_block_distinct(base, slot, block);
    assert forall|m: int| 0 <= m < block.len() implies route.is_prefix_of(
        #[trigger] block[m].route,
    ) by {
        lemma_prefix_front(route, incoming[m].route);
    }
    assert forall|i: int| 0 <= i < after.len() implies (#[trigger] after[i]).route.len() == 0
        || exists|j: int| is_parent_of(after, j, i) by {
        if after[i].route.len() > 0 {
            if i < slot {
                assert(after[i] == base[i]);
                let j = choose|j: int| is_parent_of(base, j, i);
                lemma_block_before(base, slot, block, j, i);
            } else if i < slot + n {
                let k = i - slot;
                assert(after[i] == block[k]);
                if incoming[k].route.len() == 0 {
                    assert(block[k].route =~= route);
                    let j = choose|j: int| is_opening(base, slot, probe, j);
                    lemma_block_top(base, slot, block, probe, j, k);
                } else {
                    let j = choose|j: int| is_parent_of(incoming, j, k);
                    lemma_block_inner(base, slot, incoming, route, tail, j, k);
                    assert(is_parent_of(after, slot + j, i));
                }
            } else {
                let oi = i - n;
                assert(after[i] == base[oi]);
                let j = choose|j: int| is_parent_of(base, j, oi);
                if j >= slot {
                    lemma_block_shifted(base, slot, block, j, oi);
                    assert(is_parent_of(after, j + n, i));
                } else {
                    assert(is_parent_of(base, j, oi));
                    assert(base[j].child_route().is_prefix_of(route));
                    assert forall|m: int| 0 <= m < block.len() implies base[j].child_route(
                    ).is_prefix_of(#[trigger] block[m].route) by {
                        lemma_prefix_chain(base[j].child_route(), route, block[m].route);
                    }
                    lemma_block_across(base, slot, block, j, oi);
                    assert(is_parent_of(after, j, i));
                }
            }
        }
    }
}

/// A tree put in according to a plan at whose place a new node fits keeps a
/// tree sound.
proof fn lemma_graft_sound(tree: TreeView, plan: Plan, probe: NodeView, incoming: Seq<NodeView>)
    requires
        sound(tree),
        well_formed(plan.nodes),
        same_shape(tree.nodes, plan.nodes),
        fits_at(plan.nodes, plan.slot, probe),
        probe.route == plan.route,
        well_formed(incoming),
        incoming.len() > 0,
        graft_fits(incoming, tree.count as int),
    ensures
        sound(with_graft(tree, plan, incoming)),
{
    let count = tree.count as int;
    let n = incoming.len() as int;
    lemma_max_identity(incoming);
    lemma_renumbered_for_well_formed(incoming, count);
    let fresh = renumbered_for(incoming, count);
    assert(count + n <= usize::MAX) by {
        if !range_is_free(incoming, count) {
            let m = max_identity(incoming);
            let k = choose|k: int| 0 <= k < incoming.len() && !((#[trigger] incoming[k]).idx
                < count);
            assert(incoming[k].idx <= m);
        }
    }
    assert forall|a: int, b: int|
        0 <= a < plan.nodes.len() && 0 <= b < fresh.len() implies (#[trigger] plan.nodes[a]).idx
        != (#[trigger] fresh[b]).idx by {
        assert(plan.nodes[a].idx == tree.nodes[a].idx);
        assert(fresh[b].idx == count + b);
    }
    lemma_graft_well_formed(plan.nodes, plan.slot, probe, fresh, plan.tail);
    let after = with_graft(tree, plan, incoming);
    assert(after.nodes == spliced(plan.nodes, plan.slot, grafted(fresh, plan.route, plan.tail)));
    let block = grafted(fresh, plan.route, plan.tail);
    assert forall|i: int| 0 <= i < after.nodes.len() implies (#[trigger] after.nodes[i]).idx
        < after.count by {
        if i < plan.slot {
            assert(after.nodes[i] == plan.nodes[i]);
            assert(plan.nodes[i].idx == tree.nodes[i].idx);
        } else if i < plan.slot + n {
            assert(after.nodes[i] == block[i - plan.slot]);
            assert(block[i - plan.slot].idx == fresh[i - plan.slot].idx);
        } else {
            assert(after.nodes[i] == plan.nodes[i - n]);
            assert(plan.nodes[i - n].idx == tree.nodes[i - n].idx);
        }
    }
}

/// Putting a well-formed tree in behind the node at `pos` keeps a tree
/// sound.
pub proof fn law_next_tree_keeps_sound(tree: TreeView, pos: int, incoming: Seq<NodeView>)
    requires
        sound(tree),
        0 <= pos < tree.nodes.len() <= usize::MAX,
        well_formed(incoming),
        incoming.len() > 0,
        graft_fits(incoming, tree.count as int),
    ensures
        sound(with_graft(tree, plan_next(tree.nodes, pos), incoming)),
{
    let plan = plan_next(tree.nodes, pos);
    let probe = crate::model::placed(incoming[0], tree.count, plan);
    lemma_next_fits(tree, pos, incoming[0]);
    lemma_graft_sound(tree, plan, probe, incoming);
}

/// Putting a well-formed tree in as the last child of the node at `pos`
/// keeps a tree sound.
pub proof fn law_child_tree_keeps_sound(tree: TreeView, pos: int, incoming: Seq<NodeView>)
    requires
        sound(tree),
        0 <= pos < tree.nodes.len() <= usize::MAX,
        well_formed(incoming),
        incoming.len() > 0,
        graft_fits(incoming, tree.count as int),
    ensures
        sound(with_graft(tree, plan_child(tree, pos), incoming)),
{
    let plan = plan_child(tree, pos);
    let probe = crate::model::placed(incoming[0], tree.count, plan);
    lemma_child_fits(tree, pos, incoming[0]);
    lemma_graft_sound(tree, plan, probe, incoming);
}

/// Putting a well-formed tree in before the node at `pos` keeps a tree
/// sound.
pub proof fn law_previous_tree_keeps_sound(tree: TreeView, pos: int, incoming: Seq<NodeView>)
    requires
        sound(tree),
        0 <= pos < tree.nodes.len() <= usize::MAX,
        plan_previous(tree.nodes, pos) is Some,
        well_formed(incoming),
        incoming.len() > 0,
        graft_fits(incoming, tree.count as int),
    ensures
        sound(with_graft(tree, plan_previous(tree.nodes, pos).unwrap(), incoming)),
{
    let plan = plan_previous(tree.nodes, pos).unwrap();
    let probe = crate::model::placed(incoming[0], tree.count, plan);
    lemma_previous_fits(tree, pos, incoming[0]);
    lemma_graft_sound(tree, plan, probe, incoming);
}

} // verus!
