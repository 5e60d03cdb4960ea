//! Taking a subtree out and putting it in again.

use crate::alike::{alike, content_of, law_alike_is_written_alike, like};
use crate::etreenode::NodeView;
use crate::graft::spliced;
use crate::laws::{lemma_children_from_holds, lemma_next_found};
use crate::model::{
    adjusted_for_removal, block_end, children_from, children_of, graft_fits, grafted,
    is_parent_of, lead_of, lemma_block_end, lemma_children_from, lemma_nearest_before,
    lemma_prefix_chain, lemma_previous_from, nearest_before, next_of, parent_of, plan_child,
    previous_from, previous_of, range_is_free, renumber_step, renumbered, renumbered_for, sound,
    subtree_end, subtree_nodes, subtree_view, well_formed, with_graft, with_tail,
    without_subtree, TreeView,
};
use crate::wellformed::{lemma_parent_outside_block, lemma_prefix_child};
use crate::writer::serialized;
use vstd::prelude::*;

verus! {

/// The run of nodes whose labels open with `prefix` ends at `e`, where every
/// node from `from` up to `e` has such a label and the node at `e`, if there
/// is one, has none.
proof fn lemma_block_exact(nodes: Seq<NodeView>, prefix: Seq<usize>, from: int, e: int)
    requires
        0 <= from <= e <= nodes.len(),
        forall|k: int| from <= k < e ==> prefix.is_prefix_of(#[trigger] nodes[k].route),
        e < nodes.len() ==> !prefix.is_prefix_of(nodes[e].route),
    ensures
        block_end(nodes, prefix, from) == e,
    decreases e - from,
{
    if from < e {
        assert(prefix.is_prefix_of(nodes[from].route));
        lemma_block_exact(nodes, prefix, from + 1, e);
    }
}

/// The previous sibling of a child stands between the parent and the child
/// and carries the child's label; what stands between the two are
/// descendants of the sibling.
proof fn lemma_sibling_before(nodes: Seq<NodeView>, p: int, q: usize, pos: int)
    requires
        nodes.len() <= usize::MAX,
        is_parent_of(nodes, p, pos),
        previous_of(nodes, pos) == Some(q),
    ensures
        p < q < pos,
        nodes[q as int].route == nodes[pos].route,
        forall|j: int|
            q < j < pos ==> nodes[pos].route.is_prefix_of(#[trigger] nodes[j].route)
                && nodes[j].route != nodes[pos].route,
{
    let label = nodes[pos].route;
    lemma_previous_from(nodes, label, pos - 1);
    if q <= p {
        if q < p {
            assert(label.is_prefix_of(nodes[p].route));
        }
        assert(nodes[p].child_route().len() == nodes[p].route.len() + 1);
        assert(false);
    }
}

/// A last child ends where its parent ends: behind the descendants of a
/// child without a next sibling nothing of the parent follows.
proof fn lemma_last_child_ends_block(nodes: Seq<NodeView>, p: int, pos: int)
    requires
        well_formed(nodes),
        nodes.len() <= usize::MAX,
        is_parent_of(nodes, p, pos),
        next_of(nodes, pos) is None,
    ensures
        subtree_end(nodes, p) == subtree_end(nodes, pos),
        pos < subtree_end(nodes, pos) <= nodes.len(),
{
    let label = nodes[p].child_route();
    let inner = nodes[pos].child_route();
    let end = subtree_end(nodes, pos);
    lemma_block_end(nodes, inner, pos + 1);
    lemma_prefix_child(nodes[pos]);
    assert forall|k: int| p + 1 <= k < end implies label.is_prefix_of(
        #[trigger] nodes[k].route,
    ) by {
        if k > pos {
            assert(inner.is_prefix_of(nodes[k].route));
            lemma_prefix_chain(label, inner, nodes[k].route);
        }
    }
    if end < nodes.len() && label.is_prefix_of(nodes[end].route) {
        if nodes[end].route == label {
            assert forall|j: int| pos + 1 <= j < end implies label.is_prefix_of(
                #[trigger] nodes[j].route,
            ) && nodes[j].route != label by {
                assert(inner.is_prefix_of(nodes[j].route));
            }
            lemma_next_found(nodes, label, pos + 1, end);
            assert(false);
        } else {
            let j = choose|j: int| is_parent_of(nodes, j, end);
            assert(is_parent_of(nodes, j, end));
            if j >= pos {
                lemma_parent_outside_block(nodes, pos, j, end);
            } else {
                assert(nodes[j].child_route().is_prefix_of(nodes[pos].route));
            }
            assert(false);
        }
    }
    lemma_block_exact(nodes, label, p + 1, end);
}

/// The scans backwards give the same in two sequences that carry the same
/// labels up to where the scans start.
proof fn lemma_scans_agree(a: Seq<NodeView>, b: Seq<NodeView>, label: Seq<usize>, i: int)
    requires
        i < a.len(),
        i < b.len(),
        forall|k: int| 0 <= k <= i ==> (#[trigger] a[k]).route == b[k].route,
    ensures
        previous_from(a, label, i) == previous_from(b, label, i),
        nearest_before(a, label, i) == nearest_before(b, label, i),
    decreases i + 1,
{
    if i >= 0 {
        assert(a[i].route == b[i].route);
        lemma_scans_agree(a, b, label, i - 1);
    }
}

/// Renumbering changes identities and labels only.
proof fn lemma_renumbered_content(nodes: Seq<NodeView>, start: int, k: int)
    ensures
        renumbered(nodes, start, k).len() == nodes.len(),
        forall|j: int|
            0 <= j < nodes.len() ==> like(#[trigger] renumbered(nodes, start, k)[j], nodes[j]),
    decreases k,
{
    if k > 0 {
        lemma_renumbered_content(nodes, start, k - 1);
        let before = renumbered(nodes, start, k - 1);
        let after = renumbered(nodes, start, k);
        assert forall|j: int| 0 <= j < nodes.len() implies like(#[trigger] after[j], nodes[j]) by {
            assert(like(before[j], nodes[j]));
            assert(after[j] == renumber_step(before, k - 1, (start + k - 1) as usize)[j]);
        }
    }
}

/// Renumbering for a counter changes identities and labels only.
proof fn lemma_renumbered_for_content(nodes: Seq<NodeView>, count: int)
    ensures
        renumbered_for(nodes, count).len() == nodes.len(),
        forall|j: int|
            0 <= j < nodes.len() ==> like(#[trigger] renumbered_for(nodes, count)[j], nodes[j]),
{
    let n = nodes.len() as int;
    lemma_renumbered_content(nodes, count, n);
    let high = crate::model::max_identity(nodes) + n + 1;
    lemma_renumbered_content(nodes, high, n);
    let mid = renumbered(nodes, high, n);
    lemma_renumbered_content(mid, count, n);
    assert forall|j: int| 0 <= j < nodes.len() implies like(
        #[trigger] renumbered_for(nodes, count)[j],
        nodes[j],
    ) by {
        assert(like(mid[j], nodes[j]));
        assert(like(renumbered(mid, count, n)[j], mid[j]));
    }
}

/// What the removal of a last child with a previous sibling leaves: the
/// sibling with the tail of the child, and every other node outside the
/// child's subtree as it was.
proof fn lemma_removed_shape(tree: TreeView, p: int, q: usize, pos: int)
    requires
        well_formed(tree.nodes),
        tree.nodes.len() <= usize::MAX,
        is_parent_of(tree.nodes, p, pos),
        previous_of(tree.nodes, pos) == Some(q),
    ensures
        pos < subtree_end(tree.nodes, pos) <= tree.nodes.len(),
        without_subtree(tree, pos).nodes.len() == tree.nodes.len() - (subtree_end(
            tree.nodes,
            pos,
        ) - pos),
        forall|i: int|
            0 <= i < pos && i != q ==> (#[trigger] without_subtree(tree, pos).nodes[i])
                == tree.nodes[i],
        without_subtree(tree, pos).nodes[q as int] == (NodeView {
            tail: tree.nodes[pos].tail,
            ..tree.nodes[q as int]
        }),
        forall|i: int|
            pos <= i < without_subtree(tree, pos).nodes.len() ==> (#[trigger] without_subtree(
                tree,
                pos,
            ).nodes[i]) == tree.nodes[i + (subtree_end(tree.nodes, pos) - pos)],
{
    let nodes = tree.nodes;
    lemma_block_end(nodes, nodes[pos].child_route(), pos + 1);
    lemma_sibling_before(nodes, p, q, pos);
    let adjusted = adjusted_for_removal(tree, pos);
    assert(adjusted == with_tail(nodes, q as int, nodes[pos].tail));
    let end = subtree_end(nodes, pos);
    let after = without_subtree(tree, pos).nodes;
    assert forall|i: int| pos <= i < after.len() implies (#[trigger] after[i]) == nodes[i + (end
        - pos)] by {
        assert(after[i] == adjusted[i + (end - pos)]);
    }
}

/// The plan for putting a last child in again behind the sibling that
/// took over its tail: the place is where the child stood, the label and
/// the tail are the child's, and every node outside the child's subtree is
/// as it was before the child was taken out.
proof fn lemma_plan_after_removal(tree: TreeView, p: int, q: usize, pos: int)
    requires
        well_formed(tree.nodes),
        tree.nodes.len() <= usize::MAX,
        is_parent_of(tree.nodes, p, pos),
        previous_of(tree.nodes, pos) == Some(q),
        next_of(tree.nodes, pos) is None,
        lead_of(tree.nodes, q as int) == Some(tree.nodes[q as int].tail),
    ensures
        plan_child(without_subtree(tree, pos), p).slot == pos,
        plan_child(without_subtree(tree, pos), p).route == tree.nodes[pos].route,
        plan_child(without_subtree(tree, pos), p).tail == tree.nodes[pos].tail,
        plan_child(without_subtree(tree, pos), p).nodes.len() == without_subtree(
            tree,
            pos,
        ).nodes.len(),
        forall|i: int|
            0 <= i < pos ==> (#[trigger] plan_child(without_subtree(tree, pos), p).nodes[i])
                == tree.nodes[i],
        forall|i: int|
            pos <= i < without_subtree(tree, pos).nodes.len() ==> (#[trigger] plan_child(
                without_subtree(tree, pos),
                p,
            ).nodes[i]) == tree.nodes[i + (subtree_end(tree.nodes, pos) - pos)],
{
    let nodes = tree.nodes;
    let t1 = without_subtree(tree, pos);
    let n1 = t1.nodes;
    let label = nodes[p].child_route();
    let end = subtree_end(nodes, pos);
    let gone = end - pos;
    let qi = q as int;
    lemma_removed_shape(tree, p, q, pos);
    lemma_sibling_before(nodes, p, q, pos);
    lemma_last_child_ends_block(nodes, p, pos);
    lemma_block_end(nodes, label, p + 1);
    assert(n1[p] == nodes[p]);
    assert forall|k: int| 0 <= k < pos implies (#[trigger] n1[k]).route == nodes[k].route by {
        if k != qi {
            assert(n1[k] == nodes[k]);
        }
    }
    assert forall|k: int| p + 1 <= k < pos implies label.is_prefix_of(
        #[trigger] n1[k].route,
    ) by {
        assert(n1[k].route == nodes[k].route);
    }
    if pos < n1.len() {
        assert(n1[pos] == nodes[end]);
    }
    // the children that are left end with the sibling
    let kids = children_of(n1, p);
    assert(kids == children_from(n1, label, p + 1));
    lemma_children_from(n1, label, p + 1);
    lemma_children_from_holds(n1, label, p + 1, qi);
    assert(kids.contains(q));
    let w = choose|w: int| 0 <= w < kids.len() && kids[w] == q;
    let last = kids.last() as int;
    assert(kids[kids.len() - 1] == kids.last());
    assert(kids.contains(kids.last()));
    lemma_children_from_holds(n1, label, p + 1, last);
    if last > qi {
        if last < pos {
            assert(n1[last].route == nodes[last].route);
            assert(nodes[last].route != nodes[pos].route);
        } else {
            assert(label.is_prefix_of(n1[pos].route));
        }
        assert(false);
    }
    if w < kids.len() - 1 {
        assert(kids[w] < kids[kids.len() - 1]);
    }
    assert(last == qi);
    // the parent ends where the child stood
    lemma_block_exact(n1, label, p + 1, pos);
    assert(subtree_end(n1, p) == pos);
    // what stood before the sibling is what stood before it
    lemma_scans_agree(n1, nodes, nodes[qi].route, qi - 1);
    lemma_previous_from(nodes, nodes[qi].route, qi - 1);
    if nodes[qi].route.len() > 0 {
        lemma_scans_agree(n1, nodes, nodes[qi].route.drop_last(), qi - 1);
        lemma_nearest_before(nodes, nodes[qi].route.drop_last(), qi - 1);
    }
    assert(n1[qi].route == nodes[qi].route);
    assert(previous_of(n1, qi) == previous_of(nodes, qi));
    assert(parent_of(n1, qi) == parent_of(nodes, qi));
    match previous_of(nodes, qi) {
        Some(r) => {
            assert(n1[r as int] == nodes[r as int]);
        },
        None => match parent_of(nodes, qi) {
            Some(u) => {
                assert(n1[u as int] == nodes[u as int]);
            },
            None => {},
        },
    }
    assert(lead_of(n1, qi) == lead_of(nodes, qi));
    let plan = plan_child(t1, p);
    assert(plan.nodes == with_tail(n1, qi, nodes[qi].tail));
    assert(plan.nodes[qi] == nodes[qi]);
    assert forall|i: int| 0 <= i < pos implies (#[trigger] plan.nodes[i]) == nodes[i] by {
        if i != qi {
            assert(plan.nodes[i] == n1[i]);
        }
    }
    assert forall|i: int| pos <= i < n1.len() implies (#[trigger] plan.nodes[i]) == nodes[i
        + gone] by {
        assert(plan.nodes[i] == n1[i]);
    }
}

/// The tree after the subtree at `pos` has been copied, taken out, and the
/// copy put in as the last child of the node at `p`.
pub open spec fn regrafted(tree: TreeView, p: int, pos: int) -> TreeView {
    with_graft(
        without_subtree(tree, pos),
        plan_child(without_subtree(tree, pos), p),
        subtree_view(tree, pos).nodes,
    )
}

/// Whether the node at `pos` is the last child of the node at `p` and stands
/// behind the sibling at `q`, whose tail is what stood before that sibling,
/// and the tree's counter leaves room for new identities for the node at
/// `pos` and its descendants.
pub open spec fn regraftable(tree: TreeView, p: int, q: usize, pos: int) -> bool {
    &&& tree.nodes.len() <= usize::MAX
    &&& is_parent_of(tree.nodes, p, pos)
    &&& previous_of(tree.nodes, pos) == Some(q)
    &&& next_of(tree.nodes, pos) is None
    &&& lead_of(tree.nodes, q as int) == Some(tree.nodes[q as int].tail)
    &&& tree.count + (subtree_end(tree.nodes, pos) - pos) <= usize::MAX
}

/// A run of nodes put back where it was cut out: `base` is `nodes` without
/// the run from `pos` to `end`, and `fresh` holds what the run held.
proof fn lemma_put_back(
    nodes: Seq<NodeView>,
    base: Seq<NodeView>,
    fresh: Seq<NodeView>,
    route: Seq<usize>,
    tail: Seq<char>,
    pos: int,
    end: int,
)
    requires
        0 <= pos < end <= nodes.len(),
        base.len() == nodes.len() - (end - pos),
        fresh.len() == end - pos,
        tail == nodes[pos].tail,
        forall|i: int| 0 <= i < pos ==> (#[trigger] base[i]) == nodes[i],
        forall|i: int| pos <= i < base.len() ==> (#[trigger] base[i]) == nodes[i + (end - pos)],
        forall|k: int|
            0 <= k < end - pos ==> content_of(#[trigger] fresh[k]) == content_of(nodes[pos + k])
                && route.len() + fresh[k].route.len() == nodes[pos + k].route.len(),
    ensures
        spliced(base, pos, grafted(fresh, route, tail)).len() == nodes.len(),
        forall|i: int|
            0 <= i < nodes.len() ==> like(
                #[trigger] spliced(base, pos, grafted(fresh, route, tail))[i],
                nodes[i],
            ),
        forall|i: int|
            0 <= i < nodes.len() && !(pos <= i < end) ==> (#[trigger] spliced(
                base,
                pos,
                grafted(fresh, route, tail),
            )[i]) == nodes[i],
        forall|i: int|
            pos <= i < end ==> (#[trigger] spliced(base, pos, grafted(fresh, route, tail))[i]).idx
                == fresh[i - pos].idx,
{
    let block = grafted(fresh, route, tail);
    let out = spliced(base, pos, block);
    let gone = end - pos;
    assert forall|i: int| 0 <= i < nodes.len() implies like(#[trigger] out[i], nodes[i]) && (!(pos
        <= i < end) ==> out[i] == nodes[i]) && (pos <= i < end ==> out[i].idx == fresh[i
        - pos].idx) by {
        if i < pos {
            assert(out[i] == base[i]);
        } else if i < end {
            let k = i - pos;
            assert(out[i] == block[k]);
            assert(content_of(fresh[k]) == content_of(nodes[pos + k]));
            assert(block[k].route.len() == route.len() + fresh[k].route.len());
        } else {
            assert(out[i] == base[i - gone]);
        }
    }
}

/// Extraction and regraft, node by node.  Let the node at `pos` be the last
/// child of the node at `p`, behind a sibling whose tail is what stood
/// before that sibling.  After the subtree at `pos` has been copied and
/// taken out and the copy put in as the last child of `p`, the copy stands
/// where the subtree stood; every node holds what the node at its position
/// held and lies as deep; every node outside the subtree is the node it
/// was; the nodes of the copy carry the identities from the tree's counter
/// on, which must leave room for them; and the tree is sound.
pub proof fn law_regraft_gives_the_nodes_back(tree: TreeView, p: int, q: usize, pos: int)
    requires
        sound(tree),
        regraftable(tree, p, q, pos),
    ensures
        graft_fits(subtree_nodes(tree.nodes, pos), tree.count as int),
        plan_child(without_subtree(tree, pos), p).slot == pos,
        regrafted(tree, p, pos).nodes.len() == tree.nodes.len(),
        alike(regrafted(tree, p, pos).nodes, tree.nodes),
        forall|i: int|
            0 <= i < tree.nodes.len() && !(pos <= i < subtree_end(tree.nodes, pos)) ==> (
            #[trigger] regrafted(tree, p, pos).nodes[i]) == tree.nodes[i],
        forall|i: int|
            pos <= i < subtree_end(tree.nodes, pos) ==> (#[trigger] regrafted(
                tree,
                p,
                pos,
            ).nodes[i]).idx == tree.count + (i - pos),
        regrafted(tree, p, pos).count == tree.count + (subtree_end(tree.nodes, pos) - pos),
        sound(regrafted(tree, p, pos)),
{
    let nodes = tree.nodes;
    let t1 = without_subtree(tree, pos);
    let plan = plan_child(t1, p);
    let incoming = subtree_nodes(nodes, pos);
    let end = subtree_end(nodes, pos);
    let count = tree.count as int;
    lemma_block_end(nodes, nodes[pos].child_route(), pos + 1);
    assert forall|k: int| 0 <= k < incoming.len() implies (#[trigger] incoming[k]).idx < count by {
        assert(incoming[k].idx == nodes[pos + k].idx);
    }
    assert(range_is_free(incoming, count));
    lemma_removed_shape(tree, p, q, pos);
    lemma_plan_after_removal(tree, p, q, pos);
    lemma_renumbered_for_content(incoming, count);
    let fresh = renumbered_for(incoming, count);
    crate::wellformed::law_removal_keeps_sound(tree, pos);
    crate::wellformed::law_subtree_is_well_formed(nodes, pos);
    crate::graft::law_child_tree_keeps_sound(t1, p, incoming);
    crate::graft::lemma_max_identity(incoming);
    crate::graft::lemma_renumbered_for_well_formed(incoming, count);
    assert forall|k: int| 0 <= k < end - pos implies content_of(#[trigger] fresh[k])
        == content_of(nodes[pos + k]) && plan.route.len() + fresh[k].route.len() == nodes[pos
        + k].route.len() by {
        assert(like(fresh[k], incoming[k]));
        if k > 0 {
            assert(nodes[pos].child_route().is_prefix_of(nodes[pos + k].route));
        }
    }
    lemma_put_back(nodes, plan.nodes, fresh, plan.route, plan.tail, pos, end);
    assert(regrafted(tree, p, pos).nodes == spliced(
        plan.nodes,
        pos,
        grafted(fresh, plan.route, plan.tail),
    ));
}

/// Extraction and regraft, byte for byte.  Let the node at `pos` be the
/// last child of the node at `p`, behind a sibling whose tail is what stood
/// before that sibling.  After the subtree at `pos` has been copied and
/// taken out and the copy put in as the last child of `p`, for whose nodes
/// the tree's counter must leave room, the tree is written as the document
/// that it was written as before.
pub proof fn law_regraft_gives_the_document_back(tree: TreeView, p: int, q: usize, pos: int)
    requires
        sound(tree),
        regraftable(tree, p, q, pos),
    ensures
        serialized(tree) is Some,
        serialized(regrafted(tree, p, pos)) == serialized(tree),
{
    law_regraft_gives_the_nodes_back(tree, p, q, pos);
    law_alike_is_written_alike(regrafted(tree, p, pos), tree);
    crate::wellformed::law_well_formed_is_written(tree);
}

} // verus!
