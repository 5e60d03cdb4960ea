//! What holds of every tree under the edits.

use crate::etreenode::NodeView;
use crate::model::{
    adjusted_for_removal, children_from, children_of, is_parent_of, lead_of, lemma_block_end,
    lemma_reference_is_descendant, next_from, next_of, parent_of, placed, plan_child, plan_next,
    plan_previous, previous_of, renumbered_for, same_shape, subtree_end, text_or_empty, well_formed,
    with_graft, with_node, with_tree, without_subtree, Plan, TreeView,
};
use crate::wellformed::{lemma_adjusted_shape, lemma_plan_child_shape, lemma_plan_next_shape};
use vstd::prelude::*;

verus! {

/// Where no node from `i` on is listed as carrying `label`, none is after one
/// node has been put in at or before `i`.
proof fn lemma_children_stay_empty(
    nodes: Seq<NodeView>,
    shifted: Seq<NodeView>,
    label: Seq<usize>,
    i: int,
)
    requires
        0 <= i,
        shifted.len() == nodes.len() + 1,
        forall|j: int| i <= j < nodes.len() ==> (#[trigger] shifted[j + 1]).route == nodes[j].route,
        children_from(nodes, label, i).len() == 0,
    ensures
        children_from(shifted, label, i + 1).len() == 0,
    decreases nodes.len() - i,
{
    if i < nodes.len() {
        assert(shifted[i + 1].route == nodes[i].route);
        if nodes[i].route == label {
            assert(children_from(nodes, label, i).len() > 0);
        } else if label.is_prefix_of(nodes[i].route) {
            lemma_children_stay_empty(nodes, shifted, label, i + 1);
        }
    }
}

/// First-child insertion.  A new child of a node without children is
/// afterwards its only child, right behind it.  Where the node's text was
/// absent or empty, its text is afterwards the tail that the child got, then
/// one unit of indentation.
pub proof fn law_first_child(tree: TreeView, pos: int, node: NodeView)
    requires
        0 <= pos < tree.nodes.len() < usize::MAX,
        children_of(tree.nodes, pos).len() == 0,
    ensures
        children_of(with_node(tree, plan_child(tree, pos), node).nodes, pos) == seq![
            (pos + 1) as usize,
        ],
        with_node(tree, plan_child(tree, pos), node).nodes[pos + 1] == placed(
            node,
            tree.count,
            plan_child(tree, pos),
        ),
        text_or_empty(tree.nodes[pos].text).len() == 0 ==> with_node(
            tree,
            plan_child(tree, pos),
            node,
        ).nodes[pos].text == Some(plan_child(tree, pos).tail + tree.indent),
{
    let plan = plan_child(tree, pos);
    let after = with_node(tree, plan, node).nodes;
    let label = tree.nodes[pos].child_route();
    assert(plan.nodes.len() == tree.nodes.len());
    assert(plan.nodes[pos].child_route() == label);
    assert(after[pos] == plan.nodes[pos]);
    assert(after[pos + 1].route == label);
    assert forall|j: int| pos + 1 <= j < tree.nodes.len() implies (#[trigger] after[j + 1]).route
        == tree.nodes[j].route by {
        assert(after[j + 1] == plan.nodes[j]);
    }
    lemma_children_stay_empty(tree.nodes, after, label, pos + 1);
    assert(children_from(after, label, pos + 1) =~= seq![(pos + 1) as usize]);
}

/// Where every node from `i` up to `p` has a longer label that opens with
/// `label`, and the node at `p` carries `label`, the search from `i` finds
/// `p`.
pub proof fn lemma_next_found(nodes: Seq<NodeView>, label: Seq<usize>, i: int, p: int)
    requires
        0 <= i <= p < nodes.len(),
        forall|j: int|
            i <= j < p ==> label.is_prefix_of(#[trigger] nodes[j].route) && nodes[j].route
                != label,
        nodes[p].route == label,
    ensures
        next_from(nodes, label, i) == Some(p as usize),
    decreases p - i,
{
    if i < p {
        lemma_next_found(nodes, label, i + 1, p);
    }
}

/// Sibling insertion.  A node put in after the node at `pos` is afterwards
/// the next sibling of `pos`.  It has the tail that `pos` had, and `pos` has
/// as its tail what stood before it: the tail of its previous sibling, or the
/// text of its parent.  A `pos` with neither keeps its tail.
pub proof fn law_next_sibling(tree: TreeView, pos: int, node: NodeView)
    requires
        0 <= pos < tree.nodes.len() < usize::MAX,
    ensures
        next_of(with_node(tree, plan_next(tree.nodes, pos), node).nodes, pos) == Some(
            plan_next(tree.nodes, pos).slot as usize,
        ),
        with_node(tree, plan_next(tree.nodes, pos), node).nodes[plan_next(
            tree.nodes,
            pos,
        ).slot].tail == tree.nodes[pos].tail,
        with_node(tree, plan_next(tree.nodes, pos), node).nodes[pos].tail == match lead_of(
            tree.nodes,
            pos,
        ) {
            Some(t) => t,
            None => tree.nodes[pos].tail,
        },
{
    let plan = plan_next(tree.nodes, pos);
    let after = with_node(tree, plan, node).nodes;
    let label = tree.nodes[pos].route;
    let inner = tree.nodes[pos].child_route();
    lemma_block_end(tree.nodes, inner, pos + 1);
    let slot = plan.slot;
    assert(plan.nodes.len() == tree.nodes.len());
    assert(after[pos] == plan.nodes[pos]);
    assert(after[slot].route == label);
    assert forall|j: int| pos + 1 <= j < slot implies label.is_prefix_of(
        #[trigger] after[j].route,
    ) && after[j].route != label by {
        assert(after[j] == plan.nodes[j]);
        assert(plan.nodes[j].route == tree.nodes[j].route);
        assert(inner.is_prefix_of(tree.nodes[j].route));
        assert(label =~= inner.subrange(0, label.len() as int));
        assert(label =~= tree.nodes[j].route.subrange(0, label.len() as int));
    }
    lemma_next_found(after, label, pos + 1, slot);
}

/// A node put in according to a plan that changes no identity leaves every
/// node its identity.
proof fn lemma_identity_kept_by_insertion(tree: TreeView, plan: Plan, node: NodeView, i: int)
    requires
        same_shape(tree.nodes, plan.nodes),
        0 <= plan.slot <= tree.nodes.len(),
        0 <= i < tree.nodes.len(),
    ensures
        with_node(tree, plan, node).nodes[if i < plan.slot {
            i
        } else {
            i + 1
        }].idx == tree.nodes[i].idx,
{
    assert(plan.nodes[i].idx == tree.nodes[i].idx);
}

/// Nodes put in according to a plan that changes no identity leave every
/// node its identity.
proof fn lemma_identity_kept_by_graft(tree: TreeView, plan: Plan, incoming: Seq<NodeView>, i: int)
    requires
        same_shape(tree.nodes, plan.nodes),
        0 <= plan.slot <= tree.nodes.len(),
        0 <= i < tree.nodes.len(),
    ensures
        with_tree(tree, plan, incoming).nodes[if i < plan.slot {
            i
        } else {
            i + incoming.len()
        }].idx == tree.nodes[i].idx,
{
    assert(plan.nodes[i].idx == tree.nodes[i].idx);
}

/// The plan for a sibling in front changes no identity and no label, and
/// its place lies within the tree.
pub proof fn lemma_plan_previous_shape(nodes: Seq<NodeView>, pos: int)
    requires
        0 <= pos < nodes.len() <= usize::MAX,
        plan_previous(nodes, pos) is Some,
    ensures
        same_shape(nodes, plan_previous(nodes, pos).unwrap().nodes),
        0 < plan_previous(nodes, pos).unwrap().slot <= nodes.len(),
{
    match previous_of(nodes, pos) {
        Some(p) => {
            crate::model::lemma_previous_from(nodes, nodes[pos].route, pos - 1);
            lemma_plan_next_shape(nodes, p as int);
        },
        None => {
            crate::model::lemma_nearest_before(nodes, nodes[pos].route.drop_last(), pos - 1);
        },
    }
}

/// Identity stability: a new sibling behind the node at `pos` leaves every
/// node of the tree its identity.  The node is afterwards at its old
/// position where that lies before the new node, one further on otherwise.
pub proof fn law_identity_kept_by_next_node(tree: TreeView, pos: int, node: NodeView, i: int)
    requires
        0 <= pos < tree.nodes.len() <= usize::MAX,
        0 <= i < tree.nodes.len(),
    ensures
        with_node(tree, plan_next(tree.nodes, pos), node).nodes[if i < plan_next(
            tree.nodes,
            pos,
        ).slot {
            i
        } else {
            i + 1
        }].idx == tree.nodes[i].idx,
{
    lemma_plan_next_shape(tree.nodes, pos);
    lemma_identity_kept_by_insertion(tree, plan_next(tree.nodes, pos), node, i);
}

/// Identity stability: a new last child of the node at `pos` leaves every
/// node of the tree its identity.
pub proof fn law_identity_kept_by_child_node(tree: TreeView, pos: int, node: NodeView, i: int)
    requires
        0 <= pos < tree.nodes.len() <= usize::MAX,
        0 <= i < tree.nodes.len(),
    ensures
        with_node(tree, plan_child(tree, pos), node).nodes[if i < plan_child(tree, pos).slot {
            i
        } else {
            i + 1
        }].idx == tree.nodes[i].idx,
{
    lemma_plan_child_shape(tree, pos);
    lemma_identity_kept_by_insertion(tree, plan_child(tree, pos), node, i);
}

/// Identity stability: a new sibling in front of the node at `pos` leaves
/// every node of the tree its identity.
pub proof fn law_identity_kept_by_previous_node(tree: TreeView, pos: int, node: NodeView, i: int)
    requires
        0 <= pos < tree.nodes.len() <= usize::MAX,
        plan_previous(tree.nodes, pos) is Some,
        0 <= i < tree.nodes.len(),
    ensures
        with_node(tree, plan_previous(tree.nodes, pos).unwrap(), node).nodes[if i
            < plan_previous(tree.nodes, pos).unwrap().slot {
            i
        } else {
            i + 1
        }].idx == tree.nodes[i].idx,
{
    lemma_plan_previous_shape(tree.nodes, pos);
    lemma_identity_kept_by_insertion(tree, plan_previous(tree.nodes, pos).unwrap(), node, i);
}

/// Identity stability: a tree put in behind the node at `pos` leaves every
/// node of the receiving tree its identity.  The node is afterwards at its
/// old position where that lies before the incoming nodes, behind them
/// otherwise.
pub proof fn law_identity_kept_by_next_tree(
    tree: TreeView,
    pos: int,
    incoming: Seq<NodeView>,
    i: int,
)
    requires
        0 <= pos < tree.nodes.len() <= usize::MAX,
        0 <= i < tree.nodes.len(),
    ensures
        with_graft(tree, plan_next(tree.nodes, pos), incoming).nodes[if i < plan_next(
            tree.nodes,
            pos,
        ).slot {
            i
        } else {
            i + incoming.len()
        }].idx == tree.nodes[i].idx,
{
    lemma_plan_next_shape(tree.nodes, pos);
    crate::model::lemma_renumbered_for_len(incoming, tree.count as int);
    lemma_identity_kept_by_graft(
        tree,
        plan_next(tree.nodes, pos),
        renumbered_for(incoming, tree.count as int),
        i,
    );
}

/// Identity stability: a tree put in as the last child of the node at `pos`
/// leaves every node of the receiving tree its identity.
pub proof fn law_identity_kept_by_child_tree(
    tree: TreeView,
    pos: int,
    incoming: Seq<NodeView>,
    i: int,
)
    requires
        0 <= pos < tree.nodes.len() <= usize::MAX,
        0 <= i < tree.nodes.len(),
    ensures
        with_graft(tree, plan_child(tree, pos), incoming).nodes[if i < plan_child(
            tree,
            pos,
        ).slot {
            i
        } else {
            i + incoming.len()
        }].idx == tree.nodes[i].idx,
{
    lemma_plan_child_shape(tree, pos);
    crate::model::lemma_renumbered_for_len(incoming, tree.count as int);
    lemma_identity_kept_by_graft(
        tree,
        plan_child(tree, pos),
        renumbered_for(incoming, tree.count as int),
        i,
    );
}

/// Identity stability: a tree put in before the node at `pos` leaves every
/// node of the receiving tree its identity.
pub proof fn law_identity_kept_by_previous_tree(
    tree: TreeView,
    pos: int,
    incoming: Seq<NodeView>,
    i: int,
)
    requires
        0 <= pos < tree.nodes.len() <= usize::MAX,
        plan_previous(tree.nodes, pos) is Some,
        0 <= i < tree.nodes.len(),
    ensures
        with_graft(tree, plan_previous(tree.nodes, pos).unwrap(), incoming).nodes[if i
            < plan_previous(tree.nodes, pos).unwrap().slot {
            i
        } else {
            i + incoming.len()
        }].idx == tree.nodes[i].idx,
{
    lemma_plan_previous_shape(tree.nodes, pos);
    crate::model::lemma_renumbered_for_len(incoming, tree.count as int);
    lemma_identity_kept_by_graft(
        tree,
        plan_previous(tree.nodes, pos).unwrap(),
        renumbered_for(incoming, tree.count as int),
        i,
    );
}

/// Identity stability under removal.  Every node outside the removed
/// subtree is afterwards in the tree with the identity and the label it had:
/// at its old position where that lies before the removed node, further down
/// by the size of the removed subtree otherwise.
pub proof fn law_identity_kept_by_removal(tree: TreeView, pos: int, i: int)
    requires
        0 <= pos < tree.nodes.len() <= usize::MAX,
        0 <= i < tree.nodes.len(),
        i < pos || subtree_end(tree.nodes, pos) <= i,
    ensures
        without_subtree(tree, pos).nodes.len() == tree.nodes.len() - (subtree_end(
            tree.nodes,
            pos,
        ) - pos),
        without_subtree(tree, pos).nodes[if i < pos {
            i
        } else {
            i - (subtree_end(tree.nodes, pos) - pos)
        }].idx == tree.nodes[i].idx,
        without_subtree(tree, pos).nodes[if i < pos {
            i
        } else {
            i - (subtree_end(tree.nodes, pos) - pos)
        }].route == tree.nodes[i].route,
{
    lemma_adjusted_shape(tree, pos);
    let adjusted = adjusted_for_removal(tree, pos);
    assert(adjusted[i].idx == tree.nodes[i].idx);
}

/// Removal.  After the node at `pos` of a well-formed tree has been removed,
/// no label in the tree holds its identity.
pub proof fn law_removed_identity_is_gone(tree: TreeView, pos: int, i: int)
    requires
        well_formed(tree.nodes),
        0 <= pos < tree.nodes.len() <= usize::MAX,
        0 <= i < without_subtree(tree, pos).nodes.len(),
    ensures
        !without_subtree(tree, pos).nodes[i].route.contains(tree.nodes[pos].idx),
{
    let end = subtree_end(tree.nodes, pos);
    lemma_adjusted_shape(tree, pos);
    let from = if i < pos {
        i
    } else {
        i + (end - pos)
    };
    law_identity_kept_by_removal(tree, pos, from);
    if tree.nodes[from].route.contains(tree.nodes[pos].idx) {
        lemma_reference_is_descendant(tree.nodes, pos, from);
    }
}

/// Removal.  Where the removed node had a previous sibling, that sibling has
/// afterwards the tail that the removed node had.
pub proof fn law_removed_tail_moves(tree: TreeView, pos: int)
    requires
        0 <= pos < tree.nodes.len() <= usize::MAX,
        previous_of(tree.nodes, pos) is Some,
    ensures
        without_subtree(tree, pos).nodes[previous_of(tree.nodes, pos)->0 as int].tail
            == tree.nodes[pos].tail,
{
    crate::model::lemma_previous_from(tree.nodes, tree.nodes[pos].route, pos - 1);
    lemma_block_end(tree.nodes, tree.nodes[pos].child_route(), pos + 1);
}

/// A position is listed among the nodes that carry `label` from `start` on
/// exactly where it lies at or behind `start`, carries the label, and every
/// node from `start` up to it has a label that opens with `label`.
pub proof fn lemma_children_from_holds(
    nodes: Seq<NodeView>,
    label: Seq<usize>,
    start: int,
    i: int,
)
    requires
        0 <= start,
        nodes.len() <= usize::MAX,
    ensures
        children_from(nodes, label, start).contains(i as usize) && 0 <= i <= usize::MAX <==> start
            <= i < nodes.len() && nodes[i].route == label && forall|k: int|
            start <= k <= i ==> label.is_prefix_of(#[trigger] nodes[k].route),
    decreases nodes.len() - start,
{
    let list = children_from(nodes, label, start);
    crate::model::lemma_children_from(nodes, label, start);
    if start < nodes.len() {
        let rest = children_from(nodes, label, start + 1);
        crate::model::lemma_children_from(nodes, label, start + 1);
        if nodes[start].route == label {
            assert(label =~= label.subrange(0, label.len() as int));
            lemma_children_from_holds(nodes, label, start + 1, i);
            assert(list == seq![start as usize] + rest);
            if list.contains(i as usize) && 0 <= i <= usize::MAX {
                let w = choose|w: int| 0 <= w < list.len() && list[w] == i as usize;
                if w > 0 {
                    assert(rest[w - 1] == i as usize);
                    assert(rest.contains(i as usize));
                }
            }
            if start <= i < nodes.len() && nodes[i].route == label && forall|k: int|
                start <= k <= i ==> label.is_prefix_of(#[trigger] nodes[k].route) {
                if i == start {
                    assert(list[0] == i as usize);
                } else {
                    assert(rest.contains(i as usize));
                    let w = choose|w: int| 0 <= w < rest.len() && rest[w] == i as usize;
                    assert(list[w + 1] == i as usize);
                }
            }
        } else if label.is_prefix_of(nodes[start].route) {
            lemma_children_from_holds(nodes, label, start + 1, i);
        } else {
            assert(list.len() == 0);
        }
    }
}

/// The children that the scan lists are the nodes whose parent the node
/// is: a node is listed among the children of the node at `pos` exactly
/// where the node at `pos` is its parent.
pub proof fn law_children_are_the_children(nodes: Seq<NodeView>, pos: int, i: int)
    requires
        0 <= pos < nodes.len() <= usize::MAX,
        0 <= i < nodes.len(),
    ensures
        children_of(nodes, pos).contains(i as usize) <==> is_parent_of(nodes, pos, i),
{
    lemma_children_from_holds(nodes, nodes[pos].child_route(), pos + 1, i);
}

/// The parent that the scan finds is the parent: in a well-formed tree the
/// scan from the node at `i` finds the node at `j` exactly where that is the
/// parent of `i`.
pub proof fn law_parent_is_the_parent(nodes: Seq<NodeView>, j: int, i: int)
    requires
        well_formed(nodes),
        0 <= j < nodes.len() <= usize::MAX,
        0 <= i < nodes.len(),
    ensures
        parent_of(nodes, i) == Some(j as usize) <==> is_parent_of(nodes, j, i),
{
    if nodes[i].route.len() > 0 {
        let p = choose|p: int| is_parent_of(nodes, p, i);
        assert(is_parent_of(nodes, p, i));
        let label = nodes[i].route.drop_last();
        assert(nodes[p].route =~= label);
        crate::model::lemma_nearest_before(nodes, label, i - 1);
        let found = crate::model::nearest_before(nodes, label, i - 1);
        assert(found is Some);
        let q = found.unwrap() as int;
        if q > p {
            assert(nodes[p].child_route().is_prefix_of(nodes[q].route));
            assert(false);
        }
        assert(q == p);
        if is_parent_of(nodes, j, i) && j != p {
            assert(nodes[j].child_route() == nodes[p].child_route());
            assert(nodes[j].idx == nodes[j].child_route().last());
            assert(nodes[p].idx == nodes[p].child_route().last());
            if j < p {
                assert(nodes[j].idx != nodes[p].idx);
            } else {
                assert(nodes[p].idx != nodes[j].idx);
            }
        }
    }
}

} // verus!
