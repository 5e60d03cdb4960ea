//! Well-formedness: what builds it and what keeps it.

use crate::etree::single_view;
use crate::etreenode::NodeView;
use crate::layout::parsed_view;
use crate::model::{
    adjusted_for_removal, children_of, counted, identities_distinct, is_parent_of,
    lemma_block_covers, lemma_block_end, lemma_children_from, lemma_nearest_before,
    lemma_position_from, lemma_prefix_chain, lemma_previous_from, parent_of, placed, plan_child,
    plan_next, plan_previous, position_from, previous_of, same_shape, skip_chain, sound,
    subtree_end, subtree_nodes, well_formed, with_node, without_subtree, Plan, TreeView,
};
use crate::reader::{
    absorb, absorb_all, document_tokens, start_state, with_new_node, ParseState, TokenKind,
    TokenView,
};
use crate::writer::{between, body_upto, climb, serialized};
use vstd::prelude::*;

verus! {

/// Well-formedness looks at identities and labels only.
pub proof fn lemma_same_shape(a: Seq<NodeView>, b: Seq<NodeView>)
    requires
        same_shape(a, b),
        well_formed(a),
    ensures
        well_formed(b),
{
    assert forall|i: int| 0 <= i < b.len() implies (#[trigger] b[i]).route.len() == 0 || exists|
        j: int,
    |
        is_parent_of(b, j, i) by {
        assert(a[i].route == b[i].route);
        if b[i].route.len() > 0 {
            let j = choose|j: int| is_parent_of(a, j, i);
            assert(a[j].idx == b[j].idx && a[j].route == b[j].route);
            assert forall|k: int| j < k <= i implies b[j].child_route().is_prefix_of(
                #[trigger] b[k].route,
            ) by {
                assert(a[k].route == b[k].route);
            }
            assert(is_parent_of(b, j, i));
        }
    }
    assert forall|i: int, j: int| 0 <= i < j < b.len() implies b[i].idx != b[j].idx by {
        assert(a[i].idx == b[i].idx && a[j].idx == b[j].idx);
    }
}

/// A chain opens itself.
pub proof fn lemma_prefix_self(a: Seq<usize>)
    ensures
        a.is_prefix_of(a),
{
    assert(a =~= a.subrange(0, a.len() as int));
}

/// A label opens the label of the children.
pub proof fn lemma_prefix_child(node: NodeView)
    ensures
        node.route.is_prefix_of(node.child_route()),
{
    assert(node.route =~= node.child_route().subrange(0, node.route.len() as int));
}

/// In a well-formed tree, a node that stands between a parent and one of
/// its children, or is that child, is a descendant of the parent; so a node
/// whose descendants end before the child is no such parent, unless the
/// child is among them.
pub proof fn lemma_parent_outside_block(nodes: Seq<NodeView>, pos: int, j: int, i: int)
    requires
        well_formed(nodes),
        0 <= pos < nodes.len(),
        is_parent_of(nodes, j, i),
        subtree_end(nodes, pos) <= i,
        pos <= j,
    ensures
        subtree_end(nodes, pos) <= j,
{
    let inner = nodes[pos].child_route();
    lemma_block_end(nodes, inner, pos + 1);
    if j < subtree_end(nodes, pos) {
        if j == pos {
            lemma_block_covers(nodes, inner, pos + 1, i);
        } else {
            let below = nodes[j].child_route();
            assert(inner.is_prefix_of(nodes[j].route));
            lemma_prefix_child(nodes[j]);
            lemma_prefix_chain(inner, nodes[j].route, below);
            assert forall|m: int| pos + 1 <= m <= i implies inner.is_prefix_of(
                #[trigger] nodes[m].route,
            ) by {
                if m > j {
                    assert(below.is_prefix_of(nodes[m].route));
                    lemma_prefix_chain(inner, below, nodes[m].route);
                }
            }
            lemma_block_covers(nodes, inner, pos + 1, i);
        }
    }
}

/// What a node must be like to be put in at `slot`: its identity is new,
/// its parent stands before it with nothing but the parent's descendants in
/// between, and every parent before it that has a child behind it is an
/// ancestor of it.
pub open spec fn fits_at(nodes: Seq<NodeView>, slot: int, new: NodeView) -> bool {
    &&& 0 <= slot <= nodes.len()
    &&& forall|i: int| 0 <= i < nodes.len() ==> (#[trigger] nodes[i]).idx != new.idx
    &&& new.route.len() == 0 || exists|j: int| is_opening(nodes, slot, new, j)
    &&& forall|j: int, i: int|
        0 <= j < slot <= i && #[trigger] is_parent_of(nodes, j, i)
            ==> nodes[j].child_route().is_prefix_of(new.route)
}

/// Whether the node at `j` is the parent of a node put in at `slot`.
pub open spec fn is_opening(nodes: Seq<NodeView>, slot: int, new: NodeView, j: int) -> bool {
    &&& 0 <= j < slot <= nodes.len()
    &&& nodes[j].child_route() == new.route
    &&& forall|k: int| j < k < slot ==> nodes[j].child_route().is_prefix_of(#[trigger] nodes[k].route)
}

/// The node put in has the parent that it was given.
proof fn lemma_insert_parent_new(nodes: Seq<NodeView>, slot: int, new: NodeView, j: int)
    requires
        is_opening(nodes, slot, new, j),
    ensures
        is_parent_of(nodes.insert(slot, new), j, slot),
{
    let after = nodes.insert(slot, new);
    assert(after[j] == nodes[j]);
    assert(after[slot] == new);
    assert forall|k: int| j < k <= slot implies after[j].child_route().is_prefix_of(
        #[trigger] after[k].route,
    ) by {
        if k < slot {
            assert(after[k] == nodes[k]);
        } else {
            lemma_prefix_self(new.route);
        }
    }
}

/// A node before the one put in keeps its parent.
proof fn lemma_insert_parent_before(nodes: Seq<NodeView>, slot: int, new: NodeView, j: int, i: int)
    requires
        is_parent_of(nodes, j, i),
        i < slot <= nodes.len(),
    ensures
        is_parent_of(nodes.insert(slot, new), j, i),
{
    let after = nodes.insert(slot, new);
    assert(after[j] == nodes[j]);
    assert(after[i] == nodes[i]);
    assert forall|k: int| j < k <= i implies after[j].child_route().is_prefix_of(
        #[trigger] after[k].route,
    ) by {
        assert(after[k] == nodes[k]);
    }
}

/// A node behind the one put in keeps its parent, where that stands behind
/// it too.
proof fn lemma_insert_parent_shifted(nodes: Seq<NodeView>, slot: int, new: NodeView, j: int, i: int)
    requires
        is_parent_of(nodes, j, i),
        0 <= slot <= j,
    ensures
        is_parent_of(nodes.insert(slot, new), j + 1, i + 1),
{
    let after = nodes.insert(slot, new);
    assert(after[j + 1] == nodes[j]);
    assert(after[i + 1] == nodes[i]);
    assert forall|k: int| j + 1 < k <= i + 1 implies after[j + 1].child_route().is_prefix_of(
        #[trigger] after[k].route,
    ) by {
        assert(after[k] == nodes[k - 1]);
    }
}

/// A node behind the one put in keeps its parent, where that stands before
/// it and is an ancestor of the new node.
proof fn lemma_insert_parent_across(nodes: Seq<NodeView>, slot: int, new: NodeView, j: int, i: int)
    requires
        is_parent_of(nodes, j, i),
        j < slot <= i,
        nodes[j].child_route().is_prefix_of(new.route),
    ensures
        is_parent_of(nodes.insert(slot, new), j, i + 1),
{
    let after = nodes.insert(slot, new);
    assert(after[j] == nodes[j]);
    assert(after[i + 1] == nodes[i]);
    assert forall|k: int| j < k <= i + 1 implies after[j].child_route().is_prefix_of(
        #[trigger] after[k].route,
    ) by {
        if k < slot {
            assert(after[k] == nodes[k]);
        } else if k == slot {
            assert(after[k] == new);
        } else {
            assert(after[k] == nodes[k - 1]);
        }
    }
}

/// No identity occurs twice after a node with a new identity was put in.
proof fn lemma_insert_distinct(nodes: Seq<NodeView>, slot: int, new: NodeView)
    requires
        identities_distinct(nodes),
        0 <= slot <= nodes.len(),
        forall|i: int| 0 <= i < nodes.len() ==> (#[trigger] nodes[i]).idx != new.idx,
    ensures
        identities_distinct(nodes.insert(slot, new)),
{
    let after = nodes.insert(slot, new);
    assert forall|a: int, b: int| 0 <= a < b < after.len() implies after[a].idx
        != after[b].idx by {
        let oa = if a < slot {
            a
        } else {
            a - 1
        };
        let ob = if b < slot {
            b
        } else {
            b - 1
        };
        if a != slot && b != slot {
            assert(after[a] == nodes[oa] && after[b] == nodes[ob]);
            assert(oa < ob);
        } else if a == slot {
            assert(after[b] == nodes[ob]);
        } else {
            assert(after[a] == nodes[oa]);
        }
    }
}

/// A node that fits at `slot` leaves a well-formed tree well-formed.
pub proof fn lemma_insert_well_formed(nodes: Seq<NodeView>, slot: int, new: NodeView)
    requires
        well_formed(nodes),
        fits_at(nodes, slot, new),
    ensures
        well_formed(nodes.insert(slot, new)),
{
    let after = nodes.insert(slot, new);
    lemma_insert_distinct(nodes, slot, new);
    assert forall|i: int| 0 <= i < after.len() implies (#[trigger] after[i]).route.len() == 0
        || exists|j: int| is_parent_of(after, j, i) by {
        if after[i].route.len() > 0 {
            if i == slot {
                let j = choose|j: int| is_opening(nodes, slot, new, j);
                lemma_insert_parent_new(nodes, slot, new, j);
            } else if i < slot {
                assert(after[i] == nodes[i]);
                let j = choose|j: int| is_parent_of(nodes, j, i);
                lemma_insert_parent_before(nodes, slot, new, j, i);
            } else {
                let oi = i - 1;
                assert(after[i] == nodes[oi]);
                let j = choose|j: int| is_parent_of(nodes, j, oi);
                if j >= slot {
                    lemma_insert_parent_shifted(nodes, slot, new, j, oi);
                    assert(is_parent_of(after, j + 1, i));
                } else {
                    assert(is_parent_of(nodes, j, oi));
                    lemma_insert_parent_across(nodes, slot, new, j, oi);
                    assert(is_parent_of(after, j, i));
                }
            }
        }
    }
}

/// A tree of one node is sound.
pub proof fn law_single_is_sound(node: NodeView)
    ensures
        sound(single_view(node)),
{
    let tree = single_view(node);
    assert(tree.nodes[0].route.len() == 0);
}

/// A new node fits at the place that the plan for a next sibling names.
pub proof fn lemma_next_fits(tree: TreeView, pos: int, node: NodeView)
    requires
        sound(tree),
        0 <= pos < tree.nodes.len() <= usize::MAX,
    ensures
        well_formed(plan_next(tree.nodes, pos).nodes),
        same_shape(tree.nodes, plan_next(tree.nodes, pos).nodes),
        fits_at(
            plan_next(tree.nodes, pos).nodes,
            plan_next(tree.nodes, pos).slot,
            placed(node, tree.count, plan_next(tree.nodes, pos)),
        ),
{
    let nodes = tree.nodes;
    let plan = plan_next(nodes, pos);
    lemma_plan_next_shape(nodes, pos);
    lemma_same_shape(nodes, plan.nodes);
    let new = placed(node, tree.count, plan);
    let slot = plan.slot;
    let inner = nodes[pos].child_route();
    lemma_block_end(nodes, inner, pos + 1);
    lemma_prefix_child(nodes[pos]);
    if new.route.len() > 0 {
        let j = choose|j: int| is_parent_of(nodes, j, pos);
        assert(is_parent_of(nodes, j, pos));
        assert(plan.nodes[j].child_route() == new.route);
        assert forall|k: int| j < k < slot implies plan.nodes[j].child_route().is_prefix_of(
            #[trigger] plan.nodes[k].route,
        ) by {
            assert(plan.nodes[k].route == nodes[k].route);
            if k > pos {
                assert(inner.is_prefix_of(nodes[k].route));
                lemma_prefix_chain(nodes[pos].route, inner, nodes[k].route);
            }
        }
        assert(is_opening(plan.nodes, slot, new, j));
    }
    assert forall|j: int, i: int|
        0 <= j < slot <= i && #[trigger] is_parent_of(
            plan.nodes,
            j,
            i,
        ) implies plan.nodes[j].child_route().is_prefix_of(new.route) by {
        lemma_parent_carries(nodes, plan.nodes, j, i);
        if j >= pos {
            lemma_parent_outside_block(nodes, pos, j, i);
        }
        assert(nodes[j].child_route().is_prefix_of(nodes[pos].route));
        assert(plan.nodes[j].child_route() == nodes[j].child_route());
    }
    lemma_fresh(tree, plan);
}

/// A new node fits at the place that the plan for a last child names.
pub proof fn lemma_child_fits(tree: TreeView, pos: int, node: NodeView)
    requires
        sound(tree),
        0 <= pos < tree.nodes.len() <= usize::MAX,
    ensures
        well_formed(plan_child(tree, pos).nodes),
        same_shape(tree.nodes, plan_child(tree, pos).nodes),
        fits_at(
            plan_child(tree, pos).nodes,
            plan_child(tree, pos).slot,
            placed(node, tree.count, plan_child(tree, pos)),
        ),
{
    let nodes = tree.nodes;
    let plan = plan_child(tree, pos);
    lemma_plan_child_shape(tree, pos);
    lemma_same_shape(nodes, plan.nodes);
    let new = placed(node, tree.count, plan);
    let slot = plan.slot;
    let inner = nodes[pos].child_route();
    lemma_block_end(nodes, inner, pos + 1);
    lemma_prefix_child(nodes[pos]);
    assert(new.route == inner);
    assert(plan.nodes[pos].child_route() == inner);
    assert(pos < slot <= nodes.len());
    assert forall|k: int| pos < k < slot implies plan.nodes[pos].child_route().is_prefix_of(
        #[trigger] plan.nodes[k].route,
    ) by {
        assert(plan.nodes[k].route == nodes[k].route);
        if slot == pos + 1 {
        } else {
            assert(inner.is_prefix_of(nodes[k].route));
        }
    }
    assert(is_opening(plan.nodes, slot, new, pos));
    assert forall|j: int, i: int|
        0 <= j < slot <= i && #[trigger] is_parent_of(
            plan.nodes,
            j,
            i,
        ) implies plan.nodes[j].child_route().is_prefix_of(new.route) by {
        lemma_parent_carries(nodes, plan.nodes, j, i);
        assert(plan.nodes[j].child_route() == nodes[j].child_route());
        if j == pos {
            lemma_prefix_self(inner);
        } else if j > pos {
            if slot == subtree_end(nodes, pos) {
                lemma_parent_outside_block(nodes, pos, j, i);
            }
        } else {
            assert(nodes[j].child_route().is_prefix_of(nodes[pos].route));
            lemma_prefix_chain(nodes[j].child_route(), nodes[pos].route, inner);
        }
    }
    lemma_fresh(tree, plan);
}

/// A new node fits at the place that the plan for a sibling in front names.
pub proof fn lemma_previous_fits(tree: TreeView, pos: int, node: NodeView)
    requires
        sound(tree),
        0 <= pos < tree.nodes.len() <= usize::MAX,
        plan_previous(tree.nodes, pos) is Some,
    ensures
        well_formed(plan_previous(tree.nodes, pos).unwrap().nodes),
        same_shape(tree.nodes, plan_previous(tree.nodes, pos).unwrap().nodes),
        fits_at(
            plan_previous(tree.nodes, pos).unwrap().nodes,
            plan_previous(tree.nodes, pos).unwrap().slot,
            placed(node, tree.count, plan_previous(tree.nodes, pos).unwrap()),
        ),
{
    let nodes = tree.nodes;
    match previous_of(nodes, pos) {
        Some(p) => {
            lemma_previous_from(nodes, nodes[pos].route, pos - 1);
            lemma_next_fits(tree, p as int, node);
        },
        None => {
            let q = parent_of(nodes, pos).unwrap() as int;
            lemma_nearest_before(nodes, nodes[pos].route.drop_last(), pos - 1);
            let plan = plan_previous(nodes, pos).unwrap();
            let new = placed(node, tree.count, plan);
            let inner = nodes[q].child_route();
            lemma_prefix_child(nodes[q]);
            assert(new.route == inner);
            assert forall|j: int, i: int|
                0 <= j < q + 1 <= i && #[trigger] is_parent_of(
                    nodes,
                    j,
                    i,
                ) implies nodes[j].child_route().is_prefix_of(new.route) by {
                if j == q {
                    lemma_prefix_self(inner);
                } else {
                    assert(nodes[j].child_route().is_prefix_of(nodes[q].route));
                    lemma_prefix_chain(nodes[j].child_route(), nodes[q].route, inner);
                }
            }
            assert(is_opening(nodes, q + 1, new, q));
            lemma_fresh(tree, plan);
        },
    }
}

/// Putting a node in behind the node at `pos` keeps a tree sound.
pub proof fn law_next_keeps_sound(tree: TreeView, pos: int, node: NodeView)
    requires
        sound(tree),
        0 <= pos < tree.nodes.len() <= usize::MAX,
        tree.count < usize::MAX,
    ensures
        sound(with_node(tree, plan_next(tree.nodes, pos), node)),
{
    let plan = plan_next(tree.nodes, pos);
    lemma_next_fits(tree, pos, node);
    lemma_insert_well_formed(plan.nodes, plan.slot, placed(node, tree.count, plan));
    lemma_counted_after(tree, plan, node);
}

/// Putting a node in as the last child of the node at `pos` keeps a tree
/// sound.
pub proof fn law_child_keeps_sound(tree: TreeView, pos: int, node: NodeView)
    requires
        sound(tree),
        0 <= pos < tree.nodes.len() <= usize::MAX,
        tree.count < usize::MAX,
    ensures
        sound(with_node(tree, plan_child(tree, pos), node)),
{
    let plan = plan_child(tree, pos);
    lemma_child_fits(tree, pos, node);
    lemma_insert_well_formed(plan.nodes, plan.slot, placed(node, tree.count, plan));
    lemma_counted_after(tree, plan, node);
}

/// Putting a node in before the node at `pos` keeps a tree sound.
pub proof fn law_previous_keeps_sound(tree: TreeView, pos: int, node: NodeView)
    requires
        sound(tree),
        0 <= pos < tree.nodes.len() <= usize::MAX,
        tree.count < usize::MAX,
        plan_previous(tree.nodes, pos) is Some,
    ensures
        sound(with_node(tree, plan_previous(tree.nodes, pos).unwrap(), node)),
{
    let plan = plan_previous(tree.nodes, pos).unwrap();
    lemma_previous_fits(tree, pos, node);
    lemma_insert_well_formed(plan.nodes, plan.slot, placed(node, tree.count, plan));
    lemma_counted_after(tree, plan, node);
}

/// No node of a plan carries the tree's counter as its identity.
proof fn lemma_fresh(tree: TreeView, plan: Plan)
    requires
        counted(tree),
        same_shape(tree.nodes, plan.nodes),
    ensures
        forall|i: int| 0 <= i < plan.nodes.len() ==> (#[trigger] plan.nodes[i]).idx != tree.count,
{
    assert forall|i: int| 0 <= i < plan.nodes.len() implies (#[trigger] plan.nodes[i]).idx
        != tree.count by {
        assert(tree.nodes[i].idx == plan.nodes[i].idx);
    }
}

/// A parent in one sequence is a parent in any sequence of the same shape.
proof fn lemma_parent_carries(a: Seq<NodeView>, b: Seq<NodeView>, j: int, i: int)
    requires
        same_shape(a, b),
        is_parent_of(b, j, i),
    ensures
        is_parent_of(a, j, i),
{
    assert(a[j].idx == b[j].idx && a[j].route == b[j].route);
    assert(a[i].route == b[i].route);
    assert forall|k: int| j < k <= i implies a[j].child_route().is_prefix_of(
        #[trigger] a[k].route,
    ) by {
        assert(a[k].route == b[k].route);
    }
}

/// The plan for a next sibling changes no identity and no label, and its
/// place lies behind `pos`.
pub proof fn lemma_plan_next_shape(nodes: Seq<NodeView>, pos: int)
    requires
        0 <= pos < nodes.len() <= usize::MAX,
    ensures
        same_shape(nodes, plan_next(nodes, pos).nodes),
        pos < plan_next(nodes, pos).slot <= nodes.len(),
{
    lemma_block_end(nodes, nodes[pos].child_route(), pos + 1);
    if pos > 0 {
        lemma_previous_from(nodes, nodes[pos].route, pos - 1);
    }
}

/// The plan for a child changes no identity and no label, and its place
/// lies behind `pos`.
pub proof fn lemma_plan_child_shape(tree: TreeView, pos: int)
    requires
        0 <= pos < tree.nodes.len() <= usize::MAX,
    ensures
        same_shape(tree.nodes, plan_child(tree, pos).nodes),
        pos < plan_child(tree, pos).slot <= tree.nodes.len(),
        plan_child(tree, pos).slot == pos + 1 || plan_child(tree, pos).slot == subtree_end(
            tree.nodes,
            pos,
        ),
{
    let nodes = tree.nodes;
    lemma_block_end(nodes, nodes[pos].child_route(), pos + 1);
    lemma_children_from(nodes, nodes[pos].child_route(), pos + 1);
    let kids = children_of(nodes, pos);
    if kids.len() > 0 {
        let last = kids.last() as int;
        assert(pos < last < nodes.len());
        lemma_previous_from(nodes, nodes[last].route, last - 1);
    }
}

/// After a node has been put in under the counter, the counter lies above
/// every identity again.
proof fn lemma_counted_after(tree: TreeView, plan: Plan, node: NodeView)
    requires
        counted(tree),
        tree.count < usize::MAX,
        same_shape(tree.nodes, plan.nodes),
        0 <= plan.slot <= plan.nodes.len(),
    ensures
        counted(with_node(tree, plan, node)),
        forall|i: int| 0 <= i < plan.nodes.len() ==> (#[trigger] plan.nodes[i]).idx != tree.count,
{
    let after = with_node(tree, plan, node);
    assert forall|i: int| 0 <= i < plan.nodes.len() implies (#[trigger] plan.nodes[i]).idx
        != tree.count by {
        assert(tree.nodes[i].idx == plan.nodes[i].idx);
    }
    assert forall|i: int| 0 <= i < after.nodes.len() implies (#[trigger] after.nodes[i]).idx
        < after.count by {
        if i < plan.slot {
            assert(after.nodes[i] == plan.nodes[i]);
            assert(tree.nodes[i].idx == plan.nodes[i].idx);
        } else if i > plan.slot {
            assert(after.nodes[i] == plan.nodes[i - 1]);
            assert(tree.nodes[i - 1].idx == plan.nodes[i - 1].idx);
        }
    }
}

/// The adjustment before a removal changes no identity and no label.
pub proof fn lemma_adjusted_shape(tree: TreeView, pos: int)
    requires
        0 <= pos < tree.nodes.len() <= usize::MAX,
    ensures
        same_shape(tree.nodes, adjusted_for_removal(tree, pos)),
        pos < subtree_end(tree.nodes, pos) <= tree.nodes.len(),
{
    lemma_block_end(tree.nodes, tree.nodes[pos].child_route(), pos + 1);
    if pos > 0 {
        lemma_previous_from(tree.nodes, tree.nodes[pos].route, pos - 1);
        if tree.nodes[pos].route.len() > 0 {
            lemma_nearest_before(tree.nodes, tree.nodes[pos].route.drop_last(), pos - 1);
        }
    }
}

/// Removing a node with its descendants keeps a tree sound.
pub proof fn law_removal_keeps_sound(tree: TreeView, pos: int)
    requires
        sound(tree),
        0 <= pos < tree.nodes.len() <= usize::MAX,
    ensures
        sound(without_subtree(tree, pos)),
{
    let nodes = adjusted_for_removal(tree, pos);
    lemma_adjusted_shape(tree, pos);
    lemma_same_shape(tree.nodes, nodes);
    let end = subtree_end(tree.nodes, pos);
    let gone = end - pos;
    let after = without_subtree(tree, pos).nodes;
    assert(after.len() == nodes.len() - gone);
    assert forall|i: int| 0 <= i < after.len() implies #[trigger] after[i] == nodes[if i < pos {
        i
    } else {
        i + gone
    }] by {}
    assert forall|a: int, b: int| 0 <= a < b < after.len() implies after[a].idx
        != after[b].idx by {
        let oa = if a < pos {
            a
        } else {
            a + gone
        };
        let ob = if b < pos {
            b
        } else {
            b + gone
        };
        assert(after[a] == nodes[oa] && after[b] == nodes[ob]);
        assert(oa < ob);
    }
    assert forall|i: int| 0 <= i < after.len() implies (#[trigger] after[i]).route.len() == 0
        || exists|j: int| is_parent_of(after, j, i) by {
        let oi = if i < pos {
            i
        } else {
            i + gone
        };
        assert(after[i] == nodes[oi]);
        if after[i].route.len() > 0 {
            let j = choose|j: int| is_parent_of(nodes, j, oi);
            assert(is_parent_of(nodes, j, oi));
            lemma_parent_carries(tree.nodes, nodes, j, oi);
            if oi >= end && j >= pos {
                lemma_parent_outside_block(tree.nodes, pos, j, oi);
            }
            let nj = if j < pos {
                j
            } else {
                j - gone
            };
            assert(after[nj] == nodes[j]);
            assert forall|k: int| nj < k <= i implies after[nj].child_route().is_prefix_of(
                #[trigger] after[k].route,
            ) by {
                let ok = if k < pos {
                    k
                } else {
                    k + gone
                };
                assert(after[k] == nodes[ok]);
                assert(j < ok <= oi);
            }
            assert(is_parent_of(after, nj, i));
        }
    }
    assert forall|i: int| 0 <= i < after.len() implies (#[trigger] after[i]).idx
        < tree.count by {
        let oi = if i < pos {
            i
        } else {
            i + gone
        };
        assert(after[i] == nodes[oi]);
        assert(tree.nodes[oi].idx == nodes[oi].idx);
    }
}

/// A label without its first `base` identities opens another where it did
/// with them.
proof fn lemma_skip_prefix(a: Seq<usize>, b: Seq<usize>, base: int)
    requires
        a.is_prefix_of(b),
        0 <= base <= a.len(),
    ensures
        skip_chain(a, base).is_prefix_of(skip_chain(b, base)),
{
    assert(a =~= b.subrange(0, a.len() as int));
    assert(skip_chain(a, base) =~= skip_chain(b, base).subrange(0, a.len() - base));
}

/// The parent of a descendant of the node at `pos` is the node at `pos` or
/// one of its descendants.
proof fn lemma_parent_inside(nodes: Seq<NodeView>, pos: int, j: int, i: int)
    requires
        is_parent_of(nodes, j, i),
        0 <= pos < i,
        nodes[pos].child_route().is_prefix_of(nodes[i].route),
    ensures
        pos <= j,
{
    if j < pos {
        let a = nodes[j].child_route();
        assert(a.is_prefix_of(nodes[pos].route));
        assert(a.len() <= nodes[pos].route.len());
        assert(nodes[pos].child_route().len() <= nodes[i].route.len());
        assert(a == nodes[i].route);
        assert(false);
    }
}

/// In the copy of a node and its descendants, a node keeps the parent that
/// it has in the tree.
proof fn lemma_subtree_parent(nodes: Seq<NodeView>, pos: int, j: int, i: int)
    requires
        is_parent_of(nodes, j, i),
        0 <= pos <= j,
        i < subtree_end(nodes, pos) <= nodes.len(),
        nodes[pos].route.len() <= nodes[j].route.len(),
    ensures
        is_parent_of(subtree_nodes(nodes, pos), j - pos, i - pos),
{
    let sub = subtree_nodes(nodes, pos);
    let base = nodes[pos].route.len() as int;
    let nj = j - pos;
    let ni = i - pos;
    let whole = nodes[j].child_route();
    assert(sub[nj].idx == nodes[j].idx);
    assert(sub[nj].route == skip_chain(nodes[j].route, base));
    assert(sub[nj].child_route() =~= skip_chain(whole, base));
    assert(sub[ni].route == skip_chain(nodes[i].route, base));
    assert forall|k: int| nj < k <= ni implies sub[nj].child_route().is_prefix_of(
        #[trigger] sub[k].route,
    ) by {
        let ok = pos + k;
        assert(whole.is_prefix_of(nodes[ok].route));
        assert(sub[k].route == skip_chain(nodes[ok].route, base));
        lemma_skip_prefix(whole, nodes[ok].route, base);
    }
}

/// The copy of a node and its descendants is well-formed where the tree is.
pub proof fn law_subtree_is_well_formed(nodes: Seq<NodeView>, pos: int)
    requires
        well_formed(nodes),
        0 <= pos < nodes.len(),
    ensures
        well_formed(subtree_nodes(nodes, pos)),
{
    let sub = subtree_nodes(nodes, pos);
    let inner = nodes[pos].child_route();
    lemma_block_end(nodes, inner, pos + 1);
    assert forall|a: int, b: int| 0 <= a < b < sub.len() implies sub[a].idx != sub[b].idx by {
        assert(sub[a].idx == nodes[pos + a].idx && sub[b].idx == nodes[pos + b].idx);
    }
    assert forall|i: int| 0 <= i < sub.len() implies (#[trigger] sub[i]).route.len() == 0
        || exists|j: int| is_parent_of(sub, j, i) by {
        if i == 0 {
            assert(sub[0].route =~= Seq::<usize>::empty());
        } else {
            let oi = pos + i;
            assert(inner.is_prefix_of(nodes[oi].route));
            assert(nodes[oi].route.len() > 0);
            let j = choose|j: int| is_parent_of(nodes, j, oi);
            lemma_parent_inside(nodes, pos, j, oi);
            if j > pos {
                assert(inner.is_prefix_of(nodes[j].route));
            }
            lemma_subtree_parent(nodes, pos, j, oi);
            assert(is_parent_of(sub, j - pos, i));
        }
    }
}

/// The copy of a node and its descendants is sound where the tree is: it
/// is well-formed, and its counter lies above every identity that it holds.
pub proof fn law_subtree_is_sound(tree: TreeView, pos: int)
    requires
        sound(tree),
    ensures
        sound(crate::model::subtree_view(tree, pos)),
{
    let sub = subtree_nodes(tree.nodes, pos);
    if 0 <= pos < tree.nodes.len() {
        law_subtree_is_well_formed(tree.nodes, pos);
        lemma_block_end(tree.nodes, tree.nodes[pos].child_route(), pos + 1);
        assert forall|i: int| 0 <= i < sub.len() implies (#[trigger] sub[i]).idx < tree.count by {
            assert(sub[i].idx == tree.nodes[pos + i].idx);
        }
    }
}

/// What holds while a document is read: the tree so far is well-formed,
/// node `i` carries the identity `i`, the counter is the number of nodes,
/// and the label of the nodes to come is that of the children of an element
/// that is still open, with nothing but its descendants behind it.
pub open spec fn reading_ok(st: ParseState) -> bool {
    let nodes = st.tree.nodes;
    &&& well_formed(nodes)
    &&& st.tree.count == nodes.len()
    &&& forall|i: int| 0 <= i < nodes.len() ==> (#[trigger] nodes[i]).idx == i
    &&& st.route.len() == 0 || exists|j: int|
        0 <= j < nodes.len() && (#[trigger] nodes[j]).child_route() == st.route && forall|k: int|
            j < k < nodes.len() ==> nodes[j].child_route().is_prefix_of(#[trigger] nodes[k].route)
}

/// A node put at the end while a document is read keeps what holds.
proof fn lemma_new_node_ok(st: ParseState, node: NodeView, opened: bool)
    requires
        reading_ok(st),
        st.tree.count < usize::MAX,
        node.route == st.route,
    ensures
        reading_ok(with_new_node(st, node, opened)),
{
    let nodes = st.tree.nodes;
    let n = nodes.len() as int;
    let new = NodeView { idx: st.tree.count, ..node };
    let after = with_new_node(st, node, opened);
    assert(after.tree.nodes =~= nodes.insert(n, new));
    assert forall|j: int, i: int| 0 <= j < n <= i && #[trigger] is_parent_of(
        nodes,
        j,
        i,
    ) implies nodes[j].child_route().is_prefix_of(new.route) by {}
    if new.route.len() > 0 {
        let j = choose|j: int|
            0 <= j < nodes.len() && (#[trigger] nodes[j]).child_route() == st.route
                && forall|k: int|
                j < k < nodes.len() ==> nodes[j].child_route().is_prefix_of(
                    #[trigger] nodes[k].route,
                );
        assert(is_opening(nodes, n, new, j));
    }
    assert(fits_at(nodes, n, new));
    lemma_insert_well_formed(nodes, n, new);
    let now = after.tree.nodes;
    assert forall|i: int| 0 <= i < now.len() implies (#[trigger] now[i]).idx == i by {
        if i < n {
            assert(now[i] == nodes[i]);
        }
    }
    if opened {
        assert(now[n].child_route() == after.route);
    } else if st.route.len() > 0 {
        let j = choose|j: int|
            0 <= j < nodes.len() && (#[trigger] nodes[j]).child_route() == st.route
                && forall|k: int|
                j < k < nodes.len() ==> nodes[j].child_route().is_prefix_of(
                    #[trigger] nodes[k].route,
                );
        assert(now[j] == nodes[j]);
        assert forall|k: int| j < k < now.len() implies now[j].child_route().is_prefix_of(
            #[trigger] now[k].route,
        ) by {
            if k < n {
                assert(now[k] == nodes[k]);
            } else {
                lemma_prefix_self(st.route);
            }
        }
    }
}

/// Closing the innermost open element keeps what holds.
proof fn lemma_end_ok(st: ParseState)
    requires
        reading_ok(st),
        st.route.len() > 0,
    ensures
        reading_ok(
            ParseState {
                opened: false,
                closed: true,
                route: st.route.drop_last(),
                closeidx: st.route.last(),
                ..st
            },
        ),
{
    let nodes = st.tree.nodes;
    let up = st.route.drop_last();
    let j = choose|j: int|
        0 <= j < nodes.len() && (#[trigger] nodes[j]).child_route() == st.route && forall|k: int|
            j < k < nodes.len() ==> nodes[j].child_route().is_prefix_of(#[trigger] nodes[k].route);
    assert(nodes[j].route =~= up);
    if up.len() > 0 {
        let j2 = choose|j2: int| is_parent_of(nodes, j2, j);
        assert(is_parent_of(nodes, j2, j));
        lemma_prefix_child(nodes[j]);
        assert forall|k: int| j2 < k < nodes.len() implies nodes[j2].child_route().is_prefix_of(
            #[trigger] nodes[k].route,
        ) by {
            if k > j {
                assert(st.route.is_prefix_of(nodes[k].route));
                lemma_prefix_chain(up, st.route, nodes[k].route);
            }
        }
    }
}

/// A change of texts and tails, and of nothing else in the nodes, keeps what
/// holds.
proof fn lemma_retexted_ok(st: ParseState, after: ParseState)
    requires
        reading_ok(st),
        same_shape(st.tree.nodes, after.tree.nodes),
        after.tree.count == st.tree.count,
        after.route == st.route,
    ensures
        reading_ok(after),
{
    let a = st.tree.nodes;
    let b = after.tree.nodes;
    lemma_same_shape(a, b);
    assert forall|i: int| 0 <= i < b.len() implies (#[trigger] b[i]).idx == i by {
        assert(a[i].idx == b[i].idx);
    }
    if st.route.len() > 0 {
        let j = choose|j: int|
            0 <= j < a.len() && (#[trigger] a[j]).child_route() == st.route && forall|k: int|
                j < k < a.len() ==> a[j].child_route().is_prefix_of(#[trigger] a[k].route);
        assert(a[j].idx == b[j].idx && a[j].route == b[j].route);
        assert forall|k: int| j < k < b.len() implies b[j].child_route().is_prefix_of(
            #[trigger] b[k].route,
        ) by {
            assert(a[k].route == b[k].route);
        }
    }
}

/// Every token keeps what holds.
pub proof fn lemma_absorb_ok(st: ParseState, t: TokenView)
    requires
        reading_ok(st),
        absorb(st, t) is Some,
    ensures
        reading_ok(absorb(st, t).unwrap()),
{
    let after = absorb(st, t).unwrap();
    match t.kind {
        None => {},
        Some(TokenKind::Eof) => {},
        Some(TokenKind::Start) => {
            lemma_new_node_ok(st, crate::reader::element_node(t, st.route, true).unwrap(), true);
        },
        Some(TokenKind::Empty) => {
            lemma_new_node_ok(st, crate::reader::element_node(t, st.route, false).unwrap(), false);
        },
        Some(TokenKind::End) => {
            if st.route.len() > 0 {
                lemma_end_ok(st);
            }
        },
        Some(TokenKind::Text) => {
            lemma_retexted_ok(st, after);
        },
        Some(TokenKind::Decl) => {
            lemma_retexted_ok(st, after);
        },
        Some(kind) => {
            lemma_new_node_ok(
                st,
                crate::reader::special_node(
                    kind,
                    crate::reader::token_text(t).unwrap(),
                    st.route,
                ),
                false,
            );
        },
    }
}

/// The tokens of a document keep what holds.
pub proof fn lemma_absorb_all_ok(st: ParseState, tokens: Seq<TokenView>)
    requires
        reading_ok(st),
        absorb_all(st, tokens) is Some,
    ensures
        reading_ok(absorb_all(st, tokens).unwrap()),
    decreases tokens.len(),
{
    if tokens.len() > 0 && tokens[0].kind != Some(TokenKind::Eof) {
        lemma_absorb_ok(st, tokens[0]);
        lemma_absorb_all_ok(absorb(st, tokens[0]).unwrap(), tokens.drop_first());
    }
}

/// The tree that a document gives is sound.
pub proof fn law_parsed_is_sound(content: Seq<char>)
    requires
        parsed_view(content) is Some,
    ensures
        sound(parsed_view(content).unwrap()),
{
    let start = start_state(content);
    assert(reading_ok(start));
    lemma_absorb_all_ok(start, document_tokens(content));
    let st = absorb_all(start, document_tokens(content)).unwrap();
    let tree = parsed_view(content).unwrap();
    assert(tree.nodes == st.tree.nodes);
    assert forall|i: int| 0 <= i < tree.nodes.len() implies (#[trigger] tree.nodes[i]).idx
        < tree.count by {}
}

/// Every identity of the label is carried by some node.
pub open spec fn known(nodes: Seq<NodeView>, route: Seq<usize>) -> bool {
    forall|m: int| 0 <= m < route.len() ==> position_from(nodes, #[trigger] route[m], 0) is Some
}

/// In a well-formed tree every label holds identities of nodes only.
proof fn lemma_route_known(nodes: Seq<NodeView>, i: int)
    requires
        well_formed(nodes),
        0 <= i < nodes.len(),
    ensures
        known(nodes, nodes[i].route),
    decreases i,
{
    let route = nodes[i].route;
    if route.len() > 0 {
        let j = choose|j: int| is_parent_of(nodes, j, i);
        assert(is_parent_of(nodes, j, i));
        lemma_route_known(nodes, j);
        lemma_position_from(nodes, nodes[j].idx, 0);
        assert forall|m: int| 0 <= m < route.len() implies position_from(
            nodes,
            #[trigger] route[m],
            0,
        ) is Some by {
            if m < route.len() - 1 {
                assert(route[m] == nodes[j].route[m]);
            } else {
                assert(route[m] == nodes[j].idx);
            }
        }
    }
}

/// Closing the elements of a label whose identities are all carried finds
/// each of them.
proof fn lemma_climb_some(nodes: Seq<NodeView>, route: Seq<usize>, stop: Seq<usize>)
    requires
        known(nodes, route),
    ensures
        climb(nodes, route, stop) is Some,
    decreases route.len(),
{
    if route.len() > 0 {
        assert(position_from(nodes, route[route.len() - 1], 0) is Some);
        let up = route.drop_last();
        assert forall|m: int| 0 <= m < up.len() implies position_from(
            nodes,
            #[trigger] up[m],
            0,
        ) is Some by {
            assert(up[m] == route[m]);
        }
        lemma_climb_some(nodes, up, stop);
    }
}

/// In a well-formed tree the labels of two neighbours fit together.
proof fn lemma_between_some(nodes: Seq<NodeView>, i: int)
    requires
        well_formed(nodes),
        0 < i < nodes.len(),
    ensures
        between(nodes, i) is Some,
{
    let prev = nodes[i - 1];
    let cur = nodes[i];
    lemma_route_known(nodes, i - 1);
    lemma_climb_some(nodes, prev.route, cur.route);
    if cur.route.len() == 0 {
        assert(cur.route =~= prev.route.subrange(0, 0));
    } else {
        let j = choose|j: int| is_parent_of(nodes, j, i);
        assert(is_parent_of(nodes, j, i));
        if j == i - 1 {
            lemma_prefix_child(prev);
        } else {
            assert(nodes[j].child_route().is_prefix_of(nodes[i - 1].route));
        }
    }
}

/// In a well-formed tree every run of nodes from the start can be written.
proof fn lemma_body_some(nodes: Seq<NodeView>, k: int)
    requires
        well_formed(nodes),
        0 <= k <= nodes.len(),
    ensures
        body_upto(nodes, k) is Some,
    decreases k,
{
    if k > 1 {
        lemma_body_some(nodes, k - 1);
        lemma_between_some(nodes, k - 1);
    }
}

/// A well-formed tree can be written: its labels fit together.
pub proof fn law_well_formed_is_written(tree: TreeView)
    requires
        well_formed(tree.nodes),
    ensures
        serialized(tree) is Some,
{
    let nodes = tree.nodes;
    let n = nodes.len() as int;
    if n > 0 {
        lemma_body_some(nodes, n);
        lemma_route_known(nodes, n - 1);
        lemma_climb_some(nodes, nodes[n - 1].route, Seq::empty());
    }
}

} // verus!
