//! The element tree as a mathematical object.
//!
//! A tree is a sequence of nodes in document order.  Nothing points from one
//! node to another: parents, children and siblings are read off the labels.
//! The functions here say what each relation is on a plain sequence of node
//! views; the executable tree states its contracts over them.

use crate::etreenode::NodeView;
use vstd::prelude::*;

verus! {

/// What a tree holds, as plain values.
///
/// - `nodes`: the nodes in document order
/// - `count`: the identity that the next new node gets
/// - `indent`: the detected or requested indentation unit
/// - `crlf`: the line ending in use
/// - `version`, `encoding`, `standalone`: the fields of the XML declaration
/// - `enable_index`: whether lookups by identity use the index
pub ghost struct TreeView {
    pub nodes: Seq<NodeView>,
    pub count: usize,
    pub indent: Seq<char>,
    pub crlf: Seq<char>,
    pub version: Seq<char>,
    pub encoding: Option<Seq<char>>,
    pub standalone: Option<Seq<char>>,
    pub enable_index: bool,
}

/// The first position at or after `i` whose node is an element.
pub open spec fn root_from(nodes: Seq<NodeView>, i: int) -> int
    decreases nodes.len() - i,
{
    if i < 0 || i >= nodes.len() {
        nodes.len() as int
    } else if nodes[i].is_synthetic() {
        root_from(nodes, i + 1)
    } else {
        i
    }
}

/// The position of the root: the first node that is an element.  Comments,
/// processing instructions and the doctype may stand before it.  Where the
/// tree holds no element this is the number of nodes.
pub open spec fn root_of(nodes: Seq<NodeView>) -> int {
    root_from(nodes, 0)
}

/// The end of the run of nodes, starting at `from`, whose labels open with
/// `prefix`: the first position at or after `from` whose label does not.
pub open spec fn block_end(nodes: Seq<NodeView>, prefix: Seq<usize>, from: int) -> int
    decreases nodes.len() - from,
{
    if from < 0 || from >= nodes.len() {
        nodes.len() as int
    } else if prefix.is_prefix_of(nodes[from].route) {
        block_end(nodes, prefix, from + 1)
    } else {
        from
    }
}

/// One past the last descendant of the node at `pos`.
pub open spec fn subtree_end(nodes: Seq<NodeView>, pos: int) -> int {
    block_end(nodes, nodes[pos].child_route(), pos + 1)
}

/// The positions `from, from + 1, ..., to - 1`.
pub open spec fn span(from: int, to: int) -> Seq<usize> {
    Seq::new((to - from) as nat, |k: int| (from + k) as usize)
}

/// The positions of the descendants of the node at `pos`, in document order:
/// the nodes that follow it for as long as their labels open with the label
/// of its children.
pub open spec fn descendants_of(nodes: Seq<NodeView>, pos: int) -> Seq<usize> {
    if 0 <= pos < nodes.len() {
        span(pos + 1, subtree_end(nodes, pos))
    } else {
        Seq::empty()
    }
}

/// The positions from `i` on that carry exactly `label`, up to the first node
/// whose label does not open with it.
pub open spec fn children_from(nodes: Seq<NodeView>, label: Seq<usize>, i: int) -> Seq<usize>
    decreases nodes.len() - i,
{
    if i < 0 || i >= nodes.len() {
        Seq::empty()
    } else if nodes[i].route == label {
        seq![i as usize] + children_from(nodes, label, i + 1)
    } else if label.is_prefix_of(nodes[i].route) {
        children_from(nodes, label, i + 1)
    } else {
        Seq::empty()
    }
}

/// The positions of the children of the node at `pos`, in document order.
pub open spec fn children_of(nodes: Seq<NodeView>, pos: int) -> Seq<usize> {
    if 0 <= pos < nodes.len() {
        children_from(nodes, nodes[pos].child_route(), pos + 1)
    } else {
        Seq::empty()
    }
}

/// Those of `list` whose node has the qualified name `name`.
pub open spec fn named(nodes: Seq<NodeView>, list: Seq<usize>, name: Seq<char>) -> Seq<usize> {
    list.filter(|p: usize| p < nodes.len() && nodes[p as int].name() == name)
}

/// Going back from `i`: the nearest position whose label is `label`, unless a
/// node whose label does not open with `label` comes first.
pub open spec fn previous_from(nodes: Seq<NodeView>, label: Seq<usize>, i: int) -> Option<usize>
    decreases i + 1,
{
    if i < 0 || i >= nodes.len() {
        None
    } else if nodes[i].route == label {
        Some(i as usize)
    } else if label.is_prefix_of(nodes[i].route) {
        previous_from(nodes, label, i - 1)
    } else {
        None
    }
}

/// The position of the previous sibling of the node at `pos`.
pub open spec fn previous_of(nodes: Seq<NodeView>, pos: int) -> Option<usize> {
    if 0 < pos < nodes.len() {
        previous_from(nodes, nodes[pos].route, pos - 1)
    } else {
        None
    }
}

/// Going on from `i`: the nearest position whose label is `label`, unless a
/// node whose label does not open with `label` comes first.
pub open spec fn next_from(nodes: Seq<NodeView>, label: Seq<usize>, i: int) -> Option<usize>
    decreases nodes.len() - i,
{
    if i < 0 || i >= nodes.len() {
        None
    } else if nodes[i].route == label {
        Some(i as usize)
    } else if label.is_prefix_of(nodes[i].route) {
        next_from(nodes, label, i + 1)
    } else {
        None
    }
}

/// The position of the next sibling of the node at `pos`.
pub open spec fn next_of(nodes: Seq<NodeView>, pos: int) -> Option<usize> {
    if 0 <= pos < nodes.len() {
        next_from(nodes, nodes[pos].route, pos + 1)
    } else {
        None
    }
}

/// Going back from `i`: the nearest position whose label is `label`.
pub open spec fn nearest_before(nodes: Seq<NodeView>, label: Seq<usize>, i: int) -> Option<usize>
    decreases i + 1,
{
    if i < 0 || i >= nodes.len() {
        None
    } else if nodes[i].route == label {
        Some(i as usize)
    } else {
        nearest_before(nodes, label, i - 1)
    }
}

/// The position of the parent of the node at `pos`: the nearest earlier node
/// that carries the label of `pos` without its last identity.  The first node
/// and a node with the empty label have none.
pub open spec fn parent_of(nodes: Seq<NodeView>, pos: int) -> Option<usize> {
    if 0 < pos < nodes.len() && nodes[pos].route.len() > 0 {
        nearest_before(nodes, nodes[pos].route.drop_last(), pos - 1)
    } else {
        None
    }
}

/// Whether some node carries the identity `idx`.
pub open spec fn has_identity(nodes: Seq<NodeView>, idx: usize) -> bool {
    exists|i: int| 0 <= i < nodes.len() && nodes[i].idx == idx
}

/// The first position from `i` on whose node carries the identity `idx`.
pub open spec fn position_from(nodes: Seq<NodeView>, idx: usize, i: int) -> Option<int>
    decreases nodes.len() - i,
{
    if i < 0 || i >= nodes.len() {
        None
    } else if nodes[i].idx == idx {
        Some(i)
    } else {
        position_from(nodes, idx, i + 1)
    }
}

/// What `position_from` finds carries the identity, and no node between the
/// start and it does; where it finds nothing, no node from the start on
/// carries the identity.
pub proof fn lemma_position_from(nodes: Seq<NodeView>, idx: usize, i: int)
    requires
        0 <= i,
    ensures
        match position_from(nodes, idx, i) {
            Some(p) => i <= p < nodes.len() && nodes[p].idx == idx && forall|j: int|
                i <= j < p ==> (#[trigger] nodes[j]).idx != idx,
            None => forall|j: int| i <= j < nodes.len() ==> (#[trigger] nodes[j]).idx != idx,
        },
    decreases nodes.len() - i,
{
    if i < nodes.len() && nodes[i].idx != idx {
        lemma_position_from(nodes, idx, i + 1);
    }
}

/// No two nodes carry the same identity.
pub open spec fn identities_distinct(nodes: Seq<NodeView>) -> bool {
    forall|i: int, j: int| 0 <= i < j < nodes.len() ==> nodes[i].idx != nodes[j].idx
}

/// The end of a run lies between its start and the end of the tree; every
/// label within the run opens with the prefix, and the label at the end,
/// where there is a node, does not.
pub proof fn lemma_block_end(nodes: Seq<NodeView>, prefix: Seq<usize>, from: int)
    requires
        0 <= from <= nodes.len(),
    ensures
        from <= block_end(nodes, prefix, from) <= nodes.len(),
        forall|j: int|
            from <= j < block_end(nodes, prefix, from) ==> prefix.is_prefix_of(
                #[trigger] nodes[j].route,
            ),
        block_end(nodes, prefix, from) < nodes.len() ==> !prefix.is_prefix_of(
            nodes[block_end(nodes, prefix, from)].route,
        ),
    decreases nodes.len() - from,
{
    if from < nodes.len() && prefix.is_prefix_of(nodes[from].route) {
        lemma_block_end(nodes, prefix, from + 1);
    }
}

/// What `previous_from` finds carries the label, and every node passed over
/// on the way has a longer label that opens with it.
pub proof fn lemma_previous_from(nodes: Seq<NodeView>, label: Seq<usize>, i: int)
    requires
        i < nodes.len() <= usize::MAX,
    ensures
        match previous_from(nodes, label, i) {
            Some(p) => 0 <= p <= i && nodes[p as int].route == label && forall|j: int|
                p < j <= i ==> label.is_prefix_of(#[trigger] nodes[j].route) && nodes[j].route
                    != label,
            None => true,
        },
    decreases i + 1,
{
    if i >= 0 && nodes[i].route != label && label.is_prefix_of(nodes[i].route) {
        lemma_previous_from(nodes, label, i - 1);
    }
}

/// What `next_from` finds carries the label, and every node passed over on
/// the way has a longer label that opens with it.
pub proof fn lemma_next_from(nodes: Seq<NodeView>, label: Seq<usize>, i: int)
    requires
        0 <= i,
        nodes.len() <= usize::MAX,
    ensures
        match next_from(nodes, label, i) {
            Some(p) => i <= p < nodes.len() && nodes[p as int].route == label && forall|j: int|
                i <= j < p ==> label.is_prefix_of(#[trigger] nodes[j].route) && nodes[j].route
                    != label,
            None => true,
        },
    decreases nodes.len() - i,
{
    if i < nodes.len() && nodes[i].route != label && label.is_prefix_of(nodes[i].route) {
        lemma_next_from(nodes, label, i + 1);
    }
}

/// What `nearest_before` finds carries the label, and no node between it and
/// the start of the search does; where it finds nothing, no node up to the
/// start carries the label.
pub proof fn lemma_nearest_before(nodes: Seq<NodeView>, label: Seq<usize>, i: int)
    requires
        i < nodes.len() <= usize::MAX,
    ensures
        match nearest_before(nodes, label, i) {
            Some(p) => 0 <= p <= i && nodes[p as int].route == label && forall|j: int|
                p < j <= i ==> (#[trigger] nodes[j].route) != label,
            None => forall|j: int| 0 <= j <= i ==> (#[trigger] nodes[j].route) != label,
        },
    decreases i + 1,
{
    if i >= 0 && nodes[i].route != label {
        lemma_nearest_before(nodes, label, i - 1);
    }
}

/// The positions that `children_from` lists lie at or after the start and
/// within the tree, ascend, and carry the label.
pub proof fn lemma_children_from(nodes: Seq<NodeView>, label: Seq<usize>, i: int)
    requires
        0 <= i,
        nodes.len() <= usize::MAX,
    ensures
        forall|k: int|
            0 <= k < children_from(nodes, label, i).len() ==> i <= (#[trigger] children_from(
                nodes,
                label,
                i,
            )[k]) < nodes.len() && nodes[children_from(nodes, label, i)[k] as int].route
                == label,
        forall|k: int, m: int|
            0 <= k < m < children_from(nodes, label, i).len() ==> children_from(nodes, label, i)[k]
                < children_from(nodes, label, i)[m],
    decreases nodes.len() - i,
{
    if i < nodes.len() {
        if nodes[i].route == label || label.is_prefix_of(nodes[i].route) {
            lemma_children_from(nodes, label, i + 1);
        }
    }
}

/// Whether the node at `j` is the parent of the node at `i` in document
/// order: it stands before `i`, the label of its children is the label of
/// `i`, and every node after it up to `i` is one of its descendants.
pub open spec fn is_parent_of(nodes: Seq<NodeView>, j: int, i: int) -> bool {
    &&& 0 <= j < i < nodes.len()
    &&& nodes[j].child_route() == nodes[i].route
    &&& forall|k: int| j < k <= i ==> nodes[j].child_route().is_prefix_of(#[trigger] nodes[k].route)
}

/// The sequence is a tree in document order: no identity occurs twice, and
/// every node with a non-empty label has its parent before it, with nothing
/// but the parent's descendants in between.
pub open spec fn well_formed(nodes: Seq<NodeView>) -> bool {
    &&& identities_distinct(nodes)
    &&& forall|i: int|
        0 <= i < nodes.len() ==> (#[trigger] nodes[i]).route.len() == 0 || exists|j: int|
            is_parent_of(nodes, j, i)
}

/// Every identity lies below the tree's counter, so that the next new node
/// gets one that no node carries.
pub open spec fn counted(tree: TreeView) -> bool {
    forall|i: int| 0 <= i < tree.nodes.len() ==> (#[trigger] tree.nodes[i]).idx < tree.count
}

/// The tree is well-formed and its counter lies above every identity.
pub open spec fn sound(tree: TreeView) -> bool {
    well_formed(tree.nodes) && counted(tree)
}

/// Two sequences of nodes agree in identities and labels.
pub open spec fn same_shape(a: Seq<NodeView>, b: Seq<NodeView>) -> bool {
    &&& a.len() == b.len()
    &&& forall|i: int|
        0 <= i < a.len() ==> (#[trigger] a[i]).idx == b[i].idx && a[i].route == b[i].route
}

/// Where every node from `from` up to `i` has a label that opens with the
/// prefix, the run from `from` ends behind `i`.
pub proof fn lemma_block_covers(nodes: Seq<NodeView>, prefix: Seq<usize>, from: int, i: int)
    requires
        0 <= from <= i < nodes.len(),
        forall|k: int| from <= k <= i ==> prefix.is_prefix_of(#[trigger] nodes[k].route),
    ensures
        i < block_end(nodes, prefix, from),
    decreases i - from,
{
    assert(prefix.is_prefix_of(nodes[from].route));
    if from < i {
        lemma_block_covers(nodes, prefix, from + 1, i);
    } else {
        lemma_block_end(nodes, prefix, from + 1);
    }
}

/// A chain that opens a chain that opens a third opens the third.
pub proof fn lemma_prefix_chain(a: Seq<usize>, b: Seq<usize>, c: Seq<usize>)
    requires
        a.is_prefix_of(b),
        b.is_prefix_of(c),
    ensures
        a.is_prefix_of(c),
{
    assert(a =~= c.subrange(0, a.len() as int)) by {
        assert(a =~= b.subrange(0, a.len() as int));
        assert(b =~= c.subrange(0, b.len() as int));
    }
}

/// In a well-formed tree, a node whose label holds the identity of the node
/// at `pos` is a descendant of `pos`.
pub proof fn lemma_reference_is_descendant(nodes: Seq<NodeView>, pos: int, i: int)
    requires
        well_formed(nodes),
        0 <= pos < nodes.len(),
        0 <= i < nodes.len(),
        nodes[i].route.contains(nodes[pos].idx),
    ensures
        pos < i < subtree_end(nodes, pos),
    decreases i,
{
    let x = nodes[pos].idx;
    let inner = nodes[pos].child_route();
    let route = nodes[i].route;
    let k = choose|k: int| 0 <= k < route.len() && route[k] == x;
    let j = choose|j: int| is_parent_of(nodes, j, i);
    assert(is_parent_of(nodes, j, i));
    assert(route == nodes[j].route.push(nodes[j].idx));
    if k == route.len() - 1 {
        assert(nodes[j].idx == x);
        if j != pos {
            if j < pos {
                assert(nodes[j].idx != nodes[pos].idx);
            } else {
                assert(nodes[pos].idx != nodes[j].idx);
            }
        }
        assert(j == pos);
        lemma_block_covers(nodes, inner, pos + 1, i);
    } else {
        assert(nodes[j].route[k] == x);
        assert(nodes[j].route.contains(x));
        lemma_reference_is_descendant(nodes, pos, j);
        lemma_block_end(nodes, inner, pos + 1);
        let below = nodes[j].child_route();
        assert(inner.is_prefix_of(nodes[j].route));
        assert(nodes[j].route.is_prefix_of(below)) by {
            assert(nodes[j].route =~= below.subrange(0, nodes[j].route.len() as int));
        }
        lemma_prefix_chain(inner, nodes[j].route, below);
        assert forall|m: int| pos + 1 <= m <= i implies inner.is_prefix_of(
            #[trigger] nodes[m].route,
        ) by {
            if m > j {
                assert(below.is_prefix_of(nodes[m].route));
                lemma_prefix_chain(inner, below, nodes[m].route);
            }
        }
        lemma_block_covers(nodes, inner, pos + 1, i);
    }
}

/// The characters of an optional text, none for an absent one.
pub open spec fn text_or_empty(t: Option<Seq<char>>) -> Seq<char> {
    match t {
        Some(s) => s,
        None => Seq::empty(),
    }
}

/// What stands before the node at `pos`, up to whatever precedes it: the tail
/// of its previous sibling, or without one the text of its parent.  `None`
/// for a node with neither.
pub open spec fn lead_of(nodes: Seq<NodeView>, pos: int) -> Option<Seq<char>> {
    match previous_of(nodes, pos) {
        Some(p) => Some(nodes[p as int].tail),
        None => match parent_of(nodes, pos) {
            Some(q) => Some(text_or_empty(nodes[q as int].text)),
            None => None,
        },
    }
}

/// The tail of the previous sibling of the node at `pos`, or without one the
/// tail of its parent.  `None` for a node with neither.
pub open spec fn outer_tail_of(nodes: Seq<NodeView>, pos: int) -> Option<Seq<char>> {
    match previous_of(nodes, pos) {
        Some(p) => Some(nodes[p as int].tail),
        None => match parent_of(nodes, pos) {
            Some(q) => Some(nodes[q as int].tail),
            None => None,
        },
    }
}

/// The nodes with the tail of the node at `pos` replaced.
pub open spec fn with_tail(nodes: Seq<NodeView>, pos: int, tail: Seq<char>) -> Seq<NodeView> {
    nodes.update(pos, NodeView { tail: tail, ..nodes[pos] })
}

/// The nodes with the text of the node at `pos` replaced.
pub open spec fn with_text(nodes: Seq<NodeView>, pos: int, text: Seq<char>) -> Seq<NodeView> {
    nodes.update(pos, NodeView { text: Some(text), ..nodes[pos] })
}

/// Where a new node goes, and what it takes over: the nodes as they are once
/// the neighbours have been adjusted, the position at which the new node is
/// put in, the label it gets and the tail it gets.
pub ghost struct Plan {
    pub nodes: Seq<NodeView>,
    pub slot: int,
    pub route: Seq<usize>,
    pub tail: Seq<char>,
}

/// The plan for a new sibling right after the node at `pos`, which is a
/// position of the tree.  The new node takes over the label and the tail of
/// `pos` and goes behind the last descendant of `pos`; `pos` gets as its tail
/// what stood before it.
pub open spec fn plan_next(nodes: Seq<NodeView>, pos: int) -> Plan {
    Plan {
        nodes: match lead_of(nodes, pos) {
            Some(t) => with_tail(nodes, pos, t),
            None => nodes,
        },
        slot: subtree_end(nodes, pos),
        route: nodes[pos].route,
        tail: nodes[pos].tail,
    }
}

/// The plan for a new sibling right before the node at `pos`, which is a
/// position of the tree: the plan for one after its previous sibling, or
/// without one the plan for a first child of its parent.  A node with
/// neither has no place before it.
pub open spec fn plan_previous(nodes: Seq<NodeView>, pos: int) -> Option<Plan> {
    match previous_of(nodes, pos) {
        Some(p) => Some(plan_next(nodes, p as int)),
        None => match parent_of(nodes, pos) {
            Some(q) => Some(
                Plan {
                    nodes: nodes,
                    slot: q + 1,
                    route: nodes[q as int].child_route(),
                    tail: text_or_empty(nodes[q as int].text),
                },
            ),
            None => None,
        },
    }
}

/// The plan for a new last child of the node at `pos`, which is a position of
/// the tree.
///
/// Without children so far, the child goes right behind `pos` and gets the
/// tail of the previous sibling of `pos`, or of its parent, or the line
/// ending where `pos` has neither; a `pos` whose text is absent or empty gets
/// that tail and one unit of indentation as its text.
///
/// With children, the child goes behind the last descendant of `pos` and takes
/// over the tail of the last child, which gets as its tail what stood before
/// it: the tail of its own previous sibling, or the text of its parent where
/// it is the only child.
pub open spec fn plan_child(tree: TreeView, pos: int) -> Plan {
    let nodes = tree.nodes;
    let kids = children_of(nodes, pos);
    if kids.len() == 0 {
        let tail = match outer_tail_of(nodes, pos) {
            Some(t) => t,
            None => tree.crlf,
        };
        Plan {
            nodes: if text_or_empty(nodes[pos].text).len() == 0 {
                with_text(nodes, pos, tail + tree.indent)
            } else {
                nodes
            },
            slot: pos + 1,
            route: nodes[pos].child_route(),
            tail: tail,
        }
    } else {
        let last = kids.last() as int;
        Plan {
            nodes: match lead_of(nodes, last) {
                Some(t) => with_tail(nodes, last, t),
                None => nodes,
            },
            slot: subtree_end(nodes, pos),
            route: nodes[pos].child_route(),
            tail: nodes[last].tail,
        }
    }
}

/// The node `node` as it stands in a tree once it has been given the
/// identity `idx` and the label and tail of `plan`.
pub open spec fn placed(node: NodeView, idx: usize, plan: Plan) -> NodeView {
    NodeView { idx: idx, tail: plan.tail, route: plan.route, ..node }
}

/// The tree after a new node has been put in according to `plan`: the node
/// gets the tree's next identity, and the tree's counter moves on by one.
pub open spec fn with_node(tree: TreeView, plan: Plan, node: NodeView) -> TreeView {
    TreeView {
        nodes: plan.nodes.insert(plan.slot, placed(node, tree.count, plan)),
        count: (tree.count + 1) as usize,
        ..tree
    }
}

/// The nodes once the neighbours of the node at `pos` have been adjusted for
/// its leaving.  A previous sibling takes over its tail.  Where it is an only
/// child, the text of its parent loses one unit of indentation from its end,
/// if it ends with one.
pub open spec fn adjusted_for_removal(tree: TreeView, pos: int) -> Seq<NodeView> {
    let nodes = tree.nodes;
    match previous_of(nodes, pos) {
        Some(p) => with_tail(nodes, p as int, nodes[pos].tail),
        None => match next_of(nodes, pos) {
            Some(_) => nodes,
            None => match parent_of(nodes, pos) {
                Some(q) => match nodes[q as int].text {
                    Some(text) => if tree.indent.is_suffix_of(text) {
                        with_text(nodes, q as int, text.subrange(0, text.len() - tree.indent.len()))
                    } else {
                        nodes
                    },
                    None => nodes,
                },
                None => nodes,
            },
        },
    }
}

/// The tree without the node at `pos` and its descendants.
pub open spec fn without_subtree(tree: TreeView, pos: int) -> TreeView {
    if 0 <= pos < tree.nodes.len() {
        let adjusted = adjusted_for_removal(tree, pos);
        TreeView {
            nodes: adjusted.subrange(0, pos) + adjusted.subrange(
                subtree_end(tree.nodes, pos),
                adjusted.len() as int,
            ),
            ..tree
        }
    } else {
        tree
    }
}

/// The chain `chain` without its first `n` identities.
pub open spec fn skip_chain(chain: Seq<usize>, n: int) -> Seq<usize> {
    if 0 <= n <= chain.len() {
        chain.subrange(n, chain.len() as int)
    } else {
        Seq::empty()
    }
}

/// The node at `pos` and its descendants, as the nodes of a tree of their
/// own: every label loses what stands above the node at `pos`, whose own
/// label becomes the empty one.
pub open spec fn subtree_nodes(nodes: Seq<NodeView>, pos: int) -> Seq<NodeView> {
    if 0 <= pos < nodes.len() {
        Seq::new(
            (subtree_end(nodes, pos) - pos) as nat,
            |k: int|
                NodeView {
                    route: skip_chain(nodes[pos + k].route, nodes[pos].route.len() as int),
                    ..nodes[pos + k]
                },
        )
    } else {
        Seq::empty()
    }
}

/// The tree that `subtree` gives for the node at `pos`: the copied nodes,
/// no index, and the other fields of the tree they come from.  The copies
/// keep their identities, and the counter is that of the tree they come
/// from, so that it lies above every identity of the copy where it lay
/// above every identity of the tree.
pub open spec fn subtree_view(tree: TreeView, pos: int) -> TreeView {
    TreeView { nodes: subtree_nodes(tree.nodes, pos), enable_index: false, ..tree }
}

/// The chain with every `old` replaced by `new`.
pub open spec fn replace_id(chain: Seq<usize>, old: usize, new: usize) -> Seq<usize> {
    Seq::new(chain.len(), |k: int| if chain[k] == old { new } else { chain[k] })
}

/// The nodes after the node at `i` has been given the identity `new`: the
/// node carries it, and every label that held the old identity holds the new
/// one in its place.
pub open spec fn renumber_step(nodes: Seq<NodeView>, i: int, new: usize) -> Seq<NodeView> {
    Seq::new(
        nodes.len(),
        |j: int|
            NodeView {
                idx: if j == i { new } else { nodes[j].idx },
                route: replace_id(nodes[j].route, nodes[i].idx, new),
                ..nodes[j]
            },
    )
}

/// The nodes after the first `k` of them have been given, one after the
/// other, the identities `start`, `start + 1`, and so on.
pub open spec fn renumbered(nodes: Seq<NodeView>, start: int, k: int) -> Seq<NodeView>
    decreases k,
{
    if k <= 0 {
        nodes
    } else {
        renumber_step(renumbered(nodes, start, k - 1), k - 1, (start + k - 1) as usize)
    }
}

/// Whether the identities `start, ..., start + n - 1`, for `n` the number of
/// nodes, lie all below or all above the identities that the nodes carry.
pub open spec fn range_is_free(nodes: Seq<NodeView>, start: int) -> bool {
    ||| forall|i: int| 0 <= i < nodes.len() ==> start + nodes.len() <= (#[trigger] nodes[i]).idx
    ||| forall|i: int| 0 <= i < nodes.len() ==> (#[trigger] nodes[i]).idx < start
}

/// Whether `m` is the largest identity that the nodes carry.
pub open spec fn is_max_identity(nodes: Seq<NodeView>, m: usize) -> bool {
    &&& forall|i: int| 0 <= i < nodes.len() ==> (#[trigger] nodes[i]).idx <= m
    &&& exists|i: int| 0 <= i < nodes.len() && (#[trigger] nodes[i]).idx == m
}

/// The largest identity that the nodes carry.
pub open spec fn max_identity(nodes: Seq<NodeView>) -> usize {
    choose|m: usize| is_max_identity(nodes, m)
}

/// The nodes of an incoming tree renumbered for a tree whose counter stands
/// at `count`: node `k` is to carry `count + k`.  Where those identities lie
/// all below or all above the ones that the nodes carry, the nodes are
/// renumbered once.  Otherwise they are first moved out of the way, to the
/// identities from `max + n + 1` on, for `max` the largest identity and `n`
/// the number of nodes, and then renumbered from `count` on.
pub open spec fn renumbered_for(nodes: Seq<NodeView>, count: int) -> Seq<NodeView> {
    let n = nodes.len() as int;
    if range_is_free(nodes, count) {
        renumbered(nodes, count, n)
    } else {
        renumbered(renumbered(nodes, max_identity(nodes) + n + 1, n), count, n)
    }
}

/// Whether every identity that renumbering for `count` hands out fits a
/// machine word.
pub open spec fn graft_fits(nodes: Seq<NodeView>, count: int) -> bool {
    let n = nodes.len() as int;
    if range_is_free(nodes, count) {
        count + n <= usize::MAX
    } else {
        max_identity(nodes) + 2 * n + 1 <= usize::MAX
    }
}

/// Renumbering keeps the number of nodes.
pub proof fn lemma_renumbered_len(nodes: Seq<NodeView>, start: int, k: int)
    ensures
        renumbered(nodes, start, k).len() == nodes.len(),
    decreases k,
{
    if k > 0 {
        lemma_renumbered_len(nodes, start, k - 1);
    }
}

/// Renumbering for a counter keeps the number of nodes.
pub proof fn lemma_renumbered_for_len(nodes: Seq<NodeView>, count: int)
    ensures
        renumbered_for(nodes, count).len() == nodes.len(),
{
    let n = nodes.len() as int;
    lemma_renumbered_len(nodes, count, n);
    let high = max_identity(nodes) + n + 1;
    lemma_renumbered_len(nodes, high, n);
    lemma_renumbered_len(renumbered(nodes, high, n), count, n);
}

/// After the first `k` nodes have been renumbered from `start` on, node `j`
/// below `k` carries `start + j`, and the others carry what they did.
pub proof fn lemma_renumbered_ids(nodes: Seq<NodeView>, start: int, k: int)
    requires
        0 <= k <= nodes.len(),
        0 <= start,
        start + k <= usize::MAX + 1,
    ensures
        renumbered(nodes, start, k).len() == nodes.len(),
        forall|j: int| 0 <= j < k ==> (#[trigger] renumbered(nodes, start, k)[j]).idx == start + j,
        forall|j: int|
            k <= j < nodes.len() ==> (#[trigger] renumbered(nodes, start, k)[j]).idx
                == nodes[j].idx,
    decreases k,
{
    if k > 0 {
        lemma_renumbered_ids(nodes, start, k - 1);
    }
}

/// The nodes of an incoming tree as they stand in the tree that takes them
/// in: every label gets the label of the place in front, and the first node
/// gets the tail of the place.
pub open spec fn grafted(incoming: Seq<NodeView>, route: Seq<usize>, tail: Seq<char>) -> Seq<
    NodeView,
> {
    Seq::new(
        incoming.len(),
        |k: int|
            NodeView {
                route: route + incoming[k].route,
                tail: if k == 0 { tail } else { incoming[k].tail },
                ..incoming[k]
            },
    )
}

/// The tree after the nodes `incoming`, which carry the identities from the
/// tree's counter on, have been put in according to `plan`.
pub open spec fn with_tree(tree: TreeView, plan: Plan, incoming: Seq<NodeView>) -> TreeView {
    TreeView {
        nodes: plan.nodes.subrange(0, plan.slot) + grafted(incoming, plan.route, plan.tail)
            + plan.nodes.subrange(plan.slot, plan.nodes.len() as int),
        count: (tree.count + incoming.len()) as usize,
        ..tree
    }
}

/// The tree after the tree `incoming` has been put in according to `plan`,
/// its nodes renumbered from the tree's counter on.
pub open spec fn with_graft(tree: TreeView, plan: Plan, incoming: Seq<NodeView>) -> TreeView {
    with_tree(tree, plan, renumbered_for(incoming, tree.count as int))
}

} // verus!
