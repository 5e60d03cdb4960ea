//! Trees that differ in identities only, and what is written for them.

use crate::etreenode::NodeView;
use crate::graft::lemma_position_of;
use crate::model::{is_parent_of, lemma_position_from, position_from, well_formed, TreeView};
use crate::writer::{between, body_upto, climb, closing, closing_leaf, opening, serialized};
use vstd::prelude::*;

verus! {

/// What a node holds apart from its identity and its label.
pub open spec fn content_of(node: NodeView) -> NodeView {
    NodeView { idx: 0, route: Seq::empty(), ..node }
}

/// Whether two nodes hold the same and lie equally deep.
pub open spec fn like(x: NodeView, y: NodeView) -> bool {
    content_of(x) == content_of(y) && x.route.len() == y.route.len()
}

/// Whether two sequences of nodes agree, node by node, in what the nodes
/// hold and in how deep they lie.
pub open spec fn alike(a: Seq<NodeView>, b: Seq<NodeView>) -> bool {
    &&& a.len() == b.len()
    &&& forall|i: int| 0 <= i < a.len() ==> like(#[trigger] a[i], b[i])
}

/// What is written for a node looks at what the node holds only.
proof fn lemma_like_written(x: NodeView, y: NodeView)
    requires
        content_of(x) == content_of(y),
    ensures
        opening(x) == opening(y),
        closing(x) == closing(y),
        closing_leaf(x) == closing_leaf(y),
{
    let cx = content_of(x);
    let cy = content_of(y);
    assert(x.local_name == cx.local_name && y.local_name == cy.local_name);
    assert(x.ns_abbrev == cx.ns_abbrev && y.ns_abbrev == cy.ns_abbrev);
    assert(x.attr == cx.attr && y.attr == cy.attr);
    assert(x.text == cx.text && y.text == cy.text);
    assert(x.tail == cx.tail && y.tail == cy.tail);
}

/// In two trees that are alike a node has its parent at the same position.
proof fn lemma_parents_agree(a: Seq<NodeView>, b: Seq<NodeView>, ja: int, jb: int, i: int)
    requires
        alike(a, b),
        is_parent_of(a, ja, i),
        is_parent_of(b, jb, i),
    ensures
        ja == jb,
{
    assert(like(a[i], b[i]));
    assert(like(a[ja], b[ja]));
    assert(like(a[jb], b[jb]));
    assert(a[ja].child_route().len() == a[ja].route.len() + 1);
    assert(b[jb].child_route().len() == b[jb].route.len() + 1);
    if ja < jb {
        assert(a[ja].child_route().is_prefix_of(a[jb].route));
    } else if jb < ja {
        assert(b[jb].child_route().is_prefix_of(b[ja].route));
    }
}

/// In two well-formed trees that are alike, the identities in the labels of
/// one node are carried by nodes at the same positions.
proof fn lemma_ancestors_agree(a: Seq<NodeView>, b: Seq<NodeView>, i: int)
    requires
        alike(a, b),
        well_formed(a),
        well_formed(b),
        0 <= i < a.len(),
    ensures
        a[i].route.len() == b[i].route.len(),
        forall|m: int|
            0 <= m < a[i].route.len() ==> position_from(a, #[trigger] a[i].route[m], 0) is Some
                && position_from(a, a[i].route[m], 0) == position_from(b, b[i].route[m], 0),
    decreases i,
{
    assert(like(a[i], b[i]));
    if a[i].route.len() > 0 {
        let j = choose|j: int| is_parent_of(a, j, i);
        let jb = choose|j: int| is_parent_of(b, j, i);
        assert(is_parent_of(a, j, i));
        assert(is_parent_of(b, jb, i));
        lemma_parents_agree(a, b, j, jb, i);
        lemma_ancestors_agree(a, b, j);
        lemma_position_of(a, j);
        lemma_position_of(b, j);
        let top = a[i].route.len() - 1;
        assert forall|m: int| 0 <= m < a[i].route.len() implies position_from(
            a,
            #[trigger] a[i].route[m],
            0,
        ) is Some && position_from(a, a[i].route[m], 0) == position_from(b, b[i].route[m], 0) by {
            if m < top {
                assert(a[i].route[m] == a[j].child_route()[m]);
                assert(b[i].route[m] == b[j].child_route()[m]);
                assert(a[i].route[m] == a[j].route[m]);
                assert(b[i].route[m] == b[j].route[m]);
            } else {
                assert(a[i].route[m] == a[j].child_route()[m]);
                assert(b[i].route[m] == b[j].child_route()[m]);
                assert(a[i].route[m] == a[j].idx);
                assert(b[i].route[m] == b[j].idx);
            }
        }
    }
}

/// In two well-formed trees that are alike, two labels hold the same
/// identity at a place in the one where they do so in the other.
proof fn lemma_same_identity(a: Seq<NodeView>, b: Seq<NodeView>, i: int, j: int, m: int)
    requires
        alike(a, b),
        well_formed(a),
        well_formed(b),
        0 <= i < a.len(),
        0 <= j < a.len(),
        0 <= m < a[i].route.len(),
        m < a[j].route.len(),
    ensures
        (a[i].route[m] == a[j].route[m]) == (b[i].route[m] == b[j].route[m]),
{
    lemma_ancestors_agree(a, b, i);
    lemma_ancestors_agree(a, b, j);
    lemma_position_from(a, a[i].route[m], 0);
    lemma_position_from(a, a[j].route[m], 0);
    lemma_position_from(b, b[i].route[m], 0);
    lemma_position_from(b, b[j].route[m], 0);
}

/// In two well-formed trees that are alike, the front of one label is
/// another label in the one where it is so in the other.
proof fn lemma_same_front(a: Seq<NodeView>, b: Seq<NodeView>, i: int, j: int, m: int)
    requires
        alike(a, b),
        well_formed(a),
        well_formed(b),
        0 <= i < a.len(),
        0 <= j < a.len(),
        0 <= m <= a[i].route.len(),
    ensures
        (a[i].route.subrange(0, m) == a[j].route) == (b[i].route.subrange(0, m) == b[j].route),
{
    assert(like(a[i], b[i]));
    assert(like(a[j], b[j]));
    let fa = a[i].route.subrange(0, m);
    let fb = b[i].route.subrange(0, m);
    if a[j].route.len() == m {
        if fa == a[j].route {
            assert forall|x: int| 0 <= x < m implies fb[x] == b[j].route[x] by {
                lemma_same_identity(a, b, i, j, x);
                assert(fa[x] == a[j].route[x]);
            }
            assert(fb =~= b[j].route);
        }
        if fb == b[j].route {
            assert forall|x: int| 0 <= x < m implies fa[x] == a[j].route[x] by {
                lemma_same_identity(a, b, i, j, x);
                assert(fb[x] == b[j].route[x]);
            }
            assert(fa =~= a[j].route);
        }
    }
}

/// Whether the labels `sa` and `sb` are met at the same places on the way
/// up from the node at `i` in the one tree and in the other.
pub open spec fn stops_agree(
    a: Seq<NodeView>,
    b: Seq<NodeView>,
    i: int,
    sa: Seq<usize>,
    sb: Seq<usize>,
) -> bool {
    forall|x: int|
        0 <= x <= a[i].route.len() ==> (#[trigger] a[i].route.subrange(0, x) == sa) == (
        b[i].route.subrange(0, x) == sb)
}

/// In two well-formed trees that are alike, the same is written on the way
/// up from a node.
proof fn lemma_climb_alike(
    a: Seq<NodeView>,
    b: Seq<NodeView>,
    i: int,
    m: int,
    sa: Seq<usize>,
    sb: Seq<usize>,
)
    requires
        alike(a, b),
        well_formed(a),
        well_formed(b),
        0 <= i < a.len(),
        0 <= m <= a[i].route.len(),
        stops_agree(a, b, i, sa, sb),
    ensures
        climb(a, a[i].route.subrange(0, m), sa) == climb(b, b[i].route.subrange(0, m), sb),
    decreases m,
{
    lemma_ancestors_agree(a, b, i);
    let ra = a[i].route.subrange(0, m);
    let rb = b[i].route.subrange(0, m);
    if m > 0 {
        assert(ra.last() == a[i].route[m - 1]);
        assert(rb.last() == b[i].route[m - 1]);
        let p = position_from(a, a[i].route[m - 1], 0).unwrap();
        assert(position_from(b, rb.last(), 0) == Some(p));
        lemma_position_from(a, a[i].route[m - 1], 0);
        assert(like(a[p], b[p]));
        lemma_like_written(a[p], b[p]);
        assert(ra.drop_last() =~= a[i].route.subrange(0, m - 1));
        assert(rb.drop_last() =~= b[i].route.subrange(0, m - 1));
        assert((a[i].route.subrange(0, m - 1) == sa) == (b[i].route.subrange(0, m - 1) == sb));
        lemma_climb_alike(a, b, i, m - 1, sa, sb);
    }
}

/// In two well-formed trees that are alike, the same is written between two
/// neighbours.
proof fn lemma_between_alike(a: Seq<NodeView>, b: Seq<NodeView>, i: int)
    requires
        alike(a, b),
        well_formed(a),
        well_formed(b),
        0 < i < a.len(),
    ensures
        between(a, i) == between(b, i),
{
    let pa = a[i - 1];
    let pb = b[i - 1];
    let ca = a[i];
    let cb = b[i];
    assert(like(pa, pb));
    assert(like(ca, cb));
    lemma_like_written(pa, pb);
    let n = pa.route.len() as int;
    let c = ca.route.len() as int;
    assert(pa.route.subrange(0, n) =~= pa.route);
    assert(pb.route.subrange(0, n) =~= pb.route);
    assert(ca.route.subrange(0, c) =~= ca.route);
    assert(cb.route.subrange(0, c) =~= cb.route);
    lemma_same_front(a, b, i - 1, i, n);
    assert((ca.route == pa.route) == (cb.route == pb.route));
    lemma_same_front(a, b, i, i - 1, c);
    if n <= c {
        lemma_same_front(a, b, i, i - 1, n);
    }
    assert(pa.route.is_prefix_of(ca.route) == pb.route.is_prefix_of(cb.route));
    if c <= n {
        lemma_same_front(a, b, i - 1, i, c);
    }
    assert(ca.route.is_prefix_of(pa.route) == cb.route.is_prefix_of(pb.route));
    assert forall|x: int| 0 <= x <= pa.route.len() implies (#[trigger] pa.route.subrange(0, x)
        == ca.route) == (pb.route.subrange(0, x) == cb.route) by {
        lemma_same_front(a, b, i - 1, i, x);
    }
    lemma_climb_alike(a, b, i - 1, n, ca.route, cb.route);
}

/// In two well-formed trees that are alike, the same is written for the
/// first `k` nodes.
proof fn lemma_body_alike(a: Seq<NodeView>, b: Seq<NodeView>, k: int)
    requires
        alike(a, b),
        well_formed(a),
        well_formed(b),
        0 <= k <= a.len(),
    ensures
        body_upto(a, k) == body_upto(b, k),
    decreases k,
{
    if k >= 1 {
        assert(like(a[k - 1], b[k - 1]));
        lemma_like_written(a[k - 1], b[k - 1]);
        if k > 1 {
            lemma_body_alike(a, b, k - 1);
            lemma_between_alike(a, b, k - 1);
        } else {
            assert(like(a[0], b[0]));
            lemma_like_written(a[0], b[0]);
        }
    }
}

/// Two well-formed trees with the same declaration and line ending whose
/// nodes agree, one by one, in what they hold and in how deep they lie are
/// written as the same document: identities decide nothing of the bytes.
pub proof fn law_alike_is_written_alike(s: TreeView, t: TreeView)
    requires
        well_formed(s.nodes),
        well_formed(t.nodes),
        alike(s.nodes, t.nodes),
        s.version == t.version,
        s.encoding == t.encoding,
        s.standalone == t.standalone,
        s.crlf == t.crlf,
    ensures
        serialized(s) == serialized(t),
{
    let a = s.nodes;
    let b = t.nodes;
    let n = a.len() as int;
    if n > 0 {
        lemma_body_alike(a, b, n);
        let last = n - 1;
        assert(like(a[last], b[last]));
        lemma_like_written(a[last], b[last]);
        let depth = a[last].route.len() as int;
        assert(a[last].route.subrange(0, depth) =~= a[last].route);
        assert(b[last].route.subrange(0, depth) =~= b[last].route);
        assert forall|x: int| 0 <= x <= a[last].route.len() implies (
        #[trigger] a[last].route.subrange(0, x) == Seq::<usize>::empty()) == (
        b[last].route.subrange(0, x) == Seq::<usize>::empty()) by {
            assert(a[last].route.subrange(0, x).len() == x);
            assert(b[last].route.subrange(0, x).len() == x);
            if x == 0 {
                assert(a[last].route.subrange(0, x) =~= Seq::<usize>::empty());
                assert(b[last].route.subrange(0, x) =~= Seq::<usize>::empty());
            }
        }
        lemma_climb_alike(a, b, last, depth, Seq::empty(), Seq::empty());
    }
}

} // verus!
