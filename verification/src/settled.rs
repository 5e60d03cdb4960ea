//! Laying a tree out twice is laying it out once.

use crate::etreenode::NodeView;
use crate::layout::{
    is_white, last_line, pretty_kids, pretty_nodes, pretty_view, repeated, requested_crlf, trimmed,
    white_end, white_start, with_lead_tails,
};
use crate::model::{
    children_from, children_of, lemma_children_from, root_from, root_of, text_or_empty, with_tail,
    with_text, TreeView,
};
use vstd::prelude::*;

verus! {

/// Every character is white space.
pub open spec fn all_white(s: Seq<char>) -> bool {
    forall|i: int| 0 <= i < s.len() ==> is_white(#[trigger] s[i])
}

/// The text is empty, or starts and ends with a character that is no white
/// space.
pub open spec fn is_trim(t: Seq<char>) -> bool {
    t.len() == 0 || (!is_white(t.first()) && !is_white(t.last()))
}

proof fn lemma_white_end(s: Seq<char>, i: int)
    requires
        0 <= i <= s.len(),
    ensures
        i <= white_end(s, i) <= s.len(),
        forall|j: int| i <= j < white_end(s, i) ==> is_white(#[trigger] s[j]),
        white_end(s, i) < s.len() ==> !is_white(s[white_end(s, i)]),
    decreases s.len() - i,
{
    if i < s.len() && is_white(s[i]) {
        lemma_white_end(s, i + 1);
    }
}

proof fn lemma_white_start(s: Seq<char>, j: int)
    requires
        0 <= j <= s.len(),
    ensures
        0 <= white_start(s, j) <= j,
        forall|m: int| white_start(s, j) <= m < j ==> is_white(#[trigger] s[m]),
        white_start(s, j) > 0 ==> !is_white(s[white_start(s, j) - 1]),
    decreases j,
{
    if 0 < j && is_white(s[j - 1]) {
        lemma_white_start(s, j - 1);
    }
}

/// What is left of a text without the white space around it starts and ends
/// with a character that is none.
pub proof fn lemma_trimmed_is_trim(s: Seq<char>)
    ensures
        is_trim(trimmed(s)),
{
    let a = white_end(s, 0);
    lemma_white_end(s, 0);
    if a < s.len() {
        let b = white_start(s, s.len() as int);
        lemma_white_start(s, s.len() as int);
        if b <= a {
            assert(is_white(s[a]));
        }
        let t = trimmed(s);
        assert(t.first() == s[a]);
        assert(t.last() == s[b - 1]);
    }
}

/// A text that starts and ends with a character that is no white space
/// loses nothing.
pub proof fn lemma_trim_fixed(t: Seq<char>)
    requires
        is_trim(t),
    ensures
        trimmed(t) == t,
{
    if t.len() > 0 {
        assert(white_end(t, 0) == 0);
        assert(white_start(t, t.len() as int) == t.len());
        assert(t.subrange(0, t.len() as int) =~= t);
    }
}

/// White space behind such a text is taken off again.
pub proof fn lemma_trim_padded(t: Seq<char>, w: Seq<char>)
    requires
        is_trim(t),
        all_white(w),
    ensures
        trimmed(t + w) == t,
{
    let s = t + w;
    if t.len() == 0 {
        assert(s =~= w);
        lemma_white_end(w, 0);
        if white_end(w, 0) < w.len() {
            assert(is_white(w[white_end(w, 0)]));
        }
        assert(trimmed(w) =~= t);
    } else {
        assert(s[0] == t[0]);
        assert(white_end(s, 0) == 0);
        let b = white_start(s, s.len() as int);
        lemma_white_start(s, s.len() as int);
        if b < t.len() {
            assert(is_white(s[t.len() - 1]));
            assert(s[t.len() - 1] == t.last());
        }
        if b > t.len() {
            assert(s[b - 1] == w[b - 1 - t.len()]);
            assert(is_white(w[b - 1 - t.len()]));
        }
        assert(s.subrange(0, t.len() as int) =~= t);
    }
}

/// Units of white space are white space.
pub proof fn lemma_repeated_white(s: Seq<char>, n: nat)
    requires
        all_white(s),
    ensures
        all_white(repeated(s, n)),
    decreases n,
{
    if n > 0 {
        lemma_repeated_white(s, (n - 1) as nat);
        let r = repeated(s, (n - 1) as nat);
        assert forall|i: int| 0 <= i < (r + s).len() implies is_white(#[trigger] (r + s)[i]) by {
            if i < r.len() {
                assert((r + s)[i] == r[i]);
            } else {
                assert((r + s)[i] == s[i - r.len()]);
            }
        }
    }
}

/// White space and white space is white space.
pub proof fn lemma_concat_white(a: Seq<char>, b: Seq<char>)
    requires
        all_white(a),
        all_white(b),
    ensures
        all_white(a + b),
{
    assert forall|i: int| 0 <= i < (a + b).len() implies is_white(#[trigger] (a + b)[i]) by {
        if i < a.len() {
            assert((a + b)[i] == a[i]);
        } else {
            assert((a + b)[i] == b[i - a.len()]);
        }
    }
}

/// A node without its text and its tail.
pub open spec fn frame_of(node: NodeView) -> NodeView {
    NodeView { text: None, tail: Seq::empty(), ..node }
}

/// Two sequences of nodes differ in texts and tails at most.
pub open spec fn same_frame(a: Seq<NodeView>, c: Seq<NodeView>) -> bool {
    &&& a.len() == c.len()
    &&& forall|i: int| 0 <= i < a.len() ==> frame_of(#[trigger] a[i]) == frame_of(c[i])
}

/// Whether two texts of the node at `i` come out of a layout as the same
/// text.  For a node with children the texts without the white space around
/// them are the same; for an element without children both are absent, or
/// both are there and the same without the white space around them; for any
/// other node they are the same.
pub open spec fn alike_text(
    nodes: Seq<NodeView>,
    i: int,
    x: Option<Seq<char>>,
    y: Option<Seq<char>>,
) -> bool {
    if children_of(nodes, i).len() > 0 {
        trimmed(text_or_empty(x)) == trimmed(text_or_empty(y))
    } else if !nodes[i].is_synthetic() {
        (x is None && y is None) || (x is Some && y is Some && trimmed(x.unwrap()) == trimmed(
            y.unwrap(),
        ))
    } else {
        x == y
    }
}

/// Two sequences of nodes come out of a layout with the same texts.
pub open spec fn alike(a: Seq<NodeView>, c: Seq<NodeView>) -> bool {
    &&& same_frame(a, c)
    &&& forall|i: int| 0 <= i < a.len() ==> alike_text(a, i, (#[trigger] a[i]).text, c[i].text)
}

/// The children are read off identities and labels.
proof fn lemma_children_same(a: Seq<NodeView>, c: Seq<NodeView>, label: Seq<usize>, i: int)
    requires
        same_frame(a, c),
        0 <= i,
    ensures
        children_from(a, label, i) == children_from(c, label, i),
    decreases a.len() - i,
{
    if i < a.len() {
        assert(frame_of(a[i]) == frame_of(c[i]));
        assert(a[i].route == c[i].route);
        lemma_children_same(a, c, label, i + 1);
    }
}

/// The children of a node are the same in sequences that differ in texts
/// and tails at most.
pub proof fn lemma_children_of_same(a: Seq<NodeView>, c: Seq<NodeView>, pos: int)
    requires
        same_frame(a, c),
    ensures
        children_of(a, pos) == children_of(c, pos),
{
    if 0 <= pos < a.len() {
        assert(frame_of(a[pos]) == frame_of(c[pos]));
        lemma_children_same(a, c, a[pos].child_route(), pos + 1);
    }
}

proof fn lemma_frame_setters(a: Seq<NodeView>, pos: int, tail: Seq<char>, text: Seq<char>)
    requires
        0 <= pos < a.len(),
    ensures
        same_frame(a, with_tail(a, pos, tail)),
        same_frame(a, with_text(a, pos, text)),
{
    let b = with_tail(a, pos, tail);
    assert forall|i: int| 0 <= i < a.len() implies frame_of(#[trigger] a[i]) == frame_of(b[i]) by {}
    let c = with_text(a, pos, text);
    assert forall|i: int| 0 <= i < a.len() implies frame_of(#[trigger] a[i]) == frame_of(c[i]) by {}
}

proof fn lemma_frame_trans(a: Seq<NodeView>, b: Seq<NodeView>, c: Seq<NodeView>)
    requires
        same_frame(a, b),
        same_frame(b, c),
    ensures
        same_frame(a, c),
        same_frame(b, a),
{
    assert forall|i: int| 0 <= i < a.len() implies frame_of(#[trigger] a[i]) == frame_of(c[i]) by {
        assert(frame_of(a[i]) == frame_of(b[i]));
        assert(frame_of(b[i]) == frame_of(c[i]));
    }
    assert forall|i: int| 0 <= i < b.len() implies frame_of(#[trigger] b[i]) == frame_of(a[i]) by {
        assert(frame_of(a[i]) == frame_of(b[i]));
    }
}

/// The children that a layout goes through stand behind their parent,
/// within the tree, one behind the other.
pub open spec fn kids_ok(kids: Seq<usize>, pos: int, n: int) -> bool {
    &&& forall|m: int| 0 <= m < kids.len() ==> pos < (#[trigger] kids[m]) < n
    &&& forall|m: int, q: int| 0 <= m < q < kids.len() ==> kids[m] < kids[q]
}

/// The children of a node are such.
proof fn lemma_kids_ok(a: Seq<NodeView>, pos: int)
    requires
        0 <= pos < a.len() <= usize::MAX,
    ensures
        kids_ok(children_of(a, pos), pos, a.len() as int),
{
    lemma_children_from(a, a[pos].child_route(), pos + 1);
}

/// A layout from the node at `pos` down changes texts and tails only, and
/// nothing before `pos`.
pub proof fn lemma_frame_nodes(
    a: Seq<NodeView>,
    crlf: Seq<char>,
    indent: Seq<char>,
    n: int,
    pos: int,
    level: nat,
)
    requires
        n == a.len() <= usize::MAX,
    ensures
        same_frame(a, pretty_nodes(a, crlf, indent, n, pos, level)),
        forall|i: int|
            0 <= i < pos && i < n ==> (#[trigger] pretty_nodes(a, crlf, indent, n, pos, level)[i])
                == a[i],
    decreases n - pos, 1int, 0int,
{
    let r = pretty_nodes(a, crlf, indent, n, pos, level);
    if 0 <= pos < n {
        let tail = crlf + repeated(indent, level);
        let a1 = with_tail(a, pos, tail);
        lemma_frame_setters(a, pos, tail, tail);
        let kids = children_of(a1, pos);
        lemma_kids_ok(a1, pos);
        if kids.len() > 0 {
            let text = trimmed(text_or_empty(a1[pos].text)) + crlf + repeated(indent, level + 1);
            let a2 = with_text(a1, pos, text);
            lemma_frame_setters(a1, pos, tail, text);
            lemma_frame_trans(a, a1, a2);
            let a3 = pretty_kids(a2, crlf, indent, n, pos, kids, 0, level + 1);
            lemma_frame_kids(a2, crlf, indent, n, pos, kids, 0, level + 1, pos + 1);
            lemma_frame_trans(a, a2, a3);
            let last = kids.last() as int;
            assert(pos < last < n);
            lemma_frame_setters(a3, last, tail, tail);
            lemma_frame_trans(a, a3, r);
            assert forall|i: int| 0 <= i < pos implies (#[trigger] r[i]) == a[i] by {
                assert(a3[i] == a2[i]);
            }
        } else if !a1[pos].is_synthetic() && a1[pos].text is Some {
            lemma_frame_setters(a1, pos, tail, trimmed(a1[pos].text.unwrap()));
            lemma_frame_trans(a, a1, r);
        }
    } else {
        lemma_frame_trans(a, a, a);
    }
}

/// A layout of the children from number `k` on changes texts and tails
/// only, and nothing before the first of them.
pub proof fn lemma_frame_kids(
    a: Seq<NodeView>,
    crlf: Seq<char>,
    indent: Seq<char>,
    n: int,
    pos: int,
    kids: Seq<usize>,
    k: int,
    level: nat,
    low: int,
)
    requires
        n == a.len() <= usize::MAX,
        0 <= k,
        forall|m: int| k <= m < kids.len() ==> low <= #[trigger] kids[m],
    ensures
        same_frame(a, pretty_kids(a, crlf, indent, n, pos, kids, k, level)),
        forall|i: int|
            0 <= i < low && i < n ==> (#[trigger] pretty_kids(
                a,
                crlf,
                indent,
                n,
                pos,
                kids,
                k,
                level,
            )[i]) == a[i],
    decreases n - pos, 0int, kids.len() - k,
{
    let r = pretty_kids(a, crlf, indent, n, pos, kids, k, level);
    if k < kids.len() {
        if pos < kids[k] < n {
            let b = pretty_nodes(a, crlf, indent, n, kids[k] as int, level);
            lemma_frame_nodes(a, crlf, indent, n, kids[k] as int, level);
            lemma_frame_kids(b, crlf, indent, n, pos, kids, k + 1, level, low);
            lemma_frame_trans(a, b, r);
            assert forall|i: int| 0 <= i < low && i < n implies (#[trigger] r[i]) == a[i] by {
                assert(r[i] == b[i]);
                assert(b[i] == a[i]);
            }
        } else {
            lemma_frame_kids(a, crlf, indent, n, pos, kids, k + 1, level, low);
        }
    } else {
        lemma_frame_trans(a, a, a);
    }
}

proof fn lemma_alike_refl(a: Seq<NodeView>)
    ensures
        alike(a, a),
{
}

proof fn lemma_alike_sym(a: Seq<NodeView>, c: Seq<NodeView>)
    requires
        alike(a, c),
    ensures
        alike(c, a),
{
    lemma_frame_trans(a, c, a);
    assert forall|i: int| 0 <= i < c.len() implies alike_text(
        c,
        i,
        (#[trigger] c[i]).text,
        a[i].text,
    ) by {
        lemma_children_of_same(a, c, i);
        assert(frame_of(a[i]) == frame_of(c[i]));
        assert(alike_text(a, i, a[i].text, c[i].text));
    }
}

proof fn lemma_alike_trans(a: Seq<NodeView>, b: Seq<NodeView>, c: Seq<NodeView>)
    requires
        alike(a, b),
        alike(b, c),
    ensures
        alike(a, c),
{
    lemma_frame_trans(a, b, c);
    assert forall|i: int| 0 <= i < a.len() implies alike_text(
        a,
        i,
        (#[trigger] a[i]).text,
        c[i].text,
    ) by {
        lemma_children_of_same(a, b, i);
        assert(frame_of(a[i]) == frame_of(b[i]));
        assert(alike_text(a, i, a[i].text, b[i].text));
        assert(alike_text(b, i, b[i].text, c[i].text));
    }
}

/// A new tail leaves the texts as they are.
proof fn lemma_alike_tail(a: Seq<NodeView>, pos: int, tail: Seq<char>)
    requires
        0 <= pos < a.len(),
    ensures
        alike(a, with_tail(a, pos, tail)),
{
    lemma_frame_setters(a, pos, tail, tail);
    let b = with_tail(a, pos, tail);
    assert forall|i: int| 0 <= i < a.len() implies alike_text(
        a,
        i,
        (#[trigger] a[i]).text,
        b[i].text,
    ) by {}
}

/// The text that a layout gives a node with children comes out of a layout
/// as the text that the node had.
proof fn lemma_alike_parent_text(a: Seq<NodeView>, pos: int, margin: Seq<char>)
    requires
        0 <= pos < a.len(),
        children_of(a, pos).len() > 0,
        all_white(margin),
    ensures
        alike(a, with_text(a, pos, trimmed(text_or_empty(a[pos].text)) + margin)),
{
    let t = trimmed(text_or_empty(a[pos].text));
    lemma_frame_setters(a, pos, margin, t + margin);
    let b = with_text(a, pos, t + margin);
    lemma_trimmed_is_trim(text_or_empty(a[pos].text));
    lemma_trim_padded(t, margin);
    assert forall|i: int| 0 <= i < a.len() implies alike_text(
        a,
        i,
        (#[trigger] a[i]).text,
        b[i].text,
    ) by {}
}

/// The text that a layout gives an element without children comes out of a
/// layout as the text that the element had.
proof fn lemma_alike_leaf_text(a: Seq<NodeView>, pos: int)
    requires
        0 <= pos < a.len(),
        children_of(a, pos).len() == 0,
        !a[pos].is_synthetic(),
        a[pos].text is Some,
    ensures
        alike(a, with_text(a, pos, trimmed(a[pos].text.unwrap()))),
{
    let t = trimmed(a[pos].text.unwrap());
    lemma_frame_setters(a, pos, t, t);
    let b = with_text(a, pos, t);
    lemma_trimmed_is_trim(a[pos].text.unwrap());
    lemma_trim_fixed(t);
    assert forall|i: int| 0 <= i < a.len() implies alike_text(
        a,
        i,
        (#[trigger] a[i]).text,
        b[i].text,
    ) by {}
}

/// The line ending and some units of indentation are white space.
proof fn lemma_margin_white(crlf: Seq<char>, indent: Seq<char>, level: nat)
    requires
        all_white(crlf),
        all_white(indent),
    ensures
        all_white(crlf + repeated(indent, level)),
{
    lemma_repeated_white(indent, level);
    lemma_concat_white(crlf, repeated(indent, level));
}

/// A layout from the node at `pos` down gives texts that come out of a
/// layout as the texts that were there.
pub proof fn lemma_alike_nodes(
    a: Seq<NodeView>,
    crlf: Seq<char>,
    indent: Seq<char>,
    n: int,
    pos: int,
    level: nat,
)
    requires
        n == a.len() <= usize::MAX,
        all_white(crlf),
        all_white(indent),
    ensures
        alike(a, pretty_nodes(a, crlf, indent, n, pos, level)),
    decreases n - pos, 1int, 0int,
{
    let r = pretty_nodes(a, crlf, indent, n, pos, level);
    lemma_alike_refl(a);
    if 0 <= pos < n {
        let tail = crlf + repeated(indent, level);
        let a1 = with_tail(a, pos, tail);
        lemma_alike_tail(a, pos, tail);
        let kids = children_of(a1, pos);
        lemma_kids_ok(a1, pos);
        if kids.len() > 0 {
            let margin = crlf + repeated(indent, level + 1);
            let t = trimmed(text_or_empty(a1[pos].text));
            assert(t + crlf + repeated(indent, level + 1) =~= t + margin);
            let a2 = with_text(a1, pos, t + margin);
            lemma_margin_white(crlf, indent, level + 1);
            lemma_alike_parent_text(a1, pos, margin);
            lemma_alike_trans(a, a1, a2);
            let a3 = pretty_kids(a2, crlf, indent, n, pos, kids, 0, level + 1);
            lemma_alike_kids(a2, crlf, indent, n, pos, kids, 0, level + 1);
            lemma_alike_trans(a, a2, a3);
            let last = kids.last() as int;
            assert(pos < last < n);
            lemma_alike_tail(a3, last, tail);
            lemma_alike_trans(a, a3, r);
        } else if !a1[pos].is_synthetic() && a1[pos].text is Some {
            lemma_alike_leaf_text(a1, pos);
            lemma_alike_trans(a, a1, r);
        }
    }
}

/// A layout of the children from number `k` on gives texts that come out of
/// a layout as the texts that were there.
pub proof fn lemma_alike_kids(
    a: Seq<NodeView>,
    crlf: Seq<char>,
    indent: Seq<char>,
    n: int,
    pos: int,
    kids: Seq<usize>,
    k: int,
    level: nat,
)
    requires
        n == a.len() <= usize::MAX,
        all_white(crlf),
        all_white(indent),
        0 <= k,
    ensures
        alike(a, pretty_kids(a, crlf, indent, n, pos, kids, k, level)),
    decreases n - pos, 0int, kids.len() - k,
{
    let r = pretty_kids(a, crlf, indent, n, pos, kids, k, level);
    lemma_alike_refl(a);
    if k < kids.len() {
        if pos < kids[k] < n {
            let b = pretty_nodes(a, crlf, indent, n, kids[k] as int, level);
            lemma_alike_nodes(a, crlf, indent, n, kids[k] as int, level);
            lemma_alike_kids(b, crlf, indent, n, pos, kids, k + 1, level);
            lemma_alike_trans(a, b, r);
        } else {
            lemma_alike_kids(a, crlf, indent, n, pos, kids, k + 1, level);
        }
    }
}

/// At `i` two results are the same, or each is what its input was.
pub open spec fn agree(
    a: Seq<NodeView>,
    c: Seq<NodeView>,
    ra: Seq<NodeView>,
    rc: Seq<NodeView>,
    i: int,
) -> bool {
    ra[i] == rc[i] || (ra[i] == a[i] && rc[i] == c[i])
}

/// Two nodes with the same frame, the same text and the same tail are the
/// same.
proof fn lemma_same_node(x: NodeView, y: NodeView)
    requires
        frame_of(x) == frame_of(y),
        x.text == y.text,
        x.tail == y.tail,
    ensures
        x == y,
{
    assert(frame_of(x).idx == frame_of(y).idx);
    assert(frame_of(x).ns == frame_of(y).ns);
    assert(frame_of(x).ns_abbrev == frame_of(y).ns_abbrev);
    assert(frame_of(x).local_name == frame_of(y).local_name);
    assert(frame_of(x).attr == frame_of(y).attr);
    assert(frame_of(x).route == frame_of(y).route);
}

/// A layout of the children from number `k` on gives the same for two
/// sequences that come out of a layout alike, wherever it changes anything;
/// at each of those children it gives the same.
pub proof fn lemma_det_kids(
    a: Seq<NodeView>,
    c: Seq<NodeView>,
    crlf: Seq<char>,
    indent: Seq<char>,
    n: int,
    pos: int,
    kids: Seq<usize>,
    k: int,
    level: nat,
)
    requires
        n == a.len() <= usize::MAX,
        alike(a, c),
        all_white(crlf),
        all_white(indent),
        kids_ok(kids, pos, n),
        0 <= k,
    ensures
        forall|m: int|
            k <= m < kids.len() ==> pretty_kids(a, crlf, indent, n, pos, kids, k, level)[(
            #[trigger] kids[m]) as int] == pretty_kids(c, crlf, indent, n, pos, kids, k, level)[kids[m] as int],
        forall|i: int|
            0 <= i < n ==> #[trigger] agree(
                a,
                c,
                pretty_kids(a, crlf, indent, n, pos, kids, k, level),
                pretty_kids(c, crlf, indent, n, pos, kids, k, level),
                i,
            ),
    decreases n - pos, 0int, kids.len() - k,
{
    let ra = pretty_kids(a, crlf, indent, n, pos, kids, k, level);
    let rc = pretty_kids(c, crlf, indent, n, pos, kids, k, level);
    if k < kids.len() {
        let p = kids[k] as int;
        assert(pos < p < n);
        let a1 = pretty_nodes(a, crlf, indent, n, p, level);
        let c1 = pretty_nodes(c, crlf, indent, n, p, level);
        lemma_det_nodes(a, c, crlf, indent, n, p, level);
        lemma_alike_nodes(a, crlf, indent, n, p, level);
        lemma_alike_nodes(c, crlf, indent, n, p, level);
        lemma_alike_sym(a, a1);
        lemma_alike_trans(a1, a, c);
        lemma_alike_trans(a1, c, c1);
        lemma_det_kids(a1, c1, crlf, indent, n, pos, kids, k + 1, level);
        assert forall|m: int| k + 1 <= m < kids.len() implies p + 1 <= #[trigger] kids[m] by {}
        lemma_frame_kids(a1, crlf, indent, n, pos, kids, k + 1, level, p + 1);
        lemma_frame_kids(c1, crlf, indent, n, pos, kids, k + 1, level, p + 1);
        assert(ra[p] == a1[p]);
        assert(rc[p] == c1[p]);
        assert forall|m: int| k <= m < kids.len() implies ra[(#[trigger] kids[m]) as int]
            == rc[kids[m] as int] by {}
        assert forall|i: int| 0 <= i < n implies #[trigger] agree(a, c, ra, rc, i) by {
            assert(agree(a1, c1, ra, rc, i));
            assert(agree(a, c, a1, c1, i));
        }
    } else {
        assert forall|i: int| 0 <= i < n implies #[trigger] agree(a, c, ra, rc, i) by {}
    }
}

/// A layout from the node at `pos` down gives the same for two sequences
/// that come out of a layout alike, wherever it changes anything; at `pos`
/// it gives the same.
pub proof fn lemma_det_nodes(
    a: Seq<NodeView>,
    c: Seq<NodeView>,
    crlf: Seq<char>,
    indent: Seq<char>,
    n: int,
    pos: int,
    level: nat,
)
    requires
        n == a.len() <= usize::MAX,
        alike(a, c),
        all_white(crlf),
        all_white(indent),
    ensures
        0 <= pos < n ==> pretty_nodes(a, crlf, indent, n, pos, level)[pos] == pretty_nodes(
            c,
            crlf,
            indent,
            n,
            pos,
            level,
        )[pos],
        forall|i: int|
            0 <= i < n ==> #[trigger] agree(
                a,
                c,
                pretty_nodes(a, crlf, indent, n, pos, level),
                pretty_nodes(c, crlf, indent, n, pos, level),
                i,
            ),
    decreases n - pos, 1int, 0int,
{
    let ra = pretty_nodes(a, crlf, indent, n, pos, level);
    let rc = pretty_nodes(c, crlf, indent, n, pos, level);
    if 0 <= pos < n {
        let tail = crlf + repeated(indent, level);
        let a1 = with_tail(a, pos, tail);
        let c1 = with_tail(c, pos, tail);
        lemma_frame_setters(a, pos, tail, tail);
        lemma_frame_setters(c, pos, tail, tail);
        lemma_frame_trans(a, c, c1);
        lemma_frame_trans(a1, a, c1);
        lemma_children_of_same(a, a1, pos);
        lemma_children_of_same(a1, c1, pos);
        let kids = children_of(a1, pos);
        lemma_kids_ok(a1, pos);
        assert(frame_of(a[pos]) == frame_of(c[pos]));
        assert(alike_text(a, pos, a[pos].text, c[pos].text));
        if kids.len() > 0 {
            let margin = crlf + repeated(indent, level + 1);
            let t = trimmed(text_or_empty(a[pos].text));
            assert(t == trimmed(text_or_empty(c[pos].text)));
            assert(t + crlf + repeated(indent, level + 1) =~= t + margin);
            let a2 = with_text(a1, pos, t + margin);
            let c2 = with_text(c1, pos, t + margin);
            lemma_same_node(a2[pos], c2[pos]);
            lemma_margin_white(crlf, indent, level + 1);
            lemma_alike_tail(a, pos, tail);
            lemma_alike_tail(c, pos, tail);
            lemma_alike_parent_text(a1, pos, margin);
            lemma_alike_parent_text(c1, pos, margin);
            lemma_alike_trans(a, a1, a2);
            lemma_alike_trans(c, c1, c2);
            lemma_alike_sym(a, a2);
            lemma_alike_trans(a2, a, c);
            lemma_alike_trans(a2, c, c2);
            let a3 = pretty_kids(a2, crlf, indent, n, pos, kids, 0, level + 1);
            let c3 = pretty_kids(c2, crlf, indent, n, pos, kids, 0, level + 1);
            lemma_det_kids(a2, c2, crlf, indent, n, pos, kids, 0, level + 1);
            lemma_frame_kids(a2, crlf, indent, n, pos, kids, 0, level + 1, pos + 1);
            lemma_frame_kids(c2, crlf, indent, n, pos, kids, 0, level + 1, pos + 1);
            let last = kids.last() as int;
            assert(pos < last < n);
            assert(a3[last] == c3[last]);
            assert(a3[pos] == a2[pos]);
            assert(c3[pos] == c2[pos]);
            assert(ra == with_tail(a3, last, tail));
            assert(rc == with_tail(c3, last, tail));
            assert forall|i: int| 0 <= i < n implies #[trigger] agree(a, c, ra, rc, i) by {
                if i == pos {
                } else if i == last {
                } else {
                    assert(agree(a2, c2, a3, c3, i));
                }
            }
        } else if !a1[pos].is_synthetic() {
            lemma_same_node(ra[pos], rc[pos]);
            assert forall|i: int| 0 <= i < n implies #[trigger] agree(a, c, ra, rc, i) by {}
        } else {
            lemma_same_node(ra[pos], rc[pos]);
            assert forall|i: int| 0 <= i < n implies #[trigger] agree(a, c, ra, rc, i) by {}
        }
    } else {
        assert forall|i: int| 0 <= i < n implies #[trigger] agree(a, c, ra, rc, i) by {}
    }
}

/// The root is found by the names.
proof fn lemma_root_same(a: Seq<NodeView>, c: Seq<NodeView>, i: int)
    requires
        same_frame(a, c),
        0 <= i,
    ensures
        root_from(a, i) == root_from(c, i),
    decreases a.len() - i,
{
    if i < a.len() {
        assert(frame_of(a[i]) == frame_of(c[i]));
        assert(a[i].local_name == c[i].local_name);
        lemma_root_same(a, c, i + 1);
    }
}

/// The root lies within the sequence or right behind it.
proof fn lemma_root_bound(a: Seq<NodeView>, i: int)
    requires
        0 <= i <= a.len(),
    ensures
        i <= root_from(a, i) <= a.len(),
    decreases a.len() - i,
{
    if i < a.len() && a[i].is_synthetic() {
        lemma_root_bound(a, i + 1);
    }
}

/// A layout from the node at `pos` down leaves what it gave as it is.
pub proof fn lemma_layout_settled(
    a: Seq<NodeView>,
    crlf: Seq<char>,
    indent: Seq<char>,
    pos: int,
    level: nat,
)
    requires
        a.len() <= usize::MAX,
        all_white(crlf),
        all_white(indent),
    ensures
        pretty_nodes(
            pretty_nodes(a, crlf, indent, a.len() as int, pos, level),
            crlf,
            indent,
            a.len() as int,
            pos,
            level,
        ) == pretty_nodes(a, crlf, indent, a.len() as int, pos, level),
{
    let n = a.len() as int;
    let b = pretty_nodes(a, crlf, indent, n, pos, level);
    let bb = pretty_nodes(b, crlf, indent, n, pos, level);
    lemma_alike_nodes(a, crlf, indent, n, pos, level);
    lemma_frame_nodes(b, crlf, indent, n, pos, level);
    lemma_det_nodes(a, b, crlf, indent, n, pos, level);
    assert forall|i: int| 0 <= i < n implies bb[i] == b[i] by {
        assert(agree(a, b, b, bb, i));
    }
    assert(bb =~= b);
}

/// Pretty-print idempotence.  Laying a tree out twice with the same
/// request, whose unit of indentation is white space, gives what laying it
/// out once gives.
pub proof fn law_pretty_is_idempotent(tree: TreeView, request: Seq<char>)
    requires
        tree.nodes.len() <= usize::MAX,
        all_white(last_line(request)),
    ensures
        pretty_view(pretty_view(tree, request), request) == pretty_view(tree, request),
{
    let crlf = requested_crlf(request);
    let indent = last_line(request);
    let nodes = tree.nodes;
    let n = nodes.len() as int;
    let root = root_of(nodes);
    lemma_root_bound(nodes, 0);
    assert(all_white(crlf)) by {
        assert(is_white('\r') && is_white('\n'));
    }
    let x = with_lead_tails(nodes, crlf, root);
    assert(same_frame(nodes, x)) by {
        assert forall|i: int| 0 <= i < nodes.len() implies frame_of(#[trigger] nodes[i])
            == frame_of(x[i]) by {}
    }
    let b = pretty_nodes(x, crlf, indent, n, root, 0);
    lemma_frame_nodes(x, crlf, indent, n, root, 0);
    lemma_frame_trans(nodes, x, b);
    lemma_root_same(nodes, b, 0);
    let once = pretty_view(tree, request);
    assert(once.nodes == b);
    assert(root_of(b) == root);
    let y = with_lead_tails(b, crlf, root);
    assert(y =~= b) by {
        assert forall|i: int| 0 <= i < n implies y[i] == b[i] by {
            if i < root {
                assert(b[i] == x[i]);
            }
        }
    }
    lemma_layout_settled(x, crlf, indent, root, 0);
    let twice = pretty_view(once, request);
    assert(twice.nodes == pretty_nodes(y, crlf, indent, n, root, 0));
    assert(twice.nodes == b);
}

/// Sequences that differ in texts and tails at most agree in identities
/// and labels.
proof fn lemma_frame_is_shape(a: Seq<NodeView>, c: Seq<NodeView>)
    requires
        same_frame(a, c),
    ensures
        crate::model::same_shape(a, c),
{
    assert forall|i: int| 0 <= i < a.len() implies (#[trigger] a[i]).idx == c[i].idx
        && a[i].route == c[i].route by {
        assert(frame_of(a[i]) == frame_of(c[i]));
        assert(frame_of(a[i]).idx == a[i].idx);
        assert(frame_of(a[i]).route == a[i].route);
    }
}

/// Laying a tree out keeps it sound.
pub proof fn law_pretty_keeps_sound(tree: TreeView, request: Seq<char>)
    requires
        crate::model::sound(tree),
        tree.nodes.len() <= usize::MAX,
    ensures
        crate::model::sound(pretty_view(tree, request)),
{
    let crlf = requested_crlf(request);
    let indent = last_line(request);
    let nodes = tree.nodes;
    let n = nodes.len() as int;
    let root = root_of(nodes);
    let x = with_lead_tails(nodes, crlf, root);
    assert(same_frame(nodes, x)) by {
        assert forall|i: int| 0 <= i < nodes.len() implies frame_of(#[trigger] nodes[i])
            == frame_of(x[i]) by {}
    }
    let b = pretty_nodes(x, crlf, indent, n, root, 0);
    lemma_frame_nodes(x, crlf, indent, n, root, 0);
    lemma_frame_trans(nodes, x, b);
    lemma_frame_is_shape(nodes, b);
    crate::wellformed::lemma_same_shape(nodes, b);
    assert forall|i: int| 0 <= i < b.len() implies (#[trigger] b[i]).idx < tree.count by {
        assert(nodes[i].idx == b[i].idx);
    }
}

/// Taking the indentation out of a tree keeps it sound.
pub proof fn law_noindent_keeps_sound(tree: TreeView)
    requires
        crate::model::sound(tree),
    ensures
        crate::model::sound(crate::layout::noindent_view(tree)),
{
    let after = crate::layout::noindent_view(tree).nodes;
    assert(crate::model::same_shape(tree.nodes, after));
    crate::wellformed::lemma_same_shape(tree.nodes, after);
    assert forall|i: int| 0 <= i < after.len() implies (#[trigger] after[i]).idx < tree.count by {
        assert(tree.nodes[i].idx == after[i].idx);
    }
}

} // verus!
