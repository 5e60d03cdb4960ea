//! Evaluating addresses against a tree.
//!
//! An address is split into steps at the `/` characters that stand outside
//! quotes and brackets.  Each step is read by the grammar, and the steps are
//! applied one after the other: the nodes that one step selects are the
//! starting points of the next.

use crate::etree::ETree;
use crate::etreenode::{attrs_view, NodeView};
use crate::evaluator::{evaluable, evaluates_true, expression_holds};
use crate::label::{decimal, push_decimal};
use crate::model::{children_of, descendants_of, named, parent_of, root_of, text_or_empty};
use crate::predicate::{child_tags, expr_text, names_view};
use crate::text::{chars_of, string_of, string_of_range};
use crate::xpath::{
    lit_last, lit_position, lit_text, read_step, segs_view, step_at, PredView, Predictor,
    QueryError, SegView, XPathSegment,
};
use vstd::prelude::*;

verus! {

/// The state of the scan that splits an address.
///
/// - `escaped`: the character before was a backslash that counts
/// - `quotes`: the quotes that are open, innermost last
/// - `depth`: how many brackets are open
/// - `points`: where the address is to be split
/// - `broken`: a bracket was closed that was not open
pub ghost struct SplitState {
    pub escaped: bool,
    pub quotes: Seq<char>,
    pub depth: nat,
    pub points: Seq<usize>,
    pub broken: bool,
}

/// The state after the character `c` at position `i`.
///
/// A backslash takes the next character out of the scan.  A quote closes the
/// innermost open quote of its kind or opens a new one.  Outside quotes, `[`
/// and `]` open and close a bracket, and outside quotes and brackets a `/`
/// is a place to split, unless the place before it was one.
pub open spec fn split_step(st: SplitState, c: char, i: usize) -> SplitState {
    if st.broken {
        st
    } else if st.escaped {
        SplitState { escaped: false, ..st }
    } else if c == '\\' {
        SplitState { escaped: true, ..st }
    } else if c == '\'' || c == '"' {
        if st.quotes.len() > 0 && st.quotes.last() == c {
            SplitState { quotes: st.quotes.drop_last(), ..st }
        } else {
            SplitState { quotes: st.quotes.push(c), ..st }
        }
    } else if st.quotes.len() == 0 {
        if c == '[' {
            SplitState { depth: st.depth + 1, ..st }
        } else if c == ']' {
            if st.depth > 0 {
                SplitState { depth: (st.depth - 1) as nat, ..st }
            } else {
                SplitState { broken: true, ..st }
            }
        } else if c == '/' && st.depth == 0 {
            if st.points.len() == 0 || st.points.last() + 1 < i {
                SplitState { points: st.points.push(i), ..st }
            } else {
                st
            }
        } else {
            st
        }
    } else {
        st
    }
}

/// The state after the characters from `i` on.
pub open spec fn split_scan(s: Seq<char>, i: int, st: SplitState) -> SplitState
    decreases s.len() - i,
{
    if i < 0 || i >= s.len() {
        st
    } else {
        split_scan(s, i + 1, split_step(st, s[i], i as usize))
    }
}

pub open spec fn split_start() -> SplitState {
    SplitState {
        escaped: false,
        quotes: Seq::empty(),
        depth: 0,
        points: Seq::empty(),
        broken: false,
    }
}

/// Where the address is to be split, or `None` where a quote or a bracket
/// is left open or a bracket is closed that was not open.
pub open spec fn split_points(s: Seq<char>) -> Option<Seq<usize>> {
    let st = split_scan(s, 0, split_start());
    if st.broken || st.quotes.len() > 0 || st.depth > 0 {
        None
    } else {
        Some(st.points)
    }
}

/// The pieces of `s` between the places `points`: the first from the start,
/// every other from its place on, the place included.
pub open spec fn pieces(s: Seq<char>, points: Seq<usize>) -> Seq<Seq<char>> {
    Seq::new(
        points.len() + 1,
        |k: int|
            s.subrange(
                if k == 0 {
                    0
                } else {
                    points[k - 1] as int
                },
                if k == points.len() {
                    s.len() as int
                } else {
                    points[k] as int
                },
            ),
    )
}

/// The pieces as steps: a leading piece that is empty or `.` is dropped, a
/// leading `..` reads `/..`, a leading `/` stays, and any other leading piece
/// gets `//` in front.
pub open spec fn normalized(p: Seq<Seq<char>>) -> Seq<Seq<char>> {
    let first = p[0];
    if first.len() == 0 || first == seq!['.'] {
        p.drop_first()
    } else if first == seq!['/'] {
        p
    } else if first == seq!['.', '.'] {
        seq![seq!['/', '.', '.']] + p.drop_first()
    } else {
        seq![seq!['/', '/'] + first] + p.drop_first()
    }
}

/// The step that a text is, or `None` where it is none as a whole.
pub open spec fn step_of(text: Seq<char>) -> Option<SegView> {
    match step_at(text, 0) {
        Some((seg, e)) => if e == text.len() {
            Some(seg)
        } else {
            None
        },
        None => None,
    }
}

/// The texts of the steps of an address.
pub open spec fn step_texts(path: Seq<char>) -> Option<Seq<Seq<char>>> {
    match split_points(path) {
        Some(points) => Some(normalized(pieces(path, points))),
        None => None,
    }
}

/// The steps of an address, or why it has none.
pub open spec fn compiled(path: Seq<char>) -> Result<Seq<SegView>, QueryError> {
    match step_texts(path) {
        Some(texts) => if forall|k: int| 0 <= k < texts.len() ==> step_of(#[trigger] texts[k])
            is Some {
            Ok(Seq::new(texts.len(), |k: int| step_of(texts[k]).unwrap()))
        } else {
            Err(QueryError::Syntax)
        },
        None => Err(QueryError::Unbalanced),
    }
}

/// Splits an address into the texts of its steps.
pub fn split_steps(path: &str) -> (r: Result<Vec<String>, QueryError>)
    ensures
        match r {
            Ok(v) => step_texts(path@) == Some(names_view(v@)),
            Err(e) => step_texts(path@) is None && e == QueryError::Unbalanced,
        },
{
    let s = chars_of(path);
    let mut escaped = false;
    let mut quotes: Vec<char> = Vec::new();
    let mut depth: usize = 0;
    let mut points: Vec<usize> = Vec::new();
    let mut i: usize = 0;
    while i < s.len()
        invariant
            i <= s.len(),
            depth <= i,
            s@ == path@,
            forall|k: int| 0 <= k < points.len() ==> (#[trigger] points@[k]) < i,
            forall|k: int, m: int| 0 <= k < m < points.len() ==> points@[k] < points@[m],
            split_scan(s@, 0, split_start()) == split_scan(
                s@,
                i as int,
                SplitState {
                    escaped: escaped,
                    quotes: quotes@,
                    depth: depth as nat,
                    points: points@,
                    broken: false,
                },
            ),
        decreases s.len() - i,
    {
        let c = s[i];
        let ghost st = SplitState {
            escaped: escaped,
            quotes: quotes@,
            depth: depth as nat,
            points: points@,
            broken: false,
        };
        if escaped {
            escaped = false;
        } else if c == '\\' {
            escaped = true;
        } else if c == '\'' || c == '"' {
            if quotes.len() > 0 && quotes[quotes.len() - 1] == c {
                quotes.pop();
            } else {
                quotes.push(c);
            }
        } else if quotes.len() == 0 {
            if c == '[' {
                depth += 1;
            } else if c == ']' {
                if depth > 0 {
                    depth -= 1;
                } else {
                    proof {
                        let broken = split_step(st, c, i);
                        assert(broken.broken);
                        lemma_broken_stays(s@, i + 1, broken);
                    }
                    return Err(QueryError::Unbalanced);
                }
            } else if c == '/' && depth == 0 {
                if points.len() == 0 || points[points.len() - 1] + 1 < i {
                    points.push(i);
                }
            }
        }
        i += 1;
    }
    if quotes.len() > 0 || depth > 0 {
        return Err(QueryError::Unbalanced);
    }
    let mut out: Vec<String> = Vec::new();
    let n = points.len();
    let mut k: usize = 0;
    let ghost all = pieces(s@, points@);
    while k < n
        invariant
            k <= n,
            n == points.len(),
            all == pieces(s@, points@),
            forall|j: int| 0 <= j < points.len() ==> (#[trigger] points@[j]) < s.len(),
            forall|j: int, m: int| 0 <= j < m < points.len() ==> points@[j] < points@[m],
            names_view(out@) == all.take(k as int),
        decreases n - k,
    {
        let from: usize = if k == 0 {
            0
        } else {
            points[k - 1]
        };
        let piece = string_of_range(&s, from, points[k]);
        let ghost before = names_view(out@);
        out.push(piece);
        assert(names_view(out@) =~= before.push(piece@));
        assert(all.take(k + 1) =~= all.take(k as int).push(all[k as int]));
        k += 1;
    }
    let from: usize = if n == 0 {
        0
    } else {
        points[n - 1]
    };
    let piece = string_of_range(&s, from, s.len());
    let ghost before = names_view(out@);
    out.push(piece);
    assert(names_view(out@) =~= before.push(piece@));
    assert(names_view(out@) =~= all);
    let first = chars_of(out[0].as_str());
    assert(first@ == all[0]);
    if first.len() == 0 || (first.len() == 1 && first[0] == '.') {
        assert(first@.len() == 0 || first@ =~= seq!['.']);
        out.remove(0);
        assert(names_view(out@) =~= all.drop_first());
    } else if first.len() == 1 && first[0] == '/' {
        assert(first@ =~= seq!['/']);
    } else if first.len() == 2 && first[0] == '.' && first[1] == '.' {
        assert(first@ =~= seq!['.', '.']);
        let mut lead: Vec<char> = Vec::new();
        lead.push('/');
        lead.push('.');
        lead.push('.');
        assert(lead@ =~= seq!['/', '.', '.']);
        out.set(0, string_of(&lead));
        assert(names_view(out@) =~= seq![seq!['/', '.', '.']] + all.drop_first());
    } else {
        assert(first@ != seq!['.']) by {
            if first@ == seq!['.'] {
                assert(first@.len() == 1 && first@[0] == '.');
            }
        }
        assert(first@ != seq!['/']) by {
            if first@ == seq!['/'] {
                assert(first@.len() == 1 && first@[0] == '/');
            }
        }
        assert(first@ != seq!['.', '.']) by {
            if first@ == seq!['.', '.'] {
                assert(first@.len() == 2 && first@[0] == '.' && first@[1] == '.');
            }
        }
        let mut lead: Vec<char> = Vec::new();
        lead.push('/');
        lead.push('/');
        crate::text::push_chars(&mut lead, &first);
        assert(lead@ =~= seq!['/', '/'] + first@);
        out.set(0, string_of(&lead));
        assert(names_view(out@) =~= seq![seq!['/', '/'] + first@] + all.drop_first());
    }
    Ok(out)
}

/// Once a bracket was closed that was not open, the scan stays broken.
proof fn lemma_broken_stays(s: Seq<char>, i: int, st: SplitState)
    requires
        st.broken,
    ensures
        split_scan(s, i, st).broken,
    decreases s.len() - i,
{
    if 0 <= i < s.len() {
        lemma_broken_stays(s, i + 1, split_step(st, s[i], i as usize));
    }
}

/// Reads the step that `text` is as a whole.
pub fn parse_step(text: &str) -> (r: Option<XPathSegment>)
    ensures
        match r {
            Some(seg) => step_of(text@) == Some(seg@),
            None => step_of(text@) is None,
        },
{
    let s = chars_of(text);
    match read_step(&s, 0) {
        Some((seg, e)) => if e == s.len() {
            Some(seg)
        } else {
            None
        },
        None => None,
    }
}

/// Reads an address into its steps.
pub fn compile(path: &str) -> (r: Result<Vec<XPathSegment>, QueryError>)
    ensures
        match r {
            Ok(v) => compiled(path@) == Ok::<Seq<SegView>, QueryError>(segs_view(v@)),
            Err(e) => compiled(path@) == Err::<Seq<SegView>, QueryError>(e),
        },
{
    match split_steps(path) {
        Err(e) => Err(e),
        Ok(texts) => {
            let mut steps: Vec<XPathSegment> = Vec::new();
            let ghost tv = names_view(texts@);
            let mut k: usize = 0;
            while k < texts.len()
                invariant
                    k <= texts.len(),
                    tv == names_view(texts@),
                    step_texts(path@) == Some(tv),
                    steps.len() == k,
                    forall|j: int| 0 <= j < k ==> step_of(#[trigger] tv[j]) == Some(steps@[j]@),
                decreases texts.len() - k,
            {
                assert(tv[k as int] == texts@[k as int]@);
                match parse_step(texts[k].as_str()) {
                    Some(seg) => {
                        steps.push(seg);
                    },
                    None => {
                        return Err(QueryError::Syntax);
                    },
                }
                k += 1;
            }
            assert(segs_view(steps@) =~= Seq::new(tv.len(), |k: int| step_of(tv[k]).unwrap()));
            Ok(steps)
        },
    }
}

/// Whether the expression is one that the evaluator takes, and true.
pub open spec fn holds(e: Seq<char>) -> bool {
    evaluable(e) && expression_holds(e)
}

/// What is known of a node under test, before any child is chosen:
/// `position()`, `last()` and `text()`, then `@*` where the node has an
/// attribute, then `@` and the name of each attribute with its value.
pub open spec fn base_info(node: NodeView, position: nat, last: nat) -> Seq<
    (Seq<char>, Seq<char>),
> {
    seq![
        (lit_position(), decimal(position)),
        (lit_last(), decimal(last)),
        (lit_text(), text_or_empty(node.text)),
    ] + (if node.attr.len() > 0 {
        seq![(seq!['@', '*'], Seq::<char>::empty())]
    } else {
        Seq::empty()
    }) + Seq::new(node.attr.len(), |k: int| (seq!['@'] + node.attr[k].0, node.attr[k].1))
}

/// The text of the node at `k`; no characters where there is no text or no
/// such node.
pub open spec fn kid_text(nodes: Seq<NodeView>, k: usize) -> Seq<char> {
    if k < nodes.len() {
        text_or_empty(nodes[k as int].text)
    } else {
        Seq::empty()
    }
}

/// The children of the node at `p` whose name is `tag`.
pub open spec fn kids_of(nodes: Seq<NodeView>, p: int, tag: Seq<char>) -> Seq<usize> {
    named(nodes, children_of(nodes, p), tag)
}

/// What is known once child `k` has been chosen for the tag at `t`.
pub open spec fn with_kid(
    nodes: Seq<NodeView>,
    p: int,
    tags: Seq<Seq<char>>,
    info: Seq<(Seq<char>, Seq<char>)>,
    t: int,
    k: int,
) -> Seq<(Seq<char>, Seq<char>)> {
    info.push((tags[t], kid_text(nodes, kids_of(nodes, p, tags[t])[k])))
}

/// Whether the predicate holds for some choice of one child for each of the
/// tags from `t` on, given what `info` holds for the tags before.  For the
/// tag at `t` the children from number `k` on are tried, one after the
/// other.
pub open spec fn some_combo(
    nodes: Seq<NodeView>,
    cond: PredView,
    p: int,
    tags: Seq<Seq<char>>,
    info: Seq<(Seq<char>, Seq<char>)>,
    t: int,
    k: int,
) -> bool
    decreases tags.len() - t, kids_of(nodes, p, tags[t]).len() - k,
{
    if t < 0 || t >= tags.len() {
        holds(expr_text(cond, info))
    } else if k < 0 || k >= kids_of(nodes, p, tags[t]).len() {
        false
    } else {
        some_combo(nodes, cond, p, tags, with_kid(nodes, p, tags, info, t, k), t + 1, 0)
            || some_combo(nodes, cond, p, tags, info, t, k + 1)
    }
}

/// Whether the node at `p` passes the predicate as number `position` of
/// `last` candidates.
///
/// Where the predicate names no child, its expression decides.  Where it
/// names children, the node must have a child of each name, and the
/// expression must hold for some choice of one child for each name, the
/// child's text standing for the name.
pub open spec fn accepts(
    nodes: Seq<NodeView>,
    cond: PredView,
    p: usize,
    position: nat,
    last: nat,
) -> bool {
    if p >= nodes.len() {
        false
    } else {
        let tags = child_tags(cond);
        let base = base_info(nodes[p as int], position, last);
        if tags.len() == 0 {
            holds(expr_text(cond, base))
        } else if exists|t: int| 0 <= t < tags.len() && (#[trigger] kids_of(
            nodes,
            p as int,
            tags[t],
        )).len() == 0 {
            false
        } else {
            some_combo(nodes, cond, p as int, tags, base, 0, 0)
        }
    }
}

/// Those of the first `k` candidates that pass the predicate, in order.  The
/// position of a candidate counts from one, among all the candidates.
pub open spec fn accepted_upto(
    nodes: Seq<NodeView>,
    cond: PredView,
    cands: Seq<usize>,
    k: int,
) -> Seq<usize>
    decreases k,
{
    if k <= 0 {
        Seq::empty()
    } else {
        let rest = accepted_upto(nodes, cond, cands, k - 1);
        if accepts(nodes, cond, cands[k - 1], k as nat, cands.len()) {
            rest.push(cands[k - 1])
        } else {
            rest
        }
    }
}

/// The candidates that pass the predicate; all of them where there is none.
pub open spec fn filtered(nodes: Seq<NodeView>, cond: PredView, cands: Seq<usize>) -> Seq<usize> {
    if cond is Nothing {
        cands
    } else {
        accepted_upto(nodes, cond, cands, cands.len() as int)
    }
}

/// The nodes that a step selects from the node at `pos`, in document order.
///
/// `.` selects the node itself and `..` its parent.  Any other step takes the
/// descendants after `//` and the children otherwise, keeps those of the
/// step's name, or all for `*`, and of these the ones that pass the
/// predicate.
pub open spec fn step_result(nodes: Seq<NodeView>, seg: SegView, pos: usize) -> Seq<usize> {
    if seg.node == seq!['.'] {
        seq![pos]
    } else if seg.node == seq!['.', '.'] {
        match parent_of(nodes, pos as int) {
            Some(q) => seq![q],
            None => Seq::empty(),
        }
    } else {
        let cands = if seg.separator == seq!['/', '/'] {
            descendants_of(nodes, pos as int)
        } else {
            children_of(nodes, pos as int)
        };
        let tagged = if seg.node == seq!['*'] {
            cands
        } else {
            named(nodes, cands, seg.node)
        };
        filtered(nodes, seg.condition, tagged)
    }
}

fn decimal_string(n: usize) -> (r: String)
    ensures
        r@ == decimal(n as nat),
{
    let mut v: Vec<char> = Vec::new();
    push_decimal(&mut v, n);
    assert(v@ =~= decimal(n as nat));
    string_of(&v)
}

fn text_of_node(tree: &ETree, k: usize) -> (r: String)
    ensures
        r@ == kid_text(tree@.nodes, k),
{
    match tree.node(k) {
        Some(node) => match node.get_text() {
            Some(t) => t,
            None => String::new(),
        },
        None => String::new(),
    }
}

/// What is known of the node at `p` as number `position` of `last`
/// candidates.
fn base_info_of(tree: &ETree, p: usize, position: usize, last: usize) -> (r: Vec<
    (String, String),
>)
    requires
        p < tree@.nodes.len(),
    ensures
        attrs_view(r@) == base_info(tree@.nodes[p as int], position as nat, last as nat),
{
    let mut info: Vec<(String, String)> = Vec::new();
    proof {
        reveal_strlit("position()");
        reveal_strlit("last()");
        reveal_strlit("text()");
        reveal_strlit("@*");
        assert("position()"@ =~= lit_position());
        assert("last()"@ =~= lit_last());
        assert("text()"@ =~= lit_text());
        assert("@*"@ =~= seq!['@', '*']);
    }
    info.push(("position()".to_string(), decimal_string(position)));
    info.push(("last()".to_string(), decimal_string(last)));
    info.push(("text()".to_string(), text_of_node(tree, p)));
    let ghost node = tree@.nodes[p as int];
    let ghost head = seq![
        (lit_position(), decimal(position as nat)),
        (lit_last(), decimal(last as nat)),
        (lit_text(), text_or_empty(node.text)),
    ];
    assert(attrs_view(info@) =~= head);
    let attrs = match tree.node(p) {
        Some(n) => n.get_attrs(),
        None => Vec::new(),
    };
    assert(attrs_view(attrs@) == node.attr);
    if attrs.len() > 0 {
        info.push(("@*".to_string(), String::new()));
    }
    let ghost lead = head + (if node.attr.len() > 0 {
        seq![(seq!['@', '*'], Seq::<char>::empty())]
    } else {
        Seq::empty()
    });
    assert(attrs_view(info@) =~= lead);
    let ghost tail = Seq::new(
        node.attr.len(),
        |k: int| (seq!['@'] + node.attr[k].0, node.attr[k].1),
    );
    let mut k: usize = 0;
    while k < attrs.len()
        invariant
            k <= attrs.len(),
            attrs_view(attrs@) == node.attr,
            tail == Seq::new(
                node.attr.len(),
                |k: int| (seq!['@'] + node.attr[k].0, node.attr[k].1),
            ),
            attrs_view(info@) == lead + tail.take(k as int),
        decreases attrs.len() - k,
    {
        let mut key: Vec<char> = Vec::new();
        key.push('@');
        crate::text::push_str_chars(&mut key, attrs[k].0.as_str());
        assert(attrs_view(attrs@)[k as int] == (attrs@[k as int].0@, attrs@[k as int].1@));
        assert(key@ =~= seq!['@'] + node.attr[k as int].0);
        let ghost before = attrs_view(info@);
        info.push((string_of(&key), attrs[k].1.clone()));
        assert(attrs_view(info@) =~= before.push(tail[k as int]));
        assert(tail.take(k + 1) =~= tail.take(k as int).push(tail[k as int]));
        k += 1;
    }
    assert(tail.take(attrs.len() as int) =~= tail);
    info
}

/// Whether the predicate holds for some choice of one child for each of the
/// tags from `t` on.
fn any_combo(
    tree: &ETree,
    cond: &Predictor,
    p: usize,
    tags: &Vec<String>,
    kids: &Vec<Vec<usize>>,
    info: &mut Vec<(String, String)>,
    t: usize,
) -> (r: bool)
    requires
        t <= tags.len(),
        tags.len() == kids.len(),
        forall|j: int|
            0 <= j < tags.len() ==> (#[trigger] kids@[j])@ == kids_of(
                tree@.nodes,
                p as int,
                names_view(tags@)[j],
            ),
    ensures
        r == some_combo(
            tree@.nodes,
            cond@,
            p as int,
            names_view(tags@),
            attrs_view(old(info)@),
            t as int,
            0,
        ),
        attrs_view(final(info)@) == attrs_view(old(info)@),
    decreases tags.len() - t,
{
    let ghost nodes = tree@.nodes;
    let ghost tv = names_view(tags@);
    let ghost start = attrs_view(info@);
    assert(tv.len() == tags.len());
    if t >= tags.len() {
        let e = cond.expr(info);
        return evaluates_true(e.as_str());
    }
    let list = &kids[t];
    assert(list@ == kids_of(nodes, p as int, tv[t as int]));
    let mut k: usize = 0;
    while k < list.len()
        invariant
            k <= list.len(),
            t < tags.len() == kids.len(),
            tv.len() == tags.len(),
            nodes == tree@.nodes,
            tv == names_view(tags@),
            list@ == kids_of(nodes, p as int, tv[t as int]),
            attrs_view(info@) == start,
            start == attrs_view(old(info)@),
            forall|j: int|
                0 <= j < tags.len() ==> (#[trigger] kids@[j])@ == kids_of(
                    tree@.nodes,
                    p as int,
                    names_view(tags@)[j],
                ),
            some_combo(nodes, cond@, p as int, tv, start, t as int, 0) == some_combo(
                nodes,
                cond@,
                p as int,
                tv,
                start,
                t as int,
                k as int,
            ),
        decreases list.len() - k,
    {
        let text = text_of_node(tree, list[k]);
        info.push((tags[t].clone(), text));
        assert(tv[t as int] == tags@[t as int]@);
        assert(attrs_view(info@) =~= with_kid(nodes, p as int, tv, start, t as int, k as int));
        let found = any_combo(tree, cond, p, tags, kids, info, t + 1);
        let ghost after = info@;
        info.pop();
        assert(attrs_view(info@) =~= attrs_view(after).drop_last());
        assert(with_kid(nodes, p as int, tv, start, t as int, k as int).drop_last() =~= start);
        if found {
            return true;
        }
        k += 1;
    }
    false
}

/// Whether the node at `p` passes the predicate as number `position` of
/// `last` candidates.
pub fn accepts_at(tree: &ETree, cond: &Predictor, p: usize, position: usize, last: usize) -> (r:
    bool)
    ensures
        r == accepts(tree@.nodes, cond@, p, position as nat, last as nat),
{
    if p >= tree.len() {
        return false;
    }
    let (tags, _, _) = cond.collect();
    let mut info = base_info_of(tree, p, position, last);
    if tags.len() == 0 {
        let e = cond.expr(&info);
        return evaluates_true(e.as_str());
    }
    let ghost nodes = tree@.nodes;
    let ghost tv = names_view(tags@);
    let mut kids: Vec<Vec<usize>> = Vec::new();
    let mut t: usize = 0;
    while t < tags.len()
        invariant
            t <= tags.len(),
            kids.len() == t,
            nodes == tree@.nodes,
            tv == names_view(tags@),
            tv == child_tags(cond@),
            p < nodes.len(),
            forall|j: int|
                0 <= j < t ==> (#[trigger] kids@[j])@ == kids_of(nodes, p as int, tv[j])
                    && kids@[j]@.len() > 0,
        decreases tags.len() - t,
    {
        assert(tv[t as int] == tags@[t as int]@);
        let list = tree.children_by_name(p, tags[t].as_str());
        if list.len() == 0 {
            assert(kids_of(nodes, p as int, tv[t as int]).len() == 0);
            return false;
        }
        kids.push(list);
        t += 1;
    }
    assert(!(exists|t: int| 0 <= t < tv.len() && (#[trigger] kids_of(nodes, p as int, tv[t])).len()
        == 0)) by {
        assert forall|t: int| 0 <= t < tv.len() implies (#[trigger] kids_of(
            nodes,
            p as int,
            tv[t],
        )).len() != 0 by {
            assert(kids@[t]@ == kids_of(nodes, p as int, tv[t]));
        }
    }
    any_combo(tree, cond, p, &tags, &kids, &mut info, 0)
}

/// The candidates that pass the predicate.
pub fn filter_candidates(tree: &ETree, cond: &Predictor, cands: Vec<usize>) -> (r: Vec<usize>)
    ensures
        r@ == filtered(tree@.nodes, cond@, cands@),
{
    match cond {
        Predictor::Nothing => {
            return cands;
        },
        _ => {},
    }
    let mut out: Vec<usize> = Vec::new();
    let n = cands.len();
    let mut i: usize = 0;
    while i < n
        invariant
            i <= n == cands.len(),
            out@ == accepted_upto(tree@.nodes, cond@, cands@, i as int),
        decreases n - i,
    {
        if accepts_at(tree, cond, cands[i], i + 1, n) {
            out.push(cands[i]);
        }
        i += 1;
    }
    out
}

/// The nodes that the step selects from the node at `pos`.
pub fn find_step(tree: &ETree, seg: &XPathSegment, pos: usize) -> (r: Vec<usize>)
    ensures
        r@ == step_result(tree@.nodes, seg@, pos),
{
    let name = chars_of(seg.node.as_str());
    let mut result: Vec<usize> = Vec::new();
    if name.len() == 1 && name[0] == '.' {
        assert(name@ =~= seq!['.']);
        result.push(pos);
        assert(result@ =~= seq![pos]);
        return result;
    }
    assert(name@ != seq!['.']) by {
        if name@ == seq!['.'] {
            assert(name@.len() == 1 && name@[0] == '.');
        }
    }
    if name.len() == 2 && name[0] == '.' && name[1] == '.' {
        assert(name@ =~= seq!['.', '.']);
        match tree.parent(pos) {
            Some(q) => {
                result.push(q);
                assert(result@ =~= seq![q]);
            },
            None => {},
        }
        return result;
    }
    assert(name@ != seq!['.', '.']) by {
        if name@ == seq!['.', '.'] {
            assert(name@.len() == 2 && name@[0] == '.' && name@[1] == '.');
        }
    }
    let sep = chars_of(seg.separator.as_str());
    let cands = if sep.len() == 2 && sep[0] == '/' && sep[1] == '/' {
        assert(sep@ =~= seq!['/', '/']);
        tree.descendant(pos)
    } else {
        assert(sep@ != seq!['/', '/']) by {
            if sep@ == seq!['/', '/'] {
                assert(sep@.len() == 2 && sep@[0] == '/' && sep@[1] == '/');
            }
        }
        tree.children(pos)
    };
    let tagged = if name.len() == 1 && name[0] == '*' {
        assert(name@ =~= seq!['*']);
        cands
    } else {
        assert(name@ != seq!['*']) by {
            if name@ == seq!['*'] {
                assert(name@.len() == 1 && name@[0] == '*');
            }
        }
        tree.keep_named(&cands, seg.node.as_str())
    };
    filter_candidates(tree, &seg.condition, tagged)
}

/// The list in the order in which a search walks it: as it is for a
/// forward search, back to front for a backward one.
pub open spec fn ordered(list: Seq<usize>, forward: bool) -> Seq<usize> {
    if forward {
        list
    } else {
        list.reverse()
    }
}

/// The nodes that the steps from number `k` on select from the node at
/// `pos`, in the order of the search: the node itself where no step is left,
/// else what the remaining steps select from each node that step `k`
/// selects.
pub open spec fn results_from(
    nodes: Seq<NodeView>,
    steps: Seq<SegView>,
    k: int,
    pos: usize,
    forward: bool,
) -> Seq<usize>
    decreases steps.len() - k, 0int, 0int,
{
    if k < 0 || k >= steps.len() {
        seq![pos]
    } else {
        results_over(
            nodes,
            steps,
            k + 1,
            ordered(step_result(nodes, steps[k], pos), forward),
            forward,
        )
    }
}

/// What the steps from number `k` on select from each node of `list`, one
/// node after the other.
pub open spec fn results_over(
    nodes: Seq<NodeView>,
    steps: Seq<SegView>,
    k: int,
    list: Seq<usize>,
    forward: bool,
) -> Seq<usize>
    decreases steps.len() - k, 1int, list.len(),
{
    if list.len() == 0 {
        Seq::empty()
    } else {
        results_from(nodes, steps, k, list[0], forward) + results_over(
            nodes,
            steps,
            k,
            list.drop_first(),
            forward,
        )
    }
}

/// How many pairs of a node and a step the search from the node at `pos`
/// with the steps from number `k` on goes through.
pub open spec fn work_from(
    nodes: Seq<NodeView>,
    steps: Seq<SegView>,
    k: int,
    pos: usize,
    forward: bool,
) -> nat
    decreases steps.len() - k, 0int, 0int,
{
    if k < 0 || k >= steps.len() {
        1
    } else {
        1 + work_over(
            nodes,
            steps,
            k + 1,
            ordered(step_result(nodes, steps[k], pos), forward),
            forward,
        )
    }
}

/// The same for each node of `list`, added up.
pub open spec fn work_over(
    nodes: Seq<NodeView>,
    steps: Seq<SegView>,
    k: int,
    list: Seq<usize>,
    forward: bool,
) -> nat
    decreases steps.len() - k, 1int, list.len(),
{
    if list.len() == 0 {
        0
    } else {
        work_from(nodes, steps, k, list[0], forward) + work_over(
            nodes,
            steps,
            k,
            list.drop_first(),
            forward,
        )
    }
}

/// What a search has still to give: for each pair of a node and a step
/// number that waits, last first, what the steps from that number on select
/// from the node.
pub open spec fn pending(
    nodes: Seq<NodeView>,
    steps: Seq<SegView>,
    waiting: Seq<(usize, usize)>,
    forward: bool,
) -> Seq<usize>
    decreases waiting.len(),
{
    if waiting.len() == 0 {
        Seq::empty()
    } else {
        results_from(nodes, steps, waiting.last().1 as int, waiting.last().0, forward) + pending(
            nodes,
            steps,
            waiting.drop_last(),
            forward,
        )
    }
}

/// How much work waits.
pub open spec fn waiting_work(
    nodes: Seq<NodeView>,
    steps: Seq<SegView>,
    waiting: Seq<(usize, usize)>,
    forward: bool,
) -> nat
    decreases waiting.len(),
{
    if waiting.len() == 0 {
        0
    } else {
        work_from(nodes, steps, waiting.last().1 as int, waiting.last().0, forward)
            + waiting_work(nodes, steps, waiting.drop_last(), forward)
    }
}

/// The nodes that an address selects from the node at `pos`, in the order of
/// the search; none where the address has no steps to apply.
pub open spec fn query_results(
    nodes: Seq<NodeView>,
    path: Seq<char>,
    pos: usize,
    forward: bool,
) -> Seq<usize> {
    match compiled(path) {
        Ok(steps) => results_from(nodes, steps, 0, pos, forward),
        Err(_) => Seq::empty(),
    }
}

/// The first of a sequence, if it has one.
pub open spec fn first_of(list: Seq<usize>) -> Option<usize> {
    if list.len() > 0 {
        Some(list[0])
    } else {
        None
    }
}

/// A search in progress.
///
/// # Supported syntax
/// ## Steps
/// - `nodename`: the same as `//nodename`
/// - `*`: any node
/// - `/`: among the children of the current node
/// - `//`: among the descendants of the current node
/// - `.`: the current node
/// - `..`: the parent node
/// - `@attrname`: any node with that attribute
/// ## Predicates
/// - `[1]`: the first element
/// - `[last()-1]`: the second to last element
/// - `[position() < 3]`: the first and the second element
/// - `[@attrname]`: an element with the attribute `attrname`
/// - `[@*]`: an element with any attribute
/// - `[@attrname='value']`: an element whose attribute has that value
/// - `[text()='value']`: an element whose text is `value`
/// - `[child-tag='value']`: an element with a child `child-tag` whose text
///   is `value`
/// - `[text()='value' and child-tag='value']`: two conditions joined by `and`
///   or `or`; more with parentheses
///
/// # Values that are compared
/// A comparison is decided by an evaluator of expressions, which is handed
/// expressions of a small language only (see [`crate::evaluator`]).  A
/// comparison in which the value of the node, or the value written in the
/// address, holds a character that is not ASCII, a single or double quote or
/// a backslash is never true, whatever the operator; neither is one with a
/// number of more than 18 digits.  Values are compared as texts with `=` and
/// `!=`; `<`, `>`, `<=` and `>=` hold between numbers only, that is in
/// comparisons with `position()`.
///
/// The nodes come one at a time, and the search does only the work that the
/// nodes asked for need.  A search cannot be started again; make a new one.
pub struct XPathIterator<'a> {
    tree: &'a ETree,
    direction: bool,
    path_list: Vec<XPathSegment>,
    failure: Option<QueryError>,
    waiting: Vec<(usize, usize)>,
}

impl<'a> XPathIterator<'a> {
    /// The nodes that the search has still to give, in order.
    pub closed spec fn remaining(&self) -> Seq<usize> {
        pending(self.tree@.nodes, segs_view(self.path_list@), self.waiting@, self.direction)
    }

    /// Why the address could not be read, if it could not.
    pub closed spec fn failure_view(&self) -> Option<QueryError> {
        self.failure
    }

    closed spec fn work(&self) -> nat {
        waiting_work(self.tree@.nodes, segs_view(self.path_list@), self.waiting@, self.direction)
    }

    /// A search for `path` from the node at `pos`, forward where `dir` is
    /// true.  An address that cannot be read gives a search without nodes.
    pub fn new(tree: &'a ETree, path: &str, pos: usize, dir: bool) -> (r: Self)
        ensures
            r.remaining() == query_results(tree@.nodes, path@, pos, dir),
            r.failure_view() == match compiled(path@) {
                Ok(_) => None,
                Err(e) => Some(e),
            },
    {
        match compile(path) {
            Ok(steps) => {
                let mut first: Vec<(usize, usize)> = Vec::new();
                first.push((pos, 0));
                let r = XPathIterator {
                    tree: tree,
                    direction: dir,
                    path_list: steps,
                    failure: None,
                    waiting: first,
                };
                proof {
                    let st = r.waiting@;
                    assert(st.len() == 1);
                    assert(st.last() == (pos, 0usize));
                    assert(st.drop_last() =~= Seq::<(usize, usize)>::empty());
                    assert(pending(tree@.nodes, segs_view(r.path_list@), st.drop_last(), dir)
                        =~= Seq::<usize>::empty());
                    assert(pending(tree@.nodes, segs_view(r.path_list@), st, dir)
                        =~= results_from(tree@.nodes, segs_view(r.path_list@), 0, pos, dir));
                }
                r
            },
            Err(e) => XPathIterator {
                tree: tree,
                direction: dir,
                path_list: Vec::new(),
                failure: Some(e),
                waiting: Vec::new(),
            },
        }
    }

    /// Why the address could not be read, if it could not.
    pub fn error(&self) -> (r: Option<QueryError>)
        ensures
            r == self.failure_view(),
    {
        self.failure
    }

    /// The nodes that the step selects from the node at `pos`.
    fn _find(&self, step: usize, pos: usize) -> (r: Vec<usize>)
        requires
            step < self.path_list.len(),
        ensures
            r@ == step_result(self.tree@.nodes, segs_view(self.path_list@)[step as int], pos),
    {
        find_step(self.tree, &self.path_list[step], pos)
    }

    /// Puts the nodes of `list` on the waiting list for step `k`, the first
    /// of them on top.
    fn push_all(&mut self, list: &Vec<usize>, k: usize)
        ensures
            final(self).tree == old(self).tree,
            final(self).direction == old(self).direction,
            final(self).path_list == old(self).path_list,
            final(self).failure == old(self).failure,
            pending(
                old(self).tree@.nodes,
                segs_view(old(self).path_list@),
                final(self).waiting@,
                old(self).direction,
            ) == results_over(
                old(self).tree@.nodes,
                segs_view(old(self).path_list@),
                k as int,
                list@,
                old(self).direction,
            ) + pending(
                old(self).tree@.nodes,
                segs_view(old(self).path_list@),
                old(self).waiting@,
                old(self).direction,
            ),
            waiting_work(
                old(self).tree@.nodes,
                segs_view(old(self).path_list@),
                final(self).waiting@,
                old(self).direction,
            ) == work_over(
                old(self).tree@.nodes,
                segs_view(old(self).path_list@),
                k as int,
                list@,
                old(self).direction,
            ) + waiting_work(
                old(self).tree@.nodes,
                segs_view(old(self).path_list@),
                old(self).waiting@,
                old(self).direction,
            ),
    {
        let ghost nodes = self.tree@.nodes;
        let ghost steps = segs_view(self.path_list@);
        let ghost forward = self.direction;
        let ghost base = self.waiting@;
        let n = list.len();
        let mut j: usize = n;
        assert(list@.subrange(n as int, n as int) =~= Seq::<usize>::empty());
        assert(pending(nodes, steps, base, forward) =~= Seq::<usize>::empty() + pending(
            nodes,
            steps,
            base,
            forward,
        ));
        while j > 0
            invariant
                j <= n == list.len(),
                self.tree == old(self).tree,
                self.direction == old(self).direction,
                self.path_list == old(self).path_list,
                self.failure == old(self).failure,
                nodes == self.tree@.nodes,
                steps == segs_view(self.path_list@),
                forward == self.direction,
                base == old(self).waiting@,
                pending(nodes, steps, self.waiting@, forward) == results_over(
                    nodes,
                    steps,
                    k as int,
                    list@.subrange(j as int, n as int),
                    forward,
                ) + pending(nodes, steps, base, forward),
                waiting_work(nodes, steps, self.waiting@, forward) == work_over(
                    nodes,
                    steps,
                    k as int,
                    list@.subrange(j as int, n as int),
                    forward,
                ) + waiting_work(nodes, steps, base, forward),
            decreases j,
        {
            j -= 1;
            let ghost before = self.waiting@;
            self.waiting.push((list[j], k));
            proof {
                let now = self.waiting@;
                let part = list@.subrange(j as int, n as int);
                assert(now.drop_last() =~= before);
                assert(now.last() == (list@[j as int], k));
                assert(part[0] == list@[j as int]);
                assert(part.drop_first() =~= list@.subrange(j + 1, n as int));
                assert(pending(nodes, steps, now, forward) =~= results_over(
                    nodes,
                    steps,
                    k as int,
                    part,
                    forward,
                ) + pending(nodes, steps, base, forward));
            }
        }
        assert(list@.subrange(0, n as int) =~= list@);
    }

    /// The next node of the search, or `None` where it has given them all.
    pub fn next(&mut self) -> (r: Option<usize>)
        ensures
            match r {
                Some(p) => old(self).remaining().len() > 0 && p == old(self).remaining()[0]
                    && final(self).remaining() == old(self).remaining().drop_first(),
                None => old(self).remaining().len() == 0 && final(self).remaining().len() == 0,
            },
            final(self).failure_view() == old(self).failure_view(),
    {
        let ghost nodes = self.tree@.nodes;
        let ghost steps = segs_view(self.path_list@);
        let ghost forward = self.direction;
        while self.waiting.len() > 0
            invariant
                self.tree == old(self).tree,
                self.direction == old(self).direction,
                self.path_list == old(self).path_list,
                self.failure == old(self).failure,
                nodes == self.tree@.nodes,
                steps == segs_view(self.path_list@),
                forward == self.direction,
                self.remaining() == old(self).remaining(),
            decreases self.work(),
        {
            let ghost before = self.waiting@;
            let item = self.waiting.pop().unwrap();
            let ghost rest = self.waiting@;
            assert(rest == before.drop_last());
            assert(item == before.last());
            assert(steps.len() == self.path_list.len());
            if item.1 >= self.path_list.len() {
                assert(pending(nodes, steps, before, forward) =~= seq![item.0] + pending(
                    nodes,
                    steps,
                    rest,
                    forward,
                ));
                assert((seq![item.0] + pending(nodes, steps, rest, forward)).drop_first()
                    =~= pending(nodes, steps, rest, forward));
                return Some(item.0);
            }
            let found = self._find(item.1, item.0);
            let list = if self.direction {
                found
            } else {
                reversed(&found)
            };
            assert(list@ == ordered(step_result(nodes, steps[item.1 as int], item.0), forward));
            self.push_all(&list, item.1 + 1);
        }
        assert(self.waiting@ =~= Seq::<(usize, usize)>::empty());
        None
    }
}

/// The list back to front.
fn reversed(list: &Vec<usize>) -> (r: Vec<usize>)
    ensures
        r@ == list@.reverse(),
{
    let mut r: Vec<usize> = Vec::new();
    let n = list.len();
    let mut i: usize = 0;
    while i < n
        invariant
            i <= n == list.len(),
            r@ == list@.reverse().take(i as int),
        decreases n - i,
    {
        r.push(list[n - 1 - i]);
        assert(r@ =~= list@.reverse().take(i + 1));
        i += 1;
    }
    assert(list@.reverse().take(n as int) =~= list@.reverse());
    r
}

impl ETree {
    /// The first node that `path` selects from the root.
    pub fn find(&self, path: &str) -> (r: Option<usize>)
        ensures
            r == first_of(
                query_results(self@.nodes, path@, root_of(self@.nodes) as usize, true),
            ),
    {
        self.find_at(path, self.root())
    }

    /// The first node that `path` selects from the node at `pos`.
    pub fn find_at(&self, path: &str, pos: usize) -> (r: Option<usize>)
        ensures
            r == first_of(query_results(self@.nodes, path@, pos, true)),
    {
        let mut iter = self.find_at_iter(path, pos);
        iter.next()
    }

    /// A search for the nodes that `path` selects from the root.
    pub fn find_iter<'a>(&'a self, path: &str) -> (r: XPathIterator<'a>)
        ensures
            r.remaining() == query_results(
                self@.nodes,
                path@,
                root_of(self@.nodes) as usize,
                true,
            ),
            r.failure_view() == match compiled(path@) {
                Ok(_) => None,
                Err(e) => Some(e),
            },
    {
        self.find_at_iter(path, self.root())
    }

    /// A search for the nodes that `path` selects from the node at `pos`.
    pub fn find_at_iter<'a>(&'a self, path: &str, pos: usize) -> (r: XPathIterator<'a>)
        ensures
            r.remaining() == query_results(self@.nodes, path@, pos, true),
            r.failure_view() == match compiled(path@) {
                Ok(_) => None,
                Err(e) => Some(e),
            },
    {
        XPathIterator::new(self, path, pos, true)
    }

    /// The last node that `path` selects from the root: the first of the
    /// backward search.
    pub fn rfind(&self, path: &str) -> (r: Option<usize>)
        ensures
            r == first_of(
                query_results(self@.nodes, path@, root_of(self@.nodes) as usize, false),
            ),
    {
        self.rfind_at(path, self.root())
    }

    /// The last node that `path` selects from the node at `pos`.
    pub fn rfind_at(&self, path: &str, pos: usize) -> (r: Option<usize>)
        ensures
            r == first_of(query_results(self@.nodes, path@, pos, false)),
    {
        let mut iter = self.rfind_at_iter(path, pos);
        iter.next()
    }

    /// A backward search for the nodes that `path` selects from the root.
    pub fn rfind_iter<'a>(&'a self, path: &str) -> (r: XPathIterator<'a>)
        ensures
            r.remaining() == query_results(
                self@.nodes,
                path@,
                root_of(self@.nodes) as usize,
                false,
            ),
            r.failure_view() == match compiled(path@) {
                Ok(_) => None,
                Err(e) => Some(e),
            },
    {
        self.rfind_at_iter(path, self.root())
    }

    /// A backward search for the nodes that `path` selects from the node at
    /// `pos`.
    pub fn rfind_at_iter<'a>(&'a self, path: &str, pos: usize) -> (r: XPathIterator<'a>)
        ensures
            r.remaining() == query_results(self@.nodes, path@, pos, false),
            r.failure_view() == match compiled(path@) {
                Ok(_) => None,
                Err(e) => Some(e),
            },
    {
        XPathIterator::new(self, path, pos, false)
    }
}

/// What the steps select from the nodes of two lists, one after the other,
/// is what they select from the first list and then from the second.
proof fn lemma_results_over_concat(
    nodes: Seq<NodeView>,
    steps: Seq<SegView>,
    k: int,
    a: Seq<usize>,
    b: Seq<usize>,
    forward: bool,
)
    ensures
        results_over(nodes, steps, k, a + b, forward) == results_over(nodes, steps, k, a, forward)
            + results_over(nodes, steps, k, b, forward),
    decreases a.len(),
{
    if a.len() == 0 {
        assert(a + b =~= b);
        assert(results_over(nodes, steps, k, a, forward) + results_over(
            nodes,
            steps,
            k,
            b,
            forward,
        ) =~= results_over(nodes, steps, k, b, forward));
    } else {
        assert((a + b).drop_first() =~= a.drop_first() + b);
        assert((a + b)[0] == a[0]);
        lemma_results_over_concat(nodes, steps, k, a.drop_first(), b, forward);
        let head = results_from(nodes, steps, k, a[0], forward);
        assert(head + (results_over(nodes, steps, k, a.drop_first(), forward) + results_over(
            nodes,
            steps,
            k,
            b,
            forward,
        )) =~= (head + results_over(nodes, steps, k, a.drop_first(), forward)) + results_over(
            nodes,
            steps,
            k,
            b,
            forward,
        ));
    }
}

/// Two sequences one after the other, back to front, are the second back
/// to front and then the first back to front.
proof fn lemma_reverse_concat(a: Seq<usize>, b: Seq<usize>)
    ensures
        (a + b).reverse() == b.reverse() + a.reverse(),
{
    assert((a + b).reverse() =~= b.reverse() + a.reverse());
}

/// A backward search from a node gives what the forward search gives, back
/// to front.
proof fn lemma_backward_from(
    nodes: Seq<NodeView>,
    steps: Seq<SegView>,
    k: int,
    pos: usize,
)
    ensures
        results_from(nodes, steps, k, pos, false) == results_from(
            nodes,
            steps,
            k,
            pos,
            true,
        ).reverse(),
    decreases steps.len() - k, 0int, 0int,
{
    if k < 0 || k >= steps.len() {
        assert(seq![pos].reverse() =~= seq![pos]);
    } else {
        let list = step_result(nodes, steps[k], pos);
        lemma_backward_over(nodes, steps, k + 1, list);
    }
}

/// A backward search from the nodes of a list taken back to front gives
/// what the forward search from the list gives, back to front.
proof fn lemma_backward_over(
    nodes: Seq<NodeView>,
    steps: Seq<SegView>,
    k: int,
    list: Seq<usize>,
)
    ensures
        results_over(nodes, steps, k, list.reverse(), false) == results_over(
            nodes,
            steps,
            k,
            list,
            true,
        ).reverse(),
    decreases steps.len() - k, 1int, list.len(),
{
    if list.len() == 0 {
        assert(list.reverse() =~= list);
        assert(results_over(nodes, steps, k, list, true).reverse() =~= Seq::<usize>::empty());
    } else {
        let rest = list.drop_first();
        let one = seq![list[0]];
        assert(list.reverse() =~= rest.reverse() + one);
        lemma_results_over_concat(nodes, steps, k, rest.reverse(), one, false);
        lemma_backward_over(nodes, steps, k, rest);
        lemma_backward_from(nodes, steps, k, list[0]);
        assert(one.drop_first() =~= Seq::<usize>::empty());
        assert(one[0] == list[0]);
        assert(results_over(nodes, steps, k, one.drop_first(), false) =~= Seq::<usize>::empty());
        assert(results_over(nodes, steps, k, one, false) =~= results_from(
            nodes,
            steps,
            k,
            list[0],
            false,
        ));
        lemma_reverse_concat(
            results_from(nodes, steps, k, list[0], true),
            results_over(nodes, steps, k, rest, true),
        );
    }
}

/// The direction of a search decides the order of what it gives, and
/// nothing else: the backward search gives what the forward search gives,
/// back to front.
pub proof fn law_backward_is_forward_reversed(nodes: Seq<NodeView>, path: Seq<char>, pos: usize)
    ensures
        query_results(nodes, path, pos, false) == query_results(nodes, path, pos, true).reverse(),
{
    match compiled(path) {
        Ok(steps) => {
            lemma_backward_from(nodes, steps, 0, pos);
        },
        Err(_) => {
            assert(Seq::<usize>::empty().reverse() =~= Seq::<usize>::empty());
        },
    }
}

} // verus!
