//! The element tree: storage, navigation and edits.

use crate::etreenode::{ETreeNode, NodeView};
use crate::label::{chain_copy, chain_eq, chain_has_prefix};
use crate::model::{
    identities_distinct,
    block_end, children_from, children_of, descendants_of, graft_fits, grafted, has_identity,
    is_max_identity, lead_of, lemma_children_from, lemma_nearest_before, lemma_next_from,
    lemma_previous_from, lemma_renumbered_for_len, lemma_renumbered_ids, max_identity, named,
    nearest_before, next_from, next_of, outer_tail_of, parent_of, plan_child, plan_next,
    plan_previous, previous_from, previous_of, range_is_free, renumber_step, renumbered,
    renumbered_for, replace_id, root_from, root_of, skip_chain, span, subtree_end, subtree_nodes,
    subtree_view, text_or_empty, with_graft, with_node, with_tail, with_text, without_subtree, Plan,
    TreeView,
};
use crate::text::{join2, str_eq, strip_suffix};
use std::collections::HashMap;
use vstd::prelude::*;

verus! {

/// The views of the nodes of `data`, in order.
pub open spec fn nodes_view(data: Seq<ETreeNode>) -> Seq<NodeView> {
    Seq::new(data.len(), |i: int| data[i]@)
}

/// Element tree.
///
/// An `ETree` stores its nodes as one sequence in document order.  A position
/// is an index into that sequence; an edit may shift the positions behind it,
/// while a node's identity stays the same for as long as the node is in the
/// tree.
#[derive(Debug)]
pub struct ETree {
    indent: String,
    count: usize,
    version: String,
    encoding: Option<String>,
    standalone: Option<String>,
    data: Vec<ETreeNode>,
    crlf: String,
    enable_index: bool,
    index: HashMap<usize, usize>,
}

/// The characters of an optional string.
pub open spec fn opt_view(s: Option<String>) -> Option<Seq<char>> {
    match s {
        Some(t) => Some(t@),
        None => None,
    }
}

impl View for ETree {
    type V = TreeView;

    closed spec fn view(&self) -> TreeView {
        TreeView {
            nodes: nodes_view(self.data@),
            count: self.count,
            indent: self.indent@,
            crlf: self.crlf@,
            version: self.version@,
            encoding: opt_view(self.encoding),
            standalone: opt_view(self.standalone),
            enable_index: self.enable_index,
        }
    }
}

fn clone_opt(s: &Option<String>) -> (r: Option<String>)
    ensures
        opt_view(r) == opt_view(*s),
{
    match s {
        Some(t) => Some(t.clone()),
        None => None,
    }
}

fn clone_nodes(data: &Vec<ETreeNode>, from: usize, to: usize) -> (r: Vec<ETreeNode>)
    requires
        from <= to <= data.len(),
    ensures
        nodes_view(r@) == nodes_view(data@).subrange(from as int, to as int),
{
    let mut r: Vec<ETreeNode> = Vec::new();
    let mut i: usize = from;
    while i < to
        invariant
            from <= i <= to <= data.len(),
            nodes_view(r@) == nodes_view(data@).subrange(from as int, i as int),
        decreases to - i,
    {
        let ghost before = nodes_view(r@);
        r.push(data[i].clone());
        assert(nodes_view(r@) =~= before.push(data@[i as int]@));
        assert(nodes_view(data@).subrange(from as int, i + 1) =~= before.push(data@[i as int]@));
        i += 1;
    }
    r
}

impl Clone for ETree {
    fn clone(&self) -> (r: Self)
        ensures
            r@ == self@,
            self.index_ok() ==> r.index_ok(),
    {
        let data = clone_nodes(&self.data, 0, self.data.len());
        assert(nodes_view(self.data@).subrange(0, self.data.len() as int) =~= nodes_view(
            self.data@,
        ));
        let r = ETree {
            indent: self.indent.clone(),
            count: self.count,
            version: self.version.clone(),
            encoding: clone_opt(&self.encoding),
            standalone: clone_opt(&self.standalone),
            data,
            crlf: self.crlf.clone(),
            enable_index: self.enable_index,
            index: self.index.clone(),
        };
        proof {
            if self.index_ok() {
                assert forall|i: int| 0 <= i < r.data@.len() implies (#[trigger] r.data@[i])@.idx
                    == self.data@[i]@.idx by {
                    assert(nodes_view(r.data@)[i] == nodes_view(self.data@)[i]);
                }
                r.lemma_index_kept(*self);
            }
        }
        r
    }
}

/// Where a new node goes: the position, the label and the tail it gets.
pub struct Cell {
    pub slot: usize,
    pub route: Vec<usize>,
    pub tail: String,
}

impl Cell {
    /// Whether the cell is the one that `plan` describes.
    pub open spec fn matches(self, plan: Plan) -> bool {
        &&& self.slot == plan.slot
        &&& self.route@ == plan.route
        &&& self.tail@ == plan.tail
    }
}

impl ETree {
    /// A tree without nodes, with the line ending `crlf`, an empty version
    /// and the counter at zero.
    pub fn blank(crlf: &str) -> (r: ETree)
        ensures
            r@ == (TreeView {
                nodes: Seq::empty(),
                count: 0,
                indent: Seq::empty(),
                crlf: crlf@,
                version: Seq::empty(),
                encoding: None,
                standalone: None,
                enable_index: false,
            }),
            r.index_ok(),
    {
        let r = ETree {
            indent: String::new(),
            count: 0,
            version: String::new(),
            encoding: None,
            standalone: None,
            data: Vec::new(),
            crlf: crlf.to_string(),
            enable_index: false,
            index: HashMap::new(),
        };
        assert(r@.nodes =~= Seq::empty());
        r
    }

    /// Puts `node` at the end of the sequence, with the label it has and
    /// under the tree's next identity.  `false`, and nothing done, where the
    /// tree has run out of identities.
    pub fn push_node(&mut self, node: ETreeNode) -> (r: bool)
        ensures
            r == (old(self)@.count < usize::MAX),
            r ==> final(self)@ == (TreeView {
                nodes: old(self)@.nodes.push(NodeView { idx: old(self)@.count, ..node@ }),
                count: (old(self)@.count + 1) as usize,
                ..old(self)@
            }),
            !r ==> final(self)@ == old(self)@,
            old(self).index_ok() && identities_distinct(final(self)@.nodes)
                ==> final(self).index_ok(),
            !old(self)@.enable_index ==> final(self).index_ok(),
    {
        if self.count == usize::MAX {
            return false;
        }
        let mut node = node;
        node.set_idx(self.count);
        let ghost placed = node@;
        self.data.push(node);
        assert(nodes_view(self.data@) =~= old(self)@.nodes.push(placed));
        self.count = self.count + 1;
        proof {
            if old(self).index_ok() && self.enable_index {
                self.lemma_entries_kept(*old(self), old(self).data@.len() as int);
            }
        }
        self.update_index(self.data.len() - 1);
        true
    }

    /// The identity that the next new node gets.
    pub fn get_count(&self) -> (r: usize)
        ensures
            r == self@.count,
    {
        self.count
    }

    /// The indentation unit.
    pub fn get_indent(&self) -> (r: String)
        ensures
            r@ == self@.indent,
    {
        self.indent.clone()
    }

    /// The line ending.
    pub fn get_crlf(&self) -> (r: String)
        ensures
            r@ == self@.crlf,
    {
        self.crlf.clone()
    }

    /// Sets the indentation unit and the line ending.
    pub fn set_layout(&mut self, indent: &str, crlf: &str)
        ensures
            final(self)@ == (TreeView { indent: indent@, crlf: crlf@, ..old(self)@ }),
            old(self).index_ok() ==> final(self).index_ok(),
    {
        self.indent = indent.to_string();
        self.crlf = crlf.to_string();
        proof {
            if old(self).index_ok() {
                self.lemma_index_kept(*old(self));
            }
        }
    }

    /// A tree holds no more nodes than a machine word counts.
    pub proof fn lemma_fits(&self)
        ensures
            self@.nodes.len() <= usize::MAX,
    {
        assert(self@.nodes.len() == self.data.len());
    }

    /// Whether the index holds the position `i` under the identity of the
    /// node at `i`.
    pub closed spec fn indexed_at(&self, i: int) -> bool {
        self.index@.contains_key(self.data@[i]@.idx) && self.index@[self.data@[i]@.idx] == i
    }

    /// Whether the index is up to date: with the index enabled, it holds
    /// for every node the node's position under the node's identity.
    pub closed spec fn index_ok(&self) -> bool {
        self.enable_index ==> forall|i: int|
            0 <= i < self.data@.len() ==> #[trigger] self.indexed_at(i)
    }

    /// Whether the index holds the positions of the nodes before `k`.
    closed spec fn index_ok_below(&self, k: int) -> bool {
        forall|i: int| 0 <= i < k && i < self.data@.len() ==> #[trigger] self.indexed_at(i)
    }

    /// The index stays up to date where it is the same and the nodes carry
    /// the same identities.
    proof fn lemma_index_kept(&self, before: ETree)
        requires
            before.index_ok(),
            self.index@ == before.index@,
            self.enable_index == before.enable_index,
            self.data@.len() == before.data@.len(),
            forall|i: int|
                0 <= i < self.data@.len() ==> (#[trigger] self.data@[i])@.idx
                    == before.data@[i]@.idx,
        ensures
            self.index_ok(),
    {
        if self.enable_index {
            assert forall|i: int| 0 <= i < self.data@.len() implies #[trigger] self.indexed_at(
                i,
            ) by {
                assert(before.indexed_at(i));
                assert(self.data@[i]@.idx == before.data@[i]@.idx);
            }
        }
    }

    /// The entries for the nodes before `k` are still right where the index
    /// is the same and those nodes carry the same identities.
    proof fn lemma_entries_kept(&self, before: ETree, k: int)
        requires
            before.index_ok(),
            before.enable_index,
            self.index@ == before.index@,
            0 <= k <= before.data@.len(),
            k <= self.data@.len(),
            forall|i: int| 0 <= i < k ==> (#[trigger] self.data@[i])@.idx == before.data@[i]@.idx,
        ensures
            forall|i: int| 0 <= i < k ==> #[trigger] self.indexed_at(i),
    {
        assert forall|i: int| 0 <= i < k implies #[trigger] self.indexed_at(i) by {
            assert(before.indexed_at(i));
            assert(self.data@[i]@.idx == before.data@[i]@.idx);
        }
    }

    /// The number of nodes.
    pub fn len(&self) -> (r: usize)
        ensures
            r == self@.nodes.len(),
    {
        self.data.len()
    }

    /// Whether lookups by identity use the index.
    pub fn get_enable_index(&self) -> (r: bool)
        ensures
            r == self@.enable_index,
    {
        self.enable_index
    }

    /// The declared XML version.
    pub fn get_version(&self) -> (r: Option<String>)
        ensures
            opt_view(r) == Some(self@.version),
    {
        Some(self.version.clone())
    }

    pub fn set_version(&mut self, version: &str)
        ensures
            final(self)@ == (TreeView { version: version@, ..old(self)@ }),
            old(self).index_ok() ==> final(self).index_ok(),
    {
        self.version = version.to_string();
        proof {
            if old(self).index_ok() {
                self.lemma_index_kept(*old(self));
            }
        }
    }

    /// The declared encoding, if any.
    pub fn get_encoding(&self) -> (r: Option<String>)
        ensures
            opt_view(r) == self@.encoding,
    {
        clone_opt(&self.encoding)
    }

    pub fn set_encoding(&mut self, encoding: &str)
        ensures
            final(self)@ == (TreeView { encoding: Some(encoding@), ..old(self)@ }),
            old(self).index_ok() ==> final(self).index_ok(),
    {
        self.encoding = Some(encoding.to_string());
        proof {
            if old(self).index_ok() {
                self.lemma_index_kept(*old(self));
            }
        }
    }

    /// The declared standalone flag, if any.
    pub fn get_standalone(&self) -> (r: Option<String>)
        ensures
            opt_view(r) == self@.standalone,
    {
        clone_opt(&self.standalone)
    }

    pub fn set_standalone(&mut self, standalone: &str)
        ensures
            final(self)@ == (TreeView { standalone: Some(standalone@), ..old(self)@ }),
            old(self).index_ok() ==> final(self).index_ok(),
    {
        self.standalone = Some(standalone.to_string());
        proof {
            if old(self).index_ok() {
                self.lemma_index_kept(*old(self));
            }
        }
    }

    /// The position of the root node: the first node that is an element.
    pub fn root(&self) -> (r: usize)
        ensures
            r == root_of(self@.nodes),
    {
        let mut idx: usize = 0;
        while idx < self.data.len()
            invariant
                idx <= self.data.len(),
                root_of(self@.nodes) == root_from(self@.nodes, idx as int),
            decreases self.data.len() - idx,
        {
            if !self.is_synthetic_at(idx) {
                return idx;
            }
            idx += 1;
        }
        idx
    }

    fn is_synthetic_at(&self, pos: usize) -> (r: bool)
        requires
            pos < self@.nodes.len(),
        ensures
            r == self@.nodes[pos as int].is_synthetic(),
    {
        let name = self.data[pos].get_localname();
        let n = name.as_str().unicode_len();
        n > 0 && name.as_str().get_char(0) == '<' && name.as_str().get_char(n - 1) == '>'
    }

    fn child_label(&self, pos: usize) -> (r: Vec<usize>)
        requires
            pos < self@.nodes.len(),
        ensures
            r@ == self@.nodes[pos as int].child_route(),
    {
        let mut r = chain_copy(self.data[pos].get_chain());
        r.push(self.data[pos].get_idx());
        r
    }

    /// The position of the parent of the node at `pos`.
    pub fn parent(&self, pos: usize) -> (r: Option<usize>)
        ensures
            r == parent_of(self@.nodes, pos as int),
            r matches Some(p) ==> p < pos < self@.nodes.len(),
    {
        proof {
            self.lemma_fits();
            if 0 < pos < self@.nodes.len() && self@.nodes[pos as int].route.len() > 0 {
                lemma_nearest_before(
                    self@.nodes,
                    self@.nodes[pos as int].route.drop_last(),
                    pos - 1,
                );
            }
        }
        if pos == 0 || pos >= self.data.len() {
            return None;
        }
        let chain = self.data[pos].get_chain();
        if chain.len() == 0 {
            return None;
        }
        let mut label = chain_copy(chain);
        label.pop();
        assert(label@ =~= self@.nodes[pos as int].route.drop_last());
        let mut pos2: usize = pos;
        while pos2 > 0
            invariant
                pos2 <= pos < self.data.len(),
                parent_of(self@.nodes, pos as int) == nearest_before(
                    self@.nodes,
                    label@,
                    pos2 - 1,
                ),
            decreases pos2,
        {
            pos2 -= 1;
            if chain_eq(self.data[pos2].get_chain(), &label) {
                return Some(pos2);
            }
        }
        None
    }

    /// The positions of the children of the node at `pos`.
    pub fn children(&self, pos: usize) -> (r: Vec<usize>)
        ensures
            r@ == children_of(self@.nodes, pos as int),
            forall|k: int| 0 <= k < r@.len() ==> pos < (#[trigger] r@[k]) < self@.nodes.len(),
    {
        proof {
            self.lemma_fits();
            if pos < self@.nodes.len() {
                lemma_children_from(
                    self@.nodes,
                    self@.nodes[pos as int].child_route(),
                    pos + 1,
                );
            }
        }
        let mut out: Vec<usize> = Vec::new();
        if pos < self.data.len() {
            let label = self.child_label(pos);
            let mut i: usize = pos + 1;
            while i < self.data.len()
                invariant
                    pos < i <= self.data.len(),
                    label@ == self@.nodes[pos as int].child_route(),
                    children_of(self@.nodes, pos as int) == out@ + children_from(
                        self@.nodes,
                        label@,
                        i as int,
                    ),
                decreases self.data.len() - i,
            {
                let cur = self.data[i].get_chain();
                if chain_eq(cur, &label) {
                    out.push(i);
                    assert(out@ + children_from(self@.nodes, label@, i + 1) =~= children_of(
                        self@.nodes,
                        pos as int,
                    ));
                } else if !chain_has_prefix(cur, &label) {
                    assert(children_from(self@.nodes, label@, i as int) =~= Seq::empty());
                    assert(out@ =~= children_of(self@.nodes, pos as int));
                    proof {
                        self.lemma_fits();
                        lemma_children_from(self@.nodes, label@, pos + 1);
                    }
                    return out;
                }
                i += 1;
            }
            assert(out@ =~= children_of(self@.nodes, pos as int));
        }
        out
    }

    /// The positions of the children of the node at `pos` whose qualified
    /// name is `tagname`.
    pub fn children_by_name(&self, pos: usize, tagname: &str) -> (r: Vec<usize>)
        ensures
            r@ == named(self@.nodes, children_of(self@.nodes, pos as int), tagname@),
    {
        let list = self.children(pos);
        self.keep_named(&list, tagname)
    }

    /// Those positions of `list` whose node has the qualified name `tagname`.
    pub fn keep_named(&self, list: &Vec<usize>, tagname: &str) -> (r: Vec<usize>)
        ensures
            r@ == named(self@.nodes, list@, tagname@),
    {
        let mut out: Vec<usize> = Vec::new();
        let ghost nodes = self@.nodes;
        let ghost pred = |p: usize| p < nodes.len() && nodes[p as int].name() == tagname@;
        let mut k: usize = 0;
        proof {
            reveal(Seq::filter);
            assert(list@.take(0) =~= Seq::<usize>::empty());
        }
        while k < list.len()
            invariant
                k <= list.len(),
                nodes == self@.nodes,
                pred == (|p: usize| p < nodes.len() && nodes[p as int].name() == tagname@),
                out@ == list@.take(k as int).filter(pred),
            decreases list.len() - k,
        {
            let p = list[k];
            proof {
                reveal(Seq::filter);
                assert(list@.take(k + 1).drop_last() =~= list@.take(k as int));
                assert(list@.take(k + 1).last() == p);
            }
            if p < self.data.len() {
                let name = self.data[p].get_name();
                if str_eq(name.as_str(), tagname) {
                    out.push(p);
                }
            }
            k += 1;
        }
        assert(list@.take(list.len() as int) =~= list@);
        out
    }

    /// One past the last descendant of the node at `pos`.
    fn subtree_end(&self, pos: usize) -> (r: usize)
        requires
            pos < self@.nodes.len(),
        ensures
            r == subtree_end(self@.nodes, pos as int),
            pos < r <= self@.nodes.len(),
    {
        assert(self@.nodes.len() == self.data.len());
        let label = self.child_label(pos);
        let mut i: usize = pos + 1;
        while i < self.data.len()
            invariant
                pos < i <= self.data.len(),
                subtree_end(self@.nodes, pos as int) == block_end(self@.nodes, label@, i as int),
            decreases self.data.len() - i,
        {
            if !chain_has_prefix(self.data[i].get_chain(), &label) {
                return i;
            }
            i += 1;
        }
        i
    }

    /// The positions of the descendants of the node at `pos`.
    pub fn descendant(&self, pos: usize) -> (r: Vec<usize>)
        ensures
            r@ == descendants_of(self@.nodes, pos as int),
            forall|k: int| 0 <= k < r@.len() ==> pos < (#[trigger] r@[k]) < self@.nodes.len(),
    {
        let mut out: Vec<usize> = Vec::new();
        if pos < self.data.len() {
            let end = self.subtree_end(pos);
            let mut i: usize = pos + 1;
            while i < end
                invariant
                    pos < i <= end,
                    out@ == span(pos + 1, i as int),
                decreases end - i,
            {
                out.push(i);
                assert(out@ =~= span(pos + 1, i + 1));
                i += 1;
            }
        }
        assert(out@ =~= descendants_of(self@.nodes, pos as int));
        out
    }

    /// The position of the previous sibling of the node at `pos`.
    pub fn previous(&self, pos: usize) -> (r: Option<usize>)
        ensures
            r == previous_of(self@.nodes, pos as int),
            r matches Some(p) ==> p < pos < self@.nodes.len(),
    {
        proof {
            self.lemma_fits();
            if 0 < pos < self@.nodes.len() {
                lemma_previous_from(self@.nodes, self@.nodes[pos as int].route, pos - 1);
            }
        }
        if pos == 0 || pos >= self.data.len() {
            return None;
        }
        let label = self.data[pos].get_chain();
        let mut pos2: usize = pos;
        while pos2 > 0
            invariant
                pos2 <= pos < self.data.len(),
                label@ == self@.nodes[pos as int].route,
                previous_of(self@.nodes, pos as int) == previous_from(
                    self@.nodes,
                    label@,
                    pos2 - 1,
                ),
            decreases pos2,
        {
            pos2 -= 1;
            let cur = self.data[pos2].get_chain();
            if chain_eq(cur, label) {
                return Some(pos2);
            }
            if !chain_has_prefix(cur, label) {
                return None;
            }
        }
        None
    }

    /// The position of the next sibling of the node at `pos`.
    pub fn next(&self, pos: usize) -> (r: Option<usize>)
        ensures
            r == next_of(self@.nodes, pos as int),
            r matches Some(p) ==> pos < p < self@.nodes.len(),
    {
        proof {
            self.lemma_fits();
            if pos < self@.nodes.len() {
                lemma_next_from(self@.nodes, self@.nodes[pos as int].route, pos + 1);
            }
        }
        if pos >= self.data.len() {
            return None;
        }
        let label = self.data[pos].get_chain();
        let mut pos2: usize = pos + 1;
        while pos2 < self.data.len()
            invariant
                pos < pos2 <= self.data.len(),
                label@ == self@.nodes[pos as int].route,
                next_of(self@.nodes, pos as int) == next_from(self@.nodes, label@, pos2 as int),
            decreases self.data.len() - pos2,
        {
            let cur = self.data[pos2].get_chain();
            if chain_eq(cur, label) {
                return Some(pos2);
            }
            if !chain_has_prefix(cur, label) {
                return None;
            }
            pos2 += 1;
        }
        None
    }

    /// A position whose node carries the identity `idx`, or `None` where no
    /// node does.  With the index enabled the index is asked first.  Where no
    /// identity occurs twice, the result is the one position of the
    /// identity.
    pub fn pos(&self, idx: usize) -> (r: Option<usize>)
        ensures
            match r {
                Some(p) => p < self@.nodes.len() && self@.nodes[p as int].idx == idx,
                None => !has_identity(self@.nodes, idx),
            },
            crate::model::identities_distinct(self@.nodes) ==> match r {
                Some(p) => crate::model::position_from(self@.nodes, idx, 0) == Some(p as int),
                None => crate::model::position_from(self@.nodes, idx, 0) is None,
            },
    {
        proof {
            crate::model::lemma_position_from(self@.nodes, idx, 0);
        }
        if self.enable_index {
            match self.index.get(&idx) {
                Some(p) => {
                    let p: usize = *p;
                    if p < self.data.len() && self.data[p].get_idx() == idx {
                        return Some(p);
                    }
                },
                None => {},
            }
        }
        let mut i: usize = 0;
        while i < self.data.len()
            invariant
                i <= self.data.len(),
                forall|k: int| 0 <= k < i ==> self@.nodes[k].idx != idx,
            decreases self.data.len() - i,
        {
            if self.data[i].get_idx() == idx {
                proof {
                    crate::model::lemma_position_from(self@.nodes, idx, 0);
                }
                return Some(i);
            }
            i += 1;
        }
        proof {
            crate::model::lemma_position_from(self@.nodes, idx, 0);
        }
        None
    }

    /// The node at `pos`.
    pub fn node(&self, pos: usize) -> (r: Option<&ETreeNode>)
        ensures
            match r {
                Some(n) => pos < self@.nodes.len() && n@ == self@.nodes[pos as int],
                None => pos >= self@.nodes.len(),
            },
    {
        if pos < self.data.len() {
            Some(&self.data[pos])
        } else {
            None
        }
    }

    /// The node at `pos`, to be changed in place.  The index stays up to
    /// date as long as the node keeps its identity.
    pub fn node_mut(&mut self, pos: usize) -> (r: Option<&mut ETreeNode>)
        ensures
            match r {
                Some(n) => pos < old(self)@.nodes.len() && (*n)@ == old(self)@.nodes[pos as int]
                    && final(self)@ == (TreeView {
                    nodes: old(self)@.nodes.update(pos as int, (*final(n))@),
                    ..old(self)@
                }),
                None => pos >= old(self)@.nodes.len() && final(self)@ == old(self)@,
            },
            r matches Some(n) ==> ((*final(n))@.idx == (*n)@.idx && old(self).index_ok()
                ==> final(self).index_ok()),
            r is None && old(self).index_ok() ==> final(self).index_ok(),
    {
        if pos < self.data.len() {
            let ghost before = self.data@;
            let n = &mut self.data[pos];
            proof {
                assert(nodes_view(before.update(pos as int, *final(n))) =~= nodes_view(
                    before,
                ).update(pos as int, (*final(n))@));
                assert forall|t: ETree|
                    old(self).index_ok() && t.index@ == old(self).index@ && t.enable_index == old(
                        self,
                    ).enable_index && t.data@.len() == before.len() && (forall|i: int|
                        0 <= i < before.len() ==> (#[trigger] t.data@[i])@.idx
                            == before[i]@.idx) implies #[trigger] t.index_ok() by {
                    t.lemma_index_kept(*old(self));
                }
            }
            Some(n)
        } else {
            None
        }
    }

    pub(crate) fn set_tail_at(&mut self, pos: usize, tail: &str)
        requires
            pos < old(self)@.nodes.len(),
        ensures
            final(self)@ == (TreeView {
                nodes: with_tail(old(self)@.nodes, pos as int, tail@),
                ..old(self)@
            }),
            old(self).index_ok() ==> final(self).index_ok(),
    {
        self.data[pos].set_tail(tail);
        assert(self@.nodes =~= with_tail(old(self)@.nodes, pos as int, tail@));
        proof {
            if old(self).index_ok() {
                self.lemma_index_kept(*old(self));
            }
        }
    }

    pub(crate) fn set_text_at(&mut self, pos: usize, text: &str)
        requires
            pos < old(self)@.nodes.len(),
        ensures
            final(self)@ == (TreeView {
                nodes: with_text(old(self)@.nodes, pos as int, text@),
                ..old(self)@
            }),
            old(self).index_ok() ==> final(self).index_ok(),
    {
        self.data[pos].set_text(text);
        assert(self@.nodes =~= with_text(old(self)@.nodes, pos as int, text@));
        proof {
            if old(self).index_ok() {
                self.lemma_index_kept(*old(self));
            }
        }
    }

    fn text_at(&self, pos: usize) -> (r: String)
        requires
            pos < self@.nodes.len(),
        ensures
            r@ == text_or_empty(self@.nodes[pos as int].text),
    {
        match self.data[pos].get_text() {
            Some(t) => t,
            None => String::new(),
        }
    }

    fn lead(&self, pos: usize) -> (r: Option<String>)
        ensures
            crate::etree::opt_view(r) == lead_of(self@.nodes, pos as int),
    {
        match self.previous(pos) {
            Some(p) => Some(self.data[p].get_tail()),
            None => match self.parent(pos) {
                Some(q) => Some(self.text_at(q)),
                None => None,
            },
        }
    }

    fn outer_tail(&self, pos: usize) -> (r: Option<String>)
        ensures
            crate::etree::opt_view(r) == outer_tail_of(self@.nodes, pos as int),
    {
        match self.previous(pos) {
            Some(p) => Some(self.data[p].get_tail()),
            None => match self.parent(pos) {
                Some(q) => Some(self.data[q].get_tail()),
                None => None,
            },
        }
    }

    /// Prepares a place for a new sibling right after the node at `pos`.
    pub fn prepare_append_next(&mut self, pos: usize) -> (r: Option<Cell>)
        ensures
            r matches Some(cell) ==> cell.slot <= old(self)@.nodes.len(),
            old(self).index_ok() ==> final(self).index_ok(),
            match r {
                Some(cell) => pos < old(self)@.nodes.len() && cell.matches(
                    plan_next(old(self)@.nodes, pos as int),
                ) && final(self)@ == (TreeView {
                    nodes: plan_next(old(self)@.nodes, pos as int).nodes,
                    ..old(self)@
                }),
                None => pos >= old(self)@.nodes.len() && final(self)@ == old(self)@,
            },
    {
        if pos >= self.data.len() {
            return None;
        }
        let tail = self.data[pos].get_tail();
        let route = chain_copy(self.data[pos].get_chain());
        let slot = self.subtree_end(pos);
        match self.lead(pos) {
            Some(t) => {
                self.set_tail_at(pos, t.as_str());
            },
            None => {},
        }
        Some(Cell { slot, route, tail })
    }

    /// Prepares a place for a new sibling right before the node at `pos`.
    pub fn prepare_append_previous(&mut self, pos: usize) -> (r: Option<Cell>)
        ensures
            match r {
                Some(cell) => pos < old(self)@.nodes.len() && match plan_previous(
                    old(self)@.nodes,
                    pos as int,
                ) {
                    Some(plan) => cell.matches(plan) && final(self)@ == (TreeView {
                        nodes: plan.nodes,
                        ..old(self)@
                    }),
                    None => false,
                },
                None => (pos >= old(self)@.nodes.len() || plan_previous(
                    old(self)@.nodes,
                    pos as int,
                ) is None) && final(self)@ == old(self)@,
            },
            r matches Some(cell) ==> cell.slot <= old(self)@.nodes.len(),
            old(self).index_ok() ==> final(self).index_ok(),
    {
        if pos >= self.data.len() {
            return None;
        }
        match self.previous(pos) {
            Some(prev) => self.prepare_append_next(prev),
            None => match self.parent(pos) {
                Some(parent) => {
                    let tail = self.text_at(parent);
                    let route = self.child_label(parent);
                    Some(Cell { slot: parent + 1, route, tail })
                },
                None => None,
            },
        }
    }

    /// Prepares a place for a new last child of the node at `pos`.
    pub fn prepare_append_child(&mut self, pos: usize) -> (r: Option<Cell>)
        ensures
            match r {
                Some(cell) => pos < old(self)@.nodes.len() && cell.matches(
                    plan_child(old(self)@, pos as int),
                ) && final(self)@ == (TreeView {
                    nodes: plan_child(old(self)@, pos as int).nodes,
                    ..old(self)@
                }),
                None => pos >= old(self)@.nodes.len() && final(self)@ == old(self)@,
            },
            r matches Some(cell) ==> cell.slot <= old(self)@.nodes.len(),
            old(self).index_ok() ==> final(self).index_ok(),
    {
        if pos >= self.data.len() {
            return None;
        }
        let route = self.child_label(pos);
        let children = self.children(pos);
        if children.len() == 0 {
            let tail = match self.outer_tail(pos) {
                Some(t) => t,
                None => self.crlf.clone(),
            };
            if self.text_at(pos).as_str().is_empty() {
                let text = join2(tail.as_str(), self.indent.as_str());
                self.set_text_at(pos, text.as_str());
            }
            Some(Cell { slot: pos + 1, route, tail })
        } else {
            let last = children[children.len() - 1];
            let tail = self.data[last].get_tail();
            let slot = self.subtree_end(pos);
            match self.lead(last) {
                Some(t) => {
                    self.set_tail_at(last, t.as_str());
                },
                None => {},
            }
            Some(Cell { slot, route, tail })
        }
    }

    /// Brings the index up to date for the nodes from `pos` on.
    fn update_index(&mut self, pos: usize)
        ensures
            final(self)@ == old(self)@,
            final(self).data == old(self).data,
            final(self).enable_index == old(self).enable_index,
            identities_distinct(old(self)@.nodes) && (forall|i: int|
                0 <= i < pos && i < old(self).data@.len() ==> #[trigger] old(self).indexed_at(i))
                ==> final(self).index_ok(),
    {
        broadcast use vstd::std_specs::hash::group_hash_axioms;

        if self.enable_index {
            let ghost nodes = self@.nodes;
            let ghost good = identities_distinct(nodes) && (forall|i: int|
                0 <= i < pos && i < self.data@.len() ==> #[trigger] self.indexed_at(i));
            let n = self.data.len();
            let mut i: usize = pos;
            while i < n
                invariant
                    n == self.data.len(),
                    self.data == old(self).data,
                    self.enable_index == old(self).enable_index,
                    self@ == old(self)@,
                    nodes == self@.nodes,
                    pos <= i || n <= i,
                    good ==> identities_distinct(nodes) && forall|j: int|
                        0 <= j < i && j < n ==> #[trigger] self.indexed_at(j),
                decreases n - i,
            {
                let idx = self.data[i].get_idx();
                let ghost before = self.index@;
                let ghost data = self.data@;
                proof {
                    if good {
                        assert forall|j: int| 0 <= j < i && j < n implies before.contains_key(
                            #[trigger] data[j]@.idx,
                        ) && before[data[j]@.idx] == j by {
                            assert(self.indexed_at(j));
                        }
                    }
                }
                self.index.insert(idx, i);
                proof {
                    if good {
                        assert(self.index@ == before.insert(idx, i));
                        assert forall|j: int| 0 <= j < i + 1 && j < n implies #[trigger] self.indexed_at(
                            j,
                        ) by {
                            if j < i {
                                assert(nodes[j] == data[j]@);
                                assert(nodes[i as int] == data[i as int]@);
                                assert(nodes[j].idx != nodes[i as int].idx);
                                assert(before.contains_key(data[j]@.idx));
                            }
                        }
                    }
                }
                i += 1;
            }
        }
    }

    /// Builds the index anew.
    fn generate_index(&mut self)
        ensures
            final(self)@ == old(self)@,
            final(self).data == old(self).data,
            final(self).enable_index == old(self).enable_index,
            identities_distinct(old(self)@.nodes) ==> final(self).index_ok(),
    {
        if self.enable_index {
            self.index = HashMap::new();
            self.update_index(0);
        }
    }

    /// Switches the index for lookups by identity on or off.  Switching it
    /// on builds it; every edit of the tree keeps it up to date from then on.
    pub fn set_enable_index(&mut self, enable_index: bool)
        ensures
            final(self)@ == (TreeView { enable_index: enable_index, ..old(self)@ }),
            !enable_index || identities_distinct(old(self)@.nodes) ==> final(self).index_ok(),
    {
        self.enable_index = enable_index;
        self.generate_index();
    }

    /// Puts `node` into the place that `cell` names, under the tree's next
    /// identity.
    fn commit_node(&mut self, cell: Cell, node: ETreeNode) -> (r: usize)
        requires
            cell.slot <= old(self)@.nodes.len(),
            old(self)@.count < usize::MAX,
        ensures
            r == cell.slot,
            final(self)@ == (TreeView {
                nodes: old(self)@.nodes.insert(
                    cell.slot as int,
                    NodeView {
                        idx: old(self)@.count,
                        tail: cell.tail@,
                        route: cell.route@,
                        ..node@
                    },
                ),
                count: (old(self)@.count + 1) as usize,
                ..old(self)@
            }),
            old(self).index_ok() && identities_distinct(final(self)@.nodes)
                ==> final(self).index_ok(),
    {
        let mut node = node;
        let slot = cell.slot;
        node.set_idx(self.count);
        node.set_tail(cell.tail.as_str());
        node.set_chain(cell.route);
        let ghost placed = node@;
        self.data.insert(slot, node);
        assert(nodes_view(self.data@) =~= old(self)@.nodes.insert(slot as int, placed));
        self.count = self.count + 1;
        proof {
            if old(self).index_ok() && self.enable_index {
                self.lemma_entries_kept(*old(self), slot as int);
            }
        }
        self.update_index(slot);
        slot
    }

    /// Puts `node` in as the sibling right before the node at `pos` and
    /// returns its position.  Positions behind it have moved by one.
    ///
    /// Nothing is done, and `None` returned, where `pos` is no position of
    /// the tree, where the node at `pos` has neither a previous sibling nor a
    /// parent, or where the tree has run out of identities.
    pub fn append_previous_node(&mut self, pos: usize, node: ETreeNode) -> (r: Option<usize>)
        ensures
            match r {
                Some(p) => pos < old(self)@.nodes.len() && old(self)@.count < usize::MAX
                    && match plan_previous(old(self)@.nodes, pos as int) {
                    Some(plan) => p == plan.slot && final(self)@ == with_node(
                        old(self)@,
                        plan,
                        node@,
                    ),
                    None => false,
                },
                None => (pos >= old(self)@.nodes.len() || old(self)@.count == usize::MAX
                    || plan_previous(old(self)@.nodes, pos as int) is None) && final(self)@
                    == old(self)@,
            },
            old(self).index_ok() && identities_distinct(final(self)@.nodes)
                ==> final(self).index_ok(),
    {
        if self.count == usize::MAX {
            return None;
        }
        match self.prepare_append_previous(pos) {
            Some(cell) => Some(self.commit_node(cell, node)),
            None => None,
        }
    }

    /// Puts `node` in as the sibling right after the node at `pos` and
    /// returns its position.  Positions behind it have moved by one.
    ///
    /// Nothing is done, and `None` returned, where `pos` is no position of
    /// the tree or where the tree has run out of identities.
    pub fn append_next_node(&mut self, pos: usize, node: ETreeNode) -> (r: Option<usize>)
        ensures
            match r {
                Some(p) => pos < old(self)@.nodes.len() && old(self)@.count < usize::MAX && p
                    == plan_next(old(self)@.nodes, pos as int).slot && final(self)@ == with_node(
                    old(self)@,
                    plan_next(old(self)@.nodes, pos as int),
                    node@,
                ),
                None => (pos >= old(self)@.nodes.len() || old(self)@.count == usize::MAX)
                    && final(self)@ == old(self)@,
            },
            old(self).index_ok() && identities_distinct(final(self)@.nodes)
                ==> final(self).index_ok(),
    {
        if self.count == usize::MAX {
            return None;
        }
        match self.prepare_append_next(pos) {
            Some(cell) => Some(self.commit_node(cell, node)),
            None => None,
        }
    }

    /// Puts `node` in as the last child of the node at `pos` and returns its
    /// position.  Positions behind it have moved by one.
    ///
    /// Nothing is done, and `None` returned, where `pos` is no position of
    /// the tree or where the tree has run out of identities.
    pub fn append_child_node(&mut self, pos: usize, node: ETreeNode) -> (r: Option<usize>)
        ensures
            match r {
                Some(p) => pos < old(self)@.nodes.len() && old(self)@.count < usize::MAX && p
                    == plan_child(old(self)@, pos as int).slot && final(self)@ == with_node(
                    old(self)@,
                    plan_child(old(self)@, pos as int),
                    node@,
                ),
                None => (pos >= old(self)@.nodes.len() || old(self)@.count == usize::MAX)
                    && final(self)@ == old(self)@,
            },
            old(self).index_ok() && identities_distinct(final(self)@.nodes)
                ==> final(self).index_ok(),
    {
        if self.count == usize::MAX {
            return None;
        }
        match self.prepare_append_child(pos) {
            Some(cell) => Some(self.commit_node(cell, node)),
            None => None,
        }
    }

    /// Removes the node at `pos` with its descendants.  Positions behind it
    /// move down.  Nothing is done where `pos` is no position of the tree.
    ///
    /// A previous sibling takes over the tail of the removed node.  Where the
    /// node was an only child, the text of its parent loses one unit of
    /// indentation from its end, if it ends with one.
    pub fn remove(&mut self, pos: usize)
        ensures
            final(self)@ == without_subtree(old(self)@, pos as int),
            old(self).index_ok() && identities_distinct(old(self)@.nodes)
                ==> final(self).index_ok(),
    {
        if pos >= self.data.len() {
            return ;
        }
        let end = self.subtree_end(pos);
        match self.previous(pos) {
            Some(previous) => {
                let tail = self.data[pos].get_tail();
                self.set_tail_at(previous, tail.as_str());
            },
            None => match self.next(pos) {
                Some(_) => {},
                None => match self.parent(pos) {
                    Some(parent) => match self.data[parent].get_text() {
                        Some(text) => match strip_suffix(text.as_str(), self.indent.as_str()) {
                            Some(rest) => {
                                self.set_text_at(parent, rest.as_str());
                            },
                            None => {},
                        },
                        None => {},
                    },
                    None => {},
                },
            },
        }
        let ghost adjusted = self@.nodes;
        let ghost good = old(self).index_ok() && self.enable_index && identities_distinct(
            old(self)@.nodes,
        );
        proof {
            crate::wellformed::lemma_adjusted_shape(old(self)@, pos as int);
            assert(forall|k: int|
                0 <= k < adjusted.len() ==> (#[trigger] adjusted[k]).idx == old(self)@.nodes[k].idx);
            assert(good ==> identities_distinct(adjusted));
        }
        let mut i: usize = pos;
        while i < end
            invariant
                pos <= i <= end <= self.data.len(),
                self@ == (TreeView { nodes: adjusted, ..old(self)@ }),
                self.enable_index == old(self).enable_index,
                good ==> identities_distinct(adjusted) && self.index_ok_below(pos as int),
            decreases end - i,
        {
            broadcast use vstd::std_specs::hash::group_hash_axioms;

            let idx = self.data[i].get_idx();
            let ghost before = self.index@;
            let ghost data = self.data@;
            proof {
                if good {
                    assert forall|j: int| 0 <= j < pos implies before.contains_key(
                        #[trigger] data[j]@.idx,
                    ) && before[data[j]@.idx] == j by {
                        assert(self.indexed_at(j));
                    }
                }
            }
            self.index.remove(&idx);
            proof {
                if good {
                    assert(self.index@ == before.remove(idx));
                    assert forall|j: int| 0 <= j < pos implies #[trigger] self.indexed_at(j) by {
                        assert(adjusted[j] == data[j]@);
                        assert(adjusted[i as int] == data[i as int]@);
                        assert(adjusted[j].idx != adjusted[i as int].idx);
                        assert(before.contains_key(data[j]@.idx));
                    }
                }
            }
            i += 1;
        }
        let ghost whole = self.data@;
        let ghost entries = self.index@;
        proof {
            if good {
                assert forall|j: int| 0 <= j < pos implies entries.contains_key(
                    #[trigger] whole[j]@.idx,
                ) && entries[whole[j]@.idx] == j by {
                    assert(self.indexed_at(j));
                }
            }
        }
        let mut rest = self.data.split_off(end);
        self.data.truncate(pos);
        self.data.append(&mut rest);
        assert(nodes_view(self.data@) =~= adjusted.subrange(0, pos as int) + adjusted.subrange(
            end as int,
            adjusted.len() as int,
        ));
        proof {
            if good {
                let now = self@.nodes;
                assert forall|j: int| 0 <= j < pos implies #[trigger] self.indexed_at(j) by {
                    assert(self.data@[j] == whole[j]);
                    assert(entries.contains_key(whole[j]@.idx));
                }
                let gone = end - pos;
                assert forall|a: int, b: int| 0 <= a < b < now.len() implies now[a].idx
                    != now[b].idx by {
                    let oa = if a < pos {
                        a
                    } else {
                        a + gone
                    };
                    let ob = if b < pos {
                        b
                    } else {
                        b + gone
                    };
                    assert(now[a] == adjusted[oa] && now[b] == adjusted[ob]);
                }
            }
        }
        self.update_index(pos);
    }

    /// A copy of the node at `pos` and its descendants as a tree of its own,
    /// in which the copy of `pos` is the root.  The copies keep their
    /// identities, and the counter of the copy is that of the tree, so that
    /// a node put into the copy gets an identity that no copy carries.  Where
    /// `pos` is no position of the tree, the result holds no node.
    pub fn subtree(&self, pos: usize) -> (r: ETree)
        ensures
            r@ == subtree_view(self@, pos as int),
            r.index_ok(),
    {
        let mut tree = ETree {
            indent: self.indent.clone(),
            count: self.count,
            version: self.version.clone(),
            encoding: clone_opt(&self.encoding),
            standalone: clone_opt(&self.standalone),
            data: Vec::new(),
            crlf: self.crlf.clone(),
            enable_index: false,
            index: HashMap::new(),
        };
        if pos < self.data.len() {
            let end = self.subtree_end(pos);
            let base = self.data[pos].get_chain().len();
            let mut i: usize = pos;
            assert(nodes_view(tree.data@) =~= subtree_nodes(self@.nodes, pos as int).take(0));
            while i < end
                invariant
                    pos <= i <= end <= self.data.len(),
                    end == subtree_end(self@.nodes, pos as int),
                    base == self@.nodes[pos as int].route.len(),
                    tree@ == (TreeView {
                        nodes: subtree_nodes(self@.nodes, pos as int).take(i - pos),
                        enable_index: false,
                        ..self@
                    }),
                decreases end - i,
            {
                let mut node = self.data[i].clone();
                let chain = skip(node.get_chain(), base);
                node.set_chain(chain);
                let ghost before = nodes_view(tree.data@);
                tree.data.push(node);
                assert(nodes_view(tree.data@) =~= before.push(node@));
                assert(subtree_nodes(self@.nodes, pos as int).take(i + 1 - pos) =~= before.push(
                    node@,
                ));
                i += 1;
            }
            assert(subtree_nodes(self@.nodes, pos as int).take(end - pos) =~= subtree_nodes(
                self@.nodes,
                pos as int,
            ));
        } else {
            assert(nodes_view(tree.data@) =~= subtree_nodes(self@.nodes, pos as int));
        }
        tree
    }

    fn set_label_at(&mut self, pos: usize, idx: usize, chain: Vec<usize>)
        requires
            pos < old(self)@.nodes.len(),
        ensures
            final(self)@ == (TreeView {
                nodes: old(self)@.nodes.update(
                    pos as int,
                    NodeView { idx: idx, route: chain@, ..old(self)@.nodes[pos as int] },
                ),
                ..old(self)@
            }),
    {
        self.data[pos].set_chain(chain);
        self.data[pos].set_idx(idx);
        assert(self@.nodes =~= old(self)@.nodes.update(
            pos as int,
            NodeView { idx: idx, route: chain@, ..old(self)@.nodes[pos as int] },
        ));
    }

    /// Gives the node at `i` the identity `new` and puts `new` into every
    /// label in the place of the identity that the node had.
    fn renumber_one(&mut self, i: usize, new: usize)
        requires
            i < old(self)@.nodes.len(),
        ensures
            final(self)@ == (TreeView {
                nodes: renumber_step(old(self)@.nodes, i as int, new),
                ..old(self)@
            }),
    {
        let old_id = self.data[i].get_idx();
        let ghost before = self@.nodes;
        let n = self.data.len();
        let mut j: usize = 0;
        while j < n
            invariant
                j <= n,
                i < n,
                before.len() == n,
                self@.nodes.len() == n,
                before == old(self)@.nodes,
                old_id == before[i as int].idx,
                self@ == (TreeView { nodes: self@.nodes, ..old(self)@ }),
                forall|k: int|
                    0 <= k < j ==> (#[trigger] self@.nodes[k]) == renumber_step(
                        before,
                        i as int,
                        new,
                    )[k],
                forall|k: int| j <= k < before.len() ==> (#[trigger] self@.nodes[k]) == before[k],
            decreases n - j,
        {
            let chain = replaced(self.data[j].get_chain(), old_id, new);
            let idx = if j == i {
                new
            } else {
                self.data[j].get_idx()
            };
            self.set_label_at(j, idx, chain);
            j += 1;
        }
        assert(self@.nodes =~= renumber_step(before, i as int, new));
    }

    /// Renumbers the nodes to the identities `start_idx`, `start_idx + 1`, and
    /// so on in document order, where those lie all below or all above the
    /// identities in use, and returns the first and one past the last of
    /// them.  Where they do not, nothing is changed and the result is a
    /// range that is free: from `max + n + 1` up to `max + 2 * n + 1`, for
    /// `max` the largest identity in use and `n` the number of nodes.  A
    /// tree without nodes gives `(0, 0)`.  `None`, and nothing changed, where
    /// the range to return does not fit a machine word.
    pub fn subtree_reindex(&mut self, start_idx: usize) -> (r: Option<(usize, usize)>)
        ensures
            old(self)@.nodes.len() == 0 ==> r == Some((0usize, 0usize)) && final(self)@ == old(
                self,
            )@,
            old(self)@.nodes.len() > 0 ==> is_max_identity(
                old(self)@.nodes,
                max_identity(old(self)@.nodes),
            ),
            old(self)@.nodes.len() > 0 && range_is_free(old(self)@.nodes, start_idx as int)
                ==> match r {
                Some(range) => range.0 == start_idx && range.1 == start_idx + old(
                    self,
                )@.nodes.len() && final(self)@ == (TreeView {
                    nodes: renumbered(
                        old(self)@.nodes,
                        start_idx as int,
                        old(self)@.nodes.len() as int,
                    ),
                    ..old(self)@
                }),
                None => start_idx + old(self)@.nodes.len() > usize::MAX && final(self)@ == old(
                    self,
                )@,
            },
            old(self)@.nodes.len() > 0 && !range_is_free(old(self)@.nodes, start_idx as int)
                ==> final(self)@ == old(self)@ && match r {
                Some(range) => range.0 == max_identity(old(self)@.nodes) + old(
                    self,
                )@.nodes.len() + 1 && range.1 == max_identity(old(self)@.nodes) + 2 * old(
                    self,
                )@.nodes.len() + 1,
                None => max_identity(old(self)@.nodes) + 2 * old(self)@.nodes.len() + 1
                    > usize::MAX,
            },
            old(self).index_ok() && identities_distinct(final(self)@.nodes)
                ==> final(self).index_ok(),
            old(self).index_ok() && (old(self)@.nodes.len() == 0 || !range_is_free(
                old(self)@.nodes,
                start_idx as int,
            )) ==> final(self).index_ok(),
    {
        let datacnt = self.data.len();
        if datacnt == 0 {
            return Some((0, 0));
        }
        let mut idx_min = self.data[0].get_idx();
        let mut idx_max = self.data[0].get_idx();
        let ghost mut at_min: int = 0;
        let ghost mut at_max: int = 0;
        let mut i: usize = 1;
        while i < datacnt
            invariant
                1 <= i <= datacnt == self.data.len(),
                forall|k: int| 0 <= k < i ==> idx_min <= (#[trigger] self@.nodes[k]).idx <= idx_max,
                0 <= at_min < i && self@.nodes[at_min].idx == idx_min,
                0 <= at_max < i && self@.nodes[at_max].idx == idx_max,
            decreases datacnt - i,
        {
            let idx = self.data[i].get_idx();
            if idx > idx_max {
                idx_max = idx;
                proof {
                    at_max = i as int;
                }
            }
            if idx < idx_min {
                idx_min = idx;
                proof {
                    at_min = i as int;
                }
            }
            i += 1;
        }
        assert(is_max_identity(self@.nodes, idx_max));
        assert(max_identity(self@.nodes) == idx_max);
        assert((forall|k: int|
            0 <= k < self@.nodes.len() ==> start_idx + datacnt <= (#[trigger] self@.nodes[k]).idx)
            <==> start_idx + datacnt <= idx_min);
        assert((forall|k: int| 0 <= k < self@.nodes.len() ==> (#[trigger] self@.nodes[k]).idx
            < start_idx) <==> idx_max < start_idx);
        let below = match start_idx.checked_add(datacnt) {
            Some(e) => e <= idx_min,
            None => false,
        };
        if below || start_idx > idx_max {
            assert(range_is_free(self@.nodes, start_idx as int));
            let end = match start_idx.checked_add(datacnt) {
                Some(e) => e,
                None => {
                    return None;
                },
            };
            let mut idx_cur = start_idx;
            let mut i: usize = 0;
            while i < datacnt
                invariant
                    i <= datacnt == old(self)@.nodes.len(),
                    idx_cur == start_idx + i,
                    end == start_idx + datacnt,
                    self@ == (TreeView {
                        nodes: renumbered(old(self)@.nodes, start_idx as int, i as int),
                        ..old(self)@
                    }),
                decreases datacnt - i,
            {
                proof {
                    lemma_renumbered_ids(old(self)@.nodes, start_idx as int, i as int);
                }
                self.renumber_one(i, idx_cur);
                idx_cur += 1;
                i += 1;
            }
            self.generate_index();
            Some((start_idx, end))
        } else {
            assert(!range_is_free(self@.nodes, start_idx as int));
            let a = match idx_max.checked_add(datacnt) {
                Some(x) => match x.checked_add(1) {
                    Some(y) => y,
                    None => {
                        return None;
                    },
                },
                None => {
                    return None;
                },
            };
            match a.checked_add(datacnt) {
                Some(b) => Some((a, b)),
                None => None,
            }
        }
    }

    /// Renumbers the nodes so that they carry the identities from `count`
    /// on, in document order, and returns the identity after the last one.
    /// `None`, and nothing changed, where the identities run out.
    pub fn renumber_from(&mut self, count: usize) -> (r: Option<usize>)
        ensures
            match r {
                Some(end) => graft_fits(old(self)@.nodes, count as int) && end == count + old(
                    self,
                )@.nodes.len() && final(self)@ == (TreeView {
                    nodes: renumbered_for(old(self)@.nodes, count as int),
                    ..old(self)@
                }),
                None => !graft_fits(old(self)@.nodes, count as int) && final(self)@ == old(self)@,
            },
            old(self).index_ok() && identities_distinct(final(self)@.nodes)
                ==> final(self).index_ok(),
    {
        let ghost nodes = self@.nodes;
        let ghost n = nodes.len() as int;
        if self.data.len() == 0 {
            assert(renumbered_for(nodes, count as int) =~= nodes);
            return Some(count);
        }
        match self.subtree_reindex(count) {
            None => None,
            Some((startidx, endidx)) => {
                if startidx == count {
                    proof {
                        let m = max_identity(nodes);
                        if !range_is_free(nodes, count as int) {
                            let k = choose|k: int|
                                0 <= k < nodes.len() && !((#[trigger] nodes[k]).idx < count);
                            assert(nodes[k].idx <= m);
                            assert(false);
                        }
                    }
                    Some(endidx)
                } else {
                    assert(!range_is_free(nodes, count as int));
                    let ghost m = max_identity(nodes);
                    assert(is_max_identity(nodes, m));
                    assert(range_is_free(nodes, startidx as int));
                    let second = self.subtree_reindex(startidx);
                    assert(second is Some);
                    proof {
                        lemma_renumbered_ids(nodes, startidx as int, n);
                        assert(identities_distinct(self@.nodes)) by {
                            let mid = self@.nodes;
                            assert forall|a: int, b: int| 0 <= a < b < mid.len() implies mid[a].idx
                                != mid[b].idx by {
                                assert(mid[a].idx == startidx + a);
                                assert(mid[b].idx == startidx + b);
                            }
                        }
                        let k = choose|k: int|
                            0 <= k < nodes.len() && !((#[trigger] nodes[k]).idx < count);
                        assert(nodes[k].idx <= m);
                        assert(range_is_free(self@.nodes, count as int));
                    }
                    match self.subtree_reindex(count) {
                        Some((_, end)) => Some(end),
                        None => None,
                    }
                }
            },
        }
    }

    /// Puts the nodes `incoming` into the place that `cell` names and moves
    /// the counter to `end`.
    fn commit_tree(&mut self, cell: Cell, incoming: Vec<ETreeNode>, end: usize) -> (r: usize)
        requires
            cell.slot <= old(self)@.nodes.len(),
        ensures
            r == cell.slot,
            final(self)@ == (TreeView {
                nodes: old(self)@.nodes.subrange(0, cell.slot as int) + grafted(
                    nodes_view(incoming@),
                    cell.route@,
                    cell.tail@,
                ) + old(self)@.nodes.subrange(cell.slot as int, old(self)@.nodes.len() as int),
                count: end,
                ..old(self)@
            }),
            old(self).index_ok() && identities_distinct(final(self)@.nodes)
                ==> final(self).index_ok(),
    {
        let mut incoming = incoming;
        let ghost before = nodes_view(incoming@);
        let slot = cell.slot;
        let n = incoming.len();
        let mut i: usize = 0;
        while i < n
            invariant
                i <= n == incoming.len(),
                before.len() == n,
                self@ == old(self)@,
                forall|k: int|
                    0 <= k < i ==> (#[trigger] nodes_view(incoming@)[k]) == grafted(
                        before,
                        cell.route@,
                        cell.tail@,
                    )[k],
                forall|k: int| i <= k < n ==> (#[trigger] nodes_view(incoming@)[k]) == before[k],
            decreases n - i,
        {
            let mut route = chain_copy(&cell.route);
            let mut rest = chain_copy(incoming[i].get_chain());
            route.append(&mut rest);
            let ghost prior = nodes_view(incoming@);
            let ghost chain = route@;
            assert(prior[i as int] == before[i as int]);
            assert(chain == cell.route@ + before[i as int].route);
            let mut node = incoming[i].clone();
            node.set_chain(route);
            if i == 0 {
                node.set_tail(cell.tail.as_str());
            }
            assert(node@ == grafted(before, cell.route@, cell.tail@)[i as int]);
            incoming.set(i, node);
            assert(nodes_view(incoming@) =~= prior.update(
                i as int,
                grafted(before, cell.route@, cell.tail@)[i as int],
            ));
            i += 1;
        }
        assert(nodes_view(incoming@) =~= grafted(before, cell.route@, cell.tail@));
        let ghost placed = nodes_view(incoming@);
        let mut rest = self.data.split_off(slot);
        self.data.append(&mut incoming);
        self.data.append(&mut rest);
        assert(nodes_view(self.data@) =~= old(self)@.nodes.subrange(0, slot as int) + placed + old(
            self,
        )@.nodes.subrange(slot as int, old(self)@.nodes.len() as int));
        self.count = end;
        proof {
            if old(self).index_ok() && self.enable_index {
                self.lemma_entries_kept(*old(self), slot as int);
            }
        }
        self.update_index(slot);
        slot
    }

    /// Puts the tree `tree` in as the sibling right before the node at `pos`
    /// and returns the position of its root.  The incoming nodes get new
    /// identities, from the tree's counter on.
    ///
    /// Nothing is done, and `None` returned, where `pos` is no position of
    /// the tree, where the node at `pos` has neither a previous sibling nor a
    /// parent, where `tree` holds no node, or where the identities run out.
    pub fn append_previous_tree(&mut self, pos: usize, tree: ETree) -> (r: Option<usize>)
        ensures
            match r {
                Some(p) => pos < old(self)@.nodes.len() && tree@.nodes.len() > 0 && graft_fits(
                    tree@.nodes,
                    old(self)@.count as int,
                ) && match plan_previous(old(self)@.nodes, pos as int) {
                    Some(plan) => p == plan.slot && final(self)@ == with_graft(
                        old(self)@,
                        plan,
                        tree@.nodes,
                    ),
                    None => false,
                },
                None => (pos >= old(self)@.nodes.len() || tree@.nodes.len() == 0 || !graft_fits(
                    tree@.nodes,
                    old(self)@.count as int,
                ) || plan_previous(old(self)@.nodes, pos as int) is None) && final(self)@ == old(
                    self,
                )@,
            },
            old(self).index_ok() && identities_distinct(final(self)@.nodes)
                ==> final(self).index_ok(),
    {
        let mut tree = tree;
        if tree.data.len() == 0 {
            return None;
        }
        proof {
            lemma_renumbered_for_len(tree@.nodes, self@.count as int);
        }
        match tree.renumber_from(self.count) {
            Some(end) => match self.prepare_append_previous(pos) {
                Some(cell) => Some(self.commit_tree(cell, tree.data, end)),
                None => None,
            },
            None => None,
        }
    }

    /// Puts the tree `tree` in as the sibling right after the node at `pos`
    /// and returns the position of its root.  The incoming nodes get new
    /// identities, from the tree's counter on.
    ///
    /// Nothing is done, and `None` returned, where `pos` is no position of
    /// the tree, where `tree` holds no node, or where the identities run out.
    pub fn append_next_tree(&mut self, pos: usize, tree: ETree) -> (r: Option<usize>)
        ensures
            match r {
                Some(p) => pos < old(self)@.nodes.len() && tree@.nodes.len() > 0 && graft_fits(
                    tree@.nodes,
                    old(self)@.count as int,
                ) && p == plan_next(old(self)@.nodes, pos as int).slot && final(self)@
                    == with_graft(
                    old(self)@,
                    plan_next(old(self)@.nodes, pos as int),
                    tree@.nodes,
                ),
                None => (pos >= old(self)@.nodes.len() || tree@.nodes.len() == 0 || !graft_fits(
                    tree@.nodes,
                    old(self)@.count as int,
                )) && final(self)@ == old(self)@,
            },
            old(self).index_ok() && identities_distinct(final(self)@.nodes)
                ==> final(self).index_ok(),
    {
        let mut tree = tree;
        if tree.data.len() == 0 {
            return None;
        }
        proof {
            lemma_renumbered_for_len(tree@.nodes, self@.count as int);
        }
        match tree.renumber_from(self.count) {
            Some(end) => match self.prepare_append_next(pos) {
                Some(cell) => Some(self.commit_tree(cell, tree.data, end)),
                None => None,
            },
            None => None,
        }
    }

    /// Puts the tree `tree` in as the last child of the node at `pos` and
    /// returns the position of its root.  The incoming nodes get new
    /// identities, from the tree's counter on.
    ///
    /// Nothing is done, and `None` returned, where `pos` is no position of
    /// the tree, where `tree` holds no node, or where the identities run out.
    pub fn append_child_tree(&mut self, pos: usize, tree: ETree) -> (r: Option<usize>)
        ensures
            match r {
                Some(p) => pos < old(self)@.nodes.len() && tree@.nodes.len() > 0 && graft_fits(
                    tree@.nodes,
                    old(self)@.count as int,
                ) && p == plan_child(old(self)@, pos as int).slot && final(self)@ == with_graft(
                    old(self)@,
                    plan_child(old(self)@, pos as int),
                    tree@.nodes,
                ),
                None => (pos >= old(self)@.nodes.len() || tree@.nodes.len() == 0 || !graft_fits(
                    tree@.nodes,
                    old(self)@.count as int,
                )) && final(self)@ == old(self)@,
            },
            old(self).index_ok() && identities_distinct(final(self)@.nodes)
                ==> final(self).index_ok(),
    {
        let mut tree = tree;
        if tree.data.len() == 0 {
            return None;
        }
        proof {
            lemma_renumbered_for_len(tree@.nodes, self@.count as int);
        }
        match tree.renumber_from(self.count) {
            Some(end) => match self.prepare_append_child(pos) {
                Some(cell) => Some(self.commit_tree(cell, tree.data, end)),
                None => None,
            },
            None => None,
        }
    }
}

/// The chain `chain` without its first `n` identities.
fn skip(chain: &Vec<usize>, n: usize) -> (r: Vec<usize>)
    ensures
        r@ == skip_chain(chain@, n as int),
{
    let mut r: Vec<usize> = Vec::new();
    if n <= chain.len() {
        let mut i: usize = n;
        while i < chain.len()
            invariant
                n <= i <= chain.len(),
                r@ == chain@.subrange(n as int, i as int),
            decreases chain.len() - i,
        {
            r.push(chain[i]);
            i += 1;
        }
    }
    r
}

/// The chain with every `old` replaced by `new`.
fn replaced(chain: &Vec<usize>, old: usize, new: usize) -> (r: Vec<usize>)
    ensures
        r@ == replace_id(chain@, old, new),
{
    let mut r: Vec<usize> = Vec::new();
    let mut i: usize = 0;
    while i < chain.len()
        invariant
            i <= chain.len(),
            r@ == replace_id(chain@, old, new).take(i as int),
        decreases chain.len() - i,
    {
        let x = chain[i];
        r.push(if x == old { new } else { x });
        assert(r@ =~= replace_id(chain@, old, new).take(i + 1));
        i += 1;
    }
    assert(replace_id(chain@, old, new).take(chain.len() as int) =~= replace_id(chain@, old, new));
    r
}

impl vstd::std_specs::convert::FromSpecImpl<ETreeNode> for ETree {
    open spec fn obeys_from_spec() -> bool {
        false
    }

    open spec fn from_spec(node: ETreeNode) -> Self {
        arbitrary()
    }
}

/// The tree whose only node is `node`.
pub open spec fn single_view(node: NodeView) -> TreeView {
    TreeView {
        nodes: seq![NodeView { idx: 0, route: Seq::empty(), ..node }],
        count: 1,
        indent: Seq::empty(),
        crlf: Seq::empty(),
        version: seq!['1', '.', '0'],
        encoding: None,
        standalone: None,
        enable_index: false,
    }
}

impl From<ETreeNode> for ETree {
    /// The tree whose root and only node is `node`, under the identity 0 and
    /// the empty label.  The version is `1.0`.
    fn from(node: ETreeNode) -> (tree: Self)
        ensures
            tree@ == single_view(node@),
            tree.index_ok(),
    {
        let mut node = node;
        node.set_idx(0);
        node.set_chain(Vec::new());
        let mut data: Vec<ETreeNode> = Vec::new();
        data.push(node);
        proof {
            reveal_strlit("1.0");
            assert("1.0"@ =~= seq!['1', '.', '0']);
        }
        let tree = ETree {
            indent: String::new(),
            count: 1,
            version: "1.0".to_string(),
            encoding: None,
            standalone: None,
            data,
            crlf: String::new(),
            enable_index: false,
            index: HashMap::new(),
        };
        assert(tree@.nodes =~= single_view(node@).nodes);
        tree
    }
}

} // verus!
