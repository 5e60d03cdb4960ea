//! Indentation: finding it, removing it and laying a tree out anew.

use crate::etree::ETree;
use crate::etreenode::NodeView;
use crate::model::{
    children_of, parent_of, previous_of, root_from, root_of, text_or_empty, with_tail, with_text,
    TreeView,
};
use crate::reader::{read, read_view, ParseError};
use crate::text::{chars_of, contains_crlf, has_crlf, join2, string_of_range, strip_prefix};
use vstd::prelude::*;

verus! {

/// Whether a character is white space.
pub open spec fn is_white(c: char) -> bool {
    ('\u{9}' <= c <= '\u{d}') || c == ' ' || c == '\u{85}' || c == '\u{a0}' || c == '\u{1680}' || (
    '\u{2000}' <= c <= '\u{200a}') || c == '\u{2028}' || c == '\u{2029}' || c == '\u{202f}' || c
        == '\u{205f}' || c == '\u{3000}'
}

/// The first position from `i` on that holds no white space, or the length.
pub open spec fn white_end(s: Seq<char>, i: int) -> int
    decreases s.len() - i,
{
    if 0 <= i < s.len() && is_white(s[i]) {
        white_end(s, i + 1)
    } else {
        i
    }
}

/// The end of the text before `j` once the white space at its end is taken
/// off.
pub open spec fn white_start(s: Seq<char>, j: int) -> int
    decreases j,
{
    if 0 < j <= s.len() && is_white(s[j - 1]) {
        white_start(s, j - 1)
    } else {
        j
    }
}

/// The text without the white space at its start and at its end.
pub open spec fn trimmed(s: Seq<char>) -> Seq<char> {
    let a = white_end(s, 0);
    if a >= s.len() {
        Seq::empty()
    } else {
        s.subrange(a, white_start(s, s.len() as int))
    }
}

fn white_c(c: char) -> (r: bool)
    ensures
        r == is_white(c),
{
    ('\u{9}' <= c && c <= '\u{d}') || c == ' ' || c == '\u{85}' || c == '\u{a0}' || c
        == '\u{1680}' || ('\u{2000}' <= c && c <= '\u{200a}') || c == '\u{2028}' || c
        == '\u{2029}' || c == '\u{202f}' || c == '\u{205f}' || c == '\u{3000}'
}

/// The text without the white space at its start and at its end.
pub fn trim(text: &str) -> (r: String)
    ensures
        r@ == trimmed(text@),
{
    let s = chars_of(text);
    let mut a: usize = 0;
    while a < s.len() && white_c(s[a])
        invariant
            a <= s.len(),
            white_end(s@, 0) == white_end(s@, a as int),
        decreases s.len() - a,
    {
        a += 1;
    }
    if a >= s.len() {
        return String::new();
    }
    let mut b: usize = s.len();
    while white_c(s[b - 1])
        invariant
            a < b <= s.len(),
            a < s.len(),
            !is_white(s@[a as int]),
            white_start(s@, s.len() as int) == white_start(s@, b as int),
        decreases b,
    {
        b -= 1;
    }
    string_of_range(&s, a, b)
}

/// The text `s`, `n` times over.
pub open spec fn repeated(s: Seq<char>, n: nat) -> Seq<char>
    decreases n,
{
    if n == 0 {
        Seq::empty()
    } else {
        repeated(s, (n - 1) as nat) + s
    }
}

/// The line ending `crlf`, then `level` units of `indent`.
pub fn margin(crlf: &str, indent: &str, level: usize) -> (r: String)
    ensures
        r@ == crlf@ + repeated(indent@, level as nat),
{
    let mut out = chars_of(crlf);
    let unit = chars_of(indent);
    let mut i: usize = 0;
    assert(out@ =~= crlf@ + repeated(indent@, 0));
    while i < level
        invariant
            i <= level,
            unit@ == indent@,
            out@ == crlf@ + repeated(indent@, i as nat),
        decreases level - i,
    {
        crate::text::push_chars(&mut out, &unit);
        assert(out@ =~= crlf@ + repeated(indent@, (i + 1) as nat));
        i += 1;
    }
    crate::text::string_of(&out)
}

/// Going back from `i`: the position of the nearest element, or 0.
pub open spec fn last_element_from(nodes: Seq<NodeView>, i: int) -> int
    decreases i,
{
    if i <= 0 || i > nodes.len() {
        0
    } else if !nodes[i - 1].is_synthetic() {
        i - 1
    } else {
        last_element_from(nodes, i - 1)
    }
}

/// What is left of `whole` behind `prefix`, where it starts with it.
pub open spec fn behind(whole: Seq<char>, prefix: Seq<char>) -> Option<Seq<char>> {
    if prefix.is_prefix_of(whole) {
        Some(whole.subrange(prefix.len() as int, whole.len() as int))
    } else {
        None
    }
}

/// The indentation unit that a tree shows, if it shows one.  The last
/// element of the sequence is looked at: what stands before it, the tail of
/// its previous sibling or else the text of its parent, is its own tail and
/// one unit more.
pub open spec fn detected_indent(nodes: Seq<NodeView>) -> Option<Seq<char>> {
    let idx = last_element_from(nodes, nodes.len() as int);
    match previous_of(nodes, idx) {
        Some(p) => behind(nodes[p as int].tail, nodes[idx].tail),
        None => match parent_of(nodes, idx) {
            Some(q) => behind(text_or_empty(nodes[q as int].text), nodes[idx].tail),
            None => None,
        },
    }
}

/// The tree with the indentation that it shows, if it shows one.
pub open spec fn with_detected_indent(tree: TreeView) -> TreeView {
    TreeView {
        indent: match detected_indent(tree.nodes) {
            Some(x) => x,
            None => tree.indent,
        },
        ..tree
    }
}

/// The tree that a document gives, or `None` where it is malformed.
pub open spec fn parsed_view(content: Seq<char>) -> Option<TreeView> {
    match read_view(content) {
        Some(tree) => Some(with_detected_indent(tree)),
        None => None,
    }
}

/// Whether some line feed stands before the last character.
pub open spec fn has_inner_newline(s: Seq<char>) -> bool {
    exists|i: int| 0 <= i < s.len() - 1 && #[trigger] s[i] == '\n'
}

/// Where the last line starts, for a text whose lines end before `end`:
/// behind the last line feed before `end`, or at 0.
pub open spec fn last_line_start(s: Seq<char>, end: int) -> int
    decreases end,
{
    if end <= 0 || end > s.len() {
        0
    } else if s[end - 1] == '\n' {
        end
    } else {
        last_line_start(s, end - 1)
    }
}

/// The last line of a text, without its line ending.  A text that ends with
/// a line feed ends its last line there, and a carriage return right before
/// that line feed belongs to the line ending.
pub open spec fn last_line(s: Seq<char>) -> Seq<char> {
    let n = s.len() as int;
    if n > 0 && s[n - 1] == '\n' {
        let end = if n > 1 && s[n - 2] == '\r' {
            n - 2
        } else {
            n - 1
        };
        s.subrange(last_line_start(s, n - 1), if last_line_start(s, n - 1) <= end {
            end
        } else {
            last_line_start(s, n - 1)
        })
    } else {
        s.subrange(last_line_start(s, n), n)
    }
}

/// The line ending that a requested indentation asks for: a carriage return
/// and a line feed where the request has several lines, a last line that is
/// not empty, and that pair somewhere; a line feed otherwise.
pub open spec fn requested_crlf(s: Seq<char>) -> Seq<char> {
    if has_inner_newline(s) && last_line(s).len() > 0 && has_crlf(s) {
        seq!['\r', '\n']
    } else {
        seq!['\n']
    }
}

/// The nodes laid out from the node at `pos` down, which stands `level`
/// levels deep.  `n` is the number of nodes.
///
/// The node's tail is the line ending and `level` units of indentation.  A
/// node with children gets as its text its text without white space around
/// it, the line ending and one unit more; its children are laid out one
/// level deeper, and the last child's tail is that of the node.  An element
/// without children has its text freed of the white space around it.
pub open spec fn pretty_nodes(
    nodes: Seq<NodeView>,
    crlf: Seq<char>,
    indent: Seq<char>,
    n: int,
    pos: int,
    level: nat,
) -> Seq<NodeView>
    decreases n - pos, 1int, 0int,
{
    if pos < 0 || pos >= n {
        nodes
    } else {
        let tail = crlf + repeated(indent, level);
        let n1 = with_tail(nodes, pos, tail);
        let kids = children_of(n1, pos);
        if kids.len() > 0 {
            let text = trimmed(text_or_empty(n1[pos].text)) + crlf + repeated(indent, level + 1);
            let n2 = with_text(n1, pos, text);
            let n3 = pretty_kids(n2, crlf, indent, n, pos, kids, 0, level + 1);
            if kids.last() < n {
                with_tail(n3, kids.last() as int, tail)
            } else {
                n3
            }
        } else if !n1[pos].is_synthetic() && n1[pos].text is Some {
            with_text(n1, pos, trimmed(n1[pos].text.unwrap()))
        } else {
            n1
        }
    }
}

/// The nodes with the children `kids` of the node at `pos`, from number `k`
/// on, laid out at `level`.
pub open spec fn pretty_kids(
    nodes: Seq<NodeView>,
    crlf: Seq<char>,
    indent: Seq<char>,
    n: int,
    pos: int,
    kids: Seq<usize>,
    k: int,
    level: nat,
) -> Seq<NodeView>
    decreases n - pos, 0int, kids.len() - k,
{
    if k < 0 || k >= kids.len() {
        nodes
    } else if pos < kids[k] < n {
        pretty_kids(
            pretty_nodes(nodes, crlf, indent, n, kids[k] as int, level),
            crlf,
            indent,
            n,
            pos,
            kids,
            k + 1,
            level,
        )
    } else {
        pretty_kids(nodes, crlf, indent, n, pos, kids, k + 1, level)
    }
}

/// The nodes with the tail of each of the first `k` replaced by `crlf`.
pub open spec fn with_lead_tails(nodes: Seq<NodeView>, crlf: Seq<char>, k: int) -> Seq<NodeView> {
    Seq::new(
        nodes.len(),
        |i: int|
            if i < k {
                NodeView { tail: crlf, ..nodes[i] }
            } else {
                nodes[i]
            },
    )
}

/// The tree laid out with the requested indentation: `request` is a line
/// ending and one unit of indentation.  What stands before the root gets
/// the line ending as its tail.
pub open spec fn pretty_view(tree: TreeView, request: Seq<char>) -> TreeView {
    let crlf = requested_crlf(request);
    let indent = last_line(request);
    let root = root_of(tree.nodes);
    TreeView {
        nodes: pretty_nodes(
            with_lead_tails(tree.nodes, crlf, root),
            crlf,
            indent,
            tree.nodes.len() as int,
            root,
            0,
        ),
        indent: indent,
        crlf: crlf,
        ..tree
    }
}

/// The tree without indentation: every tail and every text without the
/// white space around it, and neither an indentation unit nor a line ending.
pub open spec fn noindent_view(tree: TreeView) -> TreeView {
    TreeView {
        nodes: Seq::new(
            tree.nodes.len(),
            |i: int|
                NodeView {
                    tail: trimmed(tree.nodes[i].tail),
                    text: match tree.nodes[i].text {
                        Some(t) => Some(trimmed(t)),
                        None => None,
                    },
                    ..tree.nodes[i]
                },
        ),
        indent: Seq::empty(),
        crlf: Seq::empty(),
        ..tree
    }
}

/// The first character of `s` at or after which no line feed stands before
/// `end`.
fn line_start(s: &Vec<char>, end: usize) -> (r: usize)
    requires
        end <= s.len(),
    ensures
        r == last_line_start(s@, end as int),
        r <= end,
{
    let mut e: usize = end;
    while e > 0
        invariant
            e <= end <= s.len(),
            last_line_start(s@, end as int) == last_line_start(s@, e as int),
        decreases e,
    {
        if s[e - 1] == '\n' {
            return e;
        }
        e -= 1;
    }
    0
}

/// The last line of a text, without its line ending.
pub fn last_line_of(text: &str) -> (r: String)
    ensures
        r@ == last_line(text@),
{
    let s = chars_of(text);
    let n = s.len();
    if n > 0 && s[n - 1] == '\n' {
        let end = if n > 1 && s[n - 2] == '\r' {
            n - 2
        } else {
            n - 1
        };
        let start = line_start(&s, n - 1);
        if start <= end {
            string_of_range(&s, start, end)
        } else {
            string_of_range(&s, start, start)
        }
    } else {
        let start = line_start(&s, n);
        string_of_range(&s, start, n)
    }
}

/// Whether some line feed stands before the last character.
pub fn inner_newline(text: &str) -> (r: bool)
    ensures
        r == has_inner_newline(text@),
{
    let s = chars_of(text);
    let mut i: usize = 0;
    while i < s.len() && s.len() - i > 1
        invariant
            s@ == text@,
            forall|k: int| 0 <= k < i && k < s.len() - 1 ==> (#[trigger] s@[k]) != '\n',
        decreases s.len() - i,
    {
        if s[i] == '\n' {
            return true;
        }
        i += 1;
    }
    false
}

impl ETree {
    /// Looks for the indentation unit that the tree shows, and takes it
    /// where it finds one.
    pub fn detect_indent(&mut self)
        ensures
            final(self)@ == with_detected_indent(old(self)@),
            old(self).index_ok() ==> final(self).index_ok(),
    {
        let n = self.len();
        let mut idx: usize = n;
        let mut found = false;
        while idx > 0 && !found
            invariant
                idx <= n == self@.nodes.len(),
                self@ == old(self)@,
                old(self).index_ok() ==> self.index_ok(),
                !found ==> last_element_from(self@.nodes, n as int) == last_element_from(
                    self@.nodes,
                    idx as int,
                ),
                found ==> idx == last_element_from(self@.nodes, n as int) && idx < n,
            decreases idx + (if found { 0int } else { 1int }),
        {
            idx -= 1;
            let synthetic = match self.node(idx) {
                Some(node) => is_synthetic_name(node.get_localname().as_str()),
                None => false,
            };
            if !synthetic {
                found = true;
            }
        }
        let crlf = self.get_crlf();
        match self.previous(idx) {
            Some(p) => {
                let whole = match self.node(p) {
                    Some(node) => node.get_tail(),
                    None => String::new(),
                };
                let prefix = match self.node(idx) {
                    Some(node) => node.get_tail(),
                    None => String::new(),
                };
                match strip_prefix(whole.as_str(), prefix.as_str()) {
                    Some(rest) => {
                        self.set_layout(rest.as_str(), crlf.as_str());
                    },
                    None => {},
                }
            },
            None => match self.parent(idx) {
                Some(q) => {
                    let whole = match self.node(q) {
                        Some(node) => match node.get_text() {
                            Some(t) => t,
                            None => String::new(),
                        },
                        None => String::new(),
                    };
                    let prefix = match self.node(idx) {
                        Some(node) => node.get_tail(),
                        None => String::new(),
                    };
                    match strip_prefix(whole.as_str(), prefix.as_str()) {
                        Some(rest) => {
                            self.set_layout(rest.as_str(), crlf.as_str());
                        },
                        None => {},
                    }
                },
                None => {},
            },
        }
    }

    /// Reads a document into a tree.
    pub fn parse_str(content: &str) -> (r: Result<ETree, ParseError>)
        ensures
            match r {
                Ok(tree) => parsed_view(content@) == Some(tree@) && tree.index_ok(),
                Err(_) => parsed_view(content@) is None,
            },
    {
        match read(content) {
            Ok(tree) => {
                let mut tree = tree;
                tree.detect_indent();
                Ok(tree)
            },
            Err(e) => Err(e),
        }
    }

    /// Takes the indentation out of the tree: every tail and every text
    /// loses the white space around it.  Returns the line ending and the
    /// indentation unit that the tree had, as one text.
    pub fn noindent(&mut self) -> (r: String)
        ensures
            r@ == old(self)@.crlf + old(self)@.indent,
            final(self)@ == noindent_view(old(self)@),
            old(self).index_ok() ==> final(self).index_ok(),
    {
        let oldindent = join2(self.get_crlf().as_str(), self.get_indent().as_str());
        self.set_layout("", "");
        proof {
            reveal_strlit("");
            assert(""@ =~= Seq::<char>::empty());
        }
        let n = self.len();
        let ghost before = old(self)@.nodes;
        let ghost goal = noindent_view(old(self)@);
        let mut i: usize = 0;
        while i < n
            invariant
                i <= n == self@.nodes.len(),
                before == old(self)@.nodes,
                before.len() == n,
                goal.nodes.len() == n,
                goal == noindent_view(old(self)@),
                self@ == (TreeView { nodes: self@.nodes, ..goal }),
                old(self).index_ok() ==> self.index_ok(),
                forall|k: int| 0 <= k < i ==> (#[trigger] self@.nodes[k]) == goal.nodes[k],
                forall|k: int| i <= k < n ==> (#[trigger] self@.nodes[k]) == before[k],
            decreases n - i,
        {
            let (tail, text) = match self.node(i) {
                Some(node) => (node.get_tail(), node.get_text()),
                None => (String::new(), None),
            };
            let ghost prior = self@.nodes;
            assert(prior[i as int] == before[i as int]);
            let tail = trim(tail.as_str());
            self.set_tail_at(i, tail.as_str());
            match text {
                Some(t) => {
                    let t = trim(t.as_str());
                    self.set_text_at(i, t.as_str());
                },
                None => {},
            }
            assert(self@.nodes[i as int] == goal.nodes[i as int]);
            assert(forall|k: int| 0 <= k < n && k != i ==> self@.nodes[k] == prior[k]);
            i += 1;
        }
        assert(self@.nodes =~= goal.nodes);
        oldindent
    }

    /// Takes the line ending and the indentation unit from a request, which
    /// is a line ending followed by one unit of indentation.
    pub fn set_indent(&mut self, indent: &str)
        ensures
            final(self)@ == (TreeView {
                indent: last_line(indent@),
                crlf: crate::layout::requested_crlf(indent@),
                ..old(self)@
            }),
            old(self).index_ok() ==> final(self).index_ok(),
    {
        let unit = last_line_of(indent);
        proof {
            reveal_strlit("\r\n");
            reveal_strlit("\n");
            assert("\r\n"@ =~= seq!['\r', '\n']);
            assert("\n"@ =~= seq!['\n']);
        }
        let crlf = if inner_newline(indent) && !unit.as_str().is_empty() && contains_crlf(indent) {
            "\r\n"
        } else {
            "\n"
        };
        self.set_layout(unit.as_str(), crlf);
    }

    /// Lays the node at `pos` and what is below it out, `level` levels deep.
    fn pretty_tree(&mut self, pos: usize, level: usize)
        requires
            level + (old(self)@.nodes.len() - pos) <= usize::MAX,
        ensures
            final(self)@ == (TreeView {
                nodes: pretty_nodes(
                    old(self)@.nodes,
                    old(self)@.crlf,
                    old(self)@.indent,
                    old(self)@.nodes.len() as int,
                    pos as int,
                    level as nat,
                ),
                ..old(self)@
            }),
            final(self)@.nodes.len() == old(self)@.nodes.len(),
            old(self).index_ok() ==> final(self).index_ok(),
        decreases old(self)@.nodes.len() - pos, 1int, 0int,
    {
        let n = self.len();
        if pos >= n {
            return ;
        }
        let crlf = self.get_crlf();
        let indent = self.get_indent();
        let tail = margin(crlf.as_str(), indent.as_str(), level);
        self.set_tail_at(pos, tail.as_str());
        let children = self.children(pos);
        if children.len() > 0 {
            let text = match self.node(pos) {
                Some(node) => match node.get_text() {
                    Some(t) => t,
                    None => String::new(),
                },
                None => String::new(),
            };
            let inner = margin(crlf.as_str(), indent.as_str(), level + 1);
            let text = join2(trim(text.as_str()).as_str(), inner.as_str());
            assert(text@ =~= trimmed(text_or_empty(self@.nodes[pos as int].text)) + crlf@
                + repeated(indent@, (level + 1) as nat));
            self.set_text_at(pos, text.as_str());
            self.pretty_kids(pos, &children, 0, level + 1);
            let last = children[children.len() - 1];
            if last < n {
                self.set_tail_at(last, tail.as_str());
            }
        } else {
            let (synthetic, text) = match self.node(pos) {
                Some(node) => (is_synthetic_name(node.get_localname().as_str()), node.get_text()),
                None => (true, None),
            };
            if !synthetic {
                match text {
                    Some(t) => {
                        let t = trim(t.as_str());
                        self.set_text_at(pos, t.as_str());
                    },
                    None => {},
                }
            }
        }
    }

    /// Lays the children `kids` of the node at `pos` out, from number `k`
    /// on.
    fn pretty_kids(&mut self, pos: usize, kids: &Vec<usize>, k: usize, level: usize)
        requires
            pos < old(self)@.nodes.len(),
            level + (old(self)@.nodes.len() - pos) <= usize::MAX + 1,
            level >= 1,
        ensures
            final(self)@ == (TreeView {
                nodes: pretty_kids(
                    old(self)@.nodes,
                    old(self)@.crlf,
                    old(self)@.indent,
                    old(self)@.nodes.len() as int,
                    pos as int,
                    kids@,
                    k as int,
                    level as nat,
                ),
                ..old(self)@
            }),
            final(self)@.nodes.len() == old(self)@.nodes.len(),
            old(self).index_ok() ==> final(self).index_ok(),
        decreases old(self)@.nodes.len() - pos, 0int, kids.len() - k,
    {
        if k >= kids.len() {
            return ;
        }
        let child = kids[k];
        if pos < child && child < self.len() {
            self.pretty_tree(child, level);
        }
        self.pretty_kids(pos, kids, k + 1, level);
    }

    /// Lays the tree out anew.  `indent` is a line ending followed by one
    /// unit of indentation, such as a line feed and two spaces.
    pub fn pretty(&mut self, indent: &str)
        ensures
            final(self)@ == pretty_view(old(self)@, indent@),
            old(self).index_ok() ==> final(self).index_ok(),
    {
        self.set_indent(indent);
        let crlf = self.get_crlf();
        let n = self.len();
        let ghost before = old(self)@.nodes;
        let mut idx: usize = 0;
        let mut at_root = false;
        while idx < n && !at_root
            invariant
                idx <= n == self@.nodes.len(),
                before == old(self)@.nodes,
                before.len() == n,
                crlf@ == requested_crlf(indent@),
                old(self).index_ok() ==> self.index_ok(),
                self@ == (TreeView {
                    nodes: self@.nodes,
                    indent: last_line(indent@),
                    crlf: requested_crlf(indent@),
                    ..old(self)@
                }),
                self@.nodes == with_lead_tails(before, crlf@, idx as int),
                !at_root ==> root_of(before) == root_from(before, idx as int),
                at_root ==> idx == root_of(before),
            decreases n - idx + (if at_root { 0int } else { 1int }),
        {
            let synthetic = match self.node(idx) {
                Some(node) => is_synthetic_name(node.get_localname().as_str()),
                None => false,
            };
            assert(synthetic == before[idx as int].is_synthetic());
            if synthetic {
                self.set_tail_at(idx, crlf.as_str());
                assert(self@.nodes =~= with_lead_tails(before, crlf@, idx + 1));
                idx += 1;
            } else {
                at_root = true;
            }
        }
        self.pretty_tree(idx, 0);
    }
}

/// Whether a name marks a construct that is no element: it starts with `<`
/// and ends with `>`.
pub fn is_synthetic_name(name: &str) -> (r: bool)
    ensures
        r == (name@.len() > 0 && name@.first() == '<' && name@.last() == '>'),
{
    let s = chars_of(name);
    s.len() > 0 && s[0] == '<' && s[s.len() - 1] == '>'
}

} // verus!
