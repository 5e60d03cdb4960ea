//! Writing a tree as a document.
//!
//! The nodes are replayed in document order.  Between two nodes the labels
//! tell what is to be closed: nothing where the second is a child of the
//! first, the first where they are siblings, and the first with its open
//! ancestors up to the second's parent where the second stands higher.  The
//! bytes of each tag and text are made by the `quick_xml` writer.

use crate::etree::ETree;
use crate::etreenode::{attrs_view, NodeView};
use crate::model::{position_from, text_or_empty, TreeView};
use crate::text::str_eq;
use quick_xml::Writer;
use quick_xml::events::{BytesDecl, BytesEnd, BytesStart, BytesText, Event};
use std::io::Cursor;
use vstd::prelude::*;
use vstd::string::StrSliceExecFns;
use vstd::utf8::encode_utf8;

verus! {

/// What is handed to the writer, as plain values.
pub ghost enum Markup {
    Decl(Seq<char>, Option<Seq<char>>, Option<Seq<char>>),
    Start(Seq<u8>, int),
    Empty(Seq<u8>, int),
    End(Seq<char>),
    Text(Seq<char>),
    Comment(Seq<char>),
    CData(Seq<char>),
    PI(Seq<char>),
    DocType(Seq<char>),
}

/// The bytes of a text with each of `<`, `>`, `&`, `'` and `"` replaced by
/// its entity, as the writer's `escape` does it.
pub uninterp spec fn escaped_text(text: Seq<char>) -> Seq<u8>;

/// The bytes of an optional field of a declaration: the bytes that lead it
/// in and the field, or nothing for a field that is absent.
pub open spec fn field_bytes(lead: Seq<char>, field: Option<Seq<char>>) -> Seq<u8> {
    match field {
        Some(f) => encode_utf8(lead) + encode_utf8(f),
        None => Seq::empty(),
    }
}

/// The bytes that the writer gives for a piece of markup: what is handed to
/// it between the brackets of its kind, a text escaped, the bytes of a tag
/// and the fields of a declaration as they are.
pub open spec fn markup_bytes(m: Markup) -> Seq<u8> {
    match m {
        Markup::Decl(version, encoding, standalone) => encode_utf8("<?xml version=\""@)
            + encode_utf8(version) + field_bytes("\" encoding=\""@, encoding) + field_bytes(
            "\" standalone=\""@,
            standalone,
        ) + encode_utf8("\"?>"@),
        Markup::Start(content, _) => encode_utf8("<"@) + content + encode_utf8(">"@),
        Markup::Empty(content, _) => encode_utf8("<"@) + content + encode_utf8("/>"@),
        Markup::End(name) => encode_utf8("</"@) + encode_utf8(name) + encode_utf8(">"@),
        Markup::Text(text) => escaped_text(text),
        Markup::Comment(text) => encode_utf8("<!--"@) + escaped_text(text) + encode_utf8("-->"@),
        Markup::CData(text) => encode_utf8("<![CDATA["@) + escaped_text(text) + encode_utf8(
            "]]>"@,
        ),
        Markup::PI(text) => encode_utf8("<?"@) + escaped_text(text) + encode_utf8("?>"@),
        Markup::DocType(text) => encode_utf8("<!DOCTYPE"@) + escaped_text(text) + encode_utf8(
            ">"@,
        ),
    }
}

pub open spec fn opt_str(s: Option<&str>) -> Option<Seq<char>> {
    match s {
        Some(t) => Some(t@),
        None => None,
    }
}

/// `Writer::write_event` on the declaration that `BytesDecl::new` makes of
/// the three fields: `<?xml version="`, the version, for each field that is
/// there ` encoding="` or ` standalone="` behind the closing quote of the
/// field before, and the last quote and `?>`.  Nothing is escaped.
#[verifier::external_body]
fn written_decl(version: &str, encoding: Option<&str>, standalone: Option<&str>) -> (r: Vec<u8>)
    ensures
        r@ == markup_bytes(Markup::Decl(version@, opt_str(encoding), opt_str(standalone))),
{
    let decl = BytesDecl::new(
        version.as_bytes(),
        encoding.map(|e| e.as_bytes()),
        standalone.map(|s| s.as_bytes()),
    );
    let mut writer = Writer::new(Cursor::new(Vec::new()));
    let _ = writer.write_event(Event::Decl(decl));
    writer.into_inner().into_inner()
}

/// The bytes that stand for one attribute in a tag: a space, the key as it
/// is, and the escaped value in double quotes behind `=`.
pub open spec fn attribute_bytes(key: Seq<char>, value: Seq<char>) -> Seq<u8> {
    encode_utf8(" "@) + encode_utf8(key) + encode_utf8("=\""@) + escaped_text(value)
        + encode_utf8("\""@)
}

/// `BytesStart::push_attribute` on an element without a name, with a key
/// and a value that are texts: the bytes that it adds for the attribute.
/// The escaped value goes by its name.
#[verifier::external_body]
fn pushed_attribute(key: &str, value: &str) -> (r: Vec<u8>)
    ensures
        r@ == attribute_bytes(key@, value@),
{
    let mut elem = BytesStart::borrowed(b"", 0);
    elem.push_attribute((key, value));
    elem.to_vec()
}

/// `Writer::write_event` on the start tag that `BytesStart::borrowed` makes
/// of the bytes of a name and attributes, of which the first `name_len` are
/// the name: the bytes between `<` and `>`.
#[verifier::external_body]
fn written_start(content: &Vec<u8>, name_len: usize) -> (r: Vec<u8>)
    requires
        name_len <= content.len(),
    ensures
        r@ == markup_bytes(Markup::Start(content@, name_len as int)),
{
    let mut writer = Writer::new(Cursor::new(Vec::new()));
    let _ = writer.write_event(Event::Start(BytesStart::borrowed(content, name_len)));
    writer.into_inner().into_inner()
}

/// `Writer::write_event` on the empty-element tag made in the same way: the
/// bytes between `<` and `/>`.
#[verifier::external_body]
fn written_empty(content: &Vec<u8>, name_len: usize) -> (r: Vec<u8>)
    requires
        name_len <= content.len(),
    ensures
        r@ == markup_bytes(Markup::Empty(content@, name_len as int)),
{
    let mut writer = Writer::new(Cursor::new(Vec::new()));
    let _ = writer.write_event(Event::Empty(BytesStart::borrowed(content, name_len)));
    writer.into_inner().into_inner()
}

/// `Writer::write_event` on the end tag that `BytesEnd::owned` makes of a
/// name: the name between `</` and `>`.
#[verifier::external_body]
fn written_end(name: &str) -> (r: Vec<u8>)
    ensures
        r@ == markup_bytes(Markup::End(name@)),
{
    let mut writer = Writer::new(Cursor::new(Vec::new()));
    let _ = writer.write_event(Event::End(BytesEnd::owned(Vec::<u8>::from(name))));
    writer.into_inner().into_inner()
}

/// `Writer::write_event` on the text that `BytesText::from_plain_str` makes:
/// the text as `escape` gives it.  The contract gives those bytes a name.
#[verifier::external_body]
fn written_text(text: &str) -> (r: Vec<u8>)
    ensures
        r@ == escaped_text(text@),
{
    let mut writer = Writer::new(Cursor::new(Vec::new()));
    let _ = writer.write_event(Event::Text(BytesText::from_plain_str(text)));
    writer.into_inner().into_inner()
}

/// `Writer::write_event` on a comment with the text that
/// `BytesText::from_plain_str` makes: the escaped text between `<!--` and
/// `-->`.
#[verifier::external_body]
fn written_comment(text: &str) -> (r: Vec<u8>)
    ensures
        r@ == markup_bytes(Markup::Comment(text@)),
{
    let mut writer = Writer::new(Cursor::new(Vec::new()));
    let _ = writer.write_event(Event::Comment(BytesText::from_plain_str(text)));
    writer.into_inner().into_inner()
}

/// `Writer::write_event` on a CDATA section with the text that
/// `BytesText::from_plain_str` makes: the escaped text between `<![CDATA[` and
/// `]]>`.
#[verifier::external_body]
fn written_cdata(text: &str) -> (r: Vec<u8>)
    ensures
        r@ == markup_bytes(Markup::CData(text@)),
{
    let mut writer = Writer::new(Cursor::new(Vec::new()));
    let _ = writer.write_event(Event::CData(BytesText::from_plain_str(text)));
    writer.into_inner().into_inner()
}

/// `Writer::write_event` on a processing instruction with the text that
/// `BytesText::from_plain_str` makes: the escaped text between `<?` and
/// `?>`.
#[verifier::external_body]
fn written_pi(text: &str) -> (r: Vec<u8>)
    ensures
        r@ == markup_bytes(Markup::PI(text@)),
{
    let mut writer = Writer::new(Cursor::new(Vec::new()));
    let _ = writer.write_event(Event::PI(BytesText::from_plain_str(text)));
    writer.into_inner().into_inner()
}

/// `Writer::write_event` on a doctype with the text that
/// `BytesText::from_plain_str` makes: the escaped text between `<!DOCTYPE` and
/// `>`.
#[verifier::external_body]
fn written_doctype(text: &str) -> (r: Vec<u8>)
    ensures
        r@ == markup_bytes(Markup::DocType(text@)),
{
    let mut writer = Writer::new(Cursor::new(Vec::new()));
    let _ = writer.write_event(Event::DocType(BytesText::from_plain_str(text)));
    writer.into_inner().into_inner()
}

/// Why a tree could not be written.
#[derive(Debug, Clone, Copy, PartialEq, Eq)]
pub enum WriteError {
    /// Two neighbouring labels do not fit together, or a label holds an
    /// identity that no node carries.
    StructuralCorruption,
}

/// The bytes that stand for the attributes from number `k` on in a tag.
pub open spec fn attributes_bytes(attrs: Seq<(Seq<char>, Seq<char>)>, k: int) -> Seq<u8>
    decreases attrs.len() - k,
{
    if k < 0 || k >= attrs.len() {
        Seq::empty()
    } else {
        attribute_bytes(attrs[k].0, attrs[k].1) + attributes_bytes(attrs, k + 1)
    }
}

/// What opens a node: a comment, a CDATA section, a processing instruction
/// or a doctype with its text; a start tag and the text for an element with
/// a text; an empty-element tag and the tail for an element without.
pub open spec fn opening(node: NodeView) -> Seq<u8> {
    if node.local_name == "<Comment>"@ {
        markup_bytes(Markup::Comment(text_or_empty(node.text)))
    } else if node.local_name == "<CData>"@ {
        markup_bytes(Markup::CData(text_or_empty(node.text)))
    } else if node.local_name == "<PI>"@ {
        markup_bytes(Markup::PI(text_or_empty(node.text)))
    } else if node.local_name == "<DocType>"@ {
        markup_bytes(Markup::DocType(text_or_empty(node.text)))
    } else {
        let name = encode_utf8(node.name());
        let content = name + attributes_bytes(node.attr, 0);
        match node.text {
            Some(text) => markup_bytes(Markup::Start(content, name.len() as int)) + markup_bytes(
                Markup::Text(text),
            ),
            None => markup_bytes(Markup::Empty(content, name.len() as int)) + markup_bytes(
                Markup::Text(node.tail),
            ),
        }
    }
}

/// What closes a node whose children are done: the end tag, unless the node
/// is no element, and the tail.
pub open spec fn closing(node: NodeView) -> Seq<u8> {
    (if node.is_synthetic() {
        Seq::empty()
    } else {
        markup_bytes(Markup::End(node.name()))
    }) + markup_bytes(Markup::Text(node.tail))
}

/// What closes a node right after it was opened: nothing for a node without
/// text, which was written with its tail.
pub open spec fn closing_leaf(node: NodeView) -> Seq<u8> {
    if node.text is Some {
        closing(node)
    } else {
        Seq::empty()
    }
}

/// What closes the open elements that the label `route` names, innermost
/// first, up to the one whose own label is `stop`.  `None` where the label
/// holds an identity that no node carries.
pub open spec fn climb(nodes: Seq<NodeView>, route: Seq<usize>, stop: Seq<usize>) -> Option<
    Seq<u8>,
>
    decreases route.len(),
{
    if route.len() == 0 {
        Some(Seq::empty())
    } else {
        match position_from(nodes, route.last(), 0) {
            Some(p) => if route.drop_last() == stop {
                Some(closing(nodes[p]))
            } else {
                match climb(nodes, route.drop_last(), stop) {
                    Some(rest) => Some(closing(nodes[p]) + rest),
                    None => None,
                }
            },
            None => None,
        }
    }
}

/// What is written between the node at `i - 1` and the node at `i`.
pub open spec fn between(nodes: Seq<NodeView>, i: int) -> Option<Seq<u8>> {
    let prev = nodes[i - 1];
    let cur = nodes[i];
    if cur.route == prev.route {
        Some(closing_leaf(prev))
    } else if prev.route.is_prefix_of(cur.route) {
        Some(Seq::empty())
    } else if cur.route.is_prefix_of(prev.route) {
        match climb(nodes, prev.route, cur.route) {
            Some(up) => Some(closing_leaf(prev) + up),
            None => None,
        }
    } else {
        None
    }
}

/// What is written for the first `k` nodes, the last of them left open.
pub open spec fn body_upto(nodes: Seq<NodeView>, k: int) -> Option<Seq<u8>>
    decreases k,
{
    if k <= 0 {
        Some(Seq::empty())
    } else if k == 1 {
        Some(opening(nodes[0]))
    } else {
        match (body_upto(nodes, k - 1), between(nodes, k - 1)) {
            (Some(before), Some(gap)) => Some(before + gap + opening(nodes[k - 1])),
            _ => None,
        }
    }
}

/// The head of a document: the declaration and the line ending.
pub open spec fn head(tree: TreeView) -> Seq<u8> {
    markup_bytes(Markup::Decl(tree.version, tree.encoding, tree.standalone)) + encode_utf8(
        tree.crlf,
    )
}

/// The document that a tree is written as, or `None` where its labels do
/// not fit together.
pub open spec fn serialized(tree: TreeView) -> Option<Seq<u8>> {
    let nodes = tree.nodes;
    let n = nodes.len() as int;
    if n == 0 {
        Some(head(tree))
    } else {
        match (body_upto(nodes, n), climb(nodes, nodes[n - 1].route, Seq::empty())) {
            (Some(body), Some(up)) => Some(head(tree) + body + closing_leaf(nodes[n - 1]) + up),
            _ => None,
        }
    }
}

fn append_bytes(out: &mut Vec<u8>, more: Vec<u8>)
    ensures
        final(out)@ == old(out)@ + more@,
{
    let mut more = more;
    out.append(&mut more);
}

impl ETree {
    fn first_position(&self, idx: usize) -> (r: Option<usize>)
        ensures
            match r {
                Some(p) => position_from(self@.nodes, idx, 0) == Some(p as int) && p
                    < self@.nodes.len(),
                None => position_from(self@.nodes, idx, 0) is None,
            },
    {
        let n = self.len();
        let mut i: usize = 0;
        while i < n
            invariant
                i <= n == self@.nodes.len(),
                position_from(self@.nodes, idx, 0) == position_from(self@.nodes, idx, i as int),
            decreases n - i,
        {
            let here = match self.node(i) {
                Some(node) => node.get_idx(),
                None => 0,
            };
            if here == idx {
                return Some(i);
            }
            i += 1;
        }
        None
    }

    fn write_opening(&self, pos: usize, out: &mut Vec<u8>)
        requires
            pos < self@.nodes.len(),
        ensures
            final(out)@ == old(out)@ + opening(self@.nodes[pos as int]),
    {
        let node = match self.node(pos) {
            Some(node) => node,
            None => {
                assert(false);
                return ;
            },
        };
        let local = node.get_localname();
        let text = node.get_text();
        let plain = match &text {
            Some(t) => t.clone(),
            None => String::new(),
        };
        if str_eq(local.as_str(), "<Comment>") {
            append_bytes(out, written_comment(plain.as_str()));
        } else if str_eq(local.as_str(), "<CData>") {
            append_bytes(out, written_cdata(plain.as_str()));
        } else if str_eq(local.as_str(), "<PI>") {
            append_bytes(out, written_pi(plain.as_str()));
        } else if str_eq(local.as_str(), "<DocType>") {
            append_bytes(out, written_doctype(plain.as_str()));
        } else {
            let name = node.get_name();
            let attrs = node.get_attrs();
            let mut content = name.as_str().as_bytes_vec();
            let name_len = content.len();
            let ghost head = content@;
            let ghost av = attrs_view(attrs@);
            let mut k: usize = 0;
            assert(content@ =~= head + Seq::<u8>::empty());
            let ghost done: Seq<u8> = Seq::empty();
            while k < attrs.len()
                invariant
                    k <= attrs.len(),
                    av == attrs_view(attrs@),
                    content@ == head + done,
                    name_len == head.len(),
                    attributes_bytes(av, 0) == done + attributes_bytes(av, k as int),
                decreases attrs.len() - k,
            {
                assert(av[k as int] == (attrs@[k as int].0@, attrs@[k as int].1@));
                let one = pushed_attribute(attrs[k].0.as_str(), attrs[k].1.as_str());
                proof {
                    assert(done + attributes_bytes(av, k as int) =~= (done + one@)
                        + attributes_bytes(av, k + 1));
                    done = done + one@;
                }
                append_bytes(&mut content, one);
                assert(content@ =~= head + done);
                k += 1;
            }
            assert(done =~= attributes_bytes(av, 0));
            match text {
                Some(t) => {
                    append_bytes(out, written_start(&content, name_len));
                    append_bytes(out, written_text(t.as_str()));
                    assert(out@ =~= old(out)@ + opening(self@.nodes[pos as int]));
                },
                None => {
                    append_bytes(out, written_empty(&content, name_len));
                    append_bytes(out, written_text(node.get_tail().as_str()));
                    assert(out@ =~= old(out)@ + opening(self@.nodes[pos as int]));
                },
            }
        }
    }

    fn write_closing(&self, pos: usize, out: &mut Vec<u8>)
        requires
            pos < self@.nodes.len(),
        ensures
            final(out)@ == old(out)@ + closing(self@.nodes[pos as int]),
    {
        let node = match self.node(pos) {
            Some(node) => node,
            None => {
                assert(false);
                return ;
            },
        };
        if !crate::layout::is_synthetic_name(node.get_localname().as_str()) {
            append_bytes(out, written_end(node.get_name().as_str()));
        }
        append_bytes(out, written_text(node.get_tail().as_str()));
        assert(out@ =~= old(out)@ + closing(self@.nodes[pos as int]));
    }

    fn write_closing_leaf(&self, pos: usize, out: &mut Vec<u8>)
        requires
            pos < self@.nodes.len(),
        ensures
            final(out)@ == old(out)@ + closing_leaf(self@.nodes[pos as int]),
    {
        let has_text = match self.node(pos) {
            Some(node) => node.get_text().is_some(),
            None => false,
        };
        if has_text {
            self.write_closing(pos, out);
        } else {
            assert(out@ =~= old(out)@ + Seq::<u8>::empty());
        }
    }

    /// Closes the open elements that `route` names, up to the one whose own
    /// label is `stop`.  `false` where the label holds an identity that no
    /// node carries.
    fn write_climb(&self, route: &Vec<usize>, stop: &Vec<usize>, out: &mut Vec<u8>) -> (r: bool)
        ensures
            match climb(self@.nodes, route@, stop@) {
                Some(up) => r && final(out)@ == old(out)@ + up,
                None => !r,
            },
    {
        let mut chain = crate::label::chain_copy(route);
        let ghost start = out@;
        let ghost done: Seq<u8> = Seq::empty();
        assert(out@ =~= start + done);
        while chain.len() > 0
            invariant
                out@ == start + done,
                start == old(out)@,
                climb(self@.nodes, route@, stop@) == match climb(self@.nodes, chain@, stop@) {
                    Some(rest) => Some(done + rest),
                    None => None,
                },
            decreases chain.len(),
        {
            let ghost before = chain@;
            let ghost was = done;
            let id = chain.pop().unwrap();
            assert(chain@ == before.drop_last());
            match self.first_position(id) {
                Some(p) => {
                    self.write_closing(p, out);
                    let ghost here = closing(self@.nodes[p as int]);
                    proof {
                        done = was + here;
                    }
                    assert(out@ =~= start + done);
                    if crate::label::chain_eq(&chain, stop) {
                        assert(climb(self@.nodes, before, stop@) == Some(here));
                        return true;
                    }
                    proof {
                        match climb(self@.nodes, chain@, stop@) {
                            Some(rest) => {
                                assert(climb(self@.nodes, before, stop@) == Some(here + rest));
                                assert(was + (here + rest) =~= done + rest);
                            },
                            None => {},
                        }
                    }
                },
                None => {
                    return false;
                },
            }
        }
        assert(done + Seq::<u8>::empty() =~= done);
        true
    }

    /// Writes what stands between the node at `i - 1` and the node at `i`.
    fn write_between(&self, i: usize, out: &mut Vec<u8>) -> (r: bool)
        requires
            0 < i < self@.nodes.len(),
        ensures
            match between(self@.nodes, i as int) {
                Some(gap) => r && final(out)@ == old(out)@ + gap,
                None => !r,
            },
    {
        let (prev, cur) = match (self.node(i - 1), self.node(i)) {
            (Some(a), Some(b)) => (a.get_chain(), b.get_chain()),
            _ => {
                assert(false);
                return false;
            },
        };
        if crate::label::chain_eq(cur, prev) {
            self.write_closing_leaf(i - 1, out);
            true
        } else if crate::label::chain_has_prefix(cur, prev) {
            assert(out@ =~= old(out)@ + Seq::<u8>::empty());
            true
        } else if crate::label::chain_has_prefix(prev, cur) {
            self.write_closing_leaf(i - 1, out);
            let ok = self.write_climb(prev, cur, out);
            proof {
                if ok {
                    let up = climb(self@.nodes, prev@, cur@).unwrap();
                    assert(out@ =~= old(out)@ + (closing_leaf(self@.nodes[i - 1]) + up));
                }
            }
            ok
        } else {
            false
        }
    }

    /// The document that the tree is written as.  An error where the labels
    /// of two neighbouring nodes do not fit together, or where a label holds
    /// an identity that no node carries.
    pub fn write(&self) -> (r: Result<Vec<u8>, WriteError>)
        ensures
            match r {
                Ok(bytes) => serialized(self@) == Some(bytes@),
                Err(_) => serialized(self@) is None,
            },
    {
        let version = self.get_version();
        let encoding = self.get_encoding();
        let standalone = self.get_standalone();
        let version = match &version {
            Some(v) => v.as_str(),
            None => "",
        };
        let encoding_ref: Option<&str> = match &encoding {
            Some(e) => Some(e.as_str()),
            None => None,
        };
        let standalone_ref: Option<&str> = match &standalone {
            Some(e) => Some(e.as_str()),
            None => None,
        };
        let mut out = written_decl(version, encoding_ref, standalone_ref);
        append_bytes(&mut out, self.get_crlf().as_str().as_bytes_vec());
        assert(out@ =~= head(self@));
        let n = self.len();
        if n == 0 {
            return Ok(out);
        }
        let ghost nodes = self@.nodes;
        let mut body: Vec<u8> = Vec::new();
        self.write_opening(0, &mut body);
        assert(body@ =~= opening(nodes[0]));
        let mut i: usize = 1;
        while i < n
            invariant
                1 <= i <= n == nodes.len(),
                nodes == self@.nodes,
                body_upto(nodes, i as int) == Some(body@),
            decreases n - i,
        {
            let ghost before = body@;
            if !self.write_between(i, &mut body) {
                proof {
                    lemma_body_fails(nodes, i + 1, n as int);
                }
                return Err(WriteError::StructuralCorruption);
            }
            self.write_opening(i, &mut body);
            assert(body@ =~= before + between(nodes, i as int).unwrap() + opening(nodes[i as int]));
            i += 1;
        }
        self.write_closing_leaf(n - 1, &mut body);
        let last = match self.node(n - 1) {
            Some(node) => node.get_chain(),
            None => {
                assert(false);
                return Err(WriteError::StructuralCorruption);
            },
        };
        let top: Vec<usize> = Vec::new();
        if !self.write_climb(last, &top, &mut body) {
            return Err(WriteError::StructuralCorruption);
        }
        append_bytes(&mut out, body);
        assert(out@ =~= head(self@) + body_upto(nodes, n as int).unwrap() + closing_leaf(
            nodes[n - 1],
        ) + climb(nodes, nodes[n - 1].route, Seq::empty()).unwrap());
        Ok(out)
    }
}

/// Once the nodes up to `k` cannot be written, neither can those up to `m`.
proof fn lemma_body_fails(nodes: Seq<NodeView>, k: int, m: int)
    requires
        2 <= k <= m,
        body_upto(nodes, k) is None,
    ensures
        body_upto(nodes, m) is None,
    decreases m - k,
{
    if k < m {
        lemma_body_fails(nodes, k, m - 1);
    }
}

} // verus!
