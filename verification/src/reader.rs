//! Reading a document into a tree.
//!
//! The text is cut into tokens by the `quick_xml` tokenizer.  What is done
//! with each token, and how the tree grows from them, is stated and proved
//! here; what the tokens of a text are is taken from the tokenizer.

use crate::etree::ETree;
use crate::etreenode::{key_index, ETreeNode, NodeView};
use crate::model::{with_tail, with_text, TreeView};
use crate::text::contains_crlf;
use quick_xml::Reader;
use quick_xml::events::{BytesDecl, BytesStart, Event};
use vstd::prelude::*;
use vstd::utf8::{decode_utf8, valid_utf8};

verus! {

/// The tokenizer at some place of a document: a `quick_xml::Reader` over the
/// document's bytes, and the buffer in which it keeps the namespaces in
/// scope.
#[verifier::external_body]
pub struct Tokenizer<'a> {
    reader: Reader<&'a [u8]>,
    spaces: Vec<u8>,
}

/// What a token is.
#[derive(Debug, Clone, Copy, PartialEq, Eq)]
pub enum TokenKind {
    Start,
    End,
    Empty,
    Text,
    Comment,
    CData,
    Decl,
    PI,
    DocType,
    Eof,
}

/// One token: its kind, the namespace that the tokenizer resolved for an
/// element's name, and the bytes between the markup's delimiters.
pub struct Token {
    pub kind: TokenKind,
    pub space: Option<Vec<u8>>,
    pub raw: Vec<u8>,
}

/// A token as plain values.  `kind` is `None` where the tokenizer failed.
pub ghost struct TokenView {
    pub kind: Option<TokenKind>,
    pub space: Option<Seq<u8>>,
    pub raw: Seq<u8>,
}

/// The tokens of a document, up to and including the end of the document or
/// the first failure of the tokenizer.
pub uninterp spec fn document_tokens(content: Seq<char>) -> Seq<TokenView>;

/// The tokens that a tokenizer has still to give.
pub uninterp spec fn reader_rest(tokenizer: Tokenizer) -> Seq<TokenView>;

/// Whether a token ends a document: the end itself, or a failure.
pub open spec fn is_final(t: TokenView) -> bool {
    t.kind is None || t.kind == Some(TokenKind::Eof)
}

/// The tokens end with the end of the document or a failure, and hold none
/// before.
pub open spec fn terminated(tokens: Seq<TokenView>) -> bool {
    &&& tokens.len() > 0
    &&& is_final(tokens.last())
    &&& forall|i: int| 0 <= i < tokens.len() - 1 ==> !is_final(#[trigger] tokens[i])
}

/// `Reader::from_str`: a tokenizer at the start of `content`.  The contract
/// names the tokens that it will give, and claims that they end with the end
/// of the document or with the first failure.
#[verifier::external_body]
fn open_reader<'a>(content: &'a str) -> (r: Tokenizer<'a>)
    ensures
        reader_rest(r) == document_tokens(content@),
        terminated(reader_rest(r)),
{
    Tokenizer { reader: Reader::from_str(content), spaces: Vec::new() }
}

/// `Reader::read_namespaced_event`: the next token.  `None` where the
/// tokenizer fails.  The contract says that the token is the first of those
/// that the tokenizer had to give, and that the others are left.
#[verifier::external_body]
fn next_token(tokenizer: &mut Tokenizer) -> (r: Option<Token>)
    requires
        reader_rest(*old(tokenizer)).len() > 0,
    ensures
        match r {
            Some(t) => reader_rest(*old(tokenizer))[0] == (TokenView {
                kind: Some(t.kind),
                space: match t.space {
                    Some(s) => Some(s@),
                    None => None,
                },
                raw: t.raw@,
            }),
            None => reader_rest(*old(tokenizer))[0].kind is None,
        },
        reader_rest(*final(tokenizer)) == reader_rest(*old(tokenizer)).drop_first(),
{
    let mut buf = Vec::new();
    let (space, event) = tokenizer.reader.read_namespaced_event(&mut buf, &mut tokenizer.spaces).ok()?;
    let kind = match &event {
        Event::Start(_) => TokenKind::Start,
        Event::End(_) => TokenKind::End,
        Event::Empty(_) => TokenKind::Empty,
        Event::Text(_) => TokenKind::Text,
        Event::Comment(_) => TokenKind::Comment,
        Event::CData(_) => TokenKind::CData,
        Event::Decl(_) => TokenKind::Decl,
        Event::PI(_) => TokenKind::PI,
        Event::DocType(_) => TokenKind::DocType,
        Event::Eof => TokenKind::Eof,
    };
    Some(Token { kind, space: space.map(|s| s.to_vec()), raw: event.to_vec() })
}

/// Why a document could not be read.
#[derive(Debug, Clone, Copy, PartialEq, Eq)]
pub enum ParseError {
    /// The tokenizer failed, or a name, a text or an attribute is not what
    /// it must be.
    Malformed,
}

/// The attributes in an element's bytes, whose name has `name_len` bytes: for
/// each one the key and the value as they stand there, and `None` for an
/// attribute that cannot be read.
pub uninterp spec fn attributes_of(raw: Seq<u8>, name_len: int) -> Seq<Option<(Seq<u8>, Seq<u8>)>>;

/// The bytes with every character reference and entity replaced, or `None`
/// where one cannot be.
pub uninterp spec fn unescaped(raw: Seq<u8>) -> Option<Seq<u8>>;

/// The version in the bytes of an XML declaration, or `None` where it does
/// not come first or cannot be read.
pub uninterp spec fn declared_version(raw: Seq<u8>) -> Option<Seq<u8>>;

/// The encoding in the bytes of an XML declaration: `None` where there is
/// none, and `Some(None)` where the fields cannot be read.
pub uninterp spec fn declared_encoding(raw: Seq<u8>) -> Option<Option<Seq<u8>>>;

/// The standalone flag in the bytes of an XML declaration: `None` where
/// there is none, and `Some(None)` where the fields cannot be read.
pub uninterp spec fn declared_standalone(raw: Seq<u8>) -> Option<Option<Seq<u8>>>;

/// The version, the encoding and the standalone flag in the bytes of an XML
/// declaration, or `None` where the version is missing or a field cannot be
/// read.
pub open spec fn declaration_of(raw: Seq<u8>) -> Option<
    (Seq<u8>, Option<Seq<u8>>, Option<Seq<u8>>),
> {
    match (declared_version(raw), declared_encoding(raw), declared_standalone(raw)) {
        (None, _, _) => None,
        (_, Some(None), _) => None,
        (_, _, Some(None)) => None,
        (Some(v), None, None) => Some((v, None, None)),
        (Some(v), Some(Some(e)), None) => Some((v, Some(e), None)),
        (Some(v), None, Some(Some(s))) => Some((v, None, Some(s))),
        (Some(v), Some(Some(e)), Some(Some(s))) => Some((v, Some(e), Some(s))),
    }
}

pub open spec fn opt_field(v: Option<Option<Vec<u8>>>) -> Option<Option<Seq<u8>>> {
    match v {
        Some(f) => Some(opt_bytes(f)),
        None => None,
    }
}

pub open spec fn opt_bytes(v: Option<Vec<u8>>) -> Option<Seq<u8>> {
    match v {
        Some(b) => Some(b@),
        None => None,
    }
}

pub open spec fn items_view(v: Seq<Option<(Vec<u8>, Vec<u8>)>>) -> Seq<
    Option<(Seq<u8>, Seq<u8>)>,
> {
    Seq::new(
        v.len(),
        |i: int|
            match v[i] {
                Some((k, x)) => Some((k@, x@)),
                None => None,
            },
    )
}

/// `BytesStart::attributes`: what the iterator gives, one after the other,
/// with the key and the value of each attribute that it could read.  The
/// contract gives the result a name.
#[verifier::external_body]
fn attribute_items(raw: &Vec<u8>, name_len: usize) -> (r: Vec<Option<(Vec<u8>, Vec<u8>)>>)
    requires
        name_len <= raw.len(),
    ensures
        items_view(r@) == attributes_of(raw@, name_len as int),
{
    BytesStart::borrowed(raw, name_len).attributes().map(
        |a| a.ok().map(|a| (a.key.to_vec(), a.value.into_owned())),
    ).collect()
}

/// `quick_xml::escape::unescape`.  The contract gives the result a name.
#[verifier::external_body]
fn unescape_bytes(raw: &Vec<u8>) -> (r: Option<Vec<u8>>)
    ensures
        opt_bytes(r) == unescaped(raw@),
{
    quick_xml::escape::unescape(raw).ok().map(|v| v.into_owned())
}

/// `BytesDecl::version` on a declaration made of `raw`.  The contract gives
/// the result a name.
#[verifier::external_body]
fn version_field(raw: &Vec<u8>) -> (r: Option<Vec<u8>>)
    requires
        raw.len() >= 3,
    ensures
        opt_bytes(r) == declared_version(raw@),
{
    BytesDecl::from_start(BytesStart::borrowed(raw, 3)).version().ok().map(|v| v.into_owned())
}

/// `BytesDecl::encoding` on a declaration made of `raw`.  The contract
/// gives the result a name.
#[verifier::external_body]
fn encoding_field(raw: &Vec<u8>) -> (r: Option<Option<Vec<u8>>>)
    requires
        raw.len() >= 3,
    ensures
        opt_field(r) == declared_encoding(raw@),
{
    BytesDecl::from_start(BytesStart::borrowed(raw, 3)).encoding().map(
        |e| e.ok().map(|v| v.into_owned()),
    )
}

/// `BytesDecl::standalone` on a declaration made of `raw`.  The contract
/// gives the result a name.
#[verifier::external_body]
fn standalone_field(raw: &Vec<u8>) -> (r: Option<Option<Vec<u8>>>)
    requires
        raw.len() >= 3,
    ensures
        opt_field(r) == declared_standalone(raw@),
{
    BytesDecl::from_start(BytesStart::borrowed(raw, 3)).standalone().map(
        |e| e.ok().map(|v| v.into_owned()),
    )
}

/// The three fields of a declaration made of `raw`, or `None` where the
/// version is missing or a field cannot be read.
fn declaration_fields(raw: &Vec<u8>) -> (r: Option<(Vec<u8>, Option<Vec<u8>>, Option<Vec<u8>>)>)
    requires
        raw.len() >= 3,
    ensures
        match r {
            Some((v, e, s)) => declaration_of(raw@) == Some((v@, opt_bytes(e), opt_bytes(s))),
            None => declaration_of(raw@) is None,
        },
{
    let version = match version_field(raw) {
        Some(v) => v,
        None => {
            return None;
        },
    };
    let encoding = match encoding_field(raw) {
        Some(None) => {
            return None;
        },
        Some(Some(e)) => Some(e),
        None => None,
    };
    let standalone = match standalone_field(raw) {
        Some(None) => {
            return None;
        },
        Some(Some(s)) => Some(s),
        None => None,
    };
    Some((version, encoding, standalone))
}

/// The text that the bytes encode in UTF-8, or `None` where they encode
/// none.
pub open spec fn text_of(bytes: Seq<u8>) -> Option<Seq<char>> {
    if valid_utf8(bytes) {
        Some(decode_utf8(bytes))
    } else {
        None
    }
}

pub open spec fn opt_chars(s: Option<String>) -> Option<Seq<char>> {
    match s {
        Some(t) => Some(t@),
        None => None,
    }
}

/// `String::from_utf8`: the string that the bytes encode, or `None` where
/// they are not valid UTF-8.
#[verifier::external_body]
fn utf8_string(bytes: Vec<u8>) -> (r: Option<String>)
    ensures
        opt_chars(r) == text_of(bytes@),
{
    String::from_utf8(bytes).ok()
}

/// Whether a byte is a blank in markup: a space, a tab, a line feed or a
/// carriage return.
pub open spec fn is_blank_byte(b: u8) -> bool {
    b == 32 || b == 13 || b == 10 || b == 9
}

/// The first position from `i` on that holds a blank, or the length.
pub open spec fn name_length_from(raw: Seq<u8>, i: int) -> int
    decreases raw.len() - i,
{
    if 0 <= i < raw.len() && !is_blank_byte(raw[i]) {
        name_length_from(raw, i + 1)
    } else {
        i
    }
}

/// The length of an element's name: it ends before the first blank.
pub open spec fn name_length(raw: Seq<u8>) -> int {
    name_length_from(raw, 0)
}

/// The position of the first colon from `i` on.
pub open spec fn colon_from(name: Seq<u8>, i: int) -> Option<int>
    decreases name.len() - i,
{
    if i < 0 || i >= name.len() {
        None
    } else if name[i] == 58 {
        Some(i)
    } else {
        colon_from(name, i + 1)
    }
}

/// The attributes with `key` set to `value`: in its place where the key is
/// there, at the end otherwise.
pub open spec fn with_attr(
    attrs: Seq<(Seq<char>, Seq<char>)>,
    key: Seq<char>,
    value: Seq<char>,
) -> Seq<(Seq<char>, Seq<char>)> {
    match key_index(attrs, key) {
        Some(i) => attrs.update(i, (key, value)),
        None => attrs.push((key, value)),
    }
}

/// The attributes that the first `n` items give, or `None` where a value
/// could not be unescaped or a key or value is no text.  An item that could
/// not be read is passed over.
pub open spec fn attrs_from(items: Seq<Option<(Seq<u8>, Seq<u8>)>>, n: int) -> Option<
    Seq<(Seq<char>, Seq<char>)>,
>
    decreases n,
{
    if n <= 0 {
        Some(Seq::empty())
    } else {
        match attrs_from(items, n - 1) {
            Some(acc) => match items[n - 1] {
                Some((k, v)) => match unescaped(v) {
                    Some(plain) => match (text_of(k), text_of(plain)) {
                        (Some(key), Some(value)) => Some(with_attr(acc, key, value)),
                        _ => None,
                    },
                    None => None,
                },
                None => Some(acc),
            },
            None => None,
        }
    }
}

/// The prefix of an element's name: what stands before the first colon.
pub open spec fn prefix_bytes(name: Seq<u8>) -> Seq<u8> {
    match colon_from(name, 0) {
        Some(c) => name.subrange(0, c),
        None => Seq::empty(),
    }
}

/// The local part of an element's name: what stands behind the first colon.
pub open spec fn local_bytes(name: Seq<u8>) -> Seq<u8> {
    match colon_from(name, 0) {
        Some(c) => name.subrange(c + 1, name.len() as int),
        None => name,
    }
}

/// The node that an element's token gives, with the label `route`: its local
/// name, its prefix, the namespace that the tokenizer resolved, and its
/// attributes.  An element that was opened has an empty text, one that is
/// empty has none.  `None` where a name is no text or an attribute cannot be
/// taken.
pub open spec fn element_node(t: TokenView, route: Seq<usize>, opened: bool) -> Option<NodeView> {
    let n = name_length(t.raw);
    let name = t.raw.subrange(0, n);
    let space = match t.space {
        Some(s) => text_of(s),
        None => Some(Seq::empty()),
    };
    match (
        text_of(prefix_bytes(name)),
        text_of(local_bytes(name)),
        space,
        attrs_from(attributes_of(t.raw, n), attributes_of(t.raw, n).len() as int),
    ) {
        (Some(prefix), Some(local), Some(ns), Some(attr)) => Some(
            NodeView {
                idx: 0,
                ns: ns,
                ns_abbrev: prefix,
                local_name: local,
                attr: attr,
                text: if opened {
                    Some(Seq::empty())
                } else {
                    None
                },
                tail: Seq::empty(),
                route: route,
            },
        ),
        _ => None,
    }
}

/// The text of a token: its bytes unescaped, as UTF-8.
pub open spec fn token_text(t: TokenView) -> Option<Seq<char>> {
    match unescaped(t.raw) {
        Some(b) => text_of(b),
        None => None,
    }
}

/// The name under which a construct that is no element stands in the tree.
pub open spec fn sentinel(kind: TokenKind) -> Seq<char> {
    match kind {
        TokenKind::Comment => "<Comment>"@,
        TokenKind::CData => "<CData>"@,
        TokenKind::PI => "<PI>"@,
        _ => "<DocType>"@,
    }
}

/// The node that a comment, a CDATA section, a processing instruction or a
/// doctype gives.
pub open spec fn special_node(kind: TokenKind, text: Seq<char>, route: Seq<usize>) -> NodeView {
    NodeView {
        idx: 0,
        ns: Seq::empty(),
        ns_abbrev: Seq::empty(),
        local_name: sentinel(kind),
        attr: Seq::empty(),
        text: Some(text),
        tail: Seq::empty(),
        route: route,
    }
}

/// Where the reading of a document stands.
///
/// - `tree`: the tree so far
/// - `opened`: the last token opened an element, so that a text is the text
///   of the last node
/// - `closed`: some construct has ended, so that a text is the tail of the
///   node `closeidx`
/// - `route`: the label of the nodes to come
/// - `closeidx`: the position of the node that ended last
pub ghost struct ParseState {
    pub tree: TreeView,
    pub opened: bool,
    pub closed: bool,
    pub route: Seq<usize>,
    pub closeidx: usize,
}

/// The state after a node has been put at the end of the tree.
pub open spec fn with_new_node(st: ParseState, node: NodeView, opened: bool) -> ParseState {
    ParseState {
        tree: TreeView {
            nodes: st.tree.nodes.push(NodeView { idx: st.tree.count, ..node }),
            count: (st.tree.count + 1) as usize,
            ..st.tree
        },
        opened: opened,
        closed: !opened,
        route: if opened {
            st.route.push(st.tree.count)
        } else {
            st.route
        },
        closeidx: if opened {
            st.closeidx
        } else {
            st.tree.count
        },
    }
}

/// The state after a token, or `None` where the document is malformed.
///
/// - an opened element becomes a node, and the nodes that follow are its
///   children
/// - an end tag closes the innermost open element
/// - an empty element, a comment, a CDATA section, a processing instruction
///   and a doctype become nodes that are closed at once
/// - a text is the text of the element just opened, or the tail of what was
///   closed last; before the first tag it is dropped
/// - a declaration sets version, encoding and standalone
pub open spec fn absorb(st: ParseState, t: TokenView) -> Option<ParseState> {
    match t.kind {
        None => None,
        Some(TokenKind::Eof) => Some(st),
        Some(TokenKind::Start) => match element_node(t, st.route, true) {
            Some(node) => if st.tree.count < usize::MAX {
                Some(with_new_node(st, node, true))
            } else {
                None
            },
            None => None,
        },
        Some(TokenKind::Empty) => match element_node(t, st.route, false) {
            Some(node) => if st.tree.count < usize::MAX {
                Some(with_new_node(st, node, false))
            } else {
                None
            },
            None => None,
        },
        Some(TokenKind::End) => if st.route.len() > 0 {
            Some(
                ParseState {
                    opened: false,
                    closed: true,
                    route: st.route.drop_last(),
                    closeidx: st.route.last(),
                    ..st
                },
            )
        } else {
            Some(ParseState { opened: false, closed: true, ..st })
        },
        Some(TokenKind::Text) => if st.opened {
            match token_text(t) {
                Some(text) => if st.tree.nodes.len() > 0 {
                    Some(
                        ParseState {
                            tree: TreeView {
                                nodes: with_text(st.tree.nodes, st.tree.nodes.len() - 1, text),
                                ..st.tree
                            },
                            ..st
                        },
                    )
                } else {
                    Some(st)
                },
                None => None,
            }
        } else if st.closed {
            match token_text(t) {
                Some(text) => if st.closeidx < st.tree.nodes.len() {
                    Some(
                        ParseState {
                            tree: TreeView {
                                nodes: with_tail(st.tree.nodes, st.closeidx as int, text),
                                ..st.tree
                            },
                            ..st
                        },
                    )
                } else {
                    Some(st)
                },
                None => None,
            }
        } else {
            Some(st)
        },
        Some(TokenKind::Decl) => if t.raw.len() >= 3 {
            match declaration_of(t.raw) {
                Some((v, e, s)) => match (
                    text_of(v),
                    match e {
                        Some(b) => text_of(b),
                        None => Some(Seq::empty()),
                    },
                    match s {
                        Some(b) => text_of(b),
                        None => Some(Seq::empty()),
                    },
                ) {
                    (Some(version), Some(encoding), Some(standalone)) => Some(
                        ParseState {
                            tree: TreeView {
                                version: version,
                                encoding: if e is Some {
                                    Some(encoding)
                                } else {
                                    st.tree.encoding
                                },
                                standalone: if s is Some {
                                    Some(standalone)
                                } else {
                                    st.tree.standalone
                                },
                                ..st.tree
                            },
                            ..st
                        },
                    ),
                    _ => None,
                },
                None => None,
            }
        } else {
            None
        },
        Some(kind) => match token_text(t) {
            Some(text) => if st.tree.count < usize::MAX {
                Some(with_new_node(st, special_node(kind, text, st.route), false))
            } else {
                None
            },
            None => None,
        },
    }
}

/// The state after the tokens up to the end of the document, or `None`
/// where the document is malformed.
pub open spec fn absorb_all(st: ParseState, tokens: Seq<TokenView>) -> Option<ParseState>
    decreases tokens.len(),
{
    if tokens.len() == 0 || tokens[0].kind == Some(TokenKind::Eof) {
        Some(st)
    } else {
        match absorb(st, tokens[0]) {
            Some(next) => absorb_all(next, tokens.drop_first()),
            None => None,
        }
    }
}

/// The line ending of a document: a carriage return and a line feed where
/// the text holds that pair, a line feed otherwise.
pub open spec fn line_ending(content: Seq<char>) -> Seq<char> {
    if crate::text::has_crlf(content) {
        seq!['\r', '\n']
    } else {
        seq!['\n']
    }
}

/// The state before the first token.
pub open spec fn start_state(content: Seq<char>) -> ParseState {
    ParseState {
        tree: TreeView {
            nodes: Seq::empty(),
            count: 0,
            indent: Seq::empty(),
            crlf: line_ending(content),
            version: Seq::empty(),
            encoding: None,
            standalone: None,
            enable_index: false,
        },
        opened: false,
        closed: false,
        route: Seq::empty(),
        closeidx: 0,
    }
}

/// The tree that the tokens of a document give, before the indentation is
/// looked for.
pub open spec fn read_view(content: Seq<char>) -> Option<TreeView> {
    match absorb_all(start_state(content), document_tokens(content)) {
        Some(st) => Some(st.tree),
        None => None,
    }
}

fn blank_byte(b: u8) -> (r: bool)
    ensures
        r == is_blank_byte(b),
{
    b == 32 || b == 13 || b == 10 || b == 9
}

fn name_len_of(raw: &Vec<u8>) -> (r: usize)
    ensures
        r == name_length(raw@),
        r <= raw.len(),
{
    let mut i: usize = 0;
    while i < raw.len() && !blank_byte(raw[i])
        invariant
            i <= raw.len(),
            name_length(raw@) == name_length_from(raw@, i as int),
        decreases raw.len() - i,
    {
        i += 1;
    }
    i
}

fn find_colon(name: &Vec<u8>) -> (r: Option<usize>)
    ensures
        match r {
            Some(c) => colon_from(name@, 0) == Some(c as int) && c < name.len(),
            None => colon_from(name@, 0) is None,
        },
{
    let mut i: usize = 0;
    while i < name.len()
        invariant
            i <= name.len(),
            colon_from(name@, 0) == colon_from(name@, i as int),
        decreases name.len() - i,
    {
        if name[i] == 58 {
            return Some(i);
        }
        i += 1;
    }
    None
}

fn bytes_range(raw: &Vec<u8>, from: usize, to: usize) -> (r: Vec<u8>)
    requires
        from <= to <= raw.len(),
    ensures
        r@ == raw@.subrange(from as int, to as int),
{
    let mut r: Vec<u8> = Vec::new();
    let mut i: usize = from;
    while i < to
        invariant
            from <= i <= to <= raw.len(),
            r@ == raw@.subrange(from as int, i as int),
        decreases to - i,
    {
        r.push(raw[i]);
        i += 1;
    }
    r
}

fn copy_bytes(raw: &Vec<u8>) -> (r: Vec<u8>)
    ensures
        r@ == raw@,
{
    let r = bytes_range(raw, 0, raw.len());
    assert(raw@.subrange(0, raw.len() as int) =~= raw@);
    r
}

/// Sets on `node` the attributes that the items give.  `false` where one
/// cannot be taken.
fn take_attributes(node: &mut ETreeNode, items: &Vec<Option<(Vec<u8>, Vec<u8>)>>) -> (r: bool)
    requires
        old(node)@.attr.len() == 0,
    ensures
        r ==> attrs_from(items_view(items@), items.len() as int) == Some(final(node)@.attr)
            && final(node)@ == (NodeView { attr: final(node)@.attr, ..old(node)@ }),
        !r ==> attrs_from(items_view(items@), items.len() as int) is None,
{
    let ghost iv = items_view(items@);
    let mut i: usize = 0;
    assert(node@.attr =~= Seq::empty());
    while i < items.len()
        invariant
            i <= items.len(),
            iv == items_view(items@),
            attrs_from(iv, i as int) == Some(node@.attr),
            node@ == (NodeView { attr: node@.attr, ..old(node)@ }),
        decreases items.len() - i,
    {
        assert(iv[i as int] == match items@[i as int] {
            Some((k, x)) => Some((k@, x@)),
            None => None,
        });
        match &items[i] {
            Some((k, v)) => {
                let value = match unescape_bytes(v) {
                    Some(plain) => utf8_string(plain),
                    None => None,
                };
                match (utf8_string(copy_bytes(k)), value) {
                    (Some(key), Some(value)) => {
                        node.set_attr(key.as_str(), value.as_str());
                    },
                    _ => {
                        proof {
                            lemma_attrs_fail(iv, i + 1, items.len() as int);
                        }
                        return false;
                    },
                }
            },
            None => {},
        }
        i += 1;
    }
    true
}

/// Once the items up to `n` cannot be taken, neither can those up to `m`.
proof fn lemma_attrs_fail(items: Seq<Option<(Seq<u8>, Seq<u8>)>>, n: int, m: int)
    requires
        0 <= n <= m,
        attrs_from(items, n) is None,
    ensures
        attrs_from(items, m) is None,
    decreases m - n,
{
    if n < m {
        lemma_attrs_fail(items, n, m - 1);
    }
}

pub open spec fn token_view(t: Token) -> TokenView {
    TokenView { kind: Some(t.kind), space: opt_bytes(t.space), raw: t.raw@ }
}

/// The node that an element's token gives.
fn element_of(t: &Token, route: &Vec<usize>, opened: bool) -> (r: Option<ETreeNode>)
    ensures
        match r {
            Some(node) => element_node(token_view(*t), route@, opened) == Some(node@),
            None => element_node(token_view(*t), route@, opened) is None,
        },
{
    let n = name_len_of(&t.raw);
    let name = bytes_range(&t.raw, 0, n);
    let (prefix_b, local_b) = match find_colon(&name) {
        Some(c) => (bytes_range(&name, 0, c), bytes_range(&name, c + 1, name.len())),
        None => (Vec::new(), copy_bytes(&name)),
    };
    assert(prefix_b@ =~= prefix_bytes(name@));
    assert(local_b@ =~= local_bytes(name@));
    let prefix = match utf8_string(prefix_b) {
        Some(p) => p,
        None => {
            return None;
        },
    };
    let local = match utf8_string(local_b) {
        Some(p) => p,
        None => {
            return None;
        },
    };
    let ns = match &t.space {
        Some(s) => match utf8_string(copy_bytes(s)) {
            Some(p) => p,
            None => {
                return None;
            },
        },
        None => String::new(),
    };
    let mut node = ETreeNode::new(local.as_str());
    node.set_namespace(ns.as_str());
    node.set_namespace_abbrev(prefix.as_str());
    if opened {
        node.set_text("");
        proof {
            reveal_strlit("");
            assert(""@ =~= Seq::<char>::empty());
        }
    }
    node.set_chain(crate::label::chain_copy(route));
    let items = attribute_items(&t.raw, n);
    if !take_attributes(&mut node, &items) {
        return None;
    }
    Some(node)
}

/// The text of a token.
fn text_of_token(t: &Token) -> (r: Option<String>)
    ensures
        opt_chars(r) == token_text(token_view(*t)),
{
    match unescape_bytes(&t.raw) {
        Some(b) => utf8_string(b),
        None => None,
    }
}

fn sentinel_of(kind: TokenKind) -> (r: &'static str)
    ensures
        r@ == sentinel(kind),
{
    match kind {
        TokenKind::Comment => "<Comment>",
        TokenKind::CData => "<CData>",
        TokenKind::PI => "<PI>",
        _ => "<DocType>",
    }
}

/// The reading of a document in progress.
pub struct Parser {
    pub tree: ETree,
    pub opened: bool,
    pub closed: bool,
    pub route: Vec<usize>,
    pub closeidx: usize,
}

impl View for Parser {
    type V = ParseState;

    open spec fn view(&self) -> ParseState {
        ParseState {
            tree: self.tree@,
            opened: self.opened,
            closed: self.closed,
            route: self.route@,
            closeidx: self.closeidx,
        }
    }
}

impl Parser {
    fn add_node(&mut self, node: ETreeNode, opened: bool) -> (r: bool)
        ensures
            old(self).tree.index_ok() && !old(self).tree@.enable_index ==> final(self).tree.index_ok(),
            !old(self).tree@.enable_index ==> !final(self).tree@.enable_index,
            r == (old(self)@.tree.count < usize::MAX),
            r ==> final(self)@ == with_new_node(old(self)@, node@, opened),
    {
        let count = self.tree.get_count();
        if !self.tree.push_node(node) {
            return false;
        }
        self.opened = opened;
        self.closed = !opened;
        if opened {
            self.route.push(count);
        } else {
            self.closeidx = count;
        }
        true
    }

    /// Takes one token in.
    pub fn absorb(&mut self, t: Token) -> (r: Result<(), ParseError>)
        ensures
            old(self).tree.index_ok() && !old(self).tree@.enable_index ==> final(self).tree.index_ok(),
            !old(self).tree@.enable_index ==> !final(self).tree@.enable_index,
            match r {
                Ok(_) => absorb(old(self)@, token_view(t)) == Some(final(self)@),
                Err(_) => absorb(old(self)@, token_view(t)) is None,
            },
    {
        match t.kind {
            TokenKind::Eof => Ok(()),
            TokenKind::Start => match element_of(&t, &self.route, true) {
                Some(node) => if self.add_node(node, true) {
                    Ok(())
                } else {
                    Err(ParseError::Malformed)
                },
                None => Err(ParseError::Malformed),
            },
            TokenKind::Empty => match element_of(&t, &self.route, false) {
                Some(node) => if self.add_node(node, false) {
                    Ok(())
                } else {
                    Err(ParseError::Malformed)
                },
                None => Err(ParseError::Malformed),
            },
            TokenKind::End => {
                self.opened = false;
                self.closed = true;
                match self.route.pop() {
                    Some(last) => {
                        self.closeidx = last;
                    },
                    None => {},
                }
                Ok(())
            },
            TokenKind::Text => {
                if self.opened {
                    match text_of_token(&t) {
                        Some(text) => {
                            let n = self.tree.len();
                            if n > 0 {
                                self.tree.set_text_at(n - 1, text.as_str());
                            }
                            Ok(())
                        },
                        None => Err(ParseError::Malformed),
                    }
                } else if self.closed {
                    match text_of_token(&t) {
                        Some(text) => {
                            if self.closeidx < self.tree.len() {
                                self.tree.set_tail_at(self.closeidx, text.as_str());
                            }
                            Ok(())
                        },
                        None => Err(ParseError::Malformed),
                    }
                } else {
                    Ok(())
                }
            },
            TokenKind::Decl => {
                if t.raw.len() < 3 {
                    return Err(ParseError::Malformed);
                }
                match declaration_fields(&t.raw) {
                    Some((v, e, s)) => {
                        let version = utf8_string(v);
                        let has_encoding = e.is_some();
                        let has_standalone = s.is_some();
                        let encoding = match e {
                            Some(b) => utf8_string(b),
                            None => Some(String::new()),
                        };
                        let standalone = match s {
                            Some(b) => utf8_string(b),
                            None => Some(String::new()),
                        };
                        match (version, encoding, standalone) {
                            (Some(version), Some(encoding), Some(standalone)) => {
                                self.tree.set_version(version.as_str());
                                if has_encoding {
                                    self.tree.set_encoding(encoding.as_str());
                                }
                                if has_standalone {
                                    self.tree.set_standalone(standalone.as_str());
                                }
                                Ok(())
                            },
                            _ => Err(ParseError::Malformed),
                        }
                    },
                    None => Err(ParseError::Malformed),
                }
            },
            kind => match text_of_token(&t) {
                Some(text) => {
                    let mut node = ETreeNode::new(sentinel_of(kind));
                    node.set_text(text.as_str());
                    node.set_chain(crate::label::chain_copy(&self.route));
                    if self.add_node(node, false) {
                        Ok(())
                    } else {
                        Err(ParseError::Malformed)
                    }
                },
                None => Err(ParseError::Malformed),
            },
        }
    }
}

/// After a token that does not end the document, the tokens that are left
/// end it.
proof fn lemma_rest_terminated(tokens: Seq<TokenView>)
    requires
        terminated(tokens),
        !is_final(tokens[0]),
    ensures
        terminated(tokens.drop_first()),
{
    let rest = tokens.drop_first();
    assert(tokens.len() >= 2);
    assert(rest.last() == tokens.last());
    assert forall|i: int| 0 <= i < rest.len() - 1 implies !is_final(#[trigger] rest[i]) by {
        assert(rest[i] == tokens[i + 1]);
    }
}

/// Reads a document into a tree, without looking for the indentation.
pub fn read(content: &str) -> (r: Result<ETree, ParseError>)
    ensures
        match r {
            Ok(tree) => read_view(content@) == Some(tree@) && tree.index_ok(),
            Err(_) => read_view(content@) is None,
        },
{
    let crlf = if contains_crlf(content) {
        "\r\n"
    } else {
        "\n"
    };
    proof {
        reveal_strlit("\r\n");
        reveal_strlit("\n");
        assert("\r\n"@ =~= seq!['\r', '\n']);
        assert("\n"@ =~= seq!['\n']);
    }
    let mut parser = Parser {
        tree: ETree::blank(crlf),
        opened: false,
        closed: false,
        route: Vec::new(),
        closeidx: 0,
    };
    assert(parser@ == start_state(content@));
    let mut tokenizer = open_reader(content);
    loop
        invariant
            parser.tree.index_ok(),
            !parser.tree@.enable_index,
            terminated(reader_rest(tokenizer)),
            absorb_all(start_state(content@), document_tokens(content@)) == absorb_all(
                parser@,
                reader_rest(tokenizer),
            ),
        decreases reader_rest(tokenizer).len(),
    {
        let ghost rest = reader_rest(tokenizer);
        match next_token(&mut tokenizer) {
            None => {
                return Err(ParseError::Malformed);
            },
            Some(t) => {
                let kind = t.kind;
                assert(token_view(t) == rest[0]);
                match kind {
                    TokenKind::Eof => {
                        return Ok(parser.tree);
                    },
                    _ => {},
                }
                proof {
                    lemma_rest_terminated(rest);
                }
                match parser.absorb(t) {
                    Ok(_) => {},
                    Err(e) => {
                        return Err(e);
                    },
                }
            },
        }
    }
}

} // verus!
