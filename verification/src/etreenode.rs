//! One node of an element tree.

use crate::label::{chain_copy, label_parse, label_text, parse_label, push_label};
use crate::text::{chars_of, join2, push_str_chars, str_eq, string_of};
use vstd::prelude::*;

verus! {

/// What a node holds, as plain values.
///
/// - `idx`: the node's identity within its tree
/// - `ns`: the namespace URI
/// - `ns_abbrev`: the namespace prefix, empty when there is none
/// - `local_name`: the tag name without its prefix
/// - `attr`: the attributes in document order
/// - `text`: the text between the open tag and the first child or the close
///   tag; `None` where no text was ever set
/// - `tail`: the text between the node's end and whatever follows it
/// - `route`: the identities of the node's ancestors, outermost first
pub ghost struct NodeView {
    pub idx: usize,
    pub ns: Seq<char>,
    pub ns_abbrev: Seq<char>,
    pub local_name: Seq<char>,
    pub attr: Seq<(Seq<char>, Seq<char>)>,
    pub text: Option<Seq<char>>,
    pub tail: Seq<char>,
    pub route: Seq<usize>,
}

/// The attributes as pairs of character sequences.
pub open spec fn attrs_view(v: Seq<(String, String)>) -> Seq<(Seq<char>, Seq<char>)> {
    Seq::new(v.len(), |i: int| (v[i].0@, v[i].1@))
}

/// The position of the first attribute from `i` on whose key is `key`.
pub open spec fn key_index_from(attrs: Seq<(Seq<char>, Seq<char>)>, key: Seq<char>, i: int) -> Option<
    int,
>
    decreases attrs.len() - i,
{
    if i < 0 || i >= attrs.len() {
        None
    } else if attrs[i].0 == key {
        Some(i)
    } else {
        key_index_from(attrs, key, i + 1)
    }
}

/// The position of the first attribute whose key is `key`.
pub open spec fn key_index(attrs: Seq<(Seq<char>, Seq<char>)>, key: Seq<char>) -> Option<int> {
    key_index_from(attrs, key, 0)
}

/// The value of the attribute `key`, if the list has one.
pub open spec fn attr_value(attrs: Seq<(Seq<char>, Seq<char>)>, key: Seq<char>) -> Option<
    Seq<char>,
> {
    match key_index(attrs, key) {
        Some(i) => Some(attrs[i].1),
        None => None,
    }
}

/// No key occurs twice.
pub open spec fn keys_distinct(attrs: Seq<(Seq<char>, Seq<char>)>) -> bool {
    forall|i: int, j: int| 0 <= i < j < attrs.len() ==> attrs[i].0 != attrs[j].0
}

/// What `key_index_from` finds is the first match at or after `i`.
pub proof fn lemma_key_index_from(attrs: Seq<(Seq<char>, Seq<char>)>, key: Seq<char>, i: int)
    requires
        0 <= i,
    ensures
        match key_index_from(attrs, key, i) {
            Some(k) => i <= k < attrs.len() && attrs[k].0 == key && forall|j: int|
                i <= j < k ==> attrs[j].0 != key,
            None => forall|j: int| i <= j < attrs.len() ==> attrs[j].0 != key,
        },
    decreases attrs.len() - i,
{
    if i < attrs.len() && attrs[i].0 != key {
        lemma_key_index_from(attrs, key, i + 1);
    }
}

impl NodeView {
    /// The qualified name: the prefix and a colon before the local name, or
    /// the local name alone where there is no prefix.
    pub open spec fn name(self) -> Seq<char> {
        if self.ns_abbrev.len() == 0 {
            self.local_name
        } else {
            self.ns_abbrev + seq![':'] + self.local_name
        }
    }

    /// The expanded name: the namespace URI in braces before the local name.
    pub open spec fn tag(self) -> Seq<char> {
        seq!['{'] + self.ns + seq!['}'] + self.local_name
    }

    /// Whether the name marks a construct that is no element: a comment, a
    /// CDATA section, a processing instruction or a doctype.
    pub open spec fn is_synthetic(self) -> bool {
        self.local_name.len() > 0 && self.local_name.first() == '<' && self.local_name.last()
            == '>'
    }

    /// The label that the children of this node carry.
    pub open spec fn child_route(self) -> Seq<usize> {
        self.route.push(self.idx)
    }
}

/// The form in which an optional text is shown: `None`, or `Some(` and the
/// text as a quoted string literal and `)`.
pub uninterp spec fn shown_text(text: Option<Seq<char>>) -> Seq<char>;

/// `format!` with `{:?}` on an optional text.  The contract gives the result
/// a name.
#[verifier::external_body]
fn show_text(text: &Option<String>) -> (r: String)
    ensures
        r@ == shown_text(
            match *text {
                Some(t) => Some(t@),
                None => None,
            },
        ),
{
    format!("{:?}", text)
}

/// The attributes from number `k` on as they are shown: each as the key, `=`
/// and the value in double quotes, with a space between two of them.
pub open spec fn shown_attrs(attrs: Seq<(Seq<char>, Seq<char>)>, k: int) -> Seq<char>
    decreases attrs.len() - k,
{
    if k < 0 || k >= attrs.len() {
        Seq::empty()
    } else {
        (if k > 0 {
            seq![' ']
        } else {
            Seq::empty()
        }) + attrs[k].0 + seq!['=', '"'] + attrs[k].1 + seq!['"'] + shown_attrs(attrs, k + 1)
    }
}

/// Element tree node.
///
/// For the element
/// `<context:component-scan base-package="x.y"></context:component-scan>`
/// inside a document that binds the prefix `context` to
/// `http://www.springframework.org/schema/context`:
/// - the name is `context:component-scan`
/// - the local name is `component-scan`
/// - the tag is `{http://www.springframework.org/schema/context}component-scan`
/// - the text is empty, and the tail is the whitespace up to the next tag
/// - the attributes are `[("base-package", "x.y")]`
#[derive(Debug)]
pub struct ETreeNode {
    idx: usize,
    ns: String,
    ns_abbrev: String,
    local_name: String,
    attr: Vec<(String, String)>,
    text: Option<String>,
    tail: String,
    route: Vec<usize>,
}

impl View for ETreeNode {
    type V = NodeView;

    closed spec fn view(&self) -> NodeView {
        NodeView {
            idx: self.idx,
            ns: self.ns@,
            ns_abbrev: self.ns_abbrev@,
            local_name: self.local_name@,
            attr: attrs_view(self.attr@),
            text: match self.text {
                Some(t) => Some(t@),
                None => None,
            },
            tail: self.tail@,
            route: self.route@,
        }
    }
}

impl Clone for ETreeNode {
    fn clone(&self) -> (r: Self)
        ensures
            r@ == self@,
    {
        let mut attr: Vec<(String, String)> = Vec::new();
        let mut i: usize = 0;
        while i < self.attr.len()
            invariant
                i <= self.attr.len(),
                attrs_view(attr@) == attrs_view(self.attr@).take(i as int),
            decreases self.attr.len() - i,
        {
            let ghost before = attrs_view(attr@);
            attr.push((self.attr[i].0.clone(), self.attr[i].1.clone()));
            assert(attrs_view(attr@) =~= before.push(attrs_view(self.attr@)[i as int]));
            assert(attrs_view(self.attr@).take(i + 1) =~= attrs_view(self.attr@).take(
                i as int,
            ).push(attrs_view(self.attr@)[i as int]));
            i += 1;
        }
        assert(attrs_view(self.attr@).take(self.attr.len() as int) =~= attrs_view(self.attr@));
        let text = match &self.text {
            Some(t) => Some(t.clone()),
            None => None,
        };
        ETreeNode {
            idx: self.idx,
            ns: self.ns.clone(),
            ns_abbrev: self.ns_abbrev.clone(),
            local_name: self.local_name.clone(),
            attr,
            text,
            tail: self.tail.clone(),
            route: chain_copy(&self.route),
        }
    }
}

impl ETreeNode {
    /// A node with the given local name and nothing else: identity 0, no
    /// namespace, no attributes, no text, an empty tail and the empty label.
    pub fn new(localname: &str) -> (r: ETreeNode)
        ensures
            r@ == (NodeView {
                idx: 0,
                ns: Seq::empty(),
                ns_abbrev: Seq::empty(),
                local_name: localname@,
                attr: Seq::empty(),
                text: None,
                tail: Seq::empty(),
                route: Seq::empty(),
            }),
    {
        let r = ETreeNode {
            idx: 0,
            ns: String::new(),
            ns_abbrev: String::new(),
            local_name: localname.to_string(),
            attr: Vec::new(),
            text: None,
            tail: String::new(),
            route: Vec::new(),
        };
        assert(r@.attr =~= Seq::empty());
        r
    }

    pub fn get_idx(&self) -> (r: usize)
        ensures
            r == self@.idx,
    {
        self.idx
    }

    /// The label as text, `#id1#id2#...#`.
    pub fn get_route(&self) -> (r: String)
        ensures
            r@ == label_text(self@.route),
    {
        let mut out: Vec<char> = Vec::new();
        push_label(&mut out, &self.route);
        string_of(&out)
    }

    /// The label as the chain of the ancestors' identities.
    pub fn get_chain(&self) -> (r: &Vec<usize>)
        ensures
            r@ == self@.route,
    {
        &self.route
    }

    pub fn get_namespace(&self) -> (r: String)
        ensures
            r@ == self@.ns,
    {
        self.ns.clone()
    }

    pub fn get_namespace_abbrev(&self) -> (r: String)
        ensures
            r@ == self@.ns_abbrev,
    {
        self.ns_abbrev.clone()
    }

    /// The namespace URI in braces, then the local name.
    pub fn get_tag(&self) -> (r: String)
        ensures
            r@ == self@.tag(),
    {
        let mut out: Vec<char> = Vec::new();
        out.push('{');
        push_str_chars(&mut out, self.ns.as_str());
        out.push('}');
        push_str_chars(&mut out, self.local_name.as_str());
        assert(out@ =~= self@.tag());
        string_of(&out)
    }

    /// The prefix, a colon and the local name; the local name alone where
    /// there is no prefix.
    pub fn get_name(&self) -> (r: String)
        ensures
            r@ == self@.name(),
    {
        if self.ns_abbrev.as_str().is_empty() {
            self.local_name.clone()
        } else {
            let head = join2(self.ns_abbrev.as_str(), ":");
            proof {
                reveal_strlit(":");
                assert(":"@ =~= seq![':']);
            }
            join2(head.as_str(), self.local_name.as_str())
        }
    }

    pub fn get_localname(&self) -> (r: String)
        ensures
            r@ == self@.local_name,
    {
        self.local_name.clone()
    }

    pub fn get_text(&self) -> (r: Option<String>)
        ensures
            match r {
                Some(t) => self@.text == Some(t@),
                None => self@.text is None,
            },
    {
        match &self.text {
            Some(t) => Some(t.clone()),
            None => None,
        }
    }

    pub fn get_tail(&self) -> (r: String)
        ensures
            r@ == self@.tail,
    {
        self.tail.clone()
    }

    pub fn set_idx(&mut self, idx: usize)
        ensures
            final(self)@ == (NodeView { idx: idx, ..old(self)@ }),
    {
        self.idx = idx;
    }

    /// Sets the label from its text.  A text that is no label leaves the node
    /// as it was.
    pub fn set_route(&mut self, text: &str)
        ensures
            final(self)@ == (NodeView {
                route: match label_parse(text@) {
                    Some(chain) => chain,
                    None => old(self)@.route,
                },
                ..old(self)@
            }),
    {
        let t = chars_of(text);
        match parse_label(&t) {
            Some(chain) => {
                self.route = chain;
            },
            None => {},
        }
    }

    /// Sets the label from the chain of the ancestors' identities.
    pub fn set_chain(&mut self, chain: Vec<usize>)
        ensures
            final(self)@ == (NodeView { route: chain@, ..old(self)@ }),
    {
        self.route = chain;
    }

    pub fn set_namespace(&mut self, text: &str)
        ensures
            final(self)@ == (NodeView { ns: text@, ..old(self)@ }),
    {
        self.ns = text.to_string();
    }

    pub fn set_namespace_abbrev(&mut self, text: &str)
        ensures
            final(self)@ == (NodeView { ns_abbrev: text@, ..old(self)@ }),
    {
        self.ns_abbrev = text.to_string();
    }

    pub fn set_text(&mut self, text: &str)
        ensures
            final(self)@ == (NodeView { text: Some(text@), ..old(self)@ }),
    {
        self.text = Some(text.to_string());
    }

    pub fn set_tail(&mut self, text: &str)
        ensures
            final(self)@ == (NodeView { tail: text@, ..old(self)@ }),
    {
        self.tail = text.to_string();
    }

    pub fn get_attr_count(&self) -> (r: usize)
        ensures
            r == self@.attr.len(),
    {
        self.attr.len()
    }

    /// An iterator over the attributes in document order, as pairs of key
    /// and value.
    pub fn get_attr_iter(&self) -> (r: core::slice::Iter<'_, (String, String)>)
        ensures
            attrs_view(vstd::std_specs::slice::into_iter_elts(r)) == self@.attr,
            vstd::std_specs::iter::IteratorSpec::decrease(&r) is Some,
            vstd::std_specs::iter::IteratorSpec::initial_value_relation(&r, &r),
    {
        broadcast use vstd::std_specs::slice::axiom_spec_slice_iter;

        let r = self.attr.as_slice().iter();
        assert(vstd::std_specs::slice::into_iter_elts(r) =~= self.attr@);
        r
    }

    /// The attributes in document order, as pairs of key and value.
    pub fn get_attrs(&self) -> (r: Vec<(String, String)>)
        ensures
            attrs_view(r@) == self@.attr,
    {
        let c = self.clone();
        c.attr
    }

    /// The value of the attribute `key`, or `None` where the node has none.
    pub fn get_attr(&self, key: &str) -> (r: Option<String>)
        ensures
            match r {
                Some(v) => attr_value(self@.attr, key@) == Some(v@),
                None => attr_value(self@.attr, key@) is None,
            },
    {
        proof {
            lemma_key_index_from(self@.attr, key@, 0);
        }
        match self.find_attr(key) {
            Some(i) => Some(self.attr[i].1.clone()),
            None => None,
        }
    }

    /// Sets the attribute `key` to `value`.  An attribute that the node has
    /// keeps its place, and its position is returned; a new one goes to the
    /// end, and the new number of attributes is returned.
    pub fn set_attr(&mut self, key: &str, value: &str) -> (r: usize)
        ensures
            match key_index(old(self)@.attr, key@) {
                Some(i) => r == i && final(self)@ == (NodeView {
                    attr: old(self)@.attr.update(i, (key@, value@)),
                    ..old(self)@
                }),
                None => r == old(self)@.attr.len() + 1 && final(self)@ == (NodeView {
                    attr: old(self)@.attr.push((key@, value@)),
                    ..old(self)@
                }),
            },
            keys_distinct(old(self)@.attr) ==> keys_distinct(final(self)@.attr),
    {
        proof {
            lemma_key_index_from(self@.attr, key@, 0);
        }
        match self.find_attr(key) {
            Some(i) => {
                self.attr.set(i, (key.to_string(), value.to_string()));
                assert(self@.attr =~= old(self)@.attr.update(i as int, (key@, value@)));
                i
            },
            None => {
                self.attr.push((key.to_string(), value.to_string()));
                assert(self@.attr =~= old(self)@.attr.push((key@, value@)));
                self.attr.len()
            },
        }
    }

    /// The position of the attribute `key`.
    pub fn find_attr(&self, key: &str) -> (r: Option<usize>)
        ensures
            match r {
                Some(i) => key_index(self@.attr, key@) == Some(i as int),
                None => key_index(self@.attr, key@) is None,
            },
    {
        let mut i: usize = 0;
        while i < self.attr.len()
            invariant
                i <= self.attr.len(),
                key_index(self@.attr, key@) == key_index_from(self@.attr, key@, i as int),
            decreases self.attr.len() - i,
        {
            assert(self@.attr[i as int].0 == self.attr@[i as int].0@);
            if str_eq(self.attr[i].0.as_str(), key) {
                return Some(i);
            }
            i += 1;
        }
        None
    }

    /// The node as a line of text: the tag, the attributes in square
    /// brackets, `=` and the text.
    pub fn to_string(&self) -> (r: String)
        ensures
            r@ == self@.tag() + seq!['['] + shown_attrs(self@.attr, 0) + seq![']', '=']
                + shown_text(self@.text),
    {
        let mut out = chars_of(self.get_tag().as_str());
        out.push('[');
        let mut shown: Vec<char> = Vec::new();
        let mut i: usize = 0;
        assert(self@.attr.len() == self.attr.len());
        while i < self.attr.len()
            invariant
                i <= self.attr.len(),
                self@.attr.len() == self.attr.len(),
                shown_attrs(self@.attr, 0) == shown@ + shown_attrs(self@.attr, i as int),
            decreases self.attr.len() - i,
        {
            let ghost before = shown@;
            if i > 0 {
                shown.push(' ');
            }
            push_str_chars(&mut shown, self.attr[i].0.as_str());
            shown.push('=');
            shown.push('"');
            push_str_chars(&mut shown, self.attr[i].1.as_str());
            shown.push('"');
            assert(self@.attr[i as int] == (self.attr@[i as int].0@, self.attr@[i as int].1@));
            assert(shown@ =~= before + ((if i > 0 {
                seq![' ']
            } else {
                Seq::empty()
            }) + self@.attr[i as int].0 + seq!['=', '"'] + self@.attr[i as int].1 + seq!['"']));
            assert(shown@ + shown_attrs(self@.attr, i + 1) =~= before + shown_attrs(
                self@.attr,
                i as int,
            ));
            i += 1;
        }
        assert(shown@ =~= shown_attrs(self@.attr, 0));
        crate::text::push_chars(&mut out, &shown);
        out.push(']');
        out.push('=');
        push_str_chars(&mut out, show_text(&self.text).as_str());
        assert(out@ =~= self@.tag() + seq!['['] + shown_attrs(self@.attr, 0) + seq![']', '=']
            + shown_text(self@.text));
        string_of(&out)
    }
}

} // verus!
