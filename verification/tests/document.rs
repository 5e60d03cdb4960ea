use etree::reader::ParseError;
use etree::writer::WriteError;
use etree::{ETree, ETreeNode};

const DOC: &str = "<?xml version=\"1.0\" encoding=\"UTF-8\"?>\n<root xmlns:h=\"urn:h\">\n  <h:a id=\"1\">one</h:a>\n  <b/>\n  <!-- note -->\n  <c k=\"x &amp; y\"><d>deep</d></c>\n</root>\n";

fn text(tree: &ETree) -> String {
    String::from_utf8(tree.write().unwrap()).unwrap()
}

#[test]
fn parse_builds_nodes_in_document_order() {
    let tree = ETree::parse_str(DOC).unwrap();
    assert_eq!(tree.len(), 6);
    assert_eq!(tree.get_version(), Some("1.0".to_string()));
    assert_eq!(tree.get_encoding(), Some("UTF-8".to_string()));
    assert_eq!(tree.get_standalone(), None);
    assert_eq!(tree.root(), 0);
    let names: Vec<String> = (0..6).map(|i| tree.node(i).unwrap().get_name()).collect();
    assert_eq!(names, vec!["root", "h:a", "b", "<Comment>", "c", "d"]);
    let routes: Vec<String> = (0..6).map(|i| tree.node(i).unwrap().get_route()).collect();
    assert_eq!(routes, vec!["#", "#0#", "#0#", "#0#", "#0#", "#0#4#"]);
    let a = tree.node(1).unwrap();
    assert_eq!(a.get_localname(), "a");
    assert_eq!(a.get_namespace_abbrev(), "h");
    assert_eq!(a.get_namespace(), "urn:h");
    assert_eq!(a.get_tag(), "{urn:h}a");
    assert_eq!(a.get_text(), Some("one".to_string()));
    assert_eq!(a.get_tail(), "\n  ");
    assert_eq!(a.get_attr("id"), Some("1".to_string()));
    assert_eq!(a.get_attr("none"), None);
    let b = tree.node(2).unwrap();
    assert_eq!(b.get_text(), None);
    let c = tree.node(4).unwrap();
    assert_eq!(c.get_attr("k"), Some("x & y".to_string()));
    assert_eq!(c.get_tail(), "\n");
    assert_eq!(tree.node(3).unwrap().get_text(), Some(" note ".to_string()));
    assert_eq!(tree.node(0).unwrap().get_text(), Some("\n  ".to_string()));
}

#[test]
fn parse_detects_indent_and_newline() {
    let tree = ETree::parse_str("<a>\n  <b/>\n  <c/>\n</a>").unwrap();
    assert_eq!(tree.get_indent(), "  ");
    assert_eq!(tree.get_crlf(), "\n");
    // The last element of the sequence decides: here it stands right behind
    // its parent's start tag, so no unit shows.
    let inline = ETree::parse_str(DOC).unwrap();
    assert_eq!(inline.get_indent(), "");
    let crlf = ETree::parse_str("<a>\r\n\t<b/>\r\n</a>").unwrap();
    assert_eq!(crlf.get_crlf(), "\r\n");
    assert_eq!(crlf.get_indent(), "\t");
}

#[test]
fn write_reproduces_the_document() {
    let tree = ETree::parse_str(DOC).unwrap();
    assert_eq!(text(&tree), DOC);
}

#[test]
fn round_trip_keeps_the_nodes() {
    let first = ETree::parse_str(DOC).unwrap();
    let second = ETree::parse_str(&text(&first)).unwrap();
    assert_eq!(first.len(), second.len());
    assert_eq!(first.get_version(), second.get_version());
    assert_eq!(first.get_encoding(), second.get_encoding());
    assert_eq!(first.get_standalone(), second.get_standalone());
    for i in 0..first.len() {
        let a = first.node(i).unwrap();
        let b = second.node(i).unwrap();
        assert_eq!(a.get_name(), b.get_name());
        assert_eq!(a.get_attrs(), b.get_attrs());
        assert_eq!(a.get_text(), b.get_text());
        assert_eq!(a.get_tail(), b.get_tail());
        assert_eq!(a.get_route(), b.get_route());
    }
}

#[test]
fn malformed_document_is_an_error() {
    assert_eq!(ETree::parse_str("<a><b></a>").err(), Some(ParseError::Malformed));
    assert_eq!(ETree::parse_str("<a>&bogus;</a>").err(), Some(ParseError::Malformed));
}

#[test]
fn empty_document_has_no_nodes() {
    let tree = ETree::parse_str("").unwrap();
    assert_eq!(tree.len(), 0);
    assert_eq!(tree.root(), 0);
    assert_eq!(tree.find("//a"), None);
}

#[test]
fn built_tree_is_written_with_its_declaration() {
    let mut tree = ETree::from(ETreeNode::new("ROOT"));
    tree.set_encoding("UTF-8");
    tree.set_standalone("no");
    let mut child = ETreeNode::new("CHILD-A");
    child.set_attr("DEST", "CHN");
    let root = tree.root();
    let first = tree.append_child_node(root, child).unwrap();
    let mut second = ETreeNode::new("CHILD-B");
    second.set_text("Shanghai");
    tree.append_next_node(first, second).unwrap();
    assert_eq!(
        text(&tree),
        "<?xml version=\"1.0\" encoding=\"UTF-8\" standalone=\"no\"?><ROOT><CHILD-A DEST=\"CHN\"/><CHILD-B>Shanghai</CHILD-B></ROOT>"
    );
}

#[test]
fn pretty_lays_out_and_is_idempotent() {
    let mut tree = ETree::parse_str("<a><b><c>x</c></b><d> y </d></a>").unwrap();
    tree.pretty("\n  ");
    let once = text(&tree);
    assert_eq!(
        once,
        "<?xml version=\"\"?>\n<a>\n  <b>\n    <c>x</c>\n  </b>\n  <d>y</d>\n</a>\n"
    );
    tree.pretty("\n  ");
    assert_eq!(text(&tree), once);
    assert_eq!(tree.get_indent(), "  ");
    assert_eq!(tree.get_crlf(), "\n");
}

#[test]
fn noindent_strips_white_space() {
    let mut tree = ETree::parse_str(DOC).unwrap();
    let old = tree.noindent();
    assert_eq!(old, "\n");
    let mut indented = ETree::parse_str("<a>\n  <b/>\n  <c/>\n</a>").unwrap();
    assert_eq!(indented.noindent(), "\n  ");
    assert_eq!(tree.get_indent(), "");
    assert_eq!(tree.get_crlf(), "");
    assert_eq!(
        text(&tree),
        "<?xml version=\"1.0\" encoding=\"UTF-8\"?><root xmlns:h=\"urn:h\"><h:a id=\"1\">one</h:a><b/><!--note--><c k=\"x &amp; y\"><d>deep</d></c></root>"
    );
}

#[test]
fn special_constructs_are_nodes() {
    let doc = "<?xml version=\"1.0\" standalone=\"yes\"?>\n<!DOCTYPE a>\n<?go now?>\n<a><![CDATA[x<y]]>t<!--c--></a>";
    let tree = ETree::parse_str(doc).unwrap();
    assert_eq!(tree.get_standalone(), Some("yes".to_string()));
    assert_eq!(tree.get_encoding(), None);
    let names: Vec<String> = (0..tree.len()).map(|i| tree.node(i).unwrap().get_name()).collect();
    assert_eq!(names, vec!["<DocType>", "<PI>", "a", "<CData>", "<Comment>"]);
    assert_eq!(tree.root(), 2);
    assert_eq!(tree.node(0).unwrap().get_text(), Some(" a".to_string()));
    assert_eq!(tree.node(1).unwrap().get_text(), Some("go now".to_string()));
    assert_eq!(tree.node(3).unwrap().get_text(), Some("x<y".to_string()));
    assert_eq!(tree.node(3).unwrap().get_tail(), "t");
    assert_eq!(tree.node(3).unwrap().get_route(), "#2#");
    assert_eq!(tree.find("//*"), Some(3));
    assert_eq!(
        text(&tree),
        "<?xml version=\"1.0\" standalone=\"yes\"?>\n<!DOCTYPE a>\n<?go now?>\n<a><![CDATA[x&lt;y]]>t<!--c--></a>"
    );
}

#[test]
fn text_is_unescaped_on_reading_and_escaped_on_writing() {
    let doc = "<a k=\"&lt;1&gt;\">x &amp; y &#65;<b/>&quot;</a>";
    let tree = ETree::parse_str(doc).unwrap();
    assert_eq!(tree.node(0).unwrap().get_text(), Some("x & y A".to_string()));
    assert_eq!(tree.node(0).unwrap().get_attr("k"), Some("<1>".to_string()));
    assert_eq!(tree.node(1).unwrap().get_tail(), "\"");
    assert_eq!(
        text(&tree),
        "<?xml version=\"\"?>\n<a k=\"&lt;1&gt;\">x &amp; y A<b/>&quot;</a>"
    );
}

#[test]
fn labels_that_do_not_fit_are_an_error() {
    let mut tree = ETree::parse_str("<a><b/><c/></a>").unwrap();
    tree.node_mut(2).unwrap().set_chain(vec![7]);
    assert_eq!(tree.write(), Err(WriteError::StructuralCorruption));
    let mut tree = ETree::parse_str("<a><b><c/></b><d/></a>").unwrap();
    tree.node_mut(1).unwrap().set_idx(9);
    tree.node_mut(2).unwrap().set_chain(vec![0, 8]);
    assert_eq!(tree.write(), Err(WriteError::StructuralCorruption));
}

#[test]
fn pretty_takes_the_line_ending_from_the_request() {
    let mut tree = ETree::parse_str("<a><b/><c>x</c></a>").unwrap();
    tree.node_mut(1).unwrap().set_text("");
    tree.pretty("\r\n\t");
    assert_eq!(tree.get_crlf(), "\r\n");
    assert_eq!(tree.get_indent(), "\t");
    assert_eq!(
        text(&tree),
        "<?xml version=\"\"?>\r\n<a>\r\n\t<b></b>\r\n\t<c>x</c>\r\n</a>\r\n"
    );
    tree.pretty("    ");
    assert_eq!(tree.get_crlf(), "\n");
    assert_eq!(tree.get_indent(), "    ");
    tree.pretty("");
    assert_eq!(tree.get_crlf(), "\n");
    assert_eq!(tree.get_indent(), "");
    assert_eq!(text(&tree), "<?xml version=\"\"?>\n<a>\n<b></b>\n<c>x</c>\n</a>\n");
}

#[test]
fn pretty_leaves_an_element_without_text_as_it_is() {
    let mut tree = ETree::parse_str("<a><b/></a>").unwrap();
    tree.pretty("\n  ");
    assert_eq!(tree.node(1).unwrap().get_text(), None);
    assert_eq!(text(&tree), "<?xml version=\"\"?>\n<a>\n  <b/>\n</a>\n");
}

#[test]
fn constructs_around_the_root_round_trip() {
    let doc = "<?xml version=\"1.1\"?>\n<!-- before -->\n<a xmlns=\"urn:d\" xmlns:p=\"urn:p\">x<p:b/>y<c>z</c>w</a>\n<!-- after -->\n";
    let tree = ETree::parse_str(doc).unwrap();
    assert_eq!(tree.root(), 1);
    assert_eq!(tree.len(), 5);
    assert_eq!(tree.node(1).unwrap().get_namespace(), "urn:d");
    assert_eq!(tree.node(1).unwrap().get_namespace_abbrev(), "");
    assert_eq!(tree.node(2).unwrap().get_namespace(), "urn:p");
    assert_eq!(tree.node(2).unwrap().get_name(), "p:b");
    assert_eq!(tree.node(2).unwrap().get_tag(), "{urn:p}b");
    assert_eq!(tree.node(3).unwrap().get_namespace(), "urn:d");
    assert_eq!(tree.node(1).unwrap().get_text(), Some("x".to_string()));
    assert_eq!(tree.node(2).unwrap().get_tail(), "y");
    assert_eq!(tree.node(3).unwrap().get_tail(), "w");
    assert_eq!(tree.node(1).unwrap().get_tail(), "\n");
    assert_eq!(tree.node(4).unwrap().get_route(), "#");
    assert_eq!(tree.node(4).unwrap().get_tail(), "\n");
    assert_eq!(tree.node(1).unwrap().get_attr_count(), 2);
    assert_eq!(text(&tree), doc);
}

#[test]
fn text_before_the_first_tag_is_dropped() {
    let tree = ETree::parse_str("lead<a/>").unwrap();
    assert_eq!(tree.len(), 1);
    assert_eq!(text(&tree), "<?xml version=\"\"?>\n<a/>");
}

#[test]
fn an_attribute_that_cannot_be_read_is_passed_over() {
    let tree = ETree::parse_str("<a k=\"1\" k=\"2\" l=\"3\"/>").unwrap();
    assert_eq!(tree.node(0).unwrap().get_attr("k"), Some("1".to_string()));
}

#[test]
fn tree_without_nodes_is_written_as_its_head() {
    let tree = ETree::parse_str("").unwrap();
    assert_eq!(text(&tree), "<?xml version=\"\"?>\n");
    let mut tree = ETree::parse_str("<a/>").unwrap();
    tree.remove(0);
    assert_eq!(tree.len(), 0);
    assert_eq!(text(&tree), "<?xml version=\"\"?>\n");
    tree.pretty("\n  ");
    assert_eq!(tree.noindent(), "\n  ");
}

#[test]
fn pretty_with_a_unit_that_is_no_white_space_adds_it_again() {
    let mut tree = ETree::parse_str("<a><b/></a>").unwrap();
    tree.pretty("\nab");
    assert_eq!(tree.node(0).unwrap().get_text(), Some("\nab".to_string()));
    tree.pretty("\nab");
    assert_eq!(tree.node(0).unwrap().get_text(), Some("ab\nab".to_string()));
}

#[test]
fn noindent_twice_is_noindent_once() {
    let mut tree = ETree::parse_str(DOC).unwrap();
    tree.noindent();
    let once = text(&tree);
    assert_eq!(tree.noindent(), "");
    assert_eq!(text(&tree), once);
}

#[test]
fn pretty_keeps_comments_and_lays_them_out() {
    let mut tree = ETree::parse_str("<!--lead--><a><!-- in --><b>x</b></a>").unwrap();
    tree.pretty("\n\t");
    assert_eq!(
        text(&tree),
        "<?xml version=\"\"?>\n<!--lead-->\n<a>\n\t<!-- in -->\n\t<b>x</b>\n</a>\n"
    );
}

#[test]
fn each_of_the_five_marks_is_written_as_its_entity() {
    let mut tree = ETree::parse_str("<a><!--c--></a>").unwrap();
    tree.node_mut(0).unwrap().set_text("5 > 3 & 'x' < \"y\"");
    tree.node_mut(0).unwrap().set_attr("k", "a'b\"c<d>e&f");
    tree.node_mut(1).unwrap().set_text("p & q");
    assert_eq!(
        text(&tree),
        "<?xml version=\"\"?>\n<a k=\"a&apos;b&quot;c&lt;d&gt;e&amp;f\">5 &gt; 3 &amp; &apos;x&apos; &lt; &quot;y&quot;<!--p &amp; q--></a>"
    );
}

#[test]
fn attribute_values_are_unescaped_one_by_one() {
    let tree = ETree::parse_str("<a k=\"&#65;&amp;\" l=\"plain\" m=\"&apos;q&apos;\"/>").unwrap();
    assert_eq!(tree.node(0).unwrap().get_attr("k"), Some("A&".to_string()));
    assert_eq!(tree.node(0).unwrap().get_attr("l"), Some("plain".to_string()));
    assert_eq!(tree.node(0).unwrap().get_attr("m"), Some("'q'".to_string()));
    assert!(matches!(
        ETree::parse_str("<a k=\"&nothing;\"/>"),
        Err(ParseError::Malformed)
    ));
}

#[test]
fn a_declaration_without_a_version_is_refused() {
    assert!(matches!(
        ETree::parse_str("<?xml encoding=\"UTF-8\"?><a/>"),
        Err(ParseError::Malformed)
    ));
    let tree = ETree::parse_str("<?xml version=\"1.0\" encoding=\"latin1\" standalone=\"no\"?><a/>").unwrap();
    assert_eq!(tree.get_version(), Some("1.0".to_string()));
    assert_eq!(tree.get_encoding(), Some("latin1".to_string()));
    assert_eq!(tree.get_standalone(), Some("no".to_string()));
}
