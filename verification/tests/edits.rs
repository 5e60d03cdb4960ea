use etree::{ETree, ETreeNode};

const SAMPLE: &str = "<a>\n  <b x=\"1\"/>\n  <b x=\"2\"/>\n</a>";
const HEAD: &str = "<?xml version=\"\"?>\n";

fn sample() -> ETree {
    ETree::parse_str(SAMPLE).unwrap()
}

fn text(tree: &ETree) -> String {
    String::from_utf8(tree.write().unwrap()).unwrap()
}

fn body(tree: &ETree) -> String {
    let whole = text(tree);
    assert!(whole.starts_with(HEAD));
    whole[HEAD.len()..].to_string()
}

fn identities(tree: &ETree) -> Vec<usize> {
    (0..tree.len()).map(|i| tree.node(i).unwrap().get_idx()).collect()
}

fn routes(tree: &ETree) -> Vec<String> {
    (0..tree.len()).map(|i| tree.node(i).unwrap().get_route()).collect()
}

#[test]
fn first_child_is_the_only_child() {
    let mut tree = sample();
    let pos = tree.append_child_node(1, ETreeNode::new("n")).unwrap();
    assert_eq!(pos, 2);
    assert_eq!(tree.children(1), vec![2]);
    // the child's tail is the parent's tail of the node that took it in,
    // and the text of that node is this tail and one unit of indentation
    assert_eq!(tree.node(2).unwrap().get_tail(), "");
    assert_eq!(tree.node(1).unwrap().get_text(), Some("  ".to_string()));
    assert_eq!(tree.node(2).unwrap().get_route(), "#0#1#");
    assert_eq!(tree.node(2).unwrap().get_idx(), 3);
    assert_eq!(body(&tree), "<a>\n  <b x=\"1\">  <n/></b>\n  <b x=\"2\"/>\n</a>");
}

#[test]
fn first_child_keeps_a_text_that_is_there() {
    let mut tree = ETree::parse_str("<a><b>x</b></a>").unwrap();
    tree.append_child_node(1, ETreeNode::new("n")).unwrap();
    assert_eq!(tree.node(1).unwrap().get_text(), Some("x".to_string()));
    assert_eq!(body(&tree), "<a><b>x<n/></b></a>");
}

#[test]
fn next_sibling_takes_over_the_tail() {
    let mut tree = sample();
    let pos = tree.append_next_node(1, ETreeNode::new("n")).unwrap();
    assert_eq!(pos, 2);
    assert_eq!(tree.next(1), Some(2));
    assert_eq!(tree.node(2).unwrap().get_tail(), "\n  ");
    assert_eq!(tree.node(1).unwrap().get_tail(), "\n  ");
    assert_eq!(body(&tree), "<a>\n  <b x=\"1\"/>\n  <n/>\n  <b x=\"2\"/>\n</a>");
    let mut tree = sample();
    let pos = tree.append_next_node(2, ETreeNode::new("n")).unwrap();
    assert_eq!(pos, 3);
    assert_eq!(tree.next(2), Some(3));
    assert_eq!(tree.node(3).unwrap().get_tail(), "\n");
    assert_eq!(tree.node(2).unwrap().get_tail(), "\n  ");
    assert_eq!(body(&tree), "<a>\n  <b x=\"1\"/>\n  <b x=\"2\"/>\n  <n/>\n</a>");
}

#[test]
fn next_sibling_goes_behind_the_descendants() {
    let mut tree = ETree::parse_str("<a><b><c/><d/></b><e/></a>").unwrap();
    let pos = tree.append_next_node(1, ETreeNode::new("n")).unwrap();
    assert_eq!(pos, 4);
    assert_eq!(tree.next(1), Some(4));
    assert_eq!(body(&tree), "<a><b><c/><d/></b><n/><e/></a>");
}

#[test]
fn previous_sibling_goes_in_front() {
    let mut tree = sample();
    let pos = tree.append_previous_node(2, ETreeNode::new("n")).unwrap();
    assert_eq!(pos, 2);
    assert_eq!(body(&tree), "<a>\n  <b x=\"1\"/>\n  <n/>\n  <b x=\"2\"/>\n</a>");
    let mut tree = sample();
    let pos = tree.append_previous_node(1, ETreeNode::new("n")).unwrap();
    assert_eq!(pos, 1);
    assert_eq!(tree.previous(2), Some(1));
    assert_eq!(body(&tree), "<a>\n  <n/>\n  <b x=\"1\"/>\n  <b x=\"2\"/>\n</a>");
    let mut tree = sample();
    assert_eq!(tree.append_previous_node(0, ETreeNode::new("n")), None);
    assert_eq!(body(&tree), SAMPLE);
}

#[test]
fn last_child_goes_behind_the_others() {
    let mut tree = sample();
    let pos = tree.append_child_node(0, ETreeNode::new("n")).unwrap();
    assert_eq!(pos, 3);
    assert_eq!(tree.children(0), vec![1, 2, 3]);
    assert_eq!(body(&tree), "<a>\n  <b x=\"1\"/>\n  <b x=\"2\"/>\n  <n/>\n</a>");
}

#[test]
fn position_out_of_range_changes_nothing() {
    let mut tree = sample();
    assert_eq!(tree.append_child_node(3, ETreeNode::new("n")), None);
    assert_eq!(tree.append_next_node(3, ETreeNode::new("n")), None);
    assert_eq!(tree.append_previous_node(3, ETreeNode::new("n")), None);
    assert_eq!(tree.append_child_tree(3, ETree::from(ETreeNode::new("n"))), None);
    tree.remove(3);
    assert_eq!(tree.parent(3), None);
    assert_eq!(tree.previous(3), None);
    assert_eq!(tree.next(3), None);
    assert_eq!(tree.children(3), Vec::<usize>::new());
    assert_eq!(tree.descendant(3), Vec::<usize>::new());
    assert!(tree.node(3).is_none());
    assert_eq!(tree.subtree(3).len(), 0);
    assert_eq!(body(&tree), SAMPLE);
    assert_eq!(tree.get_count(), 3);
}

#[test]
fn removal_moves_the_tail_to_the_previous_sibling() {
    let mut tree = sample();
    tree.remove(2);
    assert_eq!(tree.node(1).unwrap().get_tail(), "\n");
    assert_eq!(body(&tree), "<a>\n  <b x=\"1\"/>\n</a>");
    let mut tree = sample();
    tree.remove(1);
    assert_eq!(body(&tree), "<a>\n  <b x=\"2\"/>\n</a>");
}

#[test]
fn removal_of_an_only_child_takes_one_unit_off_the_parent_text() {
    let mut tree = ETree::parse_str("<r>\n  <a>\n    <b/>\n  </a>\n  <c/>\n</r>").unwrap();
    assert_eq!(tree.get_indent(), "  ");
    tree.remove(2);
    assert_eq!(tree.node(1).unwrap().get_text(), Some("\n  ".to_string()));
    assert_eq!(body(&tree), "<r>\n  <a>\n  </a>\n  <c/>\n</r>");
}

#[test]
fn removal_takes_the_descendants_and_leaves_no_reference() {
    let mut tree = ETree::parse_str("<r><a><b><c/></b></a><d><e/></d></r>").unwrap();
    let gone = tree.node(1).unwrap().get_idx();
    tree.remove(1);
    assert_eq!(tree.len(), 3);
    assert_eq!(identities(&tree), vec![0, 4, 5]);
    assert_eq!(routes(&tree), vec!["#", "#0#", "#0#4#"]);
    for i in 0..tree.len() {
        assert!(!tree.node(i).unwrap().get_chain().contains(&gone));
    }
    assert_eq!(body(&tree), "<r><d><e/></d></r>");
}

#[test]
fn identities_stay_under_edits() {
    let mut tree = ETree::parse_str("<r><a/><b/><c/></r>").unwrap();
    let b = tree.node(2).unwrap().get_idx();
    tree.append_previous_node(1, ETreeNode::new("n")).unwrap();
    assert_eq!(tree.pos(b), Some(3));
    assert_eq!(tree.node(3).unwrap().get_name(), "b");
    tree.remove(1);
    assert_eq!(tree.pos(b), Some(2));
    tree.append_child_tree(0, ETree::from(ETreeNode::new("t"))).unwrap();
    assert_eq!(tree.pos(b), Some(2));
    assert_eq!(tree.node(2).unwrap().get_idx(), b);
    assert_eq!(tree.pos(99), None);
}

#[test]
fn index_gives_the_same_positions() {
    let mut tree = ETree::parse_str("<r><a/><b/><c/></r>").unwrap();
    assert!(!tree.get_enable_index());
    tree.set_enable_index(true);
    assert!(tree.get_enable_index());
    for i in 0..tree.len() {
        assert_eq!(tree.pos(tree.node(i).unwrap().get_idx()), Some(i));
    }
    tree.append_previous_node(1, ETreeNode::new("n")).unwrap();
    tree.remove(2);
    tree.append_child_tree(1, ETree::from(ETreeNode::new("t"))).unwrap();
    for i in 0..tree.len() {
        assert_eq!(tree.pos(tree.node(i).unwrap().get_idx()), Some(i));
    }
    assert_eq!(tree.pos(1), None);
}

#[test]
fn subtree_is_a_tree_of_its_own() {
    let tree = ETree::parse_str("<r><a x=\"1\"><b><c/></b></a><d/></r>").unwrap();
    let sub = tree.subtree(1);
    assert_eq!(sub.len(), 3);
    assert_eq!(identities(&sub), vec![1, 2, 3]);
    assert_eq!(routes(&sub), vec!["#", "#1#", "#1#2#"]);
    assert_eq!(sub.get_count(), 5);
    assert_eq!(body(&sub), "<a x=\"1\"><b><c/></b></a>");
    assert_eq!(tree.len(), 5);
}

#[test]
fn graft_renumbers_and_relabels() {
    let mut tree = ETree::parse_str("<r><a><b/></a><d/></r>").unwrap();
    let sub = tree.subtree(1);
    let pos = tree.append_next_tree(3, sub).unwrap();
    assert_eq!(pos, 4);
    assert_eq!(tree.len(), 6);
    assert_eq!(identities(&tree), vec![0, 1, 2, 3, 4, 5]);
    assert_eq!(routes(&tree), vec!["#", "#0#", "#0#1#", "#0#", "#0#", "#0#4#"]);
    assert_eq!(tree.get_count(), 6);
    assert_eq!(body(&tree), "<r><a><b/></a><d/><a><b/></a></r>");
}

#[test]
fn graft_moves_colliding_identities_out_of_the_way() {
    // the incoming tree carries 0 and 1, and the counter stands at 1
    let mut incoming = ETree::from(ETreeNode::new("x"));
    incoming.append_child_node(0, ETreeNode::new("y")).unwrap();
    assert_eq!(identities(&incoming), vec![0, 1]);
    let mut tree = ETree::from(ETreeNode::new("r"));
    let pos = tree.append_child_tree(0, incoming).unwrap();
    assert_eq!(pos, 1);
    assert_eq!(identities(&tree), vec![0, 1, 2]);
    assert_eq!(routes(&tree), vec!["#", "#0#", "#0#1#"]);
    assert_eq!(tree.get_count(), 3);
    assert_eq!(tree.children(1), vec![2]);
}

#[test]
fn reindex_shifts_where_the_range_is_free() {
    let mut tree = ETree::parse_str("<r><a><b/></a></r>").unwrap();
    assert_eq!(tree.subtree_reindex(10), Some((10, 13)));
    assert_eq!(identities(&tree), vec![10, 11, 12]);
    assert_eq!(routes(&tree), vec!["#", "#10#", "#10#11#"]);
    // 11, 12, 13 collide with what is there
    assert_eq!(tree.subtree_reindex(11), Some((16, 19)));
    assert_eq!(identities(&tree), vec![10, 11, 12]);
    assert_eq!(tree.subtree_reindex(0), Some((0, 3)));
    assert_eq!(identities(&tree), vec![0, 1, 2]);
    assert_eq!(tree.subtree_reindex(usize::MAX), None);
    assert_eq!(identities(&tree), vec![0, 1, 2]);
    assert_eq!(ETree::parse_str("").unwrap().subtree_reindex(5), Some((0, 0)));
    assert_eq!(tree.renumber_from(1), Some(4));
    assert_eq!(identities(&tree), vec![1, 2, 3]);
    assert_eq!(routes(&tree), vec!["#", "#1#", "#1#2#"]);
}

#[test]
fn graft_of_a_copy_adds_it() {
    let mut tree = sample();
    let sub = tree.subtree(1);
    let parent = tree.parent(1).unwrap();
    let pos = tree.append_child_tree(parent, sub).unwrap();
    assert_eq!(pos, 3);
    assert_eq!(
        body(&tree),
        "<a>\n  <b x=\"1\"/>\n  <b x=\"2\"/>\n  <b x=\"1\"/>\n</a>"
    );
}

#[test]
fn regraft_of_a_removed_last_child_gives_the_document_back() {
    let doc = "<a>\n  <b x=\"1\"/>\n  <b x=\"2\"/>\n  <c><d>t</d></c>\n</a>";
    let mut tree = ETree::parse_str(doc).unwrap();
    let before = text(&tree);
    let sub = tree.subtree(3);
    let parent = tree.parent(3).unwrap();
    tree.remove(3);
    tree.append_child_tree(parent, sub).unwrap();
    assert_eq!(text(&tree), before);
}

#[test]
fn empty_tree_cannot_be_grafted() {
    let mut tree = sample();
    let empty = ETree::parse_str("").unwrap();
    assert_eq!(tree.append_child_tree(0, empty), None);
    assert_eq!(body(&tree), SAMPLE);
}

#[test]
fn node_mut_edits_in_place() {
    let mut tree = sample();
    tree.node_mut(1).unwrap().set_text("t");
    tree.node_mut(2).unwrap().set_attr("x", "3");
    assert!(tree.node_mut(3).is_none());
    assert_eq!(body(&tree), "<a>\n  <b x=\"1\">t</b>\n  <b x=\"3\"/>\n</a>");
}

#[test]
fn attributes_keep_order_and_keys_once() {
    let mut node = ETreeNode::new("n");
    assert_eq!(node.set_attr("a", "1"), 1);
    assert_eq!(node.set_attr("b", "2"), 2);
    assert_eq!(node.set_attr("a", "3"), 0);
    assert_eq!(node.get_attr_count(), 2);
    assert_eq!(
        node.get_attrs(),
        vec![("a".to_string(), "3".to_string()), ("b".to_string(), "2".to_string())]
    );
    let mut seen = Vec::new();
    for attr in node.get_attr_iter() {
        seen.push(attr.0.clone());
    }
    assert_eq!(seen, vec!["a".to_string(), "b".to_string()]);
    assert_eq!(node.get_attr("b"), Some("2".to_string()));
    assert_eq!(node.find_attr("b"), Some(1));
    assert_eq!(node.find_attr("c"), None);
}

#[test]
fn label_text_is_read_and_written() {
    let mut node = ETreeNode::new("n");
    node.set_route("#1#22#");
    assert_eq!(node.get_chain(), &vec![1, 22]);
    assert_eq!(node.get_route(), "#1#22#");
    node.set_route("bad");
    assert_eq!(node.get_route(), "#1#22#");
    node.set_route("#1##");
    assert_eq!(node.get_route(), "#1#22#");
    node.set_route("#1");
    assert_eq!(node.get_route(), "#1#22#");
    node.set_route("#99999999999999999999999999#");
    assert_eq!(node.get_route(), "#1#22#");
    node.set_route("#007#");
    assert_eq!(node.get_route(), "#7#");
    node.set_route("#");
    assert_eq!(node.get_route(), "#");
    node.set_chain(vec![0, 10, 305]);
    assert_eq!(node.get_route(), "#0#10#305#");
}

#[test]
fn node_is_shown_as_a_line() {
    let mut node = ETreeNode::new("a");
    node.set_namespace("urn:x");
    node.set_attr("k", "v");
    node.set_attr("l", "w");
    assert_eq!(node.to_string(), "{urn:x}a[k=\"v\" l=\"w\"]=None");
    node.set_text("t");
    assert_eq!(node.to_string(), "{urn:x}a[k=\"v\" l=\"w\"]=Some(\"t\")");
}

#[test]
fn clone_is_independent() {
    let tree = sample();
    let mut copy = tree.clone();
    copy.remove(1);
    assert_eq!(tree.len(), 3);
    assert_eq!(copy.len(), 2);
    assert_eq!(body(&tree), SAMPLE);
}

#[test]
fn index_follows_renumbering() {
    let mut tree = ETree::parse_str("<r><a><b/></a></r>").unwrap();
    tree.set_enable_index(true);
    assert_eq!(tree.subtree_reindex(10), Some((10, 13)));
    assert_eq!(tree.pos(11), Some(1));
    assert_eq!(tree.pos(1), None);
    assert_eq!(tree.renumber_from(11), Some(14));
    assert_eq!(identities(&tree), vec![11, 12, 13]);
    assert_eq!(tree.pos(11), Some(0));
    assert_eq!(tree.pos(13), Some(2));
    let mut empty = ETree::parse_str("").unwrap();
    assert_eq!(empty.renumber_from(5), Some(5));
}

#[test]
fn tree_goes_in_before_and_behind_a_sibling() {
    let mut tree = sample();
    let mut sub = ETree::from(ETreeNode::new("t"));
    sub.append_child_node(0, ETreeNode::new("u")).unwrap();
    let pos = tree.append_previous_tree(2, sub.clone()).unwrap();
    assert_eq!(pos, 2);
    assert_eq!(identities(&tree), vec![0, 1, 3, 4, 2]);
    assert_eq!(routes(&tree), vec!["#", "#0#", "#0#", "#0#3#", "#0#"]);
    assert_eq!(
        body(&tree),
        "<a>\n  <b x=\"1\"/>\n  <t><u/></t>\n  <b x=\"2\"/>\n</a>"
    );
    let pos = tree.append_previous_tree(1, sub.clone()).unwrap();
    assert_eq!(pos, 1);
    assert_eq!(tree.get_count(), 7);
    assert_eq!(
        body(&tree),
        "<a>\n  <t><u/></t>\n  <b x=\"1\"/>\n  <t><u/></t>\n  <b x=\"2\"/>\n</a>"
    );
    assert_eq!(tree.append_previous_tree(0, sub), None);
}

#[test]
fn removing_the_root_leaves_what_stands_around_it() {
    let mut tree = ETree::parse_str("<!--c--><a><b/></a><!--d-->").unwrap();
    assert_eq!(tree.root(), 1);
    tree.remove(1);
    assert_eq!(tree.len(), 2);
    assert_eq!(tree.root(), 2);
    assert_eq!(tree.find("//b"), None);
    assert_eq!(body(&tree), "<!--c--><!--d-->");
}

#[test]
fn last_child_that_was_an_only_child_gets_the_text_of_its_parent_as_tail() {
    let mut tree = ETree::parse_str("<a>\n  <b/>\n</a>").unwrap();
    assert_eq!(tree.append_child_node(0, ETreeNode::new("c")), Some(2));
    assert_eq!(tree.node(2).unwrap().get_tail(), "\n");
    assert_eq!(tree.node(1).unwrap().get_tail(), "\n  ");
    assert_eq!(body(&tree), "<a>\n  <b/>\n  <c/>\n</a>");
}

#[test]
fn regraft_behind_an_only_child_gives_the_document_back() {
    let mut tree = ETree::parse_str("<a>\n  <b/>\n  <c/>\n</a>").unwrap();
    let before = text(&tree);
    let sub = tree.subtree(2);
    tree.remove(2);
    assert_eq!(tree.append_child_tree(0, sub), Some(2));
    assert_eq!(tree.node(2).unwrap().get_name(), "c");
    assert_eq!(tree.node(1).unwrap().get_tail(), "\n  ");
    assert_eq!(tree.node(2).unwrap().get_tail(), "\n");
    assert_eq!(text(&tree), before);
}

#[test]
fn regraft_of_a_deep_last_child_gives_the_document_back() {
    let doc = "<r>\n  <a k=\"1\">\n    <b>t</b>\n    <c>\n      <d/>\n      <e>x</e>\n    </c>\n  </a>\n  <f/>\n</r>\n";
    let mut tree = ETree::parse_str(doc).unwrap();
    let before = text(&tree);
    let pos = tree.find("//c").unwrap();
    let parent = tree.parent(pos).unwrap();
    let sub = tree.subtree(pos);
    tree.remove(pos);
    assert_eq!(tree.append_child_tree(parent, sub), Some(pos));
    assert_eq!(text(&tree), before);
    assert_eq!(identities(&tree), vec![0, 1, 2, 7, 8, 9, 6]);
    assert_eq!(
        routes(&tree),
        vec!["#", "#0#", "#0#1#", "#0#1#", "#0#1#7#", "#0#1#7#", "#0#"]
    );
}

#[test]
fn nodes_put_into_a_copy_get_identities_of_their_own() {
    let tree = ETree::parse_str("<a><b><c/></b></a>").unwrap();
    let mut copy = tree.subtree(1);
    assert_eq!(copy.get_count(), 3);
    copy.append_child_node(0, ETreeNode::new("d")).unwrap();
    copy.append_child_node(0, ETreeNode::new("e")).unwrap();
    let mut seen = identities(&copy);
    assert_eq!(seen, vec![1, 2, 3, 4]);
    seen.sort();
    seen.dedup();
    assert_eq!(seen.len(), 4);
}

#[test]
fn regraft_behind_a_sibling_with_a_tail_of_its_own_replaces_that_tail() {
    let mut tree = ETree::parse_str("<a>\n  <b/>XX<c/>\n</a>").unwrap();
    let sub = tree.subtree(2);
    tree.remove(2);
    assert_eq!(tree.node(1).unwrap().get_tail(), "\n");
    assert_eq!(tree.append_child_tree(0, sub), Some(2));
    assert_eq!(tree.node(1).unwrap().get_tail(), "\n  ");
    assert_eq!(body(&tree), "<a>\n  <b/>\n  <c/>\n</a>");
}

#[test]
fn regraft_of_an_only_child_does_not_restore_the_text_of_its_parent() {
    let mut tree = ETree::parse_str("<a>\n  <b/>\n</a>").unwrap();
    let sub = tree.subtree(1);
    tree.remove(1);
    assert_eq!(tree.node(0).unwrap().get_text(), Some("\n".to_string()));
    assert_eq!(tree.append_child_tree(0, sub), Some(1));
    assert_eq!(body(&tree), "<a>\n<b/>\n</a>");
}
