use etree::{ETree, ETreeNode};

fn sample() -> ETree {
    // <a><b x="1"/><b x="2"/></a>
    let mut tree = ETree::from(ETreeNode::new("a"));
    let root = tree.root();
    let mut b1 = ETreeNode::new("b");
    b1.set_attr("x", "1");
    let first = tree.append_child_node(root, b1).unwrap();
    let mut b2 = ETreeNode::new("b");
    b2.set_attr("x", "2");
    tree.append_next_node(first, b2).unwrap();
    tree
}

fn all(tree: &ETree, path: &str) -> Vec<usize> {
    let mut it = tree.find_iter(path);
    let mut out = Vec::new();
    while let Some(p) = it.next() {
        out.push(p);
    }
    out
}

#[test]
fn new_node_is_bare() {
    let node = ETreeNode::new("ROOT");
    assert_eq!(node.get_idx(), 0);
    assert_eq!(node.get_localname(), "ROOT");
    assert_eq!(node.get_name(), "ROOT");
    assert_eq!(node.get_tag(), "{}ROOT");
    assert_eq!(node.get_text(), None);
    assert_eq!(node.get_tail(), "");
    assert_eq!(node.get_route(), "#");
    assert_eq!(node.get_attr_count(), 0);
}

#[test]
fn labels_follow_parents() {
    let tree = sample();
    assert_eq!(tree.len(), 3);
    assert_eq!(tree.node(0).unwrap().get_route(), "#");
    assert_eq!(tree.node(1).unwrap().get_route(), "#0#");
    assert_eq!(tree.node(2).unwrap().get_route(), "#0#");
    assert_eq!(tree.node(1).unwrap().get_idx(), 1);
    assert_eq!(tree.node(2).unwrap().get_idx(), 2);
    assert_eq!(tree.children(0), vec![1, 2]);
    assert_eq!(tree.parent(2), Some(0));
    assert_eq!(tree.previous(2), Some(1));
    assert_eq!(tree.next(1), Some(2));
    assert_eq!(tree.next(2), None);
}

#[test]
fn query_attribute_value_selects_second() {
    let tree = sample();
    assert_eq!(all(&tree, "//b[@x='2']"), vec![2]);
}

#[test]
fn query_last_and_index_agree() {
    let tree = sample();
    assert_eq!(all(&tree, "//b[position()=last()]"), vec![2]);
    assert_eq!(all(&tree, "//b[2]"), vec![2]);
    assert_eq!(all(&tree, "//b[last()]"), vec![2]);
    assert_eq!(all(&tree, "//b[1]"), vec![1]);
    assert_eq!(all(&tree, "//b[last()-1]"), vec![1]);
    assert_eq!(all(&tree, "//b[position() < 2]"), vec![1]);
}
