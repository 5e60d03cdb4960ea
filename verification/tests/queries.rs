use etree::xpath::QueryError;
use etree::ETree;

fn all(tree: &ETree, path: &str) -> Vec<usize> {
    let mut it = tree.find_iter(path);
    let mut out = Vec::new();
    while let Some(p) = it.next() {
        out.push(p);
    }
    out
}

fn all_back(tree: &ETree, path: &str) -> Vec<usize> {
    let mut it = tree.rfind_iter(path);
    let mut out = Vec::new();
    while let Some(p) = it.next() {
        out.push(p);
    }
    out
}

const DOC: &str = "<r><a id=\"1\"><c>1</c><c>2</c><d>x</d></a><a><c>3</c></a><b-b k=\"v\">t</b-b></r>";
// positions: r 0, a 1, c 2, c 3, d 4, a 5, c 6, b-b 7

#[test]
fn steps_select_children_and_descendants() {
    let tree = ETree::parse_str(DOC).unwrap();
    assert_eq!(all(&tree, "/a"), vec![1, 5]);
    assert_eq!(all(&tree, "//c"), vec![2, 3, 6]);
    assert_eq!(all(&tree, "c"), vec![2, 3, 6]);
    assert_eq!(all(&tree, "/a/c"), vec![2, 3, 6]);
    assert_eq!(all(&tree, "/c"), Vec::<usize>::new());
    assert_eq!(all(&tree, "/*"), vec![1, 5, 7]);
    assert_eq!(all(&tree, "//*"), vec![1, 2, 3, 4, 5, 6, 7]);
    assert_eq!(all(&tree, "."), vec![0]);
    assert_eq!(all(&tree, ""), vec![0]);
    assert_eq!(all(&tree, "./a"), vec![1, 5]);
    assert_eq!(all(&tree, "//d/.."), vec![1]);
    assert_eq!(all(&tree, "//b-b"), vec![7]);
    assert_eq!(all(&tree, "//@id"), vec![1]);
    assert_eq!(tree.find("//c"), Some(2));
    assert_eq!(tree.rfind("//c"), Some(6));
    assert_eq!(tree.find("//zz"), None);
    assert_eq!(tree.find_at("/c", 5), Some(6));
    assert_eq!(tree.rfind_at("/c", 1), Some(3));
    assert_eq!(tree.find_at("..", 2), Some(1));
    assert_eq!(tree.find_at("..", 0), None);
}

#[test]
fn backward_search_turns_every_level_round() {
    let tree = ETree::parse_str(DOC).unwrap();
    assert_eq!(all_back(&tree, "/a/c"), vec![6, 3, 2]);
    assert_eq!(all_back(&tree, "//c"), vec![6, 3, 2]);
    let mut it = tree.rfind_at_iter("/c", 1);
    assert_eq!(it.next(), Some(3));
    assert_eq!(it.next(), Some(2));
    assert_eq!(it.next(), None);
    assert_eq!(it.next(), None);
    let mut it = tree.find_at_iter("/c", 1);
    assert_eq!(it.next(), Some(2));
}

#[test]
fn predicates_on_attributes_and_text() {
    let tree = ETree::parse_str(DOC).unwrap();
    assert_eq!(all(&tree, "//a[@id]"), vec![1]);
    assert_eq!(all(&tree, "//a[@id='1']"), vec![1]);
    assert_eq!(all(&tree, "//a[@id!='1']"), Vec::<usize>::new());
    assert_eq!(all(&tree, "//*[@*]"), vec![1, 7]);
    assert_eq!(all(&tree, "//c[text()='2']"), vec![3]);
    assert_eq!(all(&tree, "//c[text()!='2']"), vec![2, 6]);
    assert_eq!(all(&tree, "//*[text()='t' and @k='v']"), vec![7]);
    assert_eq!(all(&tree, "//*[text()='t' and @k='w']"), Vec::<usize>::new());
    assert_eq!(all(&tree, "//*[text()='x' or @k='v']"), vec![4, 7]);
    assert_eq!(all(&tree, "//*[(text()='x' or @k='v') and @k]"), vec![7]);
    // an attribute that is not there makes its condition false
    assert_eq!(all(&tree, "//a[@none='1' or @id='1']"), vec![1]);
}

#[test]
fn predicates_on_position() {
    let tree = ETree::parse_str(DOC).unwrap();
    // the position counts among the candidates of the step
    assert_eq!(all(&tree, "//c[1]"), vec![2]);
    assert_eq!(all(&tree, "//c[3]"), vec![6]);
    assert_eq!(all(&tree, "//c[last()]"), vec![6]);
    assert_eq!(all(&tree, "//c[last()-1]"), vec![3]);
    assert_eq!(all(&tree, "//c[last() - 2]"), vec![2]);
    assert_eq!(all(&tree, "//c[position()<3]"), vec![2, 3]);
    assert_eq!(all(&tree, "//c[position() >= 2]"), vec![3, 6]);
    assert_eq!(all(&tree, "//c[position()=last()]"), vec![6]);
    assert_eq!(all(&tree, "/a/c[1]"), vec![2, 6]);
    assert_eq!(all(&tree, "//c[4]"), Vec::<usize>::new());
    assert_eq!(all(&tree, "//c[0]"), Vec::<usize>::new());
}

#[test]
fn predicates_on_children() {
    let tree = ETree::parse_str(DOC).unwrap();
    assert_eq!(all(&tree, "//a[c]"), vec![1, 5]);
    assert_eq!(all(&tree, "//a[d]"), vec![1]);
    assert_eq!(all(&tree, "//a[c='2']"), vec![1]);
    assert_eq!(all(&tree, "//a[c='3']"), vec![5]);
    assert_eq!(all(&tree, "//a[c='9']"), Vec::<usize>::new());
    assert_eq!(all(&tree, "//a[c='2' and d='x']"), vec![1]);
    assert_eq!(all(&tree, "//a[c='2' and d='y']"), Vec::<usize>::new());
    // every child that is named must be there, also under `or`
    assert_eq!(all(&tree, "//a[c='3' or d='x']"), vec![1]);
}

#[test]
fn one_child_stands_for_each_name() {
    let tree = ETree::parse_str("<r><a><c>1</c><c>2</c></a></r>").unwrap();
    // one child is chosen for the name `c`, and it is not both 1 and 2
    assert_eq!(all(&tree, "//a[c='1' and c='2']"), Vec::<usize>::new());
    assert_eq!(all(&tree, "//a[c='1' or c='2']"), vec![1]);
    assert_eq!(all(&tree, "//a[c='1']"), vec![1]);
    assert_eq!(all(&tree, "//a[c='2']"), vec![1]);
}

#[test]
fn values_that_the_evaluator_is_not_handed_do_not_match() {
    let tree = ETree::parse_str("<r><a k=\"it's\">caf\u{e9}</a><a k=\"x\">y</a></r>").unwrap();
    assert_eq!(all(&tree, "//a[@k='x']"), vec![2]);
    assert_eq!(all(&tree, "//a[@k!='x']"), Vec::<usize>::new());
    assert_eq!(all(&tree, "//a[text()='y']"), vec![2]);
    assert_eq!(all(&tree, "//a[text()!='y']"), Vec::<usize>::new());
    assert_eq!(all(&tree, "//a[2]"), vec![2]);
    assert_eq!(all(&tree, "//a[9999999999999999999]"), Vec::<usize>::new());
}

#[test]
fn addresses_that_cannot_be_read() {
    let tree = ETree::parse_str(DOC).unwrap();
    let it = tree.find_iter("//c");
    assert_eq!(it.error(), None);
    for path in ["//c[", "//c[1", "//c]", "//c['1]", "//c[\"]"] {
        let mut it = tree.find_iter(path);
        assert_eq!(it.error(), Some(QueryError::Unbalanced));
        assert_eq!(it.next(), None);
    }
    for path in ["//c[@]", "//1c", "///c", "//c[1]x", "//c[c and d and e]", "//", "//c[]"] {
        let mut it = tree.find_iter(path);
        assert_eq!(it.error(), Some(QueryError::Syntax));
        assert_eq!(it.next(), None);
    }
    assert_eq!(tree.find("//c["), None);
    assert_eq!(tree.rfind("//1c"), None);
}

#[test]
fn slashes_in_quotes_and_brackets_do_not_split() {
    let tree = ETree::parse_str("<r><a k=\"x/y\"><b/></a></r>").unwrap();
    assert_eq!(all(&tree, "//a[@k='x/y']/b"), vec![2]);
    assert_eq!(all(&tree, "//a[@k='x/y']"), vec![1]);
}

#[test]
fn plain_texts_of_any_shape_are_compared() {
    let texts = [
        "a(b", ")(", "x && y", "x || y", "1 == 2", "true", "false", "%", "[", "]", "a,b", " ",
        "", "!", "!=", "<", ">", "<=", "a.b", "1.5", "-", "--x", "+", "*", "/", "==", "=",
        "(", ")", "((", "a b c", "1", "007", "999999999999999999999999", "&", "|", "&&", "||",
        "a=b", "f(x)", "0..3", "#", "$", "@x", "~", "{}", ";", ":", "?", "^", "`", "_",
    ];
    for text in texts {
        let mut tree = ETree::parse_str("<r><a/><b/></r>").unwrap();
        tree.node_mut(1).unwrap().set_text(text);
        tree.node_mut(1).unwrap().set_attr("k", text);
        tree.node_mut(2).unwrap().set_text("other");
        tree.node_mut(2).unwrap().set_attr("k", "other");
        let by_text = format!("//*[text()='{}']", text);
        let by_attr = format!("//*[@k='{}']", text);
        let not_text = format!("//*[text()!='{}']", text);
        let both = format!("//*[@k='{}' and (text()='{}' or text()='zz')]", text, text);
        let greater = format!("//*[@k>'{}']", text);
        assert_eq!(all(&tree, &by_text), vec![1], "text {:?}", text);
        assert_eq!(all(&tree, &by_attr), vec![1], "attribute {:?}", text);
        assert_eq!(all(&tree, &not_text), vec![2], "not text {:?}", text);
        assert_eq!(all(&tree, &both), vec![1], "both {:?}", text);
        assert_eq!(all(&tree, &greater), Vec::<usize>::new(), "greater {:?}", text);
    }
}

#[test]
fn positions_of_any_size_are_compared() {
    let tree = ETree::parse_str("<r><a/><a/><a/></r>").unwrap();
    for n in ["0", "1", "2", "3", "4", "00", "03", "999999999999999999", "100000000000000000"] {
        let expected: Vec<usize> = match n.parse::<usize>().unwrap() {
            k if 1 <= k && k <= 3 => vec![k],
            _ => vec![],
        };
        assert_eq!(all(&tree, &format!("//a[{}]", n)), expected, "index {}", n);
        assert_eq!(all(&tree, &format!("//a[position()={}]", n)), expected, "position {}", n);
        let from_end: Vec<usize> = match n.parse::<usize>().unwrap() {
            k if k <= 2 => vec![3 - k],
            _ => vec![],
        };
        assert_eq!(all(&tree, &format!("//a[last()-{}]", n)), from_end, "last {}", n);
        assert_eq!(
            all(&tree, &format!("//a[position() = last() - {}]", n)),
            from_end,
            "position last {}",
            n
        );
    }
    assert_eq!(all(&tree, "//a[position()!=2]"), vec![1, 3]);
    assert_eq!(all(&tree, "//a[position()>1]"), vec![2, 3]);
    assert_eq!(all(&tree, "//a[position()<=2]"), vec![1, 2]);
    assert_eq!(all(&tree, "//a[position()<last()]"), vec![1, 2]);
    assert_eq!(all(&tree, "//a[1234567890123456789]"), Vec::<usize>::new());
}
