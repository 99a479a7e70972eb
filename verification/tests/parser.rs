use z_sharp::lexer::capture::{CaptureResult, CaptureResultsMap};
use z_sharp::parser::abstract_syntax_tree::{AbstractSyntaxTree, Accumulator, Node};

fn leaf(text: &str) -> Node {
    let mut m = CaptureResultsMap::new();
    let r = CaptureResult { captured: text.to_string(), is_match: true, ..CaptureResult::default() };
    m.insert("x".to_string(), r);
    Node::Leaf(m)
}

fn leaf_text(n: &Node) -> String {
    match n {
        Node::Leaf(m) => m.get(&"x".to_string()).unwrap().captured.clone(),
        Node::Branch(_) => panic!("expected a leaf"),
    }
}

#[test]
fn new_tree_has_no_nodes() {
    let t = AbstractSyntaxTree::new(vec![CaptureResult::default()]);
    assert!(t.nodes.is_empty());
}

#[test]
fn accumulator_grows_one_node_at_a_time() {
    let tree = AbstractSyntaxTree { nodes: vec![leaf("a"), leaf("b")] };
    let mut acc = Accumulator::of(tree, 0);
    assert!(acc.get(0).is_none());
    acc.next();
    assert_eq!(leaf_text(&acc.get(0).unwrap()), "a");
    assert!(acc.get(1).is_none());
    acc.next();
    acc.next();
    assert_eq!(leaf_text(&acc.get(1).unwrap()), "b");
    assert!(acc.get(2).is_none());
}

#[test]
fn nodes_clone_deeply() {
    let inner = AbstractSyntaxTree { nodes: vec![leaf("deep")] };
    let node = Node::Branch(inner);
    let copy = node.clone();
    match copy {
        Node::Branch(t) => assert_eq!(leaf_text(&t.nodes[0]), "deep"),
        Node::Leaf(_) => panic!("clone changed the kind of node"),
    }
    let tree = AbstractSyntaxTree { nodes: vec![leaf("a")] };
    assert_eq!(leaf_text(&tree.clone().nodes[0]), "a");
}

#[test]
fn window_grown_n_times_covers_the_first_n_nodes() {
    for start in [0usize, 5] {
        for n in 0..4usize {
            let tree = AbstractSyntaxTree { nodes: vec![leaf("a"), leaf("b")] };
            let mut acc = Accumulator::of(tree, start);
            for _ in 0..n {
                acc.next();
            }
            for j in 0..4usize {
                let got = acc.get(j).map(|node| leaf_text(&node));
                let expected = if j < n && j < 2 { Some(["a", "b"][j].to_string()) } else { None };
                assert_eq!(got, expected);
            }
        }
    }
}
