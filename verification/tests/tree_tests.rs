use filigineacht::parser::ParseError;
use filigineacht::parser::parse_nwk;

#[test]
fn scenario_two_leaves() {
    // "(A,B);" parses to a 3-node tree: root with children A and B.
    let t = parse_nwk("(A,B);").unwrap();
    assert_eq!(t.nodes.len(), 3);
    assert_eq!(t.root, 0);
    assert_eq!(t.nodes[0].parent, None);
    assert_eq!(t.nodes[0].children, vec![1, 2]);
    assert!(t.is_leaf(1));
    assert!(t.is_leaf(2));
    assert_eq!(t.node_label(1), Some("A"));
    assert_eq!(t.node_label(2), Some("B"));
    assert_eq!(t.leaves(), vec![1, 2]);
}

#[test]
fn scenario_unbalanced() {
    // missing closing paren and semicolon
    match parse_nwk("(A,B") {
        Err(ParseError::UnbalancedParentheses) => {}
        other => panic!("expected UnbalancedParentheses, got {:?}", other),
    }
}

#[test]
fn scenario_distances() {
    // patristic(B, C) == 0.5 units; topological(B, C) == 2
    let t = parse_nwk("(A:0.1,(B:0.2,C:0.3):0.4);").unwrap();
    assert_eq!(t.node_label(3), Some("B"));
    assert_eq!(t.node_label(4), Some("C"));
    assert_eq!(t.patristic_distance(3, 4), Some(500_000_000));
    assert_eq!(t.topological_distance(3, 4), Some(2));
}

#[test]
fn lca_and_depth() {
    let t = parse_nwk("(A:0.1,(B:0.2,C:0.3):0.4);").unwrap();
    // the LCA of B and C is the inner node, one edge below the root
    assert_eq!(t.lca(3, 4), Some(2));
    assert_eq!(t.depth(2), 1);
    assert_eq!(t.depth(3), 2);
    assert_eq!(t.depth(4), 2);
    // depth(lca) is no more than either depth
    assert!(t.depth(2) <= t.depth(3).min(t.depth(4)));
    // the LCA of a node with itself is the node; distance zero
    assert_eq!(t.lca(3, 3), Some(3));
    assert_eq!(t.topological_distance(3, 3), Some(0));
    // invalid ids give no result
    assert_eq!(t.lca(0, 99), None);
    assert_eq!(t.topological_distance(99, 0), None);
    assert_eq!(t.patristic_distance(99, 0), None);
}

#[test]
fn traversals_and_ancestors() {
    let t = parse_nwk("(A:0.1,(B:0.2,C:0.3)X:0.4);").unwrap();
    assert_eq!(t.preorder(), vec![0, 1, 2, 3, 4]);
    assert_eq!(t.postorder(), vec![1, 3, 4, 2, 0]);
    assert_eq!(t.ancestors(3), vec![3, 2, 0]);
    assert_eq!(t.ancestors(0), vec![0]);
    assert_eq!(t.leaves(), vec![1, 3, 4]);
    assert_eq!(t.taxa(), vec!["A", "B", "C"]);
    assert_eq!(t.node_label(2), Some("X"));
    assert_eq!(t.parent(2), Some(0));
    assert_eq!(t.children(2), &vec![3, 4]);
}

#[test]
fn subtree_leaf_counts() {
    let t = parse_nwk("(A:0.1,(B:0.2,C:0.3):0.4);").unwrap();
    let counts = t.compute_subtree_leaf_counts();
    assert_eq!(counts, vec![3, 1, 2, 1, 1]);
}

#[test]
fn internal_label_and_length() {
    let t = parse_nwk("(A,(B,C)X:0.4)R;").unwrap();
    // the inner node got its label and length; the root its label
    assert_eq!(t.node_label(2), Some("X"));
    assert_eq!(t.nodes[2].length_to_parent, Some(400_000_000));
    assert_eq!(t.node_label(0), Some("R"));
}

#[test]
fn parse_error_variants() {
    match parse_nwk("") {
        Err(ParseError::UnexpectedEnd) => {}
        other => panic!("expected UnexpectedEnd, got {:?}", other),
    }
    match parse_nwk(";") {
        Err(ParseError::UnexpectedEnd) => {}
        other => panic!("expected UnexpectedEnd, got {:?}", other),
    }
    match parse_nwk("A;") {
        Err(ParseError::UnexpectedToken('A')) => {}
        other => panic!("expected UnexpectedToken('A'), got {:?}", other),
    }
    match parse_nwk("(A)(B);") {
        Err(ParseError::UnexpectedToken('(')) => {}
        other => panic!("expected UnexpectedToken('('), got {:?}", other),
    }
    match parse_nwk(")") {
        Err(ParseError::UnbalancedParentheses) => {}
        other => panic!("expected UnbalancedParentheses, got {:?}", other),
    }
    match parse_nwk("(A:x);") {
        Err(ParseError::InvalidBranchLength) => {}
        other => panic!("expected InvalidBranchLength, got {:?}", other),
    }
    match parse_nwk("(A:);") {
        Err(ParseError::InvalidBranchLength) => {}
        other => panic!("expected InvalidBranchLength, got {:?}", other),
    }
}

#[test]
fn whitespace_between_tokens() {
    // whitespace before a token is skipped; a label run itself extends to
    // the next delimiter, so a space after a label stays part of it
    let t = parse_nwk(" ( A, B) ; ").unwrap();
    assert_eq!(t.leaves(), vec![1, 2]);
    assert_eq!(t.node_label(1), Some("A"));
    assert_eq!(t.node_label(2), Some("B"));
    let u = parse_nwk("(A ,B);").unwrap();
    assert_eq!(u.node_label(1), Some("A "));
}
