use filigineacht::decimal::parse_nanos;
use filigineacht::export::nanos_to_string;
use filigineacht::export::u64_to_string;
use filigineacht::Tree;
use filigineacht::export::export_network;
use filigineacht::network::resolve_network;
use filigineacht::network::tree_to_network;
use filigineacht::parser::parse_nwk;
use filigineacht::pipeline::infer;
use filigineacht::pipeline::infer_network;
use filigineacht::pipeline::parse_forest;
use filigineacht::quartet::build_quartet_table;
use filigineacht::quartet::collect_taxa;
use filigineacht::quartet::Topology;
use filigineacht::parser::ParseError;
use filigineacht::pipeline::InferError;
use filigineacht::rooting::root_network;

#[test]
fn decimal_literals() {
    let v = |s: &str| parse_nanos(s, 0, s.chars().count());
    assert_eq!(v("0.1"), Some(100_000_000));
    assert_eq!(v("5."), Some(5_000_000_000));
    assert_eq!(v(".5"), Some(500_000_000));
    assert_eq!(v("0"), Some(0));
    assert_eq!(v("12.000000001"), Some(12_000_000_001));
    // a tenth fractional digit is dropped
    assert_eq!(v("1.0000000005"), Some(1_000_000_000));
    assert_eq!(v(""), None);
    assert_eq!(v("."), None);
    assert_eq!(v("x"), None);
    assert_eq!(v("1e3"), None);
    assert_eq!(v("-1"), None);
    // too large for 64 bits of nano-units
    assert_eq!(v("99999999999"), None);
}

#[test]
fn quartet_classification_and_table() {
    // Scenario D: two trees disagreeing on {A,B,C,D}
    let trees = parse_forest("((A,B),(C,D));((A,C),(B,D));").unwrap();
    assert_eq!(trees.len(), 2);
    let taxa = collect_taxa(&trees);
    assert_eq!(taxa, vec!["A", "B", "C", "D"]);
    let table = build_quartet_table(&trees, &taxa);
    assert_eq!(table.entries.len(), 1);
    let e = table.entries[0];
    assert_eq!((e.key.t0, e.key.t1, e.key.t2, e.key.t3), (0, 1, 2, 3));
    // weight 1 on each of the two observed variants, 0 on the rest;
    // the sum equals the number of trees holding all four taxa
    assert_eq!(e.w_first, 1);
    assert_eq!(e.w_second, 1);
    assert_eq!(e.w_third, 0);
    assert_eq!(e.w_unresolved, 0);
    assert_eq!(e.w_first + e.w_second + e.w_third + e.w_unresolved, 2);
}

#[test]
fn classify_single_tree() {
    let t = parse_nwk("((A,B),(C,D));").unwrap();
    // leaves in arena order: A=2, B=3, C=5, D=6
    assert_eq!(t.classify_quartet(2, 3, 5, 6), Topology::PairFirst);
    assert_eq!(t.classify_quartet(2, 5, 3, 6), Topology::PairSecond);
    // a star tree leaves the quartet unresolved
    let s = parse_nwk("(A,B,C,D);").unwrap();
    assert_eq!(s.classify_quartet(1, 2, 3, 4), Topology::Unresolved);
}

#[test]
fn conflicting_trees_yield_reticulation() {
    // Scenario D continued: the resolver must keep both signals
    let trees = parse_forest("((A,B),(C,D));((A,C),(B,D));").unwrap();
    let taxa = collect_taxa(&trees);
    let table = build_quartet_table(&trees, &taxa);
    let (net, conflicts) = resolve_network(&table, &taxa);
    assert_eq!(conflicts, 1);
    let retics = net
        .nodes
        .iter()
        .filter(|n| n.parents.len() >= 2)
        .count();
    assert_eq!(retics, 1);
    // every taxon sits on exactly one leaf
    for taxon in &taxa {
        let found = net
            .nodes
            .iter()
            .filter(|n| n.label.as_deref() == Some(taxon.as_str()))
            .count();
        assert_eq!(found, 1);
    }
    let rooted = root_network(net);
    let text = export_network(&rooted);
    assert_eq!(text, "(((A)#H0,B),(#H0,C,D));");
}

#[test]
fn infer_agreeing_trees() {
    // one tree in, the same unrooted topology out
    let out = infer("((A,B),(C,D));").unwrap();
    assert_eq!(out, "((A,B),(C,D));");
}

#[test]
fn infer_two_leaves() {
    let out = infer("(A,B);").unwrap();
    assert_eq!(out, "(A,B);");
}

#[test]
fn infer_is_deterministic() {
    // byte-identical input gives byte-identical output
    let input = "((A,B),(C,D));((A,C),(B,D));((A,B),(C,D));";
    let first = infer(input).unwrap();
    let second = infer(input).unwrap();
    assert_eq!(first, second);
}

#[test]
fn infer_propagates_parse_errors() {
    match infer_network("((A,B),(C,D));(A,B") {
        Err(InferError::Parse(ParseError::UnbalancedParentheses)) => {}
        other => panic!("expected a propagated parse error, got {:?}", other.is_ok()),
    }
}

#[test]
fn export_round_trips_through_parser() {
    // parse, convert to the trivial one-tree network, export: the text
    // reparses to the identical arena (labels, lengths, topology)
    let input = "(A:0.1,(B:0.2,C:0.3)X:0.4);";
    let t = parse_nwk(input).unwrap();
    let net = tree_to_network(&t);
    let text = export_network(&net);
    assert_eq!(
        text,
        "(A:0.100000000,(B:0.200000000,C:0.300000000)X:0.400000000);"
    );
    let t2 = parse_nwk(&text).unwrap();
    assert_eq!(t.nodes.len(), t2.nodes.len());
    assert_eq!(t.root, t2.root);
    for i in 0..t.nodes.len() {
        assert_eq!(t.nodes[i].parent, t2.nodes[i].parent);
        assert_eq!(t.nodes[i].children, t2.nodes[i].children);
        assert_eq!(t.nodes[i].label, t2.nodes[i].label);
        assert_eq!(t.nodes[i].length_to_parent, t2.nodes[i].length_to_parent);
    }
}

#[test]
fn forest_with_trailing_whitespace() {
    let trees = parse_forest("(A,B);\n(C,D);\n").unwrap();
    assert_eq!(trees.len(), 2);
    let none = parse_forest("   \n ").unwrap();
    assert_eq!(none.len(), 0);
}

#[test]
fn star_tree_is_unresolved() {
    let trees = parse_forest("(A,B,C,D);").unwrap();
    let taxa = collect_taxa(&trees);
    let table = build_quartet_table(&trees, &taxa);
    assert_eq!(table.entries.len(), 1);
    let e = table.entries[0];
    assert_eq!(e.w_unresolved, 1);
    assert_eq!(e.w_first + e.w_second + e.w_third, 0);
}

#[test]
fn absent_taxon_does_not_count() {
    // the second tree lacks D, so only the first contributes to the key
    let trees = parse_forest("((A,B),(C,D));(A,(B,C));").unwrap();
    let taxa = collect_taxa(&trees);
    assert_eq!(taxa, vec!["A", "B", "C", "D"]);
    let table = build_quartet_table(&trees, &taxa);
    assert_eq!(table.entries.len(), 1);
    let e = table.entries[0];
    assert_eq!(e.w_first + e.w_second + e.w_third + e.w_unresolved, 1);
    assert_eq!(e.w_first, 1);
}

#[test]
fn duplicated_taxon_scores_unresolved() {
    // a taxon on two leaves still counts for its quartets, but leaves
    // them unresolved in that tree
    let trees = parse_forest("((A,B),(A,C),(D,E));").unwrap();
    let taxa = collect_taxa(&trees);
    assert_eq!(taxa, vec!["A", "B", "C", "D", "E"]);
    let table = build_quartet_table(&trees, &taxa);
    for e in &table.entries {
        if e.key.t0 == 0 {
            // every key holding the duplicated taxon A got one
            // unresolved vote and no resolved one
            assert_eq!(e.w_unresolved, 1);
            assert_eq!(e.w_first + e.w_second + e.w_third, 0);
        } else {
            assert_eq!(e.w_first + e.w_second + e.w_third + e.w_unresolved, 1);
        }
    }
}

#[test]
fn single_tree_round_trips_through_pipeline() {
    // one input tree passes through as the trivial single-tree network:
    // the output is its canonical text, lengths included
    let out = infer("(A:0.1,(B:0.2,C:0.3)X:0.4);").unwrap();
    assert_eq!(
        out,
        "(A:0.100000000,(B:0.200000000,C:0.300000000)X:0.400000000);"
    );
    // and the canonical text reparses to the identical arena
    let t1 = parse_nwk("(A:0.1,(B:0.2,C:0.3)X:0.4);").unwrap();
    let t2 = parse_nwk(&out).unwrap();
    assert_eq!(t1.nodes.len(), t2.nodes.len());
    for i in 0..t1.nodes.len() {
        assert_eq!(t1.nodes[i].parent, t2.nodes[i].parent);
        assert_eq!(t1.nodes[i].children, t2.nodes[i].children);
        assert_eq!(t1.nodes[i].label, t2.nodes[i].label);
        assert_eq!(t1.nodes[i].length_to_parent, t2.nodes[i].length_to_parent);
    }
    // a nested single tree keeps its shape end to end
    assert_eq!(infer("((A,B),((C,D),E));").unwrap(), "((A,B),((C,D),E));");
}

#[test]
fn agreeing_trees_need_no_reticulation() {
    // two identical trees: every quartet agrees, nothing is absorbed
    let trees = parse_forest("((A,B),(C,D));((A,B),(C,D));").unwrap();
    let taxa = collect_taxa(&trees);
    let table = build_quartet_table(&trees, &taxa);
    let (net, conflicts) = resolve_network(&table, &taxa);
    assert_eq!(conflicts, 0);
    assert!(net.nodes.iter().all(|n| n.parents.len() <= 1));
}

#[test]
fn digit_rendering() {
    assert_eq!(u64_to_string(0), "0");
    assert_eq!(u64_to_string(42), "42");
    assert_eq!(u64_to_string(1_000_000_007), "1000000007");
    assert_eq!(nanos_to_string(0), "0");
    assert_eq!(nanos_to_string(5_000_000_000), "5");
    assert_eq!(nanos_to_string(100_000_000), "0.100000000");
    assert_eq!(nanos_to_string(12_300_000_001), "12.300000001");
}

#[test]
fn empty_tree_store() {
    let t = Tree::new();
    assert_eq!(t.nodes.len(), 0);
    assert_eq!(t.root, 0);
}
