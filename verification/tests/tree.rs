use bezirke::tree::parent_tree;
use bezirke::RawBezirk;
use petgraph::graph::{EdgeIndex, NodeIndex};

fn raw(identifier: u64, parents: Vec<u64>, name: &str) -> RawBezirk {
    RawBezirk { identifier, parents, name: name.to_string(), wkt: String::new() }
}

#[test]
fn parent_tree_has_a_node_per_district_and_an_edge_per_parent() {
    let bezirke = vec![
        raw(10, vec![], "Land"),
        raw(20, vec![10], "Kreis"),
        raw(30, vec![20, 10], "Gemeinde"),
        raw(40, vec![], "Insel"),
    ];
    let g = parent_tree(&bezirke);
    assert_eq!(g.node_count(), 4);
    assert_eq!(g[NodeIndex::new(0)], "Land");
    assert_eq!(g[NodeIndex::new(2)], "Gemeinde");
    assert_eq!(g.edge_count(), 2);
    assert_eq!(g.edge_endpoints(EdgeIndex::new(0)), Some((NodeIndex::new(0), NodeIndex::new(1))));
    assert_eq!(g.edge_endpoints(EdgeIndex::new(1)), Some((NodeIndex::new(1), NodeIndex::new(2))));
}

#[test]
fn parent_tree_uses_the_last_district_with_the_parent_identifier() {
    let bezirke = vec![raw(1, vec![], "A"), raw(2, vec![1], "B"), raw(1, vec![], "A again")];
    let g = parent_tree(&bezirke);
    assert_eq!(g.edge_count(), 1);
    assert_eq!(g.edge_endpoints(EdgeIndex::new(0)), Some((NodeIndex::new(2), NodeIndex::new(1))));
}

#[test]
fn parent_tree_of_nothing_is_empty() {
    let g = parent_tree(&vec![]);
    assert_eq!(g.node_count(), 0);
    assert_eq!(g.edge_count(), 0);
}
