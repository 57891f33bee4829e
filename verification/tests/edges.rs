use lanegraph::edges::edges_between;
use lanegraph::edges::enumerate_edges;
use lanegraph::edges::insert_edge;
use lanegraph::edges::Edge;
use lanegraph::stack::Node;
use std::collections::BTreeSet;
use std::collections::HashMap;

fn edge(source: u32, target: u32) -> Edge {
    Edge { source, target }
}

fn nodes_in(columns: &[u8]) -> Vec<Node> {
    let mut nodes = Vec::new();
    for (i, column) in columns.iter().enumerate() {
        nodes.push(Node { id: i as u32, column: *column });
    }
    nodes
}

#[test]
fn two_columns_give_one_edge() {
    assert_eq!(enumerate_edges(&nodes_in(&[0, 1])), vec![edge(0, 1)]);
}

#[test]
fn the_edge_leads_to_the_higher_column() {
    assert_eq!(enumerate_edges(&nodes_in(&[1, 0])), vec![edge(1, 0)]);
}

#[test]
fn one_column_gives_both_directions() {
    assert_eq!(
        enumerate_edges(&nodes_in(&[0, 0, 0])),
        vec![edge(0, 1), edge(0, 2), edge(1, 0), edge(1, 2), edge(2, 0), edge(2, 1)]
    );
}

#[test]
fn columns_two_apart_give_no_edge() {
    assert_eq!(enumerate_edges(&nodes_in(&[0, 2])), Vec::new());
    assert_eq!(enumerate_edges(&nodes_in(&[5])), Vec::new());
    assert_eq!(enumerate_edges(&Vec::new()), Vec::new());
}

#[test]
fn edges_agree_with_the_rule_on_every_pair() {
    let columns: Vec<u8> = (0..48u32).map(|i| (i % 7) as u8).collect();
    let edges = enumerate_edges(&nodes_in(&columns));
    let mut expected = BTreeSet::new();
    for a in 0..48usize {
        for b in 0..48usize {
            let produced = edges.contains(&edge(a as u32, b as u32));
            let wanted = a != b
                && columns[a] <= columns[b]
                && (columns[a] as i32 - columns[b] as i32).abs() <= 1;
            assert_eq!(produced, wanted, "pair {} {}", a, b);
            if wanted {
                expected.insert(edge(a as u32, b as u32));
            }
            if produced && columns[a] != columns[b] {
                assert!(!edges.contains(&edge(b as u32, a as u32)));
            }
        }
    }
    let in_order: Vec<Edge> = expected.into_iter().collect();
    assert_eq!(edges, in_order);
}

#[test]
fn edges_come_in_ascending_order_whatever_the_order_of_ids() {
    let nodes = vec![
        Node { id: 9, column: 1 },
        Node { id: 3, column: 0 },
        Node { id: 7, column: 1 },
        Node { id: 1, column: 2 },
    ];
    assert_eq!(
        enumerate_edges(&nodes),
        vec![edge(3, 7), edge(3, 9), edge(7, 1), edge(7, 9), edge(9, 1), edge(9, 7)]
    );
}

#[test]
fn an_id_given_twice_gives_each_edge_once() {
    let nodes = vec![
        Node { id: 0, column: 0 },
        Node { id: 1, column: 1 },
        Node { id: 0, column: 0 },
    ];
    assert_eq!(enumerate_edges(&nodes), vec![edge(0, 1)]);
}

#[test]
fn an_id_given_twice_has_its_last_column() {
    let nodes = vec![
        Node { id: 0, column: 0 },
        Node { id: 1, column: 1 },
        Node { id: 0, column: 2 },
    ];
    assert_eq!(enumerate_edges(&nodes), vec![edge(1, 0)]);
}

#[test]
fn an_id_without_a_column_has_no_edge() {
    let ids = vec![0, 1, 2];
    let mut columns = HashMap::new();
    columns.insert(0, 0);
    columns.insert(2, 0);
    assert_eq!(edges_between(&ids, &columns), vec![edge(0, 2), edge(2, 0)]);
}

#[test]
fn a_column_without_an_id_has_no_edge() {
    let ids = vec![4, 2];
    let mut columns = HashMap::new();
    columns.insert(2, 3);
    columns.insert(4, 3);
    columns.insert(6, 3);
    assert_eq!(edges_between(&ids, &columns), vec![edge(2, 4), edge(4, 2)]);
}

#[test]
fn insert_edge_keeps_the_order() {
    let mut edges = Vec::new();
    insert_edge(&mut edges, edge(2, 1));
    insert_edge(&mut edges, edge(0, 5));
    insert_edge(&mut edges, edge(2, 0));
    insert_edge(&mut edges, edge(1, 9));
    insert_edge(&mut edges, edge(3, 0));
    assert_eq!(
        edges,
        vec![edge(0, 5), edge(1, 9), edge(2, 0), edge(2, 1), edge(3, 0)]
    );
}

#[test]
fn insert_edge_passes_over_one_that_is_there() {
    let mut edges = vec![edge(0, 1), edge(1, 0)];
    insert_edge(&mut edges, edge(1, 0));
    insert_edge(&mut edges, edge(0, 1));
    assert_eq!(edges, vec![edge(0, 1), edge(1, 0)]);
}

#[test]
fn edges_order_as_the_derived_order_does() {
    assert!(edge(0, 5) < edge(1, 0));
    assert!(edge(1, 0) < edge(1, 1));
    assert!(edge(2, 0) > edge(1, 9));
}
