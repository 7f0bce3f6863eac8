use raptor_db::database::{EdgeProperty, NodeProperty};
use raptor_db::graph::{EdgeKind, Graph};
use raptor_db::id::{EdgePropertyID, EdgePropertyTypeID, IDIntoUSize, NodePropertyID, NodePropertyTypeID};
use raptor_db::import::{add_way, way_edge_kind};
use raptor_db::property::PropertyIdentifier;

fn np(id: usize) -> NodeProperty {
    PropertyIdentifier { id: NodePropertyID::from_usize(id), type_id: NodePropertyTypeID::from_usize(0) }
}

fn ep(id: usize) -> EdgeProperty {
    PropertyIdentifier { id: EdgePropertyID::from_usize(id), type_id: EdgePropertyTypeID::from_usize(0) }
}

#[test]
fn node_count_tracks_adds_and_deletes_and_reuses_lowest_slot() {
    let mut g: Graph<NodeProperty, EdgeProperty> = Graph::new();
    let ids: Vec<_> = (0..4).map(|i| g.add_node(np(i))).collect();
    assert_eq!(g.nodes().len(), 4);
    g.delete_node(ids[2]);
    g.delete_node(ids[0]);
    assert_eq!(g.nodes().len(), 2);
    let again = g.add_node(np(9));
    assert_eq!(again, ids[0]);
    let next = g.add_node(np(8));
    assert_eq!(next, ids[2]);
    assert_eq!(g.nodes().len(), 4);
    assert_eq!(g.add_node(np(7)).as_usize(), 4);
}

#[test]
fn delete_node_keeps_other_edges_and_their_properties() {
    let mut g: Graph<NodeProperty, EdgeProperty> = Graph::new();
    let a = g.add_node(np(1));
    let b = g.add_node(np(2));
    let c = g.add_node(np(3));
    let d = g.add_node(np(4));
    let ab = g.add_edge(a, b, ep(1), EdgeKind::Directed);
    let cb = g.add_edge(c, b, ep(2), EdgeKind::Undirected);
    let cd = g.add_edge(c, d, ep(3), EdgeKind::Directed);
    let da = g.add_edge(d, a, ep(4), EdgeKind::Undirected);

    g.delete_node(b);

    assert_eq!(g.edges(), vec![cd, da]);
    assert!(!g.edges().contains(&ab) && !g.edges().contains(&cb));
    assert_eq!(*g.get_edge(cd), ep(3));
    assert_eq!(*g.get_edge(da), ep(4));
    assert_eq!(g.get_outgoing_edges(c), vec![cd]);
    assert_eq!(g.get_incoming_edges(a), vec![da]);
}

#[test]
fn reversed_directed_edge_is_not_between() {
    let mut g: Graph<NodeProperty, EdgeProperty> = Graph::new();
    let a = g.add_node(np(1));
    let b = g.add_node(np(2));
    let ba = g.add_edge(b, a, ep(1), EdgeKind::Directed);
    assert!(g.get_edges_between(a, b).is_empty());
    assert_eq!(g.get_edges_between(b, a), vec![ba]);
    assert_eq!(g.get_edge_between(a, b), None);
    assert_eq!(g.get_edge_between(b, a), Some(ba));
}

#[test]
fn undirected_edges_between_are_symmetric() {
    let mut g: Graph<NodeProperty, EdgeProperty> = Graph::new();
    let a = g.add_node(np(1));
    let b = g.add_node(np(2));
    let c = g.add_node(np(3));
    let e1 = g.add_edge(a, b, ep(1), EdgeKind::Undirected);
    let e2 = g.add_edge(b, a, ep(2), EdgeKind::Undirected);
    g.add_edge(a, c, ep(3), EdgeKind::Undirected);
    let mut ab = g.get_edges_between(a, b);
    let mut ba = g.get_edges_between(b, a);
    ab.sort();
    ba.sort();
    assert_eq!(ab, vec![e1, e2]);
    assert_eq!(ab, ba);
}

#[test]
fn outgoing_and_incoming_include_undirected_edges() {
    let mut g: Graph<NodeProperty, EdgeProperty> = Graph::new();
    let a = g.add_node(np(1));
    let b = g.add_node(np(2));
    let ab = g.add_edge(a, b, ep(1), EdgeKind::Directed);
    let ba = g.add_edge(b, a, ep(2), EdgeKind::Undirected);
    assert_eq!(g.get_outgoing_edges(a), vec![ab, ba]);
    assert_eq!(g.get_incoming_edges(a), vec![ba]);
    assert_eq!(g.get_outgoing_edges(b), vec![ba]);
    assert_eq!(g.get_incoming_edges(b), vec![ab, ba]);
    let ends = g.get_connected_nodes(ba);
    assert_eq!((ends.from, ends.to), (b, a));
}

#[test]
fn insertion_order_and_dummy_nodes_do_not_change_equivalence() {
    let mut g1: Graph<NodeProperty, EdgeProperty> = Graph::new();
    let a = g1.add_node(np(1));
    let b = g1.add_node(np(2));
    let c = g1.add_node(np(3));
    g1.add_edge(a, b, ep(10), EdgeKind::Directed);
    g1.add_edge(b, c, ep(20), EdgeKind::Undirected);
    g1.add_edge(c, a, ep(30), EdgeKind::Directed);

    let mut g2: Graph<NodeProperty, EdgeProperty> = Graph::new();
    let dummy1 = g2.add_node(np(99));
    let z = g2.add_node(np(3));
    let dummy2 = g2.add_node(np(98));
    let y = g2.add_node(np(2));
    let x = g2.add_node(np(1));
    g2.add_edge(z, dummy1, ep(5), EdgeKind::Directed);
    g2.add_edge(z, x, ep(30), EdgeKind::Directed);
    g2.add_edge(z, y, ep(20), EdgeKind::Undirected);
    g2.add_edge(x, y, ep(10), EdgeKind::Directed);
    g2.delete_node(dummy1);
    g2.delete_node(dummy2);

    assert_eq!(g1, g2);
    assert_eq!(g2, g1);
}

#[test]
fn equal_properties_in_swapped_places_are_told_apart() {
    let mut g1: Graph<NodeProperty, EdgeProperty> = Graph::new();
    let a = g1.add_node(np(1));
    let b = g1.add_node(np(1));
    let c = g1.add_node(np(2));
    g1.add_edge(a, b, ep(1), EdgeKind::Directed);
    g1.add_edge(b, c, ep(2), EdgeKind::Directed);

    let mut g2: Graph<NodeProperty, EdgeProperty> = Graph::new();
    let x = g2.add_node(np(1));
    let y = g2.add_node(np(1));
    let z = g2.add_node(np(2));
    g2.add_edge(x, y, ep(2), EdgeKind::Directed);
    g2.add_edge(y, z, ep(1), EdgeKind::Directed);

    assert_ne!(g1, g2);

    let mut g3: Graph<NodeProperty, EdgeProperty> = Graph::new();
    let p = g3.add_node(np(1));
    let q = g3.add_node(np(1));
    let r = g3.add_node(np(2));
    g3.add_edge(q, r, ep(2), EdgeKind::Directed);
    g3.add_edge(p, q, ep(1), EdgeKind::Directed);
    assert_eq!(g1, g3);
}

#[test]
fn way_kind_follows_oneway_tag() {
    let tag = |k: &str, v: &str| (k.to_string(), v.to_string());
    assert_eq!(way_edge_kind(&vec![tag("highway", "primary"), tag("oneway", "yes")]), EdgeKind::Directed);
    assert_eq!(way_edge_kind(&vec![tag("oneway", "-1")]), EdgeKind::Directed);
    assert_eq!(way_edge_kind(&vec![tag("oneway", "no")]), EdgeKind::Undirected);
    assert_eq!(way_edge_kind(&vec![tag("highway", "oneway")]), EdgeKind::Undirected);
    assert_eq!(way_edge_kind(&vec![]), EdgeKind::Undirected);
}

#[test]
fn way_becomes_edges_between_resolved_neighbours() {
    let mut g: Graph<NodeProperty, EdgeProperty> = Graph::new();
    let a = g.add_node(np(1));
    let b = g.add_node(np(2));
    let c = g.add_node(np(3));
    let refs = vec![Some(a), Some(b), None, Some(c), Some(c), Some(a)];
    let added = add_way(&mut g, &refs, ep(4), EdgeKind::Directed);
    assert_eq!(added.len(), 2);
    let first = g.get_connected_nodes(added[0]);
    let second = g.get_connected_nodes(added[1]);
    assert_eq!((first.from, first.to), (a, b));
    assert_eq!((second.from, second.to), (c, a));
    assert_eq!(*g.get_edge(added[1]), ep(4));
    assert_eq!(g.edges().len(), 2);
}

#[test]
fn integer_properties_compare_structurally() {
    let mut g1: Graph<i32, i32> = Graph::new();
    let a = g1.add_node(10);
    let b = g1.add_node(20);
    g1.add_edge(a, b, 5, EdgeKind::Directed);

    let mut g2: Graph<i32, i32> = Graph::new();
    let y = g2.add_node(20);
    let x = g2.add_node(10);
    g2.add_edge(x, y, 5, EdgeKind::Directed);
    assert_eq!(g1, g2);

    let mut g3: Graph<i32, i32> = Graph::new();
    let p = g3.add_node(10);
    let q = g3.add_node(20);
    g3.add_edge(q, p, 5, EdgeKind::Directed);
    assert_ne!(g1, g3);
    assert_eq!(*g3.get_node(q), 20);
}
