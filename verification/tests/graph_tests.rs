use wikiquote::graph::Graph;

fn id(name: &str, kind: bool) -> (String, bool) {
    (name.to_string(), kind)
}

#[test]
fn add_vertex_and_find_vertex() {
    let mut g = Graph::new();
    assert_eq!(g.len(), 0);
    let a = g.add_vertex(id("A", true));
    assert_eq!(a, 0);
    assert_eq!(g.len(), 1);
    assert_eq!(g.find_vertex(&id("A", true)), Some(0));
    assert_eq!(g.find_vertex(&id("A", false)), None);
    assert_eq!(g.find_vertex(&id("B", true)), None);
    let label = g.get_vertex_label(a);
    assert_eq!(label.0, "A");
    assert!(label.1);
}

#[test]
fn identity_distinguishes_kind() {
    let mut g = Graph::new();
    let a = g.find_or_add_vertex(id("Same", true));
    let b = g.find_or_add_vertex(id("Same", false));
    assert_ne!(a, b);
    assert_eq!(g.len(), 2);
}

#[test]
fn p1_find_or_add_idempotent() {
    let mut g = Graph::new();
    let first = g.find_or_add_vertex(id("A", true));
    assert_eq!(g.len(), 1);
    let second = g.find_or_add_vertex(id("A", true));
    assert_eq!(first, second);
    assert_eq!(g.len(), 1);
}

#[test]
fn p2_edge_label_overwrite() {
    let mut g = Graph::new();
    g.add(id("A", true), "x".to_string(), id("B", false));
    g.add(id("A", true), "y".to_string(), id("B", false));
    assert_eq!(g.len(), 2);
    let a = g.find_or_add_vertex(id("A", true));
    let b = g.find_or_add_vertex(id("B", false));
    assert_eq!(g.get_edge_label(&(a, b)), "y");
    // the duplicate edge itself is kept in the adjacency lists
    assert_eq!(g.node_data[a].outgoing.len(), 2);
}

#[test]
fn p3_roots_chain() {
    let mut g = Graph::new();
    g.add(id("A", true), "ab".to_string(), id("B", true));
    g.add(id("B", true), "bc".to_string(), id("C", false));
    let a = g.find_or_add_vertex(id("A", true));
    assert_eq!(g.roots(), vec![a]);
}

#[test]
fn roots_of_empty_graph() {
    let g = Graph::new();
    assert_eq!(g.roots(), Vec::<usize>::new());
}

#[test]
fn add_edge_with_missing_endpoint_is_dropped() {
    let mut g = Graph::new();
    g.add_vertex(id("A", true));
    g.add_edge((0, 7), "dangling".to_string());
    assert_eq!(g.node_data[0].outgoing.len(), 0);
    assert_eq!(g.node_data[0].incoming.len(), 0);
}

#[test]
fn edge_label_lookup_finds_latest_of_each_edge() {
    let mut g = Graph::new();
    g.add(id("A", true), "first".to_string(), id("B", false));
    g.add(id("A", true), "other".to_string(), id("C", false));
    let a = g.find_or_add_vertex(id("A", true));
    let b = g.find_or_add_vertex(id("B", false));
    let c = g.find_or_add_vertex(id("C", false));
    assert_eq!(g.get_edge_label(&(a, b)), "first");
    assert_eq!(g.get_edge_label(&(a, c)), "other");
}
