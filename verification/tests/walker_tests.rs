use wikiquote::bits::{bits_get, count_ones};
use wikiquote::graph::Graph;

fn id(name: &str, kind: bool) -> (String, bool) {
    (name.to_string(), kind)
}

#[test]
fn p4_cycle_neutralization() {
    let mut g = Graph::new();
    g.add(id("A", true), "ab".to_string(), id("B", true));
    g.add(id("B", true), "ba".to_string(), id("A", true));
    let a = g.find_or_add_vertex(id("A", true));
    let b = g.find_or_add_vertex(id("B", true));
    let (order, visited) = g.walk_dfs_post_order(a);
    // both nodes visited exactly once, and the walk terminated
    assert_eq!(order.len(), 2);
    assert_eq!(order[0].node, b);
    assert_eq!(order[1].node, a);
    assert_eq!(count_ones(&visited), 2);
    // the cycle-closing edge from B back to A is forbidden
    assert_eq!(order[0].forbidden, vec![a]);
    assert_eq!(order[1].forbidden, Vec::<usize>::new());
}

#[test]
fn self_loop_is_forbidden() {
    let mut g = Graph::new();
    g.add(id("A", true), "self".to_string(), id("A", true));
    let a = g.find_or_add_vertex(id("A", true));
    let (order, visited) = g.walk_dfs_post_order(a);
    assert_eq!(order.len(), 1);
    assert_eq!(order[0].node, a);
    assert_eq!(order[0].forbidden, vec![a]);
    assert_eq!(count_ones(&visited), 1);
}

#[test]
fn p5_post_order_guarantee() {
    let mut g = Graph::new();
    // a diamond: A -> B, A -> C, B -> D, C -> D
    g.add(id("A", true), "b".to_string(), id("B", true));
    g.add(id("A", true), "c".to_string(), id("C", true));
    g.add(id("B", true), "d".to_string(), id("D", false));
    g.add(id("C", true), "d".to_string(), id("D", false));
    let a = g.find_or_add_vertex(id("A", true));
    let (order, _visited) = g.walk_dfs_post_order(a);
    assert_eq!(order.len(), 4);
    // every node's non-forbidden children appear strictly before the node
    for p in 0..order.len() {
        let node = order[p].node;
        for &child in &g.node_data[node].outgoing {
            if !order[p].forbidden.contains(&child) {
                let child_pos = order.iter().position(|v| v.node == child).unwrap();
                assert!(child_pos < p);
            }
        }
    }
    // the last visit is the start node
    assert_eq!(order[3].node, a);
}

#[test]
fn p7_unreachable_node_detection() {
    let mut g = Graph::new();
    g.add(id("A", true), "ab".to_string(), id("B", false));
    let lonely = g.add_vertex(id("C", false));
    let a = g.find_or_add_vertex(id("A", true));
    let (order, visited) = g.walk_dfs_post_order(a);
    assert_eq!(order.len(), 2);
    assert_eq!(count_ones(&visited), 2);
    assert!(order.iter().all(|v| v.node != lonely));
    assert_eq!(bits_get(&visited, lonely), Some(false));
    assert_eq!(g.len(), 3);
}

#[test]
fn children_visited_in_insertion_order() {
    let mut g = Graph::new();
    g.add(id("A", true), "x".to_string(), id("X", false));
    g.add(id("A", true), "y".to_string(), id("Y", false));
    g.add(id("A", true), "z".to_string(), id("Z", false));
    let a = g.find_or_add_vertex(id("A", true));
    let x = g.find_or_add_vertex(id("X", false));
    let y = g.find_or_add_vertex(id("Y", false));
    let z = g.find_or_add_vertex(id("Z", false));
    let (order, _) = g.walk_dfs_post_order(a);
    let nodes: Vec<usize> = order.iter().map(|v| v.node).collect();
    assert_eq!(nodes, vec![x, y, z, a]);
}
