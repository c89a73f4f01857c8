use entropy_production::grouping::Grouping;
use entropy_production::labels::make_label;
use entropy_production::network::{linear_chain_topology, star_topology, Link, Topology};

fn s(text: &str) -> String {
    text.to_string()
}

fn neighbours<'a>(adj: &'a Grouping<String>, key: &str) -> &'a Vec<String> {
    adj.get(&s(key)).unwrap()
}

#[test]
fn test_adjacency() {
    let values = [100.0f64, 50.0, 0.0];
    let conductances = [1.0f64, 1.0];
    let net = linear_chain_topology(values.len(), conductances.len());
    let adj = net.adjacency();
    assert!(adj.contains_key(&s("N0")));
    assert!(adj.contains_key(&s("N1")));
    assert!(adj.contains_key(&s("N2")));
    assert!(neighbours(&adj, "N1").contains(&"N0".to_string()));
    assert!(neighbours(&adj, "N1").contains(&"N2".to_string()));
}

#[test]
fn test_edges_for_node() {
    let values = [100.0f64, 50.0, 0.0];
    let conductances = [1.0f64, 1.0];
    let net = linear_chain_topology(values.len(), conductances.len());
    let edges = net.edges_for_node(&s("N1"));
    assert_eq!(edges.len(), 2);
}

#[test]
fn linear_chain_has_one_node_per_value() {
    let net = linear_chain_topology(3, 2);
    assert_eq!(net.node_ids.len(), 3);
    assert_eq!(net.links.len(), 2);
    assert_eq!(net.node_ids, vec![s("N0"), s("N1"), s("N2")]);
    assert_eq!(net.links[0].id, "E0");
    assert_eq!(net.links[0].source, "N0");
    assert_eq!(net.links[0].target, "N1");
    assert_eq!(net.links[1].id, "E1");
    assert_eq!(net.links[1].source, "N1");
    assert_eq!(net.links[1].target, "N2");
}

#[test]
fn linear_chain_ignores_conductances_without_next_node() {
    let net = linear_chain_topology(3, 5);
    assert_eq!(net.links.len(), 2);
    let net = linear_chain_topology(4, 1);
    assert_eq!(net.links.len(), 1);
    let net = linear_chain_topology(0, 3);
    assert_eq!(net.node_ids.len(), 0);
    assert_eq!(net.links.len(), 0);
    let net = linear_chain_topology(1, 3);
    assert_eq!(net.node_ids.len(), 1);
    assert_eq!(net.links.len(), 0);
}

#[test]
fn linear_chain_labels_past_nine() {
    let net = linear_chain_topology(12, 11);
    assert_eq!(net.node_ids.len(), 12);
    assert_eq!(net.node_ids[10], "N10");
    assert_eq!(net.node_ids[11], "N11");
    assert_eq!(net.links[10].id, "E10");
    assert_eq!(net.links[10].source, "N10");
    assert_eq!(net.links[10].target, "N11");
}

#[test]
fn star_topology_counts() {
    let peripheral = vec![s("p1"), s("p2"), s("p3")];
    let net = star_topology("center", &peripheral);
    assert_eq!(net.node_ids.len(), 4);
    assert_eq!(net.links.len(), 3);
    assert_eq!(net.node_ids[0], "center");
    for (i, link) in net.links.iter().enumerate() {
        assert_eq!(link.id, format!("E{i}"));
        assert_eq!(link.source, "center");
        assert_eq!(link.target, peripheral[i]);
    }
}

#[test]
fn star_topology_repeated_ids_are_one_node() {
    let peripheral = vec![s("p1"), s("p1"), s("center")];
    let net = star_topology("center", &peripheral);
    assert_eq!(net.node_ids.len(), 2);
    assert_eq!(net.links.len(), 3);
}

#[test]
fn add_node_keeps_ids_distinct() {
    let mut net = Topology::new();
    net.add_node(s("A"));
    net.add_node(s("B"));
    net.add_node(s("A"));
    assert_eq!(net.node_ids, vec![s("A"), s("B")]);
    assert!(net.has_node(&s("B")));
    assert!(!net.has_node(&s("C")));
}

#[test]
fn adjacency_is_symmetric_and_counts_self_loops_twice() {
    let mut net = Topology::new();
    net.add_link(Link { id: s("a"), source: s("X"), target: s("Y") });
    net.add_link(Link { id: s("b"), source: s("Y"), target: s("Y") });
    net.add_link(Link { id: s("c"), source: s("Z"), target: s("X") });
    let adj = net.adjacency();
    assert_eq!(adj.keys.len(), 3);
    assert_eq!(neighbours(&adj, "X"), &vec![s("Y"), s("Z")]);
    assert_eq!(neighbours(&adj, "Y"), &vec![s("X"), s("Y"), s("Y")]);
    assert_eq!(neighbours(&adj, "Z"), &vec![s("X")]);
    assert!(adj.get(&s("W")).is_none());
}

#[test]
fn edges_for_node_in_edge_order() {
    let mut net = Topology::new();
    net.add_link(Link { id: s("a"), source: s("X"), target: s("Y") });
    net.add_link(Link { id: s("b"), source: s("Y"), target: s("Z") });
    net.add_link(Link { id: s("c"), source: s("Z"), target: s("X") });
    assert_eq!(net.edges_for_node(&s("X")), vec![0, 2]);
    assert_eq!(net.edges_for_node(&s("Z")), vec![1, 2]);
    assert!(net.edges_for_node(&s("W")).is_empty());
}

#[test]
fn empty_network_has_no_adjacency() {
    let net = Topology::new();
    assert_eq!(net.adjacency().keys.len(), 0);
    assert!(net.edges_for_node(&s("N0")).is_empty());
}

#[test]
fn labels_are_prefix_then_decimal() {
    assert_eq!(make_label("N", 0), "N0");
    assert_eq!(make_label("E", 7), "E7");
    assert_eq!(make_label("N", 12), "N12");
    assert_eq!(make_label("N", 100), "N100");
    assert_eq!(make_label("", 4096), "4096");
    assert_eq!(make_label("N", usize::MAX), format!("N{}", usize::MAX));
}

#[test]
fn chain_neighbours_are_consecutive() {
    let net = linear_chain_topology(4, 3);
    let adj = net.adjacency();
    assert_eq!(neighbours(&adj, "N0"), &vec![s("N1")]);
    assert_eq!(neighbours(&adj, "N1"), &vec![s("N0"), s("N2")]);
    assert_eq!(neighbours(&adj, "N2"), &vec![s("N1"), s("N3")]);
    assert_eq!(neighbours(&adj, "N3"), &vec![s("N2")]);
    assert_eq!(net.edges_for_node(&s("N0")), vec![0]);
    assert_eq!(net.edges_for_node(&s("N2")), vec![1, 2]);
}

#[test]
fn star_center_lists_every_peripheral() {
    let peripheral = vec![s("p1"), s("p2"), s("p3")];
    let net = star_topology("center", &peripheral);
    let adj = net.adjacency();
    assert_eq!(neighbours(&adj, "center"), &peripheral);
    for p in &peripheral {
        assert_eq!(neighbours(&adj, p), &vec![s("center")]);
    }
    assert_eq!(net.node_ids, vec![s("center"), s("p1"), s("p2"), s("p3")]);
}

#[test]
fn star_node_order_is_first_occurrence() {
    let peripheral = vec![s("b"), s("a"), s("b"), s("c"), s("a")];
    let net = star_topology("c", &peripheral);
    assert_eq!(net.node_ids, vec![s("c"), s("b"), s("a")]);
}

#[test]
fn test_linear_chain_network() {
    let values = [400.0f64, 350.0, 300.0];
    let conductances = [1.0f64, 1.5];
    let net = linear_chain_topology(values.len(), conductances.len());
    assert_eq!(net.node_ids.len(), 3);
    assert_eq!(net.links.len(), 2);
}

#[test]
fn test_star_network() {
    let peripheral = [(s("p1"), 80.0f64, 1.0f64), (s("p2"), 60.0, 2.0), (s("p3"), 40.0, 1.5)];
    let ids: Vec<String> = peripheral.iter().map(|(id, _, _)| id.clone()).collect();
    let net = star_topology("center", &ids);
    assert_eq!(net.node_ids.len(), 4);
    assert_eq!(net.links.len(), 3);
}
