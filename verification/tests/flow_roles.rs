use gazflow::connectivity::NetworkArc;
use gazflow::flow_roles::{
    adjacent_nodes, classify_compressor_flow_roles, count_distribution_compressors,
    distribution_peers, downstream_bounded_sinks, high_transport_endpoint_nodes, map_flow_share,
    nodes_within_hops, reaches_merge_inlet, subtree_delivery_nodes, CapClass, EnvelopeNode,
    MapFlowShare, RatedArc,
};
use gazflow::labels::ConnectionKind;

/// The class of a pressure cap ratio, as the caller draws it from the float.
fn class_of(cap: f64) -> CapClass {
    if cap >= 3.0 {
        CapClass::HighTransport
    } else if cap >= 2.0 {
        CapClass::Transport
    } else {
        CapClass::Low
    }
}

struct Net {
    nodes: Vec<String>,
    arcs: Vec<RatedArc>,
}

impl Net {
    fn new() -> Self {
        Net { nodes: Vec::new(), arcs: Vec::new() }
    }

    fn node(&mut self, id: &str) {
        if !self.nodes.iter().any(|n| n == id) {
            self.nodes.push(id.to_string());
        }
    }

    fn arc(&mut self, id: &str, from: &str, to: &str, kind: ConnectionKind, cap: CapClass) {
        self.node(from);
        self.node(to);
        self.arcs.push(RatedArc {
            arc: NetworkArc {
                id: id.to_string(),
                from: from.to_string(),
                to: to.to_string(),
                kind,
                is_open: true,
                opening_positive: true,
            },
            cap,
        });
    }

    fn add_cs(&mut self, id: &str, from: &str, to: &str, cap: f64) {
        self.arc(id, from, to, ConnectionKind::CompressorStation, class_of(cap));
    }

    fn add_link(&mut self, from: &str, to: &str, id: &str) {
        self.arc(id, from, to, ConnectionKind::Valve, CapClass::Low);
    }

    fn pipe(&self, id: &str) -> &RatedArc {
        self.arcs.iter().find(|a| a.arc.id == id).unwrap()
    }

    /// The map flow of a station, drawn from its share as the estimate does.
    fn map_flow(&self, id: &str, total: f64, active: usize, demands: Option<&[(&str, f64)]>) -> f64 {
        let pipe = self.pipe(id);
        match map_flow_share(&self.arcs, &self.nodes, pipe) {
            MapFlowShare::Total => total,
            MapFlowShare::Split(n) => total / n as f64,
            MapFlowShare::Distribution(n) => {
                if let Some(demands) = demands {
                    let delivery = |ids: &[String]| -> f64 {
                        ids.iter()
                            .filter_map(|x| demands.iter().find(|(d, _)| d == x).map(|(_, q)| *q))
                            .filter(|q| *q < 0.0)
                            .map(|q| q.abs())
                            .sum()
                    };
                    let subtree = delivery(&subtree_delivery_nodes(&self.arcs, &self.nodes, pipe));
                    if subtree > 1e-6 {
                        return subtree;
                    }
                }
                total / n as f64
            }
            MapFlowShare::PerActiveCompressor => {
                if active == 0 {
                    0.0
                } else {
                    total / active as f64
                }
            }
        }
    }
}

#[test]
fn downstream_bounded_sinks_do_not_cross_compressor() {
    let mut net = Net::new();
    net.add_cs("CS_A", "src", "mid", 4.0);
    net.add_link("mid", "sink_local", "v_local");
    net.add_cs("CS_B", "mid", "far", 4.0);
    net.add_link("far", "sink_far", "v_far");
    let nodes: Vec<EnvelopeNode<f64>> = net
        .nodes
        .iter()
        .map(|id| EnvelopeNode {
            id: id.clone(),
            in_envelope: id == "sink_local" || id == "sink_far",
            lower_bar: match id.as_str() {
                "sink_local" => Some(41.0),
                "sink_far" => Some(55.0),
                _ => None,
            },
        })
        .collect();
    let sinks = downstream_bounded_sinks(&net.arcs, &nodes, &"mid".to_string());
    assert_eq!(sinks, vec![("sink_local".to_string(), 41.0)]);
}

#[test]
fn hub_merger_gets_total_delivery_branch_gets_split() {
    let mut net = Net::new();
    net.add_cs("CS2", "innode_12", "innode_13", 4.09);
    net.add_cs("CS3", "innode_11", "innode_10", 4.09);
    net.add_cs("CS1", "innode_14", "innode_389", 4.09);
    net.add_link("innode_13", "innode_14", "v25");
    net.add_link("innode_10", "innode_14", "v1");

    let total = 90.0;
    assert!((net.map_flow("CS1", total, 3, None) - 90.0).abs() < 1e-9);
    assert!((net.map_flow("CS2", total, 3, None) - 45.0).abs() < 1e-9);
    assert!((net.map_flow("CS3", total, 3, None) - 45.0).abs() < 1e-9);
}

#[test]
fn distribution_compressor_uses_subtree_delivery_not_total_split() {
    let mut net = Net::new();
    for id in ["n_in", "n_out", "sink_a"] {
        net.node(id);
    }
    net.add_cs("CS4", "n_in", "n_out", 2.1);
    net.add_link("n_out", "sink_a", "p1");
    let demands = [("sink_a", -12.0)];
    let q = net.map_flow("CS4", 90.0, 1, Some(&demands));
    assert!((q - 12.0).abs() < 1e-9, "distribution CS should use local subtree demand, got {q}");
}

#[test]
fn roles_of_a_hub_and_its_branches() {
    let mut net = Net::new();
    net.add_cs("CS2", "a", "b", 4.0);
    net.add_cs("CS3", "c", "d", 4.0);
    net.add_cs("CS1", "hub", "out", 4.0);
    net.add_link("b", "hub", "v1");
    net.add_link("d", "hub", "v2");
    let roles = classify_compressor_flow_roles(&net.arcs, &net.nodes);
    assert_eq!(roles.hub_mergers, vec!["CS1".to_string()]);
    assert_eq!(
        roles.branch_to_merger,
        vec![("CS2".to_string(), ("CS1".to_string(), 2)), ("CS3".to_string(), ("CS1".to_string(), 2))]
    );
    assert_eq!(high_transport_endpoint_nodes(&net.arcs, &net.nodes), vec!["a", "c", "hub"]);
}

#[test]
fn merge_search_follows_direction_and_stops_at_compressors() {
    let mut net = Net::new();
    net.add_link("a", "b", "v1");
    net.add_link("b", "c", "v2");
    net.add_cs("CS", "c", "d", 4.0);
    let s = |x: &str| x.to_string();
    assert!(reaches_merge_inlet(&net.arcs, &net.nodes, &s("a"), &s("c")));
    assert!(reaches_merge_inlet(&net.arcs, &net.nodes, &s("a"), &s("a")));
    assert!(!reaches_merge_inlet(&net.arcs, &net.nodes, &s("c"), &s("a")));
    assert!(!reaches_merge_inlet(&net.arcs, &net.nodes, &s("a"), &s("d")));
    assert!(!reaches_merge_inlet(&net.arcs, &net.nodes, &s("a"), &s("zz")));
}

#[test]
fn merge_search_looks_twelve_steps_ahead() {
    let mut net = Net::new();
    for i in 0..13 {
        net.add_link(&format!("n{i}"), &format!("n{}", i + 1), &format!("v{i}"));
    }
    let s = |x: &str| x.to_string();
    assert!(reaches_merge_inlet(&net.arcs, &net.nodes, &s("n0"), &s("n12")));
    assert!(!reaches_merge_inlet(&net.arcs, &net.nodes, &s("n0"), &s("n13")));
}

#[test]
fn hops_count_either_way() {
    let mut net = Net::new();
    net.add_link("a", "b", "v1");
    net.add_link("c", "b", "v2");
    net.add_link("c", "d", "v3");
    net.add_cs("CS", "d", "e", 2.5);
    let within = |seeds: &[&str], hops: usize| {
        let seeds: Vec<String> = seeds.iter().map(|x| x.to_string()).collect();
        let mut r = nodes_within_hops(&net.arcs, &net.nodes, &seeds, hops);
        r.sort();
        r.dedup();
        r
    };
    assert!(within(&["a"], 0).is_empty());
    assert_eq!(within(&["a"], 1), vec!["a"]);
    assert_eq!(within(&["a"], 3), vec!["a", "b", "c"]);
    assert_eq!(within(&["a"], 10), vec!["a", "b", "c", "d"]);
    assert_eq!(count_distribution_compressors(&net.arcs), 1);
}

#[test]
fn neighbours_and_peers() {
    let mut net = Net::new();
    net.add_cs("CS4", "n_in", "n_out", 2.1);
    net.add_cs("CS5", "m_in", "m_out", 2.2);
    net.add_cs("CS6", "k_in", "k_out", 1.2);
    net.add_link("n_out", "sink_a", "p1");
    net.add_link("sink_b", "n_in", "p2");
    net.add_link("n_out", "sink_a", "p3");
    let pipe = net.pipe("CS4");
    assert_eq!(adjacent_nodes(&net.arcs, &net.nodes, pipe), vec!["sink_b", "sink_a", "sink_a"]);
    let peers: Vec<&str> = distribution_peers(&net.arcs, pipe).iter().map(|i| net.arcs[*i].arc.id.as_str()).collect();
    assert_eq!(peers, vec!["CS5"]);
}
