use gazflow::connectivity::NetworkArc;
use gazflow::junctions::{
    count_mixed_zero_flow_neighbors, is_compressor_endpoint, min_junction_degree,
    node_hydraulic_degree, zero_flow_boundary_kind_sets,
};
use gazflow::labels::ConnectionKind;

fn arc(id: &str, from: &str, to: &str, kind: ConnectionKind, is_open: bool) -> NetworkArc {
    NetworkArc {
        id: id.to_string(),
        from: from.to_string(),
        to: to.to_string(),
        kind,
        is_open,
        opening_positive: true,
    }
}

fn strings(v: &[&str]) -> Vec<String> {
    v.iter().map(|s| s.to_string()).collect()
}

fn hub() -> Vec<NetworkArc> {
    vec![
        arc("p1", "innode_1", "sink_1", ConnectionKind::Pipe, true),
        arc("p2", "sink_2", "innode_1", ConnectionKind::Pipe, true),
        arc("p3", "innode_1", "sink_2", ConnectionKind::Pipe, true),
        arc("p4", "innode_1", "source_1", ConnectionKind::Pipe, true),
        arc("v1", "innode_1", "source_2", ConnectionKind::Valve, false),
        arc("c1", "innode_2", "innode_3", ConnectionKind::CompressorStation, true),
        arc("c2", "innode_1", "innode_4", ConnectionKind::CompressorStation, false),
    ]
}

#[test]
fn degree_counts_active_arcs() {
    let net = hub();
    assert_eq!(node_hydraulic_degree(&net, "innode_1"), 4);
    assert_eq!(node_hydraulic_degree(&net, "sink_2"), 2);
    assert_eq!(node_hydraulic_degree(&net, "source_2"), 0);
    assert_eq!(node_hydraulic_degree(&net, "nowhere"), 0);
}

#[test]
fn compressor_endpoints_are_active_stations_only() {
    let net = hub();
    assert!(is_compressor_endpoint(&net, "innode_2"));
    assert!(is_compressor_endpoint(&net, "innode_3"));
    assert!(!is_compressor_endpoint(&net, "innode_4"));
    assert!(!is_compressor_endpoint(&net, "innode_1"));
}

#[test]
fn junction_degree_thresholds() {
    assert_eq!(min_junction_degree(1, 1, true), 3);
    assert_eq!(min_junction_degree(0, 2, false), 3);
    assert_eq!(min_junction_degree(0, 1, false), 4);
    assert_eq!(min_junction_degree(1, 3, false), 4);
}

#[test]
fn boundary_kinds_split_entries_from_exits() {
    let ids = strings(&["source_1", "sink_4", "innode_2", "source_1", "sink_5", "sink_4"]);
    let (entries, exits) = zero_flow_boundary_kind_sets(&ids);
    assert_eq!(entries, strings(&["source_1"]));
    let mut exits = exits;
    exits.sort();
    assert_eq!(exits, strings(&["sink_4", "sink_5"]));
}

#[test]
fn neighbours_are_counted_once() {
    let net = hub();
    let entries = strings(&["source_1", "source_2"]);
    let exits = strings(&["sink_1", "sink_2"]);
    assert_eq!(count_mixed_zero_flow_neighbors(&net, &"innode_1".to_string(), &entries, &exits), (1, 2, true));
    assert_eq!(count_mixed_zero_flow_neighbors(&net, &"sink_2".to_string(), &entries, &exits), (0, 0, false));
    let no_entries: Vec<String> = Vec::new();
    assert_eq!(count_mixed_zero_flow_neighbors(&net, &"innode_1".to_string(), &no_entries, &exits), (0, 2, false));
}
