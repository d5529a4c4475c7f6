use gazflow::topology::{
    validate_network_incremental, validate_topology, Topology, TopologyNode, TopologyPipe,
    ValidationError,
};

fn node(id: &str, fixed: bool) -> TopologyNode {
    TopologyNode { id: id.to_string(), has_fixed_pressure: fixed }
}

fn pipe(id: &str, from: &str, to: &str) -> TopologyPipe {
    TopologyPipe { id: id.to_string(), from: from.to_string(), to: to.to_string() }
}

fn sample_valid() -> Topology {
    Topology { nodes: vec![node("S", true), node("D", false)], pipes: vec![pipe("P", "S", "D")] }
}

#[test]
fn valid_network_passes() {
    validate_topology(&sample_valid()).expect("valid");
}

#[test]
fn orphan_node_detected() {
    let mut raw = sample_valid();
    raw.nodes.push(node("ORPHAN", false));
    assert!(matches!(
        validate_topology(&raw),
        Err(ValidationError::OrphanNode { .. })
    ));
}

#[test]
fn no_slack_detected() {
    let mut raw = sample_valid();
    raw.nodes[0].has_fixed_pressure = false;
    assert_eq!(validate_topology(&raw), Err(ValidationError::NoSlack));
}

#[test]
fn empty_network_rejected() {
    let raw = Topology { nodes: vec![], pipes: vec![] };
    assert_eq!(validate_topology(&raw), Err(ValidationError::EmptyNetwork));
}

#[test]
fn unknown_pipe_endpoint_rejected() {
    let mut raw = sample_valid();
    raw.pipes.push(pipe("P2", "S", "MISSING"));
    assert!(matches!(
        validate_topology(&raw),
        Err(ValidationError::UnknownToNode { pipe_id, node_id })
        if pipe_id == "P2" && node_id == "MISSING"
    ));
}

#[test]
fn disconnected_graph_rejected() {
    let raw = Topology {
        nodes: vec![node("S1", true), node("D1", false), node("S2", true), node("D2", false)],
        pipes: vec![pipe("P1", "S1", "D1"), pipe("P2", "S2", "D2")],
    };
    assert!(matches!(
        validate_topology(&raw),
        Err(ValidationError::DisconnectedGraph { components: 2 })
    ));
}

#[test]
fn incremental_allows_orphan_nodes() {
    let mut raw = sample_valid();
    raw.nodes.push(node("ORPHAN", false));
    validate_network_incremental(&raw).expect("incremental valid");
}

#[test]
fn incremental_rejects_unknown_pipe_endpoint() {
    let mut raw = sample_valid();
    raw.pipes.push(pipe("P2", "S", "MISSING"));
    assert!(matches!(
        validate_network_incremental(&raw),
        Err(ValidationError::UnknownToNode { pipe_id, node_id })
        if pipe_id == "P2" && node_id == "MISSING"
    ));
}

#[test]
fn unknown_from_node_comes_first() {
    let mut raw = sample_valid();
    raw.pipes.push(pipe("P3", "NOWHERE", "ALSO_NOWHERE"));
    assert_eq!(
        validate_topology(&raw),
        Err(ValidationError::UnknownFromNode { pipe_id: "P3".to_string(), node_id: "NOWHERE".to_string() })
    );
}

#[test]
fn three_components_are_counted() {
    let raw = Topology {
        nodes: vec![node("A", true), node("B", false), node("C", false), node("D", false), node("E", false), node("F", false)],
        pipes: vec![pipe("1", "A", "B"), pipe("2", "C", "D"), pipe("3", "F", "E")],
    };
    assert_eq!(validate_topology(&raw), Err(ValidationError::DisconnectedGraph { components: 3 }));
}

#[test]
fn incremental_still_needs_a_slack() {
    let raw = Topology { nodes: vec![node("A", false)], pipes: vec![] };
    assert_eq!(validate_network_incremental(&raw), Err(ValidationError::NoSlack));
}

#[test]
fn accepted_network_passes_incremental_check() {
    let raw = Topology {
        nodes: vec![node("S", true), node("A", false), node("B", false)],
        pipes: vec![pipe("P1", "S", "A"), pipe("P2", "A", "B")],
    };
    assert_eq!(validate_topology(&raw), Ok(()));
    assert_eq!(validate_network_incremental(&raw), Ok(()));
}
