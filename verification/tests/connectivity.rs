use gazflow::connectivity::{hydraulically_active, routing_supports_demands, NetworkArc, NetworkTopology};
use gazflow::labels::ConnectionKind;

fn arc(id: &str, from: &str, to: &str, kind: ConnectionKind, is_open: bool) -> NetworkArc {
    NetworkArc {
        id: id.to_string(),
        from: from.to_string(),
        to: to.to_string(),
        kind,
        is_open,
        opening_positive: true,
    }
}

fn net(arcs: Vec<NetworkArc>) -> NetworkTopology {
    NetworkTopology {
        node_ids: vec!["A".to_string(), "B".to_string(), "C".to_string()],
        fixed_pressure: vec![false, false, false],
        arcs,
    }
}

fn ids(v: &[&str]) -> Vec<String> {
    v.iter().map(|s| s.to_string()).collect()
}

#[test]
fn disconnected_active_subgraph_rejected() {
    let n = net(vec![
        arc("P1", "A", "B", ConnectionKind::Pipe, true),
        arc("P2", "C", "C", ConnectionKind::Valve, false),
    ]);
    assert!(!routing_supports_demands(&n, &ids(&["A", "C"])));
}

#[test]
fn connected_subgraph_accepted() {
    let n = net(vec![
        arc("P1", "A", "B", ConnectionKind::Pipe, true),
        arc("P2", "B", "C", ConnectionKind::Pipe, true),
    ]);
    assert!(routing_supports_demands(&n, &ids(&["A", "C"])));
}

#[test]
fn nothing_required_is_supported() {
    let n = net(vec![]);
    assert!(routing_supports_demands(&n, &ids(&[])));
}

#[test]
fn shut_control_valve_is_inactive() {
    let mut cv = arc("CV", "A", "B", ConnectionKind::ControlValve, true);
    cv.opening_positive = false;
    assert!(!hydraulically_active(&cv));
    let n = net(vec![cv, arc("P2", "B", "C", ConnectionKind::Pipe, true)]);
    assert!(!routing_supports_demands(&n, &ids(&["A", "C"])));
}

#[test]
fn fixed_pressure_nodes_are_required() {
    let mut n = net(vec![arc("P1", "A", "B", ConnectionKind::Pipe, true)]);
    n.fixed_pressure = vec![false, false, true];
    assert!(!routing_supports_demands(&n, &ids(&["A"])));
}
