use gazflow::editing::{
    add_node, add_pipe, delete_node, delete_pipe, edited_topology, update_node_pressure,
    update_pipe_ends, validate_edited_network, EditError, EditNode, EditPipe, EditableNetwork,
};
use gazflow::labels::RawNodeRole;
use gazflow::topology::ValidationError;

/// Node attributes the editing logic carries along: position.
type Pos = (f64, f64);

fn sample() -> EditableNetwork<f64, Pos, f64> {
    EditableNetwork {
        nodes: vec![
            EditNode { id: "source".to_string(), role: RawNodeRole::Source, pressure_fixed_bar: Some(70.0), data: (0.0, 0.0) },
            EditNode { id: "sink".to_string(), role: RawNodeRole::Sink, pressure_fixed_bar: None, data: (1.0, 0.0) },
        ],
        pipes: vec![EditPipe { id: "p1".to_string(), from: "source".to_string(), to: "sink".to_string(), data: 10.0 }],
    }
}

fn counts(net: &EditableNetwork<f64, Pos, f64>) -> (usize, usize) {
    (net.nodes.len(), net.pipes.len())
}

#[test]
fn add_node_returns_updated_counts() {
    let mut net = sample();
    add_node(&mut net, "branch".to_string(), None, (2.0, 0.5)).expect("added");
    assert_eq!(validate_edited_network(&net), Ok(()));
    assert_eq!(counts(&net), (3, 1));
    assert_eq!(net.nodes[2].role, RawNodeRole::Innode);
}

#[test]
fn add_pipe_returns_updated_counts() {
    let mut net = sample();
    add_node(&mut net, "branch".to_string(), None, (2.0, 0.0)).expect("node");
    add_pipe(&mut net, "p2".to_string(), "source".to_string(), "branch".to_string(), 1.2).expect("pipe");
    assert_eq!(validate_edited_network(&net), Ok(()));
    assert_eq!(counts(&net), (3, 2));
}

#[test]
fn delete_node_cascades_connected_pipes() {
    let mut net = sample();
    assert_eq!(delete_node(&mut net, "sink"), Ok("sink".to_string()));
    assert_eq!(validate_edited_network(&net), Ok(()));
    assert_eq!(counts(&net), (1, 0));
}

#[test]
fn invalid_pipe_endpoint_is_rejected() {
    let mut net = sample();
    add_pipe(&mut net, "p-invalid".to_string(), "source".to_string(), "unknown".to_string(), 2.0).expect("added");
    assert_eq!(
        validate_edited_network(&net),
        Err(ValidationError::UnknownToNode { pipe_id: "p-invalid".to_string(), node_id: "unknown".to_string() })
    );
}

#[test]
fn refused_edits_leave_the_network_alone() {
    let mut net = sample();
    assert_eq!(add_node(&mut net, "  ".to_string(), None, (0.0, 0.0)), Err(EditError::EmptyNodeId));
    assert_eq!(
        add_node(&mut net, "sink".to_string(), None, (0.0, 0.0)),
        Err(EditError::NodeExists { id: "sink".to_string() })
    );
    assert_eq!(add_pipe(&mut net, "".to_string(), "a".to_string(), "b".to_string(), 1.0), Err(EditError::EmptyPipeId));
    assert_eq!(
        add_pipe(&mut net, "p1".to_string(), "a".to_string(), "b".to_string(), 1.0),
        Err(EditError::PipeExists { id: "p1".to_string() })
    );
    assert_eq!(delete_node(&mut net, "nowhere"), Err(EditError::NodeNotFound { id: "nowhere".to_string() }));
    assert_eq!(delete_pipe(&mut net, "p9"), Err(EditError::PipeNotFound { id: "p9".to_string() }));
    assert_eq!(counts(&net), (2, 1));
}

#[test]
fn edit_error_messages() {
    assert_eq!(EditError::EmptyNodeId.message(), "node id must not be empty");
    assert_eq!(EditError::NodeExists { id: "a".to_string() }.message(), "node id already exists: a");
    assert_eq!(EditError::NodeNotFound { id: "a".to_string() }.message(), "node not found: a");
    assert_eq!(EditError::EmptyPipeId.message(), "pipe id must not be empty");
    assert_eq!(EditError::PipeExists { id: "p".to_string() }.message(), "pipe id already exists: p");
    assert_eq!(EditError::PipeNotFound { id: "p".to_string() }.message(), "pipe not found: p");
}

#[test]
fn deleting_a_pipe_keeps_the_nodes() {
    let mut net = sample();
    delete_pipe(&mut net, "p1").expect("deleted");
    assert_eq!(counts(&net), (2, 0));
    assert!(matches!(validate_edited_network(&net), Ok(())));
}

#[test]
fn node_pressure_sets_the_role() {
    let mut net = sample();
    update_node_pressure(&mut net, "sink", Some(Some(50.0))).expect("updated");
    assert_eq!(net.nodes[1].role, RawNodeRole::Source);
    assert_eq!(net.nodes[1].pressure_fixed_bar, Some(50.0));
    update_node_pressure(&mut net, "source", Some(None)).expect("updated");
    assert_eq!(net.nodes[0].role, RawNodeRole::Innode);
    update_node_pressure(&mut net, "sink", None).expect("nothing to change");
    assert_eq!(net.nodes[1].pressure_fixed_bar, Some(50.0));
    assert_eq!(net.nodes[1].data, (1.0, 0.0));
    assert_eq!(
        update_node_pressure(&mut net, "x", Some(None)),
        Err(EditError::NodeNotFound { id: "x".to_string() })
    );
}

#[test]
fn pipe_ends_move_one_at_a_time() {
    let mut net = sample();
    add_node(&mut net, "branch".to_string(), None, (2.0, 0.0)).expect("node");
    update_pipe_ends(&mut net, "p1", None, Some("branch".to_string())).expect("moved");
    assert_eq!((net.pipes[0].from.as_str(), net.pipes[0].to.as_str()), ("source", "branch"));
    let t = edited_topology(&net);
    assert_eq!(t.pipes[0].to, "branch");
    assert!(t.nodes[0].has_fixed_pressure);
    assert_eq!(validate_edited_network(&net), Ok(()));
}
