use gazflow::diff::{
    apply_entity_diff, apply_snapshot_diff, compute_entity_diff, compute_snapshot_diff, validate_entity_diff, EntityDiff,
    NetworkSnapshot,
};

#[derive(Debug, Clone, PartialEq)]
struct Node {
    x: f64,
    fixed: Option<f64>,
}

fn node(x: f64, fixed: Option<f64>) -> Node {
    Node { x, fixed }
}

fn keyed(v: Vec<(&str, Node)>) -> Vec<(String, Node)> {
    v.into_iter().map(|(k, n)| (k.to_string(), n)).collect()
}

fn owned(v: Vec<&(String, Node)>) -> Vec<(String, Node)> {
    v.into_iter().cloned().collect()
}

fn is_empty<T>(d: &EntityDiff<T>) -> bool {
    d.added.is_empty() && d.updated.is_empty() && d.removed.is_empty()
}

#[test]
fn test_scenario_diff_roundtrip() {
    let base = keyed(vec![("A", node(0.0, Some(70.0))), ("B", node(1.0, None))]);
    let variant = keyed(vec![("A", node(0.0, Some(70.0))), ("B", node(1.5, None)), ("C", node(2.0, None))]);

    let diff = compute_entity_diff(&base, &variant);
    assert!(validate_entity_diff(&diff).is_none(), "valid diff");

    let restored = owned(apply_entity_diff(&base, &diff));
    let roundtrip_diff = compute_entity_diff(&variant, &restored);
    assert!(is_empty(&roundtrip_diff), "roundtrip should match variant: {roundtrip_diff:?}");
    assert_eq!(restored, variant);
}

#[test]
fn diff_classifies_entities() {
    let base = keyed(vec![("B", node(1.0, None)), ("A", node(0.0, None)), ("Z", node(9.0, None)), ("M", node(3.0, None))]);
    let variant = keyed(vec![("A", node(0.0, None)), ("B", node(2.0, None)), ("N", node(4.0, None))]);
    let diff = compute_entity_diff(&base, &variant);
    assert_eq!(diff.added.len(), 1);
    assert_eq!(diff.added[0].0, "N");
    assert_eq!(diff.updated.len(), 1);
    assert_eq!(diff.updated[0].0, "B");
    assert_eq!(diff.removed, vec!["M".to_string(), "Z".to_string()]);
    let applied = owned(apply_entity_diff(&base, &diff));
    let ids: Vec<&str> = applied.iter().map(|(k, _)| k.as_str()).collect();
    assert_eq!(ids, vec!["A", "B", "N"]);
    assert_eq!(applied[1].1, node(2.0, None));
}

#[test]
fn later_entries_of_an_identifier_win() {
    let base = keyed(vec![("A", node(1.0, None)), ("A", node(2.0, None))]);
    let variant = keyed(vec![("A", node(2.0, None))]);
    assert!(is_empty(&compute_entity_diff(&base, &variant)));
}

#[test]
fn validate_reports_repeated_identifiers() {
    let base = keyed(vec![("A", node(1.0, None))]);
    let variant = keyed(vec![("A", node(2.0, None)), ("B", node(1.0, None))]);
    let mut diff = compute_entity_diff(&base, &variant);
    assert!(validate_entity_diff(&diff).is_none());
    diff.removed.push("B".to_string());
    assert_eq!(validate_entity_diff(&diff), Some("B".to_string()));
}

#[test]
fn computed_diff_names_each_identifier_once() {
    let base = keyed(vec![("A", node(0.0, None)), ("B", node(1.0, None)), ("D", node(3.0, None))]);
    let variant = keyed(vec![("B", node(1.5, None)), ("C", node(2.0, None)), ("D", node(3.0, None))]);
    let diff = compute_entity_diff(&base, &variant);
    assert_eq!(diff.added.len(), 1);
    assert_eq!(diff.updated.len(), 1);
    assert_eq!(diff.removed, vec!["A".to_string()]);
    assert_eq!(validate_entity_diff(&diff), None);
}

#[test]
fn whole_network_diff_roundtrip() {
    let e = |id: &str, v: i32| (id.to_string(), v);
    let base = NetworkSnapshot { nodes: vec![e("A", 1), e("B", 2), e("C", 3)], pipes: vec![e("P1", 10), e("P2", 20)] };
    let variant = NetworkSnapshot { nodes: vec![e("A", 1), e("B", 5), e("D", 4)], pipes: vec![e("P2", 20), e("P3", 30)] };
    let d = compute_snapshot_diff(&base, &variant);
    assert_eq!(d.nodes.added.len() + d.nodes.updated.len() + d.nodes.removed.len(), 3);
    assert_eq!(d.pipes.removed, vec!["P1".to_string()]);
    let (nodes, pipes) = apply_snapshot_diff(&base, &d);
    let nodes: Vec<(String, i32)> = nodes.into_iter().cloned().collect();
    let pipes: Vec<(String, i32)> = pipes.into_iter().cloned().collect();
    assert_eq!(nodes, vec![e("A", 1), e("B", 5), e("D", 4)]);
    assert_eq!(pipes, vec![e("P2", 20), e("P3", 30)]);
    let result = NetworkSnapshot { nodes, pipes };
    let again = compute_snapshot_diff(&variant, &result);
    assert!(again.nodes.added.is_empty() && again.nodes.updated.is_empty() && again.nodes.removed.is_empty());
    assert!(again.pipes.added.is_empty() && again.pipes.updated.is_empty() && again.pipes.removed.is_empty());
}
