use gazflow::cdf::{CdfDecision, CdfDecisionGroup, CdfElementKind, CdfElementState, CombinedDecisions, DecisionTarget, RatioBound};
use gazflow::routing::{
    apply_cdf_routing_by_id, connectivity_rank_strictly_better, connectivity_rank_worse,
    enumerate_index_combinations, first_decisions, total_combinations,
};

fn decision(id: &str) -> CdfDecision {
    CdfDecision { id: id.into(), elements: vec![] }
}

fn toy_cdf() -> CombinedDecisions {
    CombinedDecisions {
        groups: vec![
            CdfDecisionGroup { id: "g1".into(), decisions: vec![decision("a1"), decision("a2")] },
            CdfDecisionGroup { id: "g2".into(), decisions: vec![decision("b1"), decision("b2")] },
        ],
    }
}

fn target(id: &str) -> DecisionTarget<String> {
    DecisionTarget {
        id: id.to_string(),
        is_open: true,
        opening_full: None,
        ratio_max: RatioBound::Unchanged,
        has_nominal_ratio: false,
        internal_bypass_required: false,
    }
}

#[test]
fn enumerate_combinations_count() {
    let cdf = toy_cdf();
    assert_eq!(total_combinations(&cdf), 4);
    assert_eq!(enumerate_index_combinations(&cdf).len(), 4);
}

#[test]
fn connectivity_rank_helpers() {
    let baseline = (0usize, 1usize);
    let worse = (2, 5);
    let better = (0, 1);
    assert!(connectivity_rank_worse(worse, baseline));
    assert!(!connectivity_rank_strictly_better(worse, baseline));
    assert!(!connectivity_rank_strictly_better(better, baseline));
    assert!(connectivity_rank_strictly_better((0, 1), (0, 2)));
}

#[test]
fn apply_routing_by_id_requires_all_groups() {
    let mut net = vec![target("P")];
    let cdf = toy_cdf();
    let err = apply_cdf_routing_by_id(&mut net, &cdf, &vec!["a1"]).expect_err("missing group");
    assert!(err.message().contains("expected 2 decision ids"));
    assert_eq!(err.message(), "expected 2 decision ids (one per group), got 1");
}

#[test]
fn combinations_in_order_with_empty_groups() {
    let mut cdf = toy_cdf();
    cdf.groups.insert(1, CdfDecisionGroup { id: "empty".into(), decisions: vec![] });
    cdf.groups[1].decisions.clear();
    cdf.groups.push(CdfDecisionGroup { id: "g3".into(), decisions: vec![decision("c1"), decision("c2"), decision("c3")] });
    assert_eq!(total_combinations(&cdf), 12);
    let all = enumerate_index_combinations(&cdf);
    assert_eq!(all.len(), 12);
    assert_eq!(all[0], vec![0, 0, 0, 0]);
    assert_eq!(all[1], vec![0, 0, 0, 1]);
    assert_eq!(all[3], vec![0, 0, 1, 0]);
    assert_eq!(all[11], vec![1, 0, 1, 2]);
    let empty = CombinedDecisions { groups: vec![] };
    assert_eq!(enumerate_index_combinations(&empty), vec![Vec::<usize>::new()]);
    assert_eq!(total_combinations(&empty), 1);
}

#[test]
fn routing_by_id_applies_first_named_decisions() {
    let mut cdf = toy_cdf();
    cdf.groups[0].decisions[1].elements.push(CdfElementState { id: "V".into(), kind: CdfElementKind::Valve, active: false });
    let mut net = vec![target("V")];
    let choice = apply_cdf_routing_by_id(&mut net, &cdf, &vec!["a2", "b1", "zz"]).expect("routing");
    assert_eq!(choice.group_ids, vec!["g1".to_string(), "g2".to_string()]);
    assert_eq!(choice.decision_ids, vec!["a2".to_string(), "b1".to_string()]);
    assert!(!net[0].is_open);
    let firsts = first_decisions(&cdf);
    assert_eq!(firsts.iter().map(|d| d.id.as_str()).collect::<Vec<_>>(), vec!["a1", "b1"]);
}
