use gazflow::anchors::{
    all_applied_anchor_ids, apply_scenario_boundaries, demands_without_pressure_slack,
    detect_balance_hubs_for_network, effective_solver_demands, BoundaryNode, detect_boundary_spine_anchors,
    detect_exit_hub_junction_anchor, detect_junction_balance_anchors,
    enrich_scenario_with_balance_hub, resolve_anchor_pressure_bar, try_add_mass_balance_anchor,
    try_relax_contract_boundary, AnchorNode, BalanceCandidate, PressureSlackHint,
    ScenarioAnchors, ZeroFlowBoundaryAnchor, PressureEnvelope, apply_scenario_pressure_floor_anchors,
};
use gazflow::connectivity::NetworkArc;
use gazflow::labels::ConnectionKind;

fn arc(from: &str, to: &str) -> NetworkArc {
    NetworkArc {
        id: format!("{from}-{to}"),
        from: from.to_string(),
        to: to.to_string(),
        kind: ConnectionKind::Pipe,
        is_open: true,
        opening_positive: true,
    }
}

fn node(id: &str, lower_bar: Option<f64>) -> AnchorNode<f64> {
    AnchorNode { id: id.to_string(), fixed_pressure: false, carries_demand: false, lower_bar }
}

fn hint(id: &str, p: f64) -> PressureSlackHint<f64> {
    PressureSlackHint { node_id: id.to_string(), pressure_bar: p }
}

fn zero_flow(id: &str, p: Option<f64>) -> ZeroFlowBoundaryAnchor<f64> {
    ZeroFlowBoundaryAnchor { node_id: id.to_string(), scenario_pressure_bar: p }
}

fn empty_anchors() -> ScenarioAnchors<f64> {
    ScenarioAnchors {
        pressure_slack: None,
        balance_hubs: Vec::new(),
        junction_anchors: Vec::new(),
        boundary_spine_anchors: Vec::new(),
        mass_balance_anchors: Vec::new(),
        zero_flow_boundary_anchors: Vec::new(),
        contract_flow_relaxed: Vec::new(),
        contract_pressure_anchors: Vec::new(),
    }
}

fn ids(v: &[PressureSlackHint<f64>]) -> Vec<(String, f64)> {
    v.iter().map(|h| (h.node_id.clone(), h.pressure_bar)).collect()
}

fn pairs(v: &[(&str, f64)]) -> Vec<(String, f64)> {
    v.iter().map(|(s, p)| (s.to_string(), *p)).collect()
}

fn network() -> Vec<NetworkArc> {
    vec![
        arc("innode_1", "sink_1"),
        arc("innode_1", "sink_2"),
        arc("innode_1", "source_1"),
        arc("innode_1", "source_2"),
        arc("innode_1", "innode_2"),
        arc("innode_2", "sink_3"),
        arc("innode_2", "sink_4"),
        arc("innode_2", "innode_3"),
        arc("source_1", "sink_1"),
        arc("source_1", "sink_2"),
        arc("source_1", "innode_3"),
    ]
}

fn nodes() -> Vec<AnchorNode<f64>> {
    vec![
        node("innode_1", Some(60.0)),
        node("innode_2", Some(61.0)),
        node("innode_3", None),
        node("sink_2", Some(42.0)),
        node("sink_3", None),
    ]
}

fn scenario() -> ScenarioAnchors<f64> {
    let mut a = empty_anchors();
    a.pressure_slack = Some(hint("sink_4", 30.0));
    a.zero_flow_boundary_anchors = vec![
        zero_flow("sink_1", Some(40.0)),
        zero_flow("sink_2", None),
        zero_flow("sink_3", None),
        zero_flow("sink_4", Some(30.0)),
        zero_flow("source_1", Some(50.0)),
        zero_flow("source_2", None),
    ];
    a
}

#[test]
fn anchor_pressure_prefers_the_scenario_bound() {
    let nodes = nodes();
    assert_eq!(resolve_anchor_pressure_bar(&nodes, "sink_2", Some(1.0)), Some(1.0));
    assert_eq!(resolve_anchor_pressure_bar(&nodes, "sink_2", None), Some(42.0));
    assert_eq!(resolve_anchor_pressure_bar(&nodes, "sink_3", None), None);
    assert_eq!(resolve_anchor_pressure_bar(&nodes, "nowhere", None), None);
}

#[test]
fn applied_anchor_ids_cover_every_list() {
    let mut a = scenario();
    a.balance_hubs = vec![hint("h", 1.0)];
    a.junction_anchors = vec![hint("j", 1.0)];
    a.boundary_spine_anchors = vec![hint("s", 1.0)];
    a.mass_balance_anchors = vec![hint("m", 1.0)];
    a.contract_pressure_anchors = vec![hint("c", 1.0)];
    a.contract_flow_relaxed = vec!["r".to_string()];
    let mut got = all_applied_anchor_ids(&a);
    got.sort();
    assert_eq!(got, vec!["c", "h", "j", "m", "s", "sink_4"]);
}

#[test]
fn balance_hubs_are_the_most_connected_boundaries() {
    let hubs = detect_balance_hubs_for_network(&network(), &nodes(), &scenario(), 2);
    assert_eq!(ids(&hubs), pairs(&[("source_1", 50.0), ("sink_1", 40.0)]));
    let one = detect_balance_hubs_for_network(&network(), &nodes(), &scenario(), 0);
    assert_eq!(ids(&one), pairs(&[("source_1", 50.0)]));
    let all = detect_balance_hubs_for_network(&network(), &nodes(), &scenario(), 10);
    assert_eq!(ids(&all), pairs(&[("source_1", 50.0), ("sink_1", 40.0), ("sink_2", 42.0)]));
}

#[test]
fn spine_anchor_needs_degree_and_zero_flow_neighbours() {
    let spines = detect_boundary_spine_anchors(&network(), &nodes(), &scenario(), 1);
    assert_eq!(ids(&spines), pairs(&[("source_1", 50.0)]));
    let mut a = scenario();
    a.balance_hubs = vec![hint("source_1", 50.0)];
    assert!(detect_boundary_spine_anchors(&network(), &nodes(), &a, 1).is_empty());
}

#[test]
fn junction_anchors_prefer_mixed_neighbourhoods() {
    let junctions = detect_junction_balance_anchors(&network(), &nodes(), &scenario(), 2);
    assert_eq!(ids(&junctions), pairs(&[("innode_1", 60.0), ("innode_2", 61.0)]));
    let first = detect_junction_balance_anchors(&network(), &nodes(), &scenario(), 1);
    assert_eq!(ids(&first), pairs(&[("innode_1", 60.0)]));
}

#[test]
fn exit_hub_is_next_to_exits_only() {
    let hub = detect_exit_hub_junction_anchor(&network(), &nodes(), &scenario()).expect("exit hub");
    assert_eq!((hub.node_id.as_str(), hub.pressure_bar), ("innode_2", 61.0));
    let mut a = scenario();
    a.junction_anchors = vec![hint("innode_2", 61.0)];
    assert!(detect_exit_hub_junction_anchor(&network(), &nodes(), &a).is_none());
}

#[test]
fn enrichment_chooses_hubs_spines_and_junctions_in_turn() {
    let mut a = scenario();
    enrich_scenario_with_balance_hub(&network(), &nodes(), &mut a, false);
    assert_eq!(ids(&a.balance_hubs), pairs(&[("source_1", 50.0), ("sink_1", 40.0)]));
    assert!(a.boundary_spine_anchors.is_empty());
    assert_eq!(ids(&a.junction_anchors), pairs(&[("innode_1", 60.0), ("innode_2", 61.0)]));
}

#[test]
fn minimal_anchors_skip_enrichment() {
    let mut a = scenario();
    enrich_scenario_with_balance_hub(&network(), &nodes(), &mut a, true);
    assert!(a.balance_hubs.is_empty());
    assert!(a.junction_anchors.is_empty());
    assert!(a.boundary_spine_anchors.is_empty());
}

#[test]
fn mass_balance_anchor_goes_to_the_first_free_junction() {
    let mut a = scenario();
    let cands = vec![
        BalanceCandidate { node_id: "sink_9".to_string(), significant: true, solved_pressure: Some(10.0) },
        BalanceCandidate { node_id: "innode_1".to_string(), significant: false, solved_pressure: Some(20.0) },
        BalanceCandidate { node_id: "innode_3".to_string(), significant: true, solved_pressure: None },
        BalanceCandidate { node_id: "innode_2".to_string(), significant: true, solved_pressure: None },
        BalanceCandidate { node_id: "innode_1".to_string(), significant: true, solved_pressure: Some(20.0) },
    ];
    assert!(try_add_mass_balance_anchor(&network(), &nodes(), &mut a, &cands));
    assert_eq!(ids(&a.mass_balance_anchors), pairs(&[("innode_2", 61.0)]));
    assert!(try_add_mass_balance_anchor(&network(), &nodes(), &mut a, &cands));
    assert_eq!(ids(&a.mass_balance_anchors), pairs(&[("innode_2", 61.0), ("innode_1", 20.0)]));
    assert!(!try_add_mass_balance_anchor(&network(), &nodes(), &mut a, &cands));
}

fn relax_candidate(id: &str, imbalance: f64, pressure: Option<f64>) -> BalanceCandidate<f64> {
    BalanceCandidate {
        node_id: id.to_string(),
        significant: imbalance.abs() >= 1.5,
        solved_pressure: pressure.filter(|p| p.is_finite() && *p > 0.0),
    }
}

#[test]
fn test_try_relax_contract_boundary() {
    let mut scenario = empty_anchors();
    scenario.pressure_slack = Some(hint("sink_109", 51.0));
    let imbalances = vec![relax_candidate("sink_24", -2.0, Some(45.0))];
    assert!(try_relax_contract_boundary(&mut scenario, &imbalances, true, false));
    assert_eq!(scenario.contract_flow_relaxed, vec!["sink_24"]);
    assert!(scenario.contract_pressure_anchors.is_empty());
}

#[test]
fn test_try_relax_contract_boundary_respects_enable_flag() {
    let mut scenario = empty_anchors();
    let imbalances = vec![relax_candidate("sink_24", -2.0, Some(45.0))];
    assert!(!try_relax_contract_boundary(&mut scenario, &imbalances, false, false));
    assert!(scenario.contract_flow_relaxed.is_empty());
}

#[test]
fn relaxation_takes_three_boundaries_per_pass() {
    let mut scenario = empty_anchors();
    scenario.pressure_slack = Some(hint("sink_1", 51.0));
    scenario.contract_flow_relaxed = vec!["sink_2".to_string()];
    let imbalances = vec![
        relax_candidate("sink_1", 9.0, Some(40.0)),
        relax_candidate("sink_2", 9.0, Some(40.0)),
        relax_candidate("innode_5", 9.0, Some(40.0)),
        relax_candidate("sink_3", 1.0, Some(40.0)),
        relax_candidate("sink_4", -3.0, Some(44.0)),
        relax_candidate("source_5", 2.0, None),
        relax_candidate("sink_4", 3.0, Some(44.0)),
        relax_candidate("sink_6", 5.0, Some(46.0)),
        relax_candidate("sink_7", 5.0, Some(47.0)),
    ];
    assert!(try_relax_contract_boundary(&mut scenario, &imbalances, true, true));
    assert_eq!(scenario.contract_flow_relaxed, vec!["sink_2", "sink_4", "source_5", "sink_6"]);
    assert_eq!(ids(&scenario.contract_pressure_anchors), pairs(&[("sink_4", 44.0), ("sink_6", 46.0)]));
}

fn bnode(id: &str, fixed: Option<f64>) -> BoundaryNode<f64> {
    BoundaryNode { id: id.to_string(), pressure_fixed_bar: fixed }
}

fn fixed_of(nodes: &[BoundaryNode<f64>]) -> Vec<(String, Option<f64>)> {
    nodes.iter().map(|n| (n.id.clone(), n.pressure_fixed_bar)).collect()
}

#[test]
fn test_apply_scenario_boundaries_sets_slack() {
    let mut net = vec![bnode("sink_109", None)];
    let mut scenario = empty_anchors();
    scenario.pressure_slack = Some(hint("sink_109", 51.01325));
    apply_scenario_boundaries(&mut net, &scenario);
    let fixed = net.iter().find(|n| n.id == "sink_109").and_then(|n| n.pressure_fixed_bar);
    assert_eq!(fixed, Some(51.01325));
}

#[test]
fn boundaries_keep_imposed_pressures() {
    let mut net = vec![bnode("a", None), bnode("b", Some(70.0)), bnode("c", None), bnode("a", None)];
    let mut scenario = empty_anchors();
    scenario.pressure_slack = Some(hint("c", 51.0));
    scenario.balance_hubs = vec![hint("a", 40.0), hint("b", 41.0)];
    scenario.junction_anchors = vec![hint("a", 42.0), hint("zz", 43.0)];
    scenario.contract_pressure_anchors = vec![hint("c", 44.0)];
    apply_scenario_boundaries(&mut net, &scenario);
    assert_eq!(
        fixed_of(&net),
        vec![
            ("a".to_string(), None),
            ("b".to_string(), Some(70.0)),
            ("c".to_string(), Some(44.0)),
            ("a".to_string(), Some(40.0)),
        ]
    );
}

#[test]
fn test_demands_without_pressure_slack() {
    let demands = vec![("sink_109".to_string(), -255.0)];
    let mut scenario = empty_anchors();
    scenario.pressure_slack = Some(hint("sink_109", 51.01325));
    let adjusted = effective_solver_demands(&demands, &scenario);
    assert!(!adjusted.iter().any(|(id, _)| id == "sink_109"));
}

#[test]
fn test_effective_solver_demands_contract_relaxed() {
    let demands = vec![("sink_24".to_string(), -5.0)];
    let mut scenario = empty_anchors();
    scenario.contract_flow_relaxed = vec!["sink_24".to_string()];
    let adjusted = effective_solver_demands(&demands, &scenario);
    assert!(!adjusted.iter().any(|(id, _)| id == "sink_24"));
}

#[test]
fn solver_demands_keep_the_others_in_order() {
    let demands = vec![
        ("source_1".to_string(), 10.0),
        ("sink_1".to_string(), -3.0),
        ("sink_2".to_string(), -4.0),
        ("sink_3".to_string(), -3.0),
    ];
    let mut scenario = empty_anchors();
    scenario.pressure_slack = Some(hint("sink_2", 50.0));
    scenario.contract_flow_relaxed = vec!["sink_3".to_string()];
    let adjusted = demands_without_pressure_slack(&demands, &scenario);
    assert_eq!(adjusted, vec![("source_1".to_string(), 10.0), ("sink_1".to_string(), -3.0)]);
}

fn envelope(id: &str, lower: Option<f64>) -> PressureEnvelope<f64> {
    PressureEnvelope { node_id: id.to_string(), lower_bar: lower, upper_bar: Some(80.0) }
}

#[test]
fn floor_anchors_fix_free_nodes_at_their_lower_bound() {
    let mut scenario = empty_anchors();
    scenario.balance_hubs.push(hint("hub", 41.0));
    let envelopes = vec![
        envelope("a", Some(40.0)),
        envelope("hub", Some(45.0)),
        envelope("b", None),
        envelope("c", Some(50.0)),
        envelope("a", Some(60.0)),
    ];
    let start = vec![bnode("a", None), bnode("hub", None), bnode("b", None), bnode("c", Some(55.0))];
    let mut nodes = start.iter().map(|n| bnode(&n.id, n.pressure_fixed_bar)).collect::<Vec<_>>();
    apply_scenario_pressure_floor_anchors(&mut nodes, &envelopes, &scenario, true);
    assert_eq!(
        fixed_of(&nodes),
        vec![
            ("a".to_string(), Some(40.0)),
            ("hub".to_string(), None),
            ("b".to_string(), None),
            ("c".to_string(), Some(55.0)),
        ]
    );
    let mut untouched = start.iter().map(|n| bnode(&n.id, n.pressure_fixed_bar)).collect::<Vec<_>>();
    apply_scenario_pressure_floor_anchors(&mut untouched, &envelopes, &scenario, false);
    assert_eq!(fixed_of(&untouched), fixed_of(&start));
}
