use gazflow::cdf::{
    apply_cdf_decision_ids, apply_cdf_decisions, parse_combined_decisions_from_str,
    select_decisions_by_id, CdfElementKind, DecisionTarget, RatioBound,
};
use gazflow::connectivity::{hydraulically_active, NetworkArc};
use gazflow::labels::ConnectionKind;

fn target(id: &str) -> DecisionTarget<String> {
    DecisionTarget {
        id: id.to_string(),
        is_open: true,
        opening_full: None,
        ratio_max: RatioBound::Unchanged,
        has_nominal_ratio: false,
        internal_bypass_required: false,
    }
}

fn arc_of(t: &DecisionTarget<String>, kind: ConnectionKind, opening_pct: f64) -> NetworkArc {
    let opening = match t.opening_full {
        Some(true) => 100.0,
        Some(false) => 0.0,
        None => opening_pct,
    };
    NetworkArc {
        id: t.id.clone(),
        from: "A".to_string(),
        to: "B".to_string(),
        kind,
        is_open: t.is_open,
        opening_positive: opening > 0.0,
    }
}

#[test]
fn test_apply_cdf_decision_closes_unused_control_valves() {
    let xml = r#"<?xml version="1.0"?>
<combinedDecisions>
  <decisionGroup id="g1">
    <decision id="d1">
      <controlValve id="CV1" value="0"/>
      <valve id="V1" value="1"/>
    </decision>
  </decisionGroup>
</combinedDecisions>"#;
    let cdf = parse_combined_decisions_from_str(xml).expect("parse");
    let mut net = vec![target("CV1"), target("V1")];
    apply_cdf_decisions(&mut net, &vec![&cdf.groups[0].decisions[0]]);
    let cv = net.iter().find(|p| p.id == "CV1").expect("cv");
    assert!(!hydraulically_active(&arc_of(cv, ConnectionKind::ControlValve, 100.0)));
    let valve = net.iter().find(|p| p.id == "V1").expect("valve");
    assert!(valve.is_open);
}

#[test]
fn parse_reads_groups_decisions_and_elements() {
    let xml = r#"<cdf:combinedDecisions xmlns:cdf="x">
  <cdf:decisionGroup id="g1">
    <cdf:decision id="d1">
      <cdf:compressorStation id="CS1" value="1"/>
      <cdf:valve id="V1" value="abc"/>
    </cdf:decision>
    <cdf:decision id="d2"><cdf:valve id="V2" value="-3"/></cdf:decision>
  </cdf:decisionGroup>
  <DecisionGroup id="g2"><Decision id="d1_1"/></DecisionGroup>
</cdf:combinedDecisions>"#;
    let cdf = parse_combined_decisions_from_str(xml).expect("parse");
    assert_eq!(cdf.groups.len(), 2);
    assert_eq!(cdf.groups[0].id, "g1");
    assert_eq!(cdf.groups[0].decisions.len(), 2);
    let d1 = &cdf.groups[0].decisions[0];
    assert_eq!(d1.id, "d1");
    assert_eq!(d1.elements.len(), 2);
    assert_eq!(d1.elements[0].kind, CdfElementKind::CompressorStation);
    assert!(d1.elements[0].active);
    assert!(!d1.elements[1].active);
    assert!(cdf.groups[0].decisions[1].elements[0].active);
    // An empty-element decision is never closed, so it is not added to its group.
    assert_eq!(cdf.groups[1].id, "g2");
    assert_eq!(cdf.groups[1].decisions.len(), 0);
}

#[test]
fn parse_reports_xml_errors() {
    assert!(parse_combined_decisions_from_str("<a></b>").is_err());
}

#[test]
fn selection_takes_the_last_decision_of_each_name() {
    let xml = r#"<c>
  <decisionGroup id="g1"><decision id="d"><valve id="V" value="1"/></decision></decisionGroup>
  <decisionGroup id="g2"><decision id="d"><valve id="V" value="0"/></decision></decisionGroup>
</c>"#;
    let cdf = parse_combined_decisions_from_str(xml).expect("parse");
    let chosen = select_decisions_by_id(&cdf, &vec!["missing", "d"]);
    assert_eq!(chosen.len(), 1);
    assert!(!chosen[0].elements[0].active);
    let mut net = vec![target("V")];
    apply_cdf_decision_ids(&cdf, &mut net, &vec!["d"]);
    assert!(!net[0].is_open);
}

#[test]
fn compressor_station_states() {
    let xml = r#"<c><decisionGroup id="g"><decision id="on"><compressorStation id="CS" value="1"/></decision>
<decision id="off"><compressorStation id="CS" value="0"/></decision></decisionGroup></c>"#;
    let cdf = parse_combined_decisions_from_str(xml).expect("parse");
    let mut with_nominal = vec![DecisionTarget { has_nominal_ratio: true, is_open: false, ..target("CS") }];
    apply_cdf_decision_ids(&cdf, &mut with_nominal, &vec!["on"]);
    assert!(with_nominal[0].is_open);
    assert_eq!(with_nominal[0].ratio_max, RatioBound::Nominal);

    let mut bypass = vec![DecisionTarget { internal_bypass_required: true, ..target("CS") }];
    apply_cdf_decision_ids(&cdf, &mut bypass, &vec!["off"]);
    assert!(bypass[0].is_open);
    assert_eq!(bypass[0].ratio_max, RatioBound::One);

    let mut plain = vec![target("CS")];
    apply_cdf_decision_ids(&cdf, &mut plain, &vec!["off"]);
    assert!(!plain[0].is_open);
    assert_eq!(plain[0].ratio_max, RatioBound::Unchanged);
}

#[test]
fn only_the_first_target_of_a_name_changes() {
    let xml = r#"<c><decisionGroup id="g"><decision id="d"><valve id="V" value="0"/></decision></decisionGroup></c>"#;
    let cdf = parse_combined_decisions_from_str(xml).expect("parse");
    let mut net = vec![target("X"), target("V"), target("V")];
    apply_cdf_decision_ids(&cdf, &mut net, &vec!["d"]);
    assert!(net[0].is_open);
    assert!(!net[1].is_open);
    assert!(net[2].is_open);
}
