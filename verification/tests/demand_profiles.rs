use std::collections::HashMap;

use gazflow::demand_profiles::{
    parse_category, parse_demand_profiles_csv, preset_max_heating_m3h, ClientCategory,
    DemandProfileRow, MaxHeating,
};
use gazflow::import_error::{Column, ImportError};

/// A profile as the demand model holds it, rebuilt from a row.
struct Profile {
    category: Option<ClientCategory>,
    q0_m3h: f64,
    alpha_m3h_per_c: f64,
    max_heating_m3h: Option<f64>,
}

fn profile_of(row: &DemandProfileRow<String>) -> Profile {
    Profile {
        category: row.category,
        q0_m3h: row.q0_m3h.parse().unwrap(),
        alpha_m3h_per_c: row.alpha_m3h_per_c.parse().unwrap(),
        max_heating_m3h: match &row.max_heating_m3h {
            MaxHeating::Given(s) => Some(s.parse().unwrap()),
            MaxHeating::Preset(c) => preset_max_heating_m3h(*c).map(f64::from),
            MaxHeating::Unset => None,
        },
    }
}

fn parse(csv: &str) -> Result<HashMap<String, Profile>, ImportError<String>> {
    let rows = parse_demand_profiles_csv(csv)?;
    Ok(rows.iter().map(|r| (r.node_id.clone(), profile_of(r))).collect())
}

#[test]
fn test_category_preset_keeps_max_heating_without_csv_column() {
    let csv = "node_id,category,q0_m3h,alpha_m3h_per_c,t_threshold_c\nPL1,tertiary,50,2.5,17\n";
    let profiles = parse(csv).expect("parse");
    assert_eq!(profiles["PL1"].max_heating_m3h, Some(120.0));
}

#[test]
fn test_parse_inline_csv() {
    let csv = "node_id,category,q0_m3h,alpha_m3h_per_c,t_threshold_c\nSK,residential,10,5,17\n";
    let profiles = parse(csv).expect("parse");
    assert_eq!(profiles.len(), 1);
    assert!((profiles["SK"].q0_m3h - 10.0).abs() < 1e-9);
    assert_eq!(profiles["SK"].max_heating_m3h, Some(220.0));
}

#[test]
fn test_generic_pl_category_does_not_assume_residential() {
    let csv = "node_id,category,q0_m3h,alpha_m3h_per_c,t_threshold_c\nPL1,pl,50,2.5,17\n";
    let profiles = parse(csv).expect("parse");
    let p = &profiles["PL1"];
    assert_eq!(p.category, None);
    assert_eq!(p.max_heating_m3h, None);
    assert!((p.q0_m3h - 50.0).abs() < 1e-9);
}

#[test]
fn test_pl_residentiel_alias() {
    let csv =
        "node_id,category,q0_m3h,alpha_m3h_per_c,t_threshold_c\nPL1,pl_residentiel,50,2.5,17\n";
    let profiles = parse(csv).expect("parse");
    assert_eq!(profiles["PL1"].category, Some(ClientCategory::Residential));
    assert_eq!(profiles["PL1"].max_heating_m3h, Some(220.0));
}

#[test]
fn test_unknown_category_is_rejected() {
    let csv =
        "node_id,category,q0_m3h,alpha_m3h_per_c,t_threshold_c\nPL1,residensial,50,2.5,17\n";
    let err = parse_demand_profiles_csv(csv).unwrap_err();
    assert!(err.message().contains("unknown demand profile category"));
}

#[test]
fn test_blank_max_heating_cell_uses_category_preset() {
    let csv = "node_id,category,q0_m3h,alpha_m3h_per_c,t_threshold_c,max_heating_m3h\n\
PL1,residential,50,2.5,17,\nPL2,tertiary,60,3,17,90\n";
    let profiles = parse(csv).expect("parse");
    assert_eq!(profiles["PL1"].max_heating_m3h, Some(220.0));
    assert_eq!(profiles["PL2"].max_heating_m3h, Some(90.0));
}

#[test]
fn duplicate_node_is_rejected() {
    let csv = "node_id,category,q0_m3h,alpha_m3h_per_c,t_threshold_c\nA,pl,1,1,17\nA,pl,2,1,17\n";
    let err = parse_demand_profiles_csv(csv).unwrap_err();
    assert_eq!(err, ImportError::DuplicateNodeId { node_id: "A".to_string() });
    assert_eq!(err.message(), "duplicate node_id in demand profiles: A");
}

#[test]
fn missing_column_names_its_aliases() {
    let csv = "node_id,category,q0_m3h,t_threshold_c\nA,pl,1,17\n";
    let err = parse_demand_profiles_csv(csv).unwrap_err();
    assert_eq!(err, ImportError::MissingColumn { column: Column::Alpha });
    assert_eq!(err.message(), "missing CSV column (expected one of: alpha_m3h_per_c, alpha, gradient)");
}

#[test]
fn invalid_number_is_reported_by_field() {
    let csv = "node_id,category,q0_m3h,alpha_m3h_per_c,t_threshold_c\nA,pl,abc,1,17\n";
    let err = parse_demand_profiles_csv(csv).unwrap_err();
    assert_eq!(err, ImportError::InvalidNumber { column: Column::Q0, text: "abc".to_string() });
    assert_eq!(err.message(), "q0_m3h");
}

#[test]
fn blank_field_is_missing() {
    let csv = "node_id,category,q0_m3h,alpha_m3h_per_c,t_threshold_c\nA,pl,1,  ,17\n";
    let err = parse_demand_profiles_csv(csv).unwrap_err();
    assert_eq!(err, ImportError::MissingField { column: Column::Alpha });
    assert_eq!(err.message(), "missing field alpha");
}

#[test]
fn header_aliases_and_trimmed_values() {
    let csv = " Node ,TYPE,q0,gradient,t_seuil,q_chauff_max\n n1 , Industriel ,1e1,-2.5, 17 ,\n";
    let rows = parse_demand_profiles_csv(csv).expect("parse");
    assert_eq!(rows.len(), 1);
    assert_eq!(rows[0].node_id, "n1");
    assert_eq!(rows[0].category, Some(ClientCategory::Industrial));
    let p = profile_of(&rows[0]);
    assert_eq!(p.q0_m3h, 10.0);
    assert_eq!(p.alpha_m3h_per_c, -2.5);
    assert_eq!(rows[0].max_heating_m3h, MaxHeating::Preset(ClientCategory::Industrial));
}

#[test]
fn category_aliases() {
    assert_eq!(parse_category(" Résidentiel "), Ok(Some(ClientCategory::Residential)));
    assert_eq!(parse_category("TER_PL"), Ok(Some(ClientCategory::Tertiary)));
    assert_eq!(parse_category(""), Ok(None));
    assert_eq!(parse_category("Foo"), Err("foo".to_string()));
}

#[test]
fn presets_of_categories() {
    assert_eq!(preset_max_heating_m3h(ClientCategory::Residential), Some(220));
    assert_eq!(preset_max_heating_m3h(ClientCategory::Tertiary), Some(120));
    assert_eq!(preset_max_heating_m3h(ClientCategory::Industrial), None);
}

#[test]
fn accepted_profiles_are_keyed_by_node() {
    let csv = "node_id,category,q0_m3h,alpha_m3h_per_c,t_threshold_c\nN1,residentiel,10,1,16\nN2,tertiaire,5,0.5,15\nN3,custom,1,0,15\n";
    let rows = parse_demand_profiles_csv(csv).expect("parse");
    let ids: Vec<&str> = rows.iter().map(|r| r.node_id.as_str()).collect();
    assert_eq!(ids, vec!["N1", "N2", "N3"]);
    for (i, r) in rows.iter().enumerate() {
        for s in &rows[i + 1..] {
            assert_ne!(r.node_id, s.node_id);
        }
    }
}
