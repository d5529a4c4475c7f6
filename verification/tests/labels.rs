use gazflow::labels::CompressorMapMode as MapMode;
use gazflow::labels::{
    map_mode_response, parse_measurement_type, raw_node_role_label, CompressorMapMode,
    ConnectionKind, MeasurementType, RawNodeRole,
};
use gazflow::mapping::{parse_role, NodeMapping};

#[test]
fn map_mode_parse_rejects_unknown() {
    assert!(MapMode::parse_api("turbo").is_none());
    assert_eq!(
        MapMode::parse_api("measurement"),
        Some(CompressorMapMode::Measurement)
    );
}

#[test]
fn french_sig_role_aliases() {
    assert_eq!(RawNodeRole::from_label("PDL"), RawNodeRole::Sink);
    assert_eq!(RawNodeRole::from_label("poste_alim"), RawNodeRole::Source);
    assert_eq!(RawNodeRole::from_label("JONC"), RawNodeRole::Innode);
}

#[test]
fn connection_kind_from_french_labels() {
    assert_eq!(
        ConnectionKind::from_label("detendeur"),
        ConnectionKind::PressureRegulator
    );
    assert_eq!(
        ConnectionKind::from_label("poste_livraison"),
        ConnectionKind::DeliveryStation
    );
    assert_eq!(
        ConnectionKind::from_label("vanne_cv"),
        ConnectionKind::ControlValve
    );
}

#[test]
fn map_mode_label_reads_back() {
    for m in [CompressorMapMode::Legacy, CompressorMapMode::Measurement, CompressorMapMode::Biquadratic] {
        assert_eq!(MapMode::parse_api(m.api_label()), Some(m));
    }
    assert_eq!(MapMode::parse_api("  BIQUADRATIC "), Some(CompressorMapMode::Biquadratic));
    assert_eq!(map_mode_response(CompressorMapMode::Legacy), CompressorMapMode::Legacy.api_label());
}

#[test]
fn node_role_labels_and_fallback() {
    assert_eq!(RawNodeRole::from_label("SOURCE"), RawNodeRole::Source);
    assert_eq!(RawNodeRole::from_label("anything-else"), RawNodeRole::Innode);
    assert_eq!(raw_node_role_label(RawNodeRole::Sink), "sink");
    assert_eq!(raw_node_role_label(RawNodeRole::Source), "source");
    assert_eq!(raw_node_role_label(RawNodeRole::Innode), "innode");
}

#[test]
fn connection_kind_default_is_pipe() {
    assert_eq!(ConnectionKind::from_label("pipe"), ConnectionKind::Pipe);
    assert_eq!(ConnectionKind::from_label("unknown-kind"), ConnectionKind::Pipe);
}

#[test]
fn measurement_types_parse() {
    assert_eq!(parse_measurement_type("pressure"), Some(MeasurementType::Pressure));
    assert_eq!(parse_measurement_type("flow"), Some(MeasurementType::Flow));
    assert_eq!(parse_measurement_type("temperature"), None);
}

#[test]
fn mapped_role_uses_type_mapping() {
    let mapping = NodeMapping {
        id_field: None,
        type_field: Some("TYPE".to_string()),
        type_mapping: vec![("POSTE".to_string(), "source".to_string())],
        pressure_fixed_field: None,
        lon_field: None,
        lat_field: None,
        elevation_field: None,
    };
    assert_eq!(parse_role("POSTE", &mapping), RawNodeRole::Source);
    assert_eq!(parse_role("PDL", &mapping), RawNodeRole::Sink);
}
