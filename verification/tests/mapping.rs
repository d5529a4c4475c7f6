use gazflow::labels::{ConnectionKind, RawNodeRole};
use gazflow::mapping::{
    raw_node_from_properties, raw_pipe_from_properties, MappedField, MappingConfig, MappingDefaults, MappingError,
    NodeMapping, PipeMapping,
};
use gazflow::net_file::Scale;
use gazflow::properties::{resolve_f64, resolve_field, resolve_string, JsonValue};

fn num(t: &str) -> JsonValue {
    JsonValue::Number(t.to_string())
}

fn text(t: &str) -> JsonValue {
    JsonValue::String(t.to_string())
}

fn obj(members: Vec<(&str, JsonValue)>) -> JsonValue {
    JsonValue::Object(members.into_iter().map(|(k, v)| (k.to_string(), v)).collect())
}

fn value(lit: &str) -> f64 {
    lit.parse::<f64>().unwrap()
}

fn opt(s: &str) -> Option<String> {
    Some(s.to_string())
}

fn empty_pipes() -> PipeMapping {
    PipeMapping {
        file: None,
        id_field: None,
        from_field: None,
        to_field: None,
        length_field: None,
        length_unit: None,
        diameter_field: None,
        diameter_unit: None,
        roughness_field: None,
        roughness_unit: None,
        roughness_default_mm: None,
        material_field: None,
        type_field: None,
        type_mapping: Vec::new(),
        regulator_setpoint_field: None,
        regulator_delta_p_min_field: None,
        control_valve_cv_field: None,
        control_valve_opening_field: None,
        delivery_min_pressure_field: None,
    }
}

fn minimal_geojson_mapping() -> MappingConfig {
    MappingConfig {
        format: "geojson".into(),
        nodes: NodeMapping {
            id_field: opt("ID_NOEUD"),
            type_field: opt("TYPE"),
            type_mapping: vec![("ALIM".into(), "source".into()), ("LIVR".into(), "sink".into())],
            pressure_fixed_field: opt("P_CONSIGNE_BAR"),
            lon_field: opt("geometry.coordinates[0]"),
            lat_field: opt("geometry.coordinates[1]"),
            elevation_field: opt("ALTITUDE_M"),
        },
        pipes: PipeMapping {
            id_field: opt("ID_CANA"),
            from_field: opt("NOEUD_AMONT"),
            to_field: opt("NOEUD_AVAL"),
            length_field: opt("LONGUEUR_M"),
            length_unit: opt("m"),
            diameter_field: opt("DIAMETRE_MM"),
            diameter_unit: opt("mm"),
            roughness_default_mm: opt("0.05"),
            ..empty_pipes()
        },
        defaults: MappingDefaults { sink_demand_m3s: opt("-50.0") },
    }
}

#[test]
fn resolve_nested_geometry_coordinates() {
    let props = obj(vec![("geometry", obj(vec![("coordinates", JsonValue::Array(vec![num("2.3522"), num("48.8566")]))]))]);
    assert_eq!(resolve_f64(&props, "geometry.coordinates[0]").as_deref().map(value), Some(2.3522));
    assert_eq!(resolve_f64(&props, "geometry.coordinates[1]").as_deref().map(value), Some(48.8566));
}

#[test]
fn type_mapping_sig_operateur() {
    let mapping = minimal_geojson_mapping();
    let props = obj(vec![
        ("ID_NOEUD", text("SRC01")),
        ("TYPE", text("ALIM")),
        ("P_CONSIGNE_BAR", num("70.0")),
        ("ALTITUDE_M", num("120.0")),
        ("geometry", obj(vec![("coordinates", JsonValue::Array(vec![num("2.35"), num("48.86")]))])),
    ]);
    let node = raw_node_from_properties(&props, &mapping).expect("node");
    assert_eq!(node.role, RawNodeRole::Source);
    assert_eq!(node.pressure_fixed_bar.as_deref().map(value), Some(70.0));
    assert!((value(&node.height_m) - 120.0).abs() < 1e-9);
    assert_eq!(node.lon.as_deref().map(value), Some(2.35));
    assert_eq!(node.lat.as_deref().map(value), Some(48.86));
}

#[test]
fn pipe_length_meters_converted_to_km() {
    let mapping = minimal_geojson_mapping();
    let props = obj(vec![
        ("ID_CANA", text("P1")),
        ("NOEUD_AMONT", text("SRC01")),
        ("NOEUD_AVAL", text("LVR01")),
        ("LONGUEUR_M", num("12500.0")),
        ("DIAMETRE_MM", num("800.0")),
    ]);
    let pipe = raw_pipe_from_properties(&props, &mapping).expect("pipe");
    assert_eq!(pipe.length_km.scale, Scale::Thousandth);
    assert!((value(&pipe.length_km.literal) / 1000.0 - 12.5).abs() < 1e-9);
    assert_eq!(pipe.diameter_mm.scale, Scale::AsWritten);
    assert!((value(&pipe.diameter_mm.literal) - 800.0).abs() < 1e-9);
    assert!((value(&pipe.roughness_mm.literal) - 0.05).abs() < 1e-9);
}

#[test]
fn pipe_regulator_type_and_setpoint_from_mapping() {
    let mut mapping = minimal_geojson_mapping();
    mapping.pipes.type_field = opt("TYPE_ORGANE");
    mapping.pipes.type_mapping = vec![("REG".into(), "pressure_regulator".into())];
    mapping.pipes.regulator_setpoint_field = opt("P_CONSIGNE_BAR");
    mapping.pipes.regulator_delta_p_min_field = opt("DP_MIN_BAR");
    let props = obj(vec![
        ("ID_CANA", text("REG1")),
        ("NOEUD_AMONT", text("MP")),
        ("NOEUD_AVAL", text("SK")),
        ("LONGUEUR_M", num("10.0")),
        ("DIAMETRE_MM", num("400.0")),
        ("TYPE_ORGANE", text("REG")),
        ("P_CONSIGNE_BAR", num("20.0")),
        ("DP_MIN_BAR", num("0.4")),
    ]);
    let pipe = raw_pipe_from_properties(&props, &mapping).expect("pipe");
    assert_eq!(pipe.kind, ConnectionKind::PressureRegulator);
    assert_eq!(pipe.equipment.regulator_setpoint_bar.as_deref().map(value), Some(20.0));
    assert_eq!(pipe.equipment.regulator_delta_p_min_bar.as_deref().map(value), Some(0.4));
}

#[test]
fn delivery_station_gets_default_margin() {
    let mut mapping = minimal_geojson_mapping();
    mapping.pipes.type_field = opt("T");
    mapping.pipes.regulator_setpoint_field = opt("SP");
    mapping.pipes.delivery_min_pressure_field = opt("PMIN");
    let props = obj(vec![
        ("ID_CANA", num("7")),
        ("NOEUD_AMONT", text("A")),
        ("NOEUD_AVAL", text("B")),
        ("LONGUEUR_M", text("250")),
        ("DIAMETRE_MM", num("100")),
        ("T", text("delivery_station")),
        ("SP", num("4.0")),
        ("PMIN", num("3.0")),
    ]);
    let pipe = raw_pipe_from_properties(&props, &mapping).expect("pipe");
    assert_eq!(pipe.id, "7");
    assert_eq!(pipe.kind, ConnectionKind::DeliveryStation);
    assert_eq!(pipe.length_km.literal, "250");
    assert_eq!(pipe.equipment.regulator_delta_p_min_bar.as_deref(), Some("0.3"));
    assert!(pipe.is_open);
}

#[test]
fn missing_fields_are_reported_in_order() {
    let mut mapping = minimal_geojson_mapping();
    let props = obj(vec![("ID_CANA", text("P")), ("NOEUD_AMONT", text("A")), ("NOEUD_AVAL", text("B"))]);
    assert_eq!(raw_pipe_from_properties(&props, &mapping).err(), Some(MappingError::NoValue(MappedField::PipeLength)));
    let bad_length = obj(vec![
        ("ID_CANA", text("P")),
        ("NOEUD_AMONT", text("A")),
        ("NOEUD_AVAL", text("B")),
        ("LONGUEUR_M", text("long")),
    ]);
    assert_eq!(raw_pipe_from_properties(&bad_length, &mapping).err(), Some(MappingError::NoValue(MappedField::PipeLength)));
    mapping.pipes.to_field = None;
    assert_eq!(raw_pipe_from_properties(&props, &mapping).err(), Some(MappingError::Unmapped(MappedField::PipeTo)));
    mapping.nodes.id_field = None;
    assert_eq!(raw_node_from_properties(&props, &mapping).err(), Some(MappingError::Unmapped(MappedField::NodeId)));
}

#[test]
fn node_defaults_without_optional_properties() {
    let mapping = minimal_geojson_mapping();
    let props = obj(vec![("ID_NOEUD", JsonValue::Bool(true))]);
    let node = raw_node_from_properties(&props, &mapping).expect("node");
    assert_eq!(node.id, "true");
    assert_eq!(node.role, RawNodeRole::Innode);
    assert_eq!((node.x.as_str(), node.y.as_str(), node.height_m.as_str()), ("0.0", "0.0", "0.0"));
    assert_eq!(node.lon, None);
    assert_eq!(node.pressure_fixed_bar, None);
}

#[test]
fn field_paths_walk_objects_and_arrays() {
    let props = obj(vec![
        ("a", obj(vec![("b", JsonValue::Array(vec![text("x"), JsonValue::Null]))])),
        ("n", JsonValue::Null),
    ]);
    assert_eq!(resolve_string(&props, "a.b[0]").as_deref(), Some("x"));
    assert!(matches!(resolve_field(&props, "a.b[1]"), Some(JsonValue::Null)));
    assert_eq!(resolve_string(&props, "a.b[1]"), None);
    assert!(resolve_field(&props, "a.b[2]").is_none());
    assert!(resolve_field(&props, "a.b[x]").is_none());
    assert!(resolve_field(&props, "a.c").is_none());
    assert!(resolve_field(&props, "n.x").is_none());
    assert_eq!(resolve_f64(&props, "a.b[0]"), None);
}
