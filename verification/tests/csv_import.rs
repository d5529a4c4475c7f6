use gazflow::csv_import::{import_csv_str, CsvImportError};
use gazflow::labels::RawNodeRole;
use gazflow::mapping::{MappedField, MappingConfig, MappingDefaults, MappingError, NodeMapping, PipeMapping};
use gazflow::net_file::Scale;
use gazflow::properties::{csv_row_props, resolve_f64, resolve_string, JsonValue};

fn opt(s: &str) -> Option<String> {
    Some(s.to_string())
}

fn mapping() -> MappingConfig {
    MappingConfig {
        format: "csv".into(),
        nodes: NodeMapping {
            id_field: opt("id"),
            type_field: opt("type"),
            type_mapping: vec![("ALIM".into(), "source".into())],
            pressure_fixed_field: opt("p_bar"),
            lon_field: opt("lon"),
            lat_field: opt("lat"),
            elevation_field: opt("alt"),
        },
        pipes: PipeMapping {
            file: None,
            id_field: opt("id"),
            from_field: opt("from"),
            to_field: opt("to"),
            length_field: opt("length_m"),
            length_unit: opt("m"),
            diameter_field: opt("diameter_mm"),
            diameter_unit: None,
            roughness_field: None,
            roughness_unit: None,
            roughness_default_mm: opt("0.05"),
            material_field: None,
            type_field: None,
            type_mapping: Vec::new(),
            regulator_setpoint_field: None,
            regulator_delta_p_min_field: None,
            control_valve_cv_field: None,
            control_valve_opening_field: None,
            delivery_min_pressure_field: None,
        },
        defaults: MappingDefaults { sink_demand_m3s: None },
    }
}

fn strings(v: &[&str]) -> Vec<String> {
    v.iter().map(|s| s.to_string()).collect()
}

#[test]
fn csv_rows_become_nodes_and_pipes() {
    let nodes = "id,type,lon,lat,alt,p_bar\nSRC,ALIM,2.35,48.86,120,70\nLVR,sink,2.40,48.90,,\n";
    let pipes = "id,from,to,length_m,diameter_mm\nP1,SRC,LVR,12500,800\n";
    let net = import_csv_str(nodes, pipes, &mapping()).expect("import");
    assert_eq!(net.nodes.len(), 2);
    assert_eq!(net.nodes[0].id, "SRC");
    assert_eq!(net.nodes[0].role, RawNodeRole::Source);
    assert_eq!(net.nodes[0].lon.as_deref(), Some("2.35"));
    assert_eq!(net.nodes[0].pressure_fixed_bar.as_deref(), Some("70"));
    assert_eq!(net.nodes[1].role, RawNodeRole::Sink);
    assert_eq!(net.nodes[1].height_m, "0.0");
    assert_eq!(net.nodes[1].pressure_fixed_bar, None);
    let p = &net.pipes[0];
    assert_eq!((p.id.as_str(), p.from.as_str(), p.to.as_str()), ("P1", "SRC", "LVR"));
    assert_eq!((p.length_km.literal.as_str(), p.length_km.scale), ("12500", Scale::Thousandth));
    assert_eq!(p.roughness_mm.literal, "0.05");
}

#[test]
fn csv_errors_are_reported() {
    let pipes_missing_length = "id,from,to,diameter_mm\nP1,A,B,100\n";
    assert_eq!(
        import_csv_str("id\nA\n", pipes_missing_length, &mapping()).err(),
        Some(CsvImportError::Mapping(MappingError::NoValue(MappedField::PipeLength)))
    );
    let ragged = "id,type\nA,sink\nB\n";
    assert!(matches!(import_csv_str(ragged, "id\n", &mapping()), Err(CsvImportError::Csv(_))));
    let mut no_id = mapping();
    no_id.nodes.id_field = None;
    assert_eq!(
        import_csv_str("id\nA\n", "id\n", &no_id).err(),
        Some(CsvImportError::Mapping(MappingError::Unmapped(MappedField::NodeId)))
    );
    let net = import_csv_str("id\n", "id,from\n", &mapping()).expect("headers only");
    assert!(net.nodes.is_empty() && net.pipes.is_empty());
}

#[test]
fn row_cells_become_numbers_or_strings() {
    let headers = strings(&["a", "b", "c", "d", "a"]);
    let row = strings(&["1e3", "x1", "NaN", "inf", "7"]);
    let p = csv_row_props(&headers, &row);
    assert_eq!(resolve_string(&p, "a").as_deref(), Some("7"));
    assert_eq!(resolve_f64(&p, "b"), None);
    assert_eq!(resolve_string(&p, "b").as_deref(), Some("x1"));
    assert!(matches!(gazflow::properties::resolve_field(&p, "c"), Some(JsonValue::Number(n)) if n == "0"));
    assert_eq!(resolve_f64(&p, "d").as_deref(), Some("0"));
    assert_eq!(resolve_f64(&p, "e"), None);
    let short = csv_row_props(&strings(&["a", "b"]), &strings(&["2.5"]));
    assert_eq!(resolve_f64(&short, "a").as_deref(), Some("2.5"));
    assert!(gazflow::properties::resolve_field(&short, "b").is_none());
}
