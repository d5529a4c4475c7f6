use gazflow::geojson::{import_feature_collections, GeoJsonError};
use gazflow::labels::RawNodeRole;
use gazflow::mapping::{MappedField, MappingConfig, MappingDefaults, MappingError, NodeMapping, PipeMapping};
use gazflow::properties::JsonValue;

fn num(t: &str) -> JsonValue {
    JsonValue::Number(t.to_string())
}

fn text(t: &str) -> JsonValue {
    JsonValue::String(t.to_string())
}

fn obj(members: Vec<(&str, JsonValue)>) -> JsonValue {
    JsonValue::Object(members.into_iter().map(|(k, v)| (k.to_string(), v)).collect())
}

fn opt(s: &str) -> Option<String> {
    Some(s.to_string())
}

fn mapping() -> MappingConfig {
    MappingConfig {
        format: "geojson".into(),
        nodes: NodeMapping {
            id_field: opt("ID_NOEUD"),
            type_field: opt("TYPE"),
            type_mapping: vec![("ALIM".into(), "source".into())],
            pressure_fixed_field: None,
            lon_field: opt("geometry.coordinates[0]"),
            lat_field: opt("geometry.coordinates[1]"),
            elevation_field: None,
        },
        pipes: PipeMapping {
            file: None,
            id_field: opt("ID_CANA"),
            from_field: opt("NOEUD_AMONT"),
            to_field: opt("NOEUD_AVAL"),
            length_field: opt("L"),
            length_unit: None,
            diameter_field: opt("D"),
            diameter_unit: None,
            roughness_field: None,
            roughness_unit: None,
            roughness_default_mm: None,
            material_field: None,
            type_field: None,
            type_mapping: Vec::new(),
            regulator_setpoint_field: None,
            regulator_delta_p_min_field: None,
            control_valve_cv_field: None,
            control_valve_opening_field: None,
            delivery_min_pressure_field: None,
        },
        defaults: MappingDefaults { sink_demand_m3s: None },
    }
}

fn point(id: &str, lon: &str, lat: &str) -> JsonValue {
    obj(vec![
        ("type", text("Feature")),
        ("properties", obj(vec![("ID_NOEUD", text(id)), ("TYPE", text("ALIM"))])),
        (
            "geometry",
            obj(vec![("type", text("Point")), ("coordinates", JsonValue::Array(vec![num(lon), num(lat)]))]),
        ),
    ])
}

fn line(id: &str, from: &str, to: &str) -> JsonValue {
    obj(vec![
        (
            "properties",
            obj(vec![
                ("ID_CANA", text(id)),
                ("NOEUD_AMONT", text(from)),
                ("NOEUD_AVAL", text(to)),
                ("L", num("1.5")),
                ("D", num("200")),
            ]),
        ),
        ("geometry", obj(vec![("type", text("LineString")), ("coordinates", JsonValue::Array(vec![]))])),
    ])
}

fn collection(features: Vec<JsonValue>) -> JsonValue {
    obj(vec![("type", text("FeatureCollection")), ("features", JsonValue::Array(features))])
}

#[test]
fn points_and_lines_become_nodes_and_pipes() {
    let chunks = vec![
        collection(vec![point("A", "2.35", "48.86"), line("P1", "A", "B")]),
        collection(vec![
            point("B", "2.40", "48.90"),
            point("A", "9", "9"),
            obj(vec![("properties", obj(vec![("ID_CANA", text("P2")), ("NOEUD_AMONT", text("B")), ("NOEUD_AVAL", text("C")), ("L", num("2")), ("D", num("100"))]))]),
            obj(vec![("properties", obj(vec![("ID_NOEUD", text("C"))]))]),
        ]),
    ];
    let net = import_feature_collections(&chunks, &mapping()).expect("import");
    let ids: Vec<&str> = net.nodes.iter().map(|n| n.id.as_str()).collect();
    assert_eq!(ids, vec!["A", "B", "C"]);
    assert_eq!(net.nodes[0].lon.as_deref(), Some("2.35"));
    assert_eq!(net.nodes[0].lat.as_deref(), Some("48.86"));
    assert_eq!(net.nodes[0].role, RawNodeRole::Source);
    assert_eq!(net.nodes[2].lon, None);
    assert_eq!(net.nodes[2].x, "0.0");
    let pipes: Vec<&str> = net.pipes.iter().map(|p| p.id.as_str()).collect();
    assert_eq!(pipes, vec!["P1", "P2"]);
}

#[test]
fn point_geometry_replaces_a_geometry_property() {
    let feature = obj(vec![
        (
            "properties",
            obj(vec![
                ("ID_NOEUD", text("N")),
                ("geometry", obj(vec![("coordinates", JsonValue::Array(vec![num("0"), num("0")]))])),
            ]),
        ),
        ("geometry", obj(vec![("type", text("Point")), ("coordinates", JsonValue::Array(vec![num("5"), num("6")]))])),
    ]);
    let net = import_feature_collections(&vec![collection(vec![feature])], &mapping()).expect("import");
    assert_eq!(net.nodes[0].x, "5");
    assert_eq!(net.nodes[0].y, "6");
}

#[test]
fn unreadable_collections_are_reported() {
    let m = mapping();
    assert_eq!(
        import_feature_collections(&vec![obj(vec![("type", text("Feature"))])], &m).err(),
        Some(GeoJsonError::NotFeatureCollection)
    );
    let polygon = obj(vec![("geometry", obj(vec![("type", text("Polygon"))]))]);
    assert_eq!(
        import_feature_collections(&vec![collection(vec![polygon])], &m).err(),
        Some(GeoJsonError::UnsupportedGeometry("Polygon".to_string()))
    );
    let bare = obj(vec![("properties", obj(vec![("NAME", text("x"))]))]);
    assert_eq!(
        import_feature_collections(&vec![collection(vec![bare])], &m).err(),
        Some(GeoJsonError::UnrecognizedFeature)
    );
    let no_length = obj(vec![("properties", obj(vec![("ID_CANA", text("P")), ("NOEUD_AMONT", text("A")), ("NOEUD_AVAL", text("B"))]))]);
    assert_eq!(
        import_feature_collections(&vec![collection(vec![point("A", "1", "2"), no_length])], &m).err(),
        Some(GeoJsonError::Mapping(MappingError::NoValue(MappedField::PipeLength)))
    );
}
