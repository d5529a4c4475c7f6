use gazflow::importers::{
    parse_import_format, plan_import, preview_pipes, CsvImporter, GasLibImporter,
    GeoJsonImporter, ImportFormat, ImportPlan, ImportRequest, PlanError, RequestField,
    ShapefileImporter,
};
use gazflow::topology::TopologyPipe;

fn request() -> ImportRequest {
    let mut r = ImportRequest::empty();
    r.mapping_path = "mapping.yaml".to_string();
    r
}

#[test]
fn formats_are_case_insensitive() {
    assert_eq!(parse_import_format("GeoJSON"), Ok(ImportFormat::GeoJson));
    assert_eq!(parse_import_format("csv"), Ok(ImportFormat::Csv));
    assert_eq!(parse_import_format("ShapeFile"), Ok(ImportFormat::Shapefile));
    assert_eq!(parse_import_format("GASLIB"), Ok(ImportFormat::GasLib));
    assert_eq!(parse_import_format("XLS"), Err("xls".to_string()));
}

#[test]
fn importers_name_the_missing_field() {
    let r = request();
    assert_eq!(GeoJsonImporter.plan(&r).unwrap_err(), RequestField::GeoJsonPaths);
    assert_eq!(CsvImporter.plan(&r).unwrap_err(), RequestField::NodesPath);
    assert_eq!(GasLibImporter.plan(&r).unwrap_err(), RequestField::GasLibNetPath);
    let mut r2 = request();
    r2.nodes_path = Some("n.csv".to_string());
    assert_eq!(CsvImporter.plan(&r2).unwrap_err(), RequestField::PipesPath);
    match ShapefileImporter.plan(&r).unwrap() {
        ImportPlan::Shapefile { mapping, files } => {
            assert_eq!(mapping, "mapping.yaml");
            assert_eq!(files.unwrap_err(), RequestField::NodesShpPath);
        }
        _ => panic!("shapefile plan expected"),
    }
}

#[test]
fn plans_carry_the_paths() {
    let mut r = request();
    r.nodes_path = Some("n.csv".to_string());
    r.pipes_path = Some("p.csv".to_string());
    match plan_import("CSV", &r).unwrap() {
        ImportPlan::Csv { nodes, pipes, mapping } => {
            assert_eq!((nodes.as_str(), pipes.as_str(), mapping.as_str()), ("n.csv", "p.csv", "mapping.yaml"));
        }
        _ => panic!("csv plan expected"),
    }
    r.geojson_paths = vec!["a.geojson".to_string(), "b.geojson".to_string()];
    match plan_import("geojson", &r).unwrap() {
        ImportPlan::GeoJson { paths, .. } => assert_eq!(paths, r.geojson_paths),
        _ => panic!("geojson plan expected"),
    }
    assert!(matches!(plan_import("kml", &r), Err(PlanError::UnknownFormat(f)) if f == "kml"));
    assert_eq!(plan_import("gaslib", &r).unwrap_err(), PlanError::Missing(RequestField::GasLibNetPath));
}

#[test]
fn preview_keeps_pipe_ends() {
    let pipes = vec![TopologyPipe { id: "P".to_string(), from: "A".to_string(), to: "B".to_string() }];
    let preview = preview_pipes(&pipes);
    assert_eq!(preview.len(), 1);
    assert_eq!((preview[0].id.as_str(), preview[0].from.as_str(), preview[0].to.as_str()), ("P", "A", "B"));
}
