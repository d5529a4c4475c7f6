use gazflow::catalog::{parse_compressor_catalog_from_str, CompressorCatalog, StationRecord, TurboMeasurement};
use gazflow::compressor::{max_serial_stages, push_configuration};
use gazflow::stages::parse_station_stages_from_str;

fn head(m: &TurboMeasurement) -> f64 {
    m.head_kj_per_kg.parse().unwrap()
}

fn empty_station(id: &str) -> StationRecord {
    StationRecord {
        id: id.to_string(),
        characteristic_measurements: vec![],
        surgeline_measurements: vec![],
        speed_min_rpm: vec![],
        speed_max_rpm: vec![],
        configurations: vec![],
    }
}

fn measurement(speed: &str, head: &str, flow: &str) -> TurboMeasurement {
    TurboMeasurement { speed_rpm: speed.to_string(), head_kj_per_kg: head.to_string(), flow_m3_s: flow.to_string() }
}

#[test]
fn test_parse_catalog_extracts_surgeline_measurements_and_stages() {
    let xml = r#"
<compressorStations>
  <compressorStation id="CS-A">
    <compressors>
      <turboCompressor id="turbo-1">
        <speedMin value="4700" unit="per_min"/>
        <speedMax value="6500" unit="per_min"/>
        <surgelineMeasurements>
          <measurement>
            <speed value="4700" unit="per_min"/>
            <adiabaticHead value="63.6" unit="kJ_per_kg"/>
            <volumetricFlowrate value="0.20" unit="m_cube_per_s"/>
          </measurement>
          <measurement>
            <speed value="6500" unit="per_min"/>
            <adiabaticHead value="87.5" unit="kJ_per_kg"/>
            <volumetricFlowrate value="0.40" unit="m_cube_per_s"/>
          </measurement>
        </surgelineMeasurements>
        <characteristicDiagramMeasurements>
          <measurement>
            <speed value="4700" unit="per_min"/>
            <adiabaticHead value="999.0" unit="kJ_per_kg"/>
            <volumetricFlowrate value="9.99" unit="m_cube_per_s"/>
          </measurement>
        </characteristicDiagramMeasurements>
      </turboCompressor>
    </compressors>
    <configurations>
      <configuration confId="1" nrOfSerialStages="2"/>
      <configuration confId="2" nrOfSerialStages="1"/>
    </configurations>
  </compressorStation>
  <compressorStation id="CS-B"/>
</compressorStations>
"#;

    let catalog = parse_compressor_catalog_from_str(xml).expect("catalog parse");
    assert!(catalog.station("CS-A").is_some());
    assert!(catalog.station("CS-B").is_some());

    let station = catalog.station("CS-A").expect("CS-A");
    assert_eq!(station.max_serial_stages(), 2);
    assert_eq!(station.speed_min_rpm, vec!["4700".to_string()]);
    assert_eq!(station.speed_max_rpm, vec!["6500".to_string()]);
    assert_eq!(station.characteristic_measurements.len(), 1);
    assert_eq!(station.surgeline_measurements.len(), 2);
    assert_eq!(station.map_measurements().len(), 1);
    assert!((head(&station.map_measurements()[0]) - 999.0).abs() < 1e-9);
}

#[test]
fn test_parse_catalog_handles_namespaced_elements() {
    let xml = r#"
<framework:compressorStations xmlns:framework="http://gaslib.zib.de/CompressorStations">
  <framework:compressorStation id="CS-C">
    <framework:compressors>
      <framework:turboCompressor id="turbo-1">
        <framework:surgelineMeasurements>
          <framework:measurement>
            <framework:speed value="5000"/>
            <framework:adiabaticHead value="70.0"/>
            <framework:volumetricFlowrate value="0.3"/>
          </framework:measurement>
        </framework:surgelineMeasurements>
      </framework:turboCompressor>
    </framework:compressors>
  </framework:compressorStation>
</framework:compressorStations>
"#;

    let catalog = parse_compressor_catalog_from_str(xml).expect("catalog parse");
    let station = catalog.station("CS-C").expect("CS-C");
    assert_eq!(station.surgeline_measurements.len(), 1);
    assert!(station.characteristic_measurements.is_empty());
}

#[test]
fn incomplete_or_infinite_measurements_are_dropped() {
    let xml = r#"<s><compressorStation id="X"><surgelineMeasurements>
<measurement><speed value="1"/><adiabaticHead value="2"/></measurement>
<measurement><speed value="inf"/><adiabaticHead value="2"/><volumetricFlowrate value="3"/></measurement>
<measurement><speed value="1"/><adiabaticHead value="2"/><volumetricFlowrate value="3"/></measurement>
</surgelineMeasurements><speedMin value="NaN"/><speedMin value="12"/></compressorStation></s>"#;
    let catalog = parse_compressor_catalog_from_str(xml).expect("parse");
    let s = catalog.station("X").expect("X");
    assert_eq!(s.surgeline_measurements.len(), 1);
    assert_eq!(s.speed_min_rpm, vec!["12".to_string()]);
}

#[test]
fn test_station_mut_creates_station() {
    let mut station = empty_station("CS-1");
    push_configuration(&mut station.configurations, 2);
    let catalog = CompressorCatalog { stations: vec![station] };
    let station = catalog.station("CS-1").expect("station to exist");
    assert_eq!(station.max_serial_stages(), 2);
}

#[test]
fn test_station_model_prefers_characteristic_for_map() {
    let mut station = empty_station("S");
    station.surgeline_measurements.push(measurement("4700.0", "60.0", "0.20"));
    station.characteristic_measurements.push(measurement("5600.0", "75.0", "0.30"));
    assert_eq!(station.map_measurements().len(), 1);
    assert_eq!(station.map_measurements()[0].speed_rpm.parse::<f64>().unwrap(), 5_600.0);
}

#[test]
fn test_station_model_max_serial_stages_defaults_to_one() {
    let mut configurations = vec![];
    assert_eq!(max_serial_stages(&configurations), 1);
    push_configuration(&mut configurations, 3);
    push_configuration(&mut configurations, 2);
    assert_eq!(max_serial_stages(&configurations), 3);
}

#[test]
fn test_backward_compatible_ratio_heuristic() {
    let xml = r#"
<compressorStations>
  <compressorStation id="CS-A">
    <configurations>
      <configuration nrOfSerialStages="2"/>
      <configuration nrOfSerialStages="1"/>
    </configurations>
  </compressorStation>
  <compressorStation id="CS-B">
    <configurations>
      <configuration nrOfSerialStages="1"/>
    </configurations>
  </compressorStation>
</compressorStations>
"#;
    let catalog = parse_compressor_catalog_from_str(xml).expect("catalog parse");
    let a = catalog.station("CS-A").expect("A").max_serial_stages();
    let b = catalog.station("CS-B").expect("B").max_serial_stages();
    assert_eq!((a, b), (2, 1));
    assert!(a > b);
    assert!(b >= 1);
}

#[test]
fn test_parse_compressor_ratios_from_cs_xml() {
    let xml = r#"
<compressorStations>
  <compressorStation id="CS-A">
    <configurations>
      <configuration confId="1" nrOfSerialStages="2"/>
      <configuration confId="2" nrOfSerialStages="1"/>
    </configurations>
  </compressorStation>
  <compressorStation id="CS-B">
    <configurations>
      <configuration confId="1" nrOfSerialStages="1"/>
    </configurations>
  </compressorStation>
</compressorStations>"#;

    let stages = parse_station_stages_from_str(xml).expect("parse ratios");
    let get = |id: &str| stages.iter().find(|(s, _)| s == id).map(|(_, n)| *n);
    assert!(get("CS-A").is_some());
    assert!(get("CS-B").is_some());
    assert!(get("CS-A").unwrap() > get("CS-B").unwrap(), "two serial stages should count more than one");
    assert!(get("CS-B").unwrap() >= 1);
    assert_eq!(stages, vec![("CS-A".to_string(), 2), ("CS-B".to_string(), 1)]);
}

#[test]
fn stages_count_zero_as_one_and_only_inside_a_station() {
    let xml = r#"<s><configuration nrOfSerialStages="5"/><compressorStation id="A"><configuration nrOfSerialStages="0"/></compressorStation><compressorStation id="B"/></s>"#;
    let stages = parse_station_stages_from_str(xml).expect("parse");
    assert_eq!(stages, vec![("A".to_string(), 1), ("B".to_string(), 1)]);
}
