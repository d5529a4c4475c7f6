use gazflow::labels::ConnectionKind;
use gazflow::magnitude::negligible_literal;
use gazflow::net_file::{
    load_network_from_str, parse_network_file, ConnectionElement, GasLibNetwork, NetField, NetFileError, RatioSource, Scale,
};

fn value(lit: &str) -> f64 {
    lit.parse::<f64>().unwrap()
}

fn load(xml: &str) -> GasLibNetwork {
    load_network_from_str(xml, None).expect("load_network")
}

#[test]
fn test_parse_minimal_xml() {
    let xml = r#"<?xml version="1.0" encoding="UTF-8"?>
<network xmlns:framework="http://gaslib.zib.de/Framework">
  <nodes>
    <node id="N1" x="10.0" y="50.0" geoWGS84Long="10.0" geoWGS84Lat="50.0"/>
    <node id="N2" x="11.0" y="51.0" geoWGS84Long="11.0" geoWGS84Lat="51.0"/>
  </nodes>
  <connections>
    <pipe id="P1" from="N1" to="N2" length="50.0" diameter="500.0" roughness="0.012"/>
  </connections>
</network>"#;

    let raw = parse_network_file(xml).expect("parsing XML");
    assert_eq!(raw.nodes.len(), 2);
    assert_eq!(raw.connections.len(), 1);
}

#[test]
fn test_parse_with_namespace_prefix() {
    let xml = r#"<?xml version="1.0" encoding="UTF-8"?>
<network xmlns:framework="http://gaslib.zib.de/Framework">
  <framework:nodes>
    <node id="A" x="0" y="0"/>
    <node id="B" x="1" y="1"/>
  </framework:nodes>
  <framework:connections>
    <pipe id="P" from="A" to="B"/>
  </framework:connections>
</network>"#;

    let raw = parse_network_file(xml).expect("parsing XML with ns prefix");
    assert_eq!(raw.nodes.len(), 2);
    assert_eq!(raw.connections.len(), 1);
}

#[test]
fn test_parse_connection_kinds() {
    let xml = r#"<?xml version="1.0" encoding="UTF-8"?>
<network>
  <nodes>
    <node id="A" x="0" y="0"/>
    <node id="B" x="1" y="0"/>
    <node id="C" x="2" y="0"/>
    <node id="D" x="3" y="0"/>
    <node id="E" x="4" y="0"/>
  </nodes>
  <connections>
    <pipe id="P1" from="A" to="B" length="10.0" diameter="500.0" roughness="0.02"/>
    <valve id="V1" from="B" to="C"/>
    <shortPipe id="SP1" from="C" to="D"/>
    <resistor id="R1" from="D" to="E"/>
    <compressorStation id="CS1" from="E" to="A"/>
  </connections>
</network>"#;

    let net = load(xml);
    assert_eq!(net.pipes.len(), 5);

    let rank = |k: &ConnectionKind| match k {
        ConnectionKind::Pipe => 0,
        ConnectionKind::Valve => 1,
        ConnectionKind::ShortPipe => 2,
        ConnectionKind::Resistor => 3,
        ConnectionKind::CompressorStation => 4,
        _ => 5,
    };
    let mut kinds: Vec<ConnectionKind> = net.pipes.iter().map(|p| p.kind).collect();
    kinds.sort_by_key(rank);
    assert_eq!(
        kinds,
        vec![
            ConnectionKind::Pipe,
            ConnectionKind::Valve,
            ConnectionKind::ShortPipe,
            ConnectionKind::Resistor,
            ConnectionKind::CompressorStation,
        ]
    );

    let valve = net.pipes.iter().find(|p| p.id == "V1").expect("valve exists");
    assert_eq!(value(&valve.length_km.literal), 0.001);
    assert_eq!(value(&valve.diameter_mm.literal), 1000.0);
    assert!(valve.is_open, "default valve should be treated as open");

    let station = net.pipes.iter().find(|p| p.id == "CS1").expect("station exists");
    assert_eq!(station.compressor_ratio, Some(RatioSource::Literal("1.08".to_string())));
    assert_eq!(valve.compressor_ratio, None);
}

#[test]
fn test_parse_closed_valve_from_zero_flow_bounds() {
    let xml = r#"<?xml version="1.0" encoding="UTF-8"?>
<network>
  <nodes>
    <node id="A" x="0" y="0"/>
    <node id="B" x="1" y="0"/>
  </nodes>
  <connections>
    <valve id="V1" from="A" to="B">
      <flowMin value="0.0"/>
      <flowMax value="0.0"/>
    </valve>
  </connections>
</network>"#;

    let net = load(xml);
    let valve = net.pipes.iter().find(|p| p.id == "V1").expect("valve exists");
    assert!(!valve.is_open, "zero flow bounds should mark valve as closed");
}

#[test]
fn test_parse_child_value_elements() {
    let xml = r#"<?xml version="1.0" encoding="UTF-8"?>
<network>
  <nodes>
    <source id="A" x="0" y="0">
      <height value="12.5"/>
      <pressureMin value="40.0"/>
      <pressureMax value="70.0"/>
    </source>
    <sink id="B" x="1" y="1">
      <height value="4.0"/>
      <pressureMin value="35.0"/>
      <pressureMax value="60.0"/>
    </sink>
  </nodes>
  <connections>
    <pipe id="P1" from="A" to="B">
      <length value="55.0"/>
      <diameter value="500.0"/>
      <roughness value="0.1"/>
    </pipe>
  </connections>
</network>"#;

    let net = load(xml);
    let node_a = net.nodes.iter().find(|n| n.id == "A").expect("node A");
    let pipe = net.pipes.iter().find(|p| p.id == "P1").expect("pipe P1");

    assert_eq!(value(&node_a.height_m), 12.5);
    assert_eq!(node_a.pressure_lower_bar.as_deref().map(value), Some(40.0));
    assert_eq!(node_a.pressure_upper_bar.as_deref().map(value), Some(70.0));
    assert_eq!(value(&pipe.length_km.literal), 55.0);
    assert_eq!(value(&pipe.diameter_mm.literal), 500.0);
    assert_eq!(value(&pipe.roughness_mm.literal), 0.1);
}

#[test]
fn test_load_network_builds_graph() {
    let xml = r#"<?xml version="1.0" encoding="UTF-8"?>
<network>
  <nodes>
    <node id="S" x="10.0" y="50.0" geoWGS84Long="10.0" geoWGS84Lat="50.0"/>
    <node id="D" x="11.0" y="51.0" geoWGS84Long="11.0" geoWGS84Lat="51.0"/>
  </nodes>
  <connections>
    <pipe id="P1" from="S" to="D" length="100.0" diameter="500.0" roughness="0.012"/>
  </connections>
</network>"#;

    let net = load(xml);
    assert_eq!(net.nodes.len(), 2);
    assert_eq!(net.pipes.len(), 1);
}

#[test]
fn units_and_fallbacks_are_applied() {
    let xml = r#"<network>
  <nodes>
    <innode id="A" x="0" y="0" height="3.5"><pressure lower="1" value="50"/><pressureMin value="2"/><pressureMax value="80"/></innode>
    <innode id="B" x="1" y="0"/>
  </nodes>
  <connections>
    <pipe id="P" from="A" to="B"><length value="2500" unit="m"/><diameter value="0.6" unit="m"/><dragFactor value="1.2"/></pipe>
    <controlValve id="CV" from="B" to="A" roughness="0.05"/>
    <pipe id="Q" from="A" to="B"/>
  </connections>
</network>"#;
    let net = load(xml);
    let a = &net.nodes[0];
    assert_eq!(a.height_m, "3.5");
    assert_eq!(a.pressure_lower_bar.as_deref(), Some("1"));
    assert_eq!(a.pressure_upper_bar.as_deref(), Some("80"));
    assert_eq!(a.pressure_fixed_bar.as_deref(), Some("50"));
    let b = &net.nodes[1];
    assert_eq!(b.height_m, "0.0");
    assert_eq!(b.pressure_lower_bar, None);
    let p = &net.pipes[0];
    assert_eq!((p.length_km.literal.as_str(), p.length_km.scale), ("2500", Scale::Thousandth));
    assert_eq!((p.diameter_mm.literal.as_str(), p.diameter_mm.scale), ("0.6", Scale::Thousandfold));
    assert_eq!((p.roughness_mm.literal.as_str(), p.roughness_mm.scale), ("1.2", Scale::AsWritten));
    let cv = &net.pipes[1];
    assert_eq!(cv.kind, ConnectionKind::ShortPipe);
    assert_eq!(cv.length_km.literal, "0.001");
    assert_eq!(cv.roughness_mm.literal, "0.05");
    let q = &net.pipes[2];
    assert_eq!(
        (q.length_km.literal.as_str(), q.diameter_mm.literal.as_str(), q.roughness_mm.literal.as_str()),
        ("1.0", "500.0", "0.012")
    );
}

#[test]
fn elements_outside_the_schema_are_passed_over() {
    let xml = r#"<?xml version="1.0"?>
<!-- comment -->
<framework:network xmlns:framework="http://gaslib.zib.de/Framework">
  <framework:information><title>t</title></framework:information>
  <framework:nodes>
    <sink id="S" x="1" y="2"><flowMin value="0"/><gasTemperature value="15" unit="Celsius"/></sink>
  </framework:nodes>
  <framework:connections>
    <pipe id="P" from="S" to="S" framework:length="3"><comment>x</comment></pipe>
  </framework:connections>
</framework:network>"#;
    let f = parse_network_file(xml).expect("parse");
    assert_eq!(f.nodes.len(), 1);
    assert_eq!(f.nodes[0].id, "S");
    assert_eq!(f.connections[0].element, ConnectionElement::Pipe);
    assert_eq!(f.connections[0].length_attr.as_deref(), Some("3"));
}

#[test]
fn schema_errors_are_reported() {
    let missing = r#"<network><nodes/></network>"#;
    assert_eq!(parse_network_file(missing), Err(NetFileError::Missing(NetField::Connections)));
    let no_nodes = r#"<network><connections/></network>"#;
    assert_eq!(parse_network_file(no_nodes), Err(NetFileError::Missing(NetField::Nodes)));
    let twice = r#"<network><nodes/><framework:nodes/><connections/></network>"#;
    assert_eq!(parse_network_file(twice), Err(NetFileError::Duplicate(NetField::Nodes)));
    let unknown = r#"<network><nodes/><connections><tube id="T" from="a" to="b"/></connections></network>"#;
    assert_eq!(parse_network_file(unknown), Err(NetFileError::UnknownConnection("tube".to_string())));
    let bad_x = r#"<network><nodes><node id="A" x="ten" y="0"/></nodes><connections/></network>"#;
    assert_eq!(parse_network_file(bad_x), Err(NetFileError::InvalidNumber(NetField::X)));
    let no_y = r#"<network><nodes><node id="A" x="1"/></nodes><connections/></network>"#;
    assert_eq!(parse_network_file(no_y), Err(NetFileError::Missing(NetField::Y)));
    let two_heights = r#"<network><nodes><node id="A" x="1" y="1"><height value="1"/><height value="2"/></node></nodes><connections/></network>"#;
    assert_eq!(parse_network_file(two_heights), Err(NetFileError::Duplicate(NetField::Height)));
    let unclosed = r#"<network><nodes/><connections/>"#;
    assert_eq!(parse_network_file(unclosed), Err(NetFileError::UnexpectedEnd));
    let empty_optional = r#"<network><nodes><node id="A" x="1" y="1" height=""/></nodes><connections/></network>"#;
    assert_eq!(parse_network_file(empty_optional).unwrap().nodes[0].height_attr, None);
}

#[test]
fn valve_closes_only_on_negligible_bounds() {
    let doc = |lo: &str, hi: &str| {
        format!(
            r#"<network><nodes/><connections><valve id="V" from="a" to="b"><flowMin value="{lo}"/><flowMax value="{hi}"/></valve></connections></network>"#
        )
    };
    assert!(!load(&doc("-0.0", "1e-13")).pipes[0].is_open);
    assert!(load(&doc("0", "1e-12")).pipes[0].is_open);
    assert!(load(&doc("0", "0.5")).pipes[0].is_open);
    assert!(load(&doc("nan", "0")).pipes[0].is_open);
}

#[test]
fn negligible_literals_agree_with_f64() {
    let cases = [
        "0", "-0.0", "1e-13", "1e-12", "-1e-12", "9.9e-13", "0.000000000001", "0.0000000000009999",
        "9.99999999999999878912451760966104274551587149932885267844540067017078399658203125e-13",
        "9.99999999999999878912451760966104274551587149932885267844540067017078399658203126e-13",
        "9.999999999999998e-13", "9.999999999999999e-13", "1E-400", "1e-99999999", "5", "inf", "-inf", "NaN",
        "0.0000000000000001e3", "123456789e-21",
    ];
    for c in cases {
        let chars: Vec<char> = c.chars().collect();
        let expected = c.parse::<f64>().unwrap().abs() < 1e-12;
        assert_eq!(negligible_literal(&chars), expected, "{c}");
    }
}

#[test]
fn compressor_ratio_comes_from_the_station_file() {
    let net = r#"<network><nodes><node id="A" x="0" y="0"/><node id="B" x="1" y="0"/></nodes>
<connections>
  <compressorStation id="CS1" from="A" to="B"/>
  <compressorStation id="CS2" from="B" to="A"/>
</connections></network>"#;
    let cs = r#"<compressorStations>
  <compressorStation id="CS1"><configurations><configuration nrOfSerialStages="2"/></configurations></compressorStation>
</compressorStations>"#;
    let g = load_network_from_str(net, Some(cs)).expect("load");
    assert_eq!(g.pipes[0].compressor_ratio, Some(RatioSource::Stages(2)));
    assert_eq!(g.pipes[1].compressor_ratio, Some(RatioSource::Literal("1.08".to_string())));
    let unreadable = load_network_from_str(net, Some("<a><b></a>")).expect("load");
    assert_eq!(unreadable.pipes[0].compressor_ratio, Some(RatioSource::Literal("1.08".to_string())));
}

#[test]
fn flow_bounds_of_nodes_and_pipes_are_kept() {
    let xml = r#"<network><nodes>
  <source id="A" x="0" y="0"><flowMin value="0" unit="1000m_cube_per_hour"/><flowMax value="1200"/></source>
  <sink id="B" x="1" y="0"/>
</nodes><connections>
  <pipe id="P" from="A" to="B"><flowMin value="-500"/><flowMax value="500" unit="1000m_cube_per_hour"/></pipe>
</connections></network>"#;
    let g = load(xml);
    let a = &g.nodes[0];
    let lo = a.flow_min.as_ref().expect("node flowMin");
    assert_eq!((lo.value.as_str(), lo.unit.as_deref()), ("0", Some("1000m_cube_per_hour")));
    assert_eq!(a.flow_max.as_ref().map(|v| value(&v.value)), Some(1200.0));
    assert!(g.nodes[1].flow_min.is_none() && g.nodes[1].flow_max.is_none());
    let p = &g.pipes[0];
    assert_eq!(p.flow_min.as_ref().map(|v| value(&v.value)), Some(-500.0));
    let hi = p.flow_max.as_ref().expect("pipe flowMax");
    assert_eq!((hi.value.as_str(), hi.unit.as_deref()), ("500", Some("1000m_cube_per_hour")));
    assert!(p.is_open);
    let twice = r#"<network><nodes><node id="A" x="0" y="0"><flowMin value="1"/><flowMin value="2"/></node></nodes><connections/></network>"#;
    assert_eq!(parse_network_file(twice), Err(NetFileError::Duplicate(NetField::FlowMin)));
}
