use std::collections::HashMap;

use gazflow::solution::{parse_reference_solution_from_str, parse_text_solution, parse_xml_solution, ReferenceSolution};

struct Parsed {
    pressures: HashMap<String, f64>,
    flows: HashMap<String, f64>,
}

fn floats(v: &[(String, String)]) -> HashMap<String, f64> {
    v.iter().map(|(k, x)| (k.clone(), x.parse().unwrap())).collect()
}

fn parsed(s: ReferenceSolution) -> Parsed {
    Parsed { pressures: floats(&s.pressures), flows: floats(&s.flows) }
}

#[test]
fn test_parse_text_solution_csv_like() {
    let raw = r#"
node,N1,70.0
node,N2,65.5
pipe,P1,10.2
id,node,0.0
"#;
    let parsed = parsed(parse_reference_solution_from_str(raw).expect("text solution parsing"));
    assert_eq!(parsed.pressures.get("N1"), Some(&70.0));
    assert_eq!(parsed.pressures.get("N2"), Some(&65.5));
    assert_eq!(parsed.flows.get("P1"), Some(&10.2));
    assert_eq!(parsed.pressures.get("id"), Some(&0.0));
}

#[test]
fn test_parse_text_solution_two_columns_defaults_to_pressure() {
    let raw = "N1 70.0\nN2 68.5\n";
    let parsed = parsed(parse_reference_solution_from_str(raw).expect("text solution parsing"));
    assert_eq!(parsed.pressures.get("N1"), Some(&70.0));
    assert_eq!(parsed.pressures.get("N2"), Some(&68.5));
    assert!(parsed.flows.is_empty());
}

#[test]
fn test_parse_xml_solution() {
    let raw = r#"
<solution>
  <nodes>
    <node id="N1" pressure="70.0"/>
    <node id="N2">
      <pressure value="65.0"/>
    </node>
  </nodes>
  <pipes>
    <pipe id="P1" flow="10.5"/>
    <pipe id="P2">
      <flow value="-2.5"/>
    </pipe>
  </pipes>
</solution>
"#;
    let parsed = parsed(parse_reference_solution_from_str(raw).expect("xml solution parsing"));
    assert_eq!(parsed.pressures.get("N1"), Some(&70.0));
    assert_eq!(parsed.pressures.get("N2"), Some(&65.0));
    assert_eq!(parsed.flows.get("P1"), Some(&10.5));
    assert_eq!(parsed.flows.get("P2"), Some(&-2.5));
}

#[test]
fn test_parse_solution_unsupported_format() {
    let err = parse_reference_solution_from_str("not a solution")
        .expect_err("invalid content should be rejected");
    assert!(err.message().contains("non supporté"), "unexpected error: {err:?}");
}

#[test]
fn text_form_details() {
    let raw = "# comment\r\n// other\r\nN1;1.5\r\nedge  P9  2e1\nN1, 3\n";
    let s = parse_text_solution(raw).expect("text");
    assert_eq!(s.pressures, vec![("N1".to_string(), "3".to_string())]);
    assert_eq!(s.flows, vec![("P9".to_string(), "2e1".to_string())]);
    assert!(parse_text_solution("N1 abc\n").is_none());
    assert!(parse_text_solution("a b c d\n").is_none());
    assert!(parse_text_solution("").is_none());
}

#[test]
fn xml_form_details() {
    let raw = r#"<s><Vertex name="V"><p value="1"/></Vertex><arc arcId="A"><q value="x"/><Flow value="2"/></arc></s>"#;
    let s = parse_xml_solution(raw).expect("xml");
    assert_eq!(s.pressures, vec![("V".to_string(), "1".to_string())]);
    assert_eq!(s.flows, vec![("A".to_string(), "2".to_string())]);
    assert!(parse_xml_solution("<s><node id=\"a&bogus;\" pressure=\"1\"/></s>").is_none());
    assert!(parse_xml_solution("<s></s>").is_none());
}
