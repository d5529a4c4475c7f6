use gazflow::field_path::{field_path_steps, PathStep};

fn key(s: &str) -> PathStep<String> {
    PathStep::Key(s.to_string())
}

#[test]
fn keys_and_indexes() {
    assert_eq!(field_path_steps("properties.name"), Some(vec![key("properties"), key("name")]));
    assert_eq!(
        field_path_steps("geometry.coordinates[0]"),
        Some(vec![key("geometry"), key("coordinates"), PathStep::Index(0)])
    );
    assert_eq!(field_path_steps("[3].x"), Some(vec![PathStep::Index(3), key("x")]));
    assert_eq!(field_path_steps("a[+2]]]"), Some(vec![key("a"), PathStep::Index(2)]));
}

#[test]
fn empty_pieces_are_keys() {
    assert_eq!(field_path_steps(""), Some(vec![key("")]));
    assert_eq!(field_path_steps("a..b"), Some(vec![key("a"), key(""), key("b")]));
    assert_eq!(field_path_steps("a."), Some(vec![key("a"), key("")]));
}

#[test]
fn indexes_must_be_numbers() {
    assert_eq!(field_path_steps("a[x]"), None);
    assert_eq!(field_path_steps("a[1][2]"), None);
    assert_eq!(field_path_steps("a[]"), None);
    assert_eq!(field_path_steps("a[-1]"), None);
    assert_eq!(field_path_steps("ok.b[99999999999999999999999]"), None);
}
