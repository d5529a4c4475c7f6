use gazflow::datasets::dataset_ids;

fn names(v: &[&str]) -> Vec<String> {
    v.iter().map(|s| s.to_string()).collect()
}

#[test]
fn datasets_are_filtered_and_ordered_by_number() {
    let found = dataset_ids(&names(&[
        "GasLib-582.net",
        "GasLib-11.net",
        "GasLib-582-v2-20211129.net",
        "GasLib-24.cs",
        "README.md",
        "GasLib-abc.net",
        "GasLib-134.net",
        "GasLib-11.net",
    ]));
    assert_eq!(found, names(&["GasLib-11", "GasLib-134", "GasLib-582"]));
}

#[test]
fn odd_dataset_names() {
    let found = dataset_ids(&names(&["GasLib-7.net.net", "GasLib-.net", "GasLib-99999999999.net", "GasLib-3.net"]));
    assert_eq!(found, names(&["GasLib-3", "GasLib-7", "GasLib-", "GasLib-99999999999"]));
}
