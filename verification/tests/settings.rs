use gazflow::settings::{flag_enabled, max_concurrent_simulations, positive_count, rayon_threads, usize_setting};

#[test]
fn switches() {
    assert!(flag_enabled(Some("1")));
    assert!(flag_enabled(Some("TRUE")));
    assert!(flag_enabled(Some("tRuE")));
    assert!(!flag_enabled(Some("yes")));
    assert!(!flag_enabled(Some(" 1")));
    assert!(!flag_enabled(Some("0")));
    assert!(!flag_enabled(None));
}

#[test]
fn counts() {
    assert_eq!(positive_count(Some("4")), Some(4));
    assert_eq!(positive_count(Some("+4")), Some(4));
    assert_eq!(positive_count(Some("0")), None);
    assert_eq!(positive_count(Some("-1")), None);
    assert_eq!(positive_count(Some("x")), None);
    assert_eq!(positive_count(None), None);
    assert_eq!(usize_setting(Some("7"), 5), 7);
    assert_eq!(usize_setting(Some("0"), 5), 0);
    assert_eq!(usize_setting(Some("seven"), 5), 5);
    assert_eq!(usize_setting(None, 5), 5);
}

#[test]
fn concurrency_settings() {
    assert_eq!(max_concurrent_simulations(None, None), 2);
    assert_eq!(max_concurrent_simulations(Some("3"), Some("9")), 3);
    assert_eq!(max_concurrent_simulations(None, Some("9")), 9);
    assert_eq!(max_concurrent_simulations(Some("0"), Some("9")), 2);
    assert_eq!(rayon_threads(Some("6"), None, Some(16), 2), 6);
    assert_eq!(rayon_threads(None, None, Some(16), 3), 5);
    assert_eq!(rayon_threads(None, None, None, 0), 2);
    assert_eq!(rayon_threads(None, Some("x"), Some(1), 4), 1);
}
