use vd_pipeline::prune::parse_duration;

#[test]
fn parses_common_units() {
    assert_eq!(parse_duration("7d"), Some(7 * 86400));
    assert_eq!(parse_duration("24h"), Some(24 * 3600));
    assert_eq!(parse_duration("1w"), Some(604800));
    assert_eq!(parse_duration("30m"), Some(30 * 60));
    assert_eq!(parse_duration("45s"), Some(45));
}

#[test]
fn bare_number_defaults_to_seconds() {
    assert_eq!(parse_duration("100"), Some(100));
}

#[test]
fn rejects_unknown_unit() {
    assert_eq!(parse_duration("7x"), None);
}

#[test]
fn rejects_garbage() {
    assert_eq!(parse_duration(""), None);
    assert_eq!(parse_duration("abc"), None);
}

#[test]
fn default_cli_value_parses() {
    assert_eq!(parse_duration("7d"), Some(604800));
}

#[test]
fn duration_too_large_for_seconds_is_refused() {
    assert_eq!(parse_duration("18446744073709551615"), Some(u64::MAX));
    assert_eq!(parse_duration("18446744073709551615w"), None);
    assert_eq!(parse_duration("3w"), Some(3 * 604800));
}
