use vd_pipeline::status::overall_percent;

#[test]
fn overall_percent_math() {
    assert_eq!(overall_percent(0, 4), 0);
    assert_eq!(overall_percent(1, 4), 25);
    assert_eq!(overall_percent(4, 4), 100);
    assert_eq!(overall_percent(0, 0), 100);
}

#[test]
fn overall_percent_rounds_down_and_caps() {
    assert_eq!(overall_percent(1, 3), 33);
    assert_eq!(overall_percent(2, 3), 66);
    assert_eq!(overall_percent(5, 4), 100);
}
