use std::time::{Duration, UNIX_EPOCH};

use vd_pipeline::collections::NameMap;
use vd_pipeline::report::{
    backend_from_options, critical_path_ms, duration_ms, format_rfc3339, format_rfc3339_parts,
    job_status, model_from_options, work_sum_ms, JobReportStatus, StepReport, StepReportStatus,
};
use vd_pipeline::schema::ArgValue;

#[test]
fn rfc3339_epoch() {
    let t = UNIX_EPOCH + Duration::from_secs(0);
    assert_eq!(format_rfc3339(t), "1970-01-01T00:00:00.000Z");
}

#[test]
fn rfc3339_known() {
    let t = UNIX_EPOCH + Duration::from_secs(1_785_664_800);
    assert_eq!(format_rfc3339(t), "2026-08-02T10:00:00.000Z");
}

#[test]
fn rfc3339_keeps_milliseconds_and_leap_days() {
    let t = UNIX_EPOCH + Duration::from_millis(951_782_400_123);
    assert_eq!(format_rfc3339(t), "2000-02-29T00:00:00.123Z");
    assert_eq!(format_rfc3339_parts(86_399, 999), "1970-01-01T23:59:59.999Z");
}

#[test]
fn rfc3339_before_epoch_reads_as_epoch() {
    let t = UNIX_EPOCH - Duration::from_secs(10);
    assert_eq!(format_rfc3339(t), "1970-01-01T00:00:00.000Z");
}

#[test]
fn backend_prefers_engine() {
    let mut opts = NameMap::new();
    opts.insert("engine".into(), ArgValue::String("gigaam".into()));
    opts.insert("provider".into(), ArgValue::String("openai".into()));
    assert_eq!(backend_from_options(&opts).as_deref(), Some("gigaam"));
}

#[test]
fn backend_nested_provider() {
    let mut nested = NameMap::new();
    nested.insert("provider".into(), ArgValue::String("stub".into()));
    nested.insert("model".into(), ArgValue::String("det-v1".into()));
    let mut opts = NameMap::new();
    opts.insert("backend".into(), ArgValue::Mapping(nested));
    assert_eq!(backend_from_options(&opts).as_deref(), Some("stub"));
    assert_eq!(model_from_options(&opts).as_deref(), Some("det-v1"));
}

#[test]
fn duration_ms_counts_whole_milliseconds() {
    assert_eq!(duration_ms(Duration::from_millis(1500)), 1500);
    assert_eq!(duration_ms(Duration::from_micros(2999)), 2);
    assert_eq!(duration_ms(Duration::from_secs(u64::MAX)), u64::MAX);
}

fn step(ms: u64) -> StepReport {
    StepReport {
        id: "s".into(),
        capability: "transcribe".into(),
        name: None,
        status: StepReportStatus::Completed,
        queued_at: String::new(),
        started_at: String::new(),
        finished_at: String::new(),
        duration_ms: ms,
        backend: None,
        model: None,
        phases: vec![],
        inputs: vec![],
        outputs: vec![],
    }
}

#[test]
fn critical_path_and_work_sum() {
    let steps = vec![step(48_000), step(12_000), step(30_000)];
    assert_eq!(critical_path_ms(&steps), 48_000);
    assert_eq!(work_sum_ms(&steps), 90_000);
    assert_eq!(critical_path_ms(&vec![]), 0);
    assert_eq!(job_status(true), JobReportStatus::Failed);
    assert_eq!(job_status(false), JobReportStatus::Completed);
}

#[test]
fn calendar_rolls_over_years_and_skips_century_leap_days() {
    assert_eq!(format_rfc3339_parts(946_684_799, 999), "1999-12-31T23:59:59.999Z");
    assert_eq!(format_rfc3339_parts(4_107_456_000, 0), "2100-02-28T00:00:00.000Z");
    assert_eq!(format_rfc3339_parts(4_107_542_400, 0), "2100-03-01T00:00:00.000Z");
}
