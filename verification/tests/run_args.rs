use vd_pipeline::cli::{
    normalize_argv, validate_run, CliProgress, ProgressMode, RunArgs, RunCli,
};

fn cli() -> RunCli {
    RunCli {
        input: None,
        file: None,
        job_positional: None,
        asr: "gigaam".to_string(),
        model: None,
        device: None,
        flash: false,
        docs: None,
        output_dir: None,
        working_dir: None,
        dry_run: false,
        json: false,
        progress: None,
        quiet: false,
        continue_on_error: false,
        overwrite: false,
        report: None,
        report_dir: None,
    }
}

fn run_args(interactive: bool, dry_run: bool) -> RunArgs {
    RunArgs {
        input: Some("test.wav".to_string()),
        job_file: None,
        asr: "whisper".to_string(),
        model: None,
        device: None,
        flash: false,
        docs: None,
        output_dir: None,
        working_dir: None,
        dry_run,
        json: false,
        progress: None,
        quiet: false,
        continue_on_error: false,
        overwrite: false,
        report: None,
        report_dir: None,
        interactive,
    }
}

#[test]
fn non_interactive_preserves_input() {
    let run_args = run_args(false, true);
    assert_eq!(run_args.input, Some("test.wav".to_string()));
    assert!(!run_args.interactive);
}

#[test]
fn interactive_flag_set() {
    let run_args = run_args(true, false);
    assert!(run_args.interactive);
    assert_eq!(run_args.input, Some("test.wav".to_string()));
}

fn argv(parts: &[&str]) -> Vec<String> {
    let mut v = vec!["vd-pipeline".to_string()];
    v.extend(parts.iter().map(|s| s.to_string()));
    v
}

#[test]
fn shorthand_input_inserts_run() {
    assert_eq!(normalize_argv(argv(&["-i", "meeting.ogg"])), argv(&["run", "-i", "meeting.ogg"]));
    assert_eq!(normalize_argv(argv(&["config", "list"])), argv(&["config", "list"]));
    assert_eq!(normalize_argv(argv(&[])), argv(&[]));
    let mut c = cli();
    c.input = Some("meeting.ogg".to_string());
    let r = validate_run(c).unwrap();
    assert_eq!(r.input, Some("meeting.ogg".to_string()));
    assert!(r.job_file.is_none());
}

#[test]
fn run_with_asr_model_docs() {
    let mut c = cli();
    c.input = Some("a.ogg".to_string());
    c.model = Some("v3_e2e_ctc".to_string());
    c.device = Some("metal".to_string());
    c.flash = true;
    c.docs = Some("./docs".to_string());
    c.dry_run = true;
    c.json = true;
    c.progress = Some(CliProgress::Json);
    let r = validate_run(c).unwrap();
    assert_eq!(r.asr, "gigaam");
    assert_eq!(r.model.as_deref(), Some("v3_e2e_ctc"));
    assert_eq!(r.device.as_deref(), Some("metal"));
    assert!(r.flash);
    assert_eq!(r.docs, Some("./docs".to_string()));
    assert!(r.dry_run && r.json);
    assert_eq!(r.progress, Some(ProgressMode::Json));
}

#[test]
fn job_file_and_input_conflict() {
    let mut c = cli();
    c.input = Some("a.ogg".to_string());
    c.job_positional = Some("job.yaml".to_string());
    let err = validate_run(c).unwrap_err();
    assert_eq!(err.exit_code(), 2);
    assert!(err.message().contains("mutually exclusive"));
}

#[test]
fn json_requires_dry_run() {
    let mut c = cli();
    c.input = Some("a.ogg".to_string());
    c.json = true;
    let err = validate_run(c).unwrap_err();
    assert_eq!(err.exit_code(), 2);
}

#[test]
fn cli_missing_input_exit_3() {
    let err = validate_run(cli()).unwrap_err();
    assert_eq!(err.exit_code(), 3);
}

#[test]
fn positional_job_file() {
    let mut c = cli();
    c.job_positional = Some("job.yaml".to_string());
    c.dry_run = true;
    let r = validate_run(c).unwrap();
    assert_eq!(r.job_file, Some("job.yaml".to_string()));
    assert!(r.input.is_none());
}

#[test]
fn report_flag_parses() {
    let mut c = cli();
    c.input = Some("a.ogg".to_string());
    c.report = Some("out/report.json".to_string());
    let r = validate_run(c).unwrap();
    assert_eq!(r.report, Some("out/report.json".to_string()));
    assert!(r.report_dir.is_none());
}

#[test]
fn report_and_report_dir_conflict() {
    let mut c = cli();
    c.input = Some("a.ogg".to_string());
    c.report = Some("r.json".to_string());
    c.report_dir = Some("./rep".to_string());
    let err = validate_run(c).unwrap_err();
    assert_eq!(err.exit_code(), 2);
    assert!(err.message().contains("mutually exclusive"));
}

#[test]
fn report_requires_real_run() {
    let mut c = cli();
    c.input = Some("a.ogg".to_string());
    c.dry_run = true;
    c.report = Some("r.json".to_string());
    let err = validate_run(c).unwrap_err();
    assert_eq!(err.exit_code(), 2);
}

#[test]
fn progress_follows_quiet_flag_then_file() {
    let mut a = run_args(false, false);
    assert_eq!(a.effective_progress(Some("json")), ProgressMode::Json);
    assert_eq!(a.effective_progress(Some("bogus")), ProgressMode::Text);
    assert_eq!(a.effective_progress(None), ProgressMode::Text);
    a.progress = Some(ProgressMode::Text);
    assert_eq!(a.effective_progress(Some("json")), ProgressMode::Text);
    a.quiet = true;
    assert_eq!(a.effective_progress(Some("json")), ProgressMode::Quiet);
}

#[test]
fn normalizing_twice_is_normalizing_once() {
    for parts in [vec!["-i", "a.ogg"], vec!["run", "x"], vec!["--help"], vec!["job.yaml"]] {
        let once = normalize_argv(argv(&parts));
        assert_eq!(normalize_argv(once.clone()), once);
    }
}
