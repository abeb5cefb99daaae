use vd_pipeline::collections::NameMap;
use vd_pipeline::resolve::{check_loaded_job, job_format, resolve_job, JobFormat};
use vd_pipeline::schema::{
    ArgValue, Capability, Job, JobContext, JobInput, JobOutput, Step, WorkflowNode, WorkflowPlan,
};

fn job(working_dir: &str, audio: Option<&str>, steps: Vec<Step>) -> Job {
    Job {
        version: 1,
        name: None,
        working_dir: Some(working_dir.to_string()),
        input: JobInput { audio: audio.map(str::to_string) },
        context: JobContext::default(),
        output: JobOutput::default(),
        max_parallel: None,
        resources: NameMap::new(),
        continue_on_error: false,
        steps: steps.into_iter().map(WorkflowNode::step).collect(),
    }
}

fn cwd() -> Result<String, String> {
    Ok("/cwd".to_string())
}

fn with_id(mut s: Step, id: &str) -> Step {
    s.id = Some(id.to_string());
    s
}

#[test]
fn unknown_artifact_id_errors() {
    let mut s = Step::new(Capability::FixCasing);
    s.input = Some("missing".to_string());
    let err = resolve_job(job("/tmp", Some("a.ogg"), vec![s]), &cwd()).unwrap_err();
    assert_eq!(err.exit_code(), 2);
    assert!(err.message().contains("unknown artifact id"));
}

#[test]
fn duplicate_id_errors() {
    let t = with_id(Step::new(Capability::Transcribe), "t");
    let mut f = with_id(Step::new(Capability::FixCasing), "t");
    f.input = Some("t".to_string());
    let err = resolve_job(job("/tmp", Some("a.ogg"), vec![t, f]), &cwd()).unwrap_err();
    assert!(err.message().contains("duplicate"));
}

#[test]
fn name_not_used_for_wiring() {
    let mut t = with_id(Step::new(Capability::Transcribe), "transcript");
    t.name = Some("Initial".to_string());
    let mut f = Step::new(Capability::FixCasing);
    f.input = Some("Initial".to_string());
    let err = resolve_job(job("/tmp", Some("a.ogg"), vec![t, f]), &cwd()).unwrap_err();
    assert!(err.message().contains("unknown artifact id"));
}

#[test]
fn inputs_list_sugar() {
    let t = with_id(Step::new(Capability::Transcribe), "transcript");
    let mut f = Step::new(Capability::FixCasing);
    f.inputs = vec!["transcript".to_string()];
    assert!(resolve_job(job("/tmp", Some("a.ogg"), vec![t, f]), &cwd()).is_ok());
}

#[test]
fn postprocess_requires_recipes() {
    let err =
        resolve_job(job("/work", None, vec![Step::new(Capability::Postprocess)]), &cwd()).unwrap_err();
    assert_eq!(err.exit_code(), 2);
    assert!(err.message().contains("recipes"));
}

#[test]
fn postprocess_with_recipes_ok() {
    let mut options = NameMap::new();
    options.insert("recipes".into(), ArgValue::Strings(vec!["./summary.yaml".into()]));
    let mut inputs = NameMap::new();
    inputs.insert("transcript".into(), ArgValue::String("t.txt".into()));
    options.insert("inputs".into(), ArgValue::Mapping(inputs));
    let mut provider = NameMap::new();
    provider.insert("type".into(), ArgValue::String("stub".into()));
    options.insert("provider".into(), ArgValue::Mapping(provider));
    let mut step = with_id(Step::new(Capability::Postprocess), "summary");
    step.options = options;
    resolve_job(job("/work", None, vec![step]), &cwd())
        .expect("postprocess with recipes should resolve");
}

#[test]
fn relative_paths_join_working_dir() {
    let mut j = job(
        "/work",
        Some("meeting.ogg"),
        vec![with_id(Step::new(Capability::Transcribe), "transcript"), Step::new(Capability::PrepareContext)],
    );
    j.context = JobContext { docs: Some("docs".to_string()), assets: None };
    let resolved = resolve_job(j, &cwd()).unwrap();
    assert_eq!(resolved.working_dir, "/work");
    assert_eq!(resolved.steps[0].input.as_deref(), Some("/work/meeting.ogg"));
    assert_eq!(resolved.steps[1].input.as_deref(), Some("/work/docs"));
}

#[test]
fn diarize_resolves_from_audio() {
    let resolved =
        resolve_job(job("/work", Some("meeting.wav"), vec![Step::new(Capability::Diarize)]), &cwd())
            .unwrap();
    assert_eq!(resolved.steps[0].input.as_deref(), Some("/work/meeting.wav"));
}

#[test]
fn whisper_engine_is_reserved() {
    let mut t = Step::new(Capability::Transcribe);
    t.options.insert("engine".into(), ArgValue::String("whisper".into()));
    let err = resolve_job(job("/work", Some("a.wav"), vec![t]), &cwd()).unwrap_err();
    assert_eq!(err.exit_code(), 2);
    assert!(err.message().to_lowercase().contains("whisper"));
}

#[test]
fn relative_working_dir_joins_cwd() {
    let resolved =
        resolve_job(job("proj", Some("a.wav"), vec![Step::new(Capability::Transcribe)]), &cwd())
            .unwrap();
    assert_eq!(resolved.working_dir, "/cwd/proj");
    assert_eq!(resolved.plan, WorkflowPlan::Sequence(vec![WorkflowPlan::Leaf(0)]));
    assert_eq!(resolved.order, vec![0]);
}

#[test]
fn cycle_is_refused() {
    let mut a = with_id(Step::new(Capability::Transcribe), "a");
    a.depends = vec!["b".to_string()];
    let mut b = with_id(Step::new(Capability::Diarize), "b");
    b.depends = vec!["a".to_string()];
    let err = resolve_job(job("/w", Some("x.wav"), vec![a, b]), &cwd()).unwrap_err();
    assert!(err.message().contains("cycle"));
}

#[test]
fn empty_steps_rejected() {
    let err = check_loaded_job(job("/w", None, vec![])).unwrap_err();
    assert!(err.message().contains("no steps"));
}

#[test]
fn job_version_and_format_checks() {
    let mut j = job("/w", None, vec![Step::new(Capability::Transcribe)]);
    j.version = 2;
    let err = check_loaded_job(j).unwrap_err();
    assert_eq!(err.message(), "unsupported job version: 2 (expected 1)");
    assert_eq!(job_format("a/job.YAML").unwrap(), JobFormat::Yaml);
    assert_eq!(job_format("job.yml").unwrap(), JobFormat::Yaml);
    assert_eq!(job_format("job.json").unwrap(), JobFormat::Json);
    let err = job_format("job.toml").unwrap_err();
    assert_eq!(err.exit_code(), 2);
    assert_eq!(err.message(), "unsupported job file extension: toml (use .yaml / .yml / .json)");
}

#[test]
fn leaf_order_releases_waiting_leaves_after_their_last_source() {
    let mut a = with_id(Step::new(Capability::Transcribe), "a");
    a.depends = vec!["c".to_string()];
    let b = with_id(Step::new(Capability::Diarize), "b");
    let c = with_id(Step::new(Capability::Diarize), "c");
    let resolved = resolve_job(job("/w", Some("x.wav"), vec![a, b, c]), &cwd()).unwrap();
    assert_eq!(resolved.order, vec![1, 2, 0]);
}
