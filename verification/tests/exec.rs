use vd_pipeline::artifacts::ArtifactRegistry;
use vd_pipeline::collections::NameMap;
use vd_pipeline::exec::{
    dry_run_text, fail_leaf, finish_leaf, merge_branches, plan_leaf, resolve_postprocess_inputs,
    run_outcome, skip_leaf, BranchOutcome, ExecError, InvokeResult, LeafPlan, RunState,
};
use vd_pipeline::report::{ArtifactStat, StepReportStatus};
use vd_pipeline::resolve::resolve_job;
use vd_pipeline::schema::{
    ArgValue, Capability, Job, JobContext, JobInput, JobOutput, ResolvedJob, Step, WorkflowNode,
};

fn job(steps: Vec<WorkflowNode>) -> Job {
    Job {
        version: 1,
        name: Some("meeting".to_string()),
        working_dir: Some("/w".to_string()),
        input: JobInput { audio: Some("a.wav".to_string()) },
        context: JobContext::default(),
        output: JobOutput::default(),
        max_parallel: None,
        resources: NameMap::new(),
        continue_on_error: false,
        steps,
    }
}

fn resolved(steps: Vec<Step>) -> ResolvedJob {
    resolve_job(job(steps.into_iter().map(WorkflowNode::from).collect()), &Ok("/".to_string()))
        .unwrap()
}

fn stat(p: &str) -> ArtifactStat {
    ArtifactStat { path: p.to_string(), bytes: None }
}

fn ok(primary: &str) -> Result<InvokeResult, ExecError> {
    Ok(InvokeResult { primary_output: primary.to_string(), outputs: NameMap::new() })
}

#[test]
fn leaf_without_input_runs_on_previous_output() {
    let mut t = Step::new(Capability::Transcribe);
    t.id = Some("t".to_string());
    t.options.insert("model".into(), ArgValue::String("v3".into()));
    let r = resolved(vec![t, Step::new(Capability::FixCasing)]);
    let mut state = RunState::new();
    let req = match plan_leaf(&state, &r, 0) {
        LeafPlan::Invoke(req) => req,
        other => panic!("unexpected {other:?}"),
    };
    assert_eq!(req.input, "/w/a.wav");
    assert_eq!(req.options.get("model"), Some(&ArgValue::String("v3".into())));
    assert_eq!(req.step_id.as_deref(), Some("t"));
    let done = finish_leaf(&mut state, &r.steps[0], &req.input, ok("/w/a.txt"), false, "q".into(), "f".into(), 7, stat);
    assert!(done.is_ok());
    assert_eq!(state.completed, 1);
    assert_eq!(state.artifacts.path("t").as_deref(), Some("/w/a.txt"));
    assert_eq!(state.step_reports[0].status, StepReportStatus::Completed);
    assert_eq!(state.step_reports[0].duration_ms, 7);
    assert_eq!(state.step_reports[0].outputs[0].path, "/w/a.txt");
    match plan_leaf(&state, &r, 1) {
        LeafPlan::Invoke(req) => assert_eq!(req.input, "/w/a.txt"),
        other => panic!("unexpected {other:?}"),
    }
    assert_eq!(run_outcome(&state).unwrap(), "/w/a.txt");
}

#[test]
fn skipped_leaf_is_recorded_and_counted() {
    let mut t = Step::new(Capability::Transcribe);
    t.skip = true;
    let r = resolved(vec![t]);
    let mut state = RunState::new();
    assert!(matches!(plan_leaf(&state, &r, 0), LeafPlan::Skip));
    skip_leaf(&mut state, &r.steps[0], "now".to_string());
    assert_eq!(state.completed, 1);
    assert_eq!(state.step_reports[0].status, StepReportStatus::Skipped);
    assert!(!state.any_failed);
    match run_outcome(&state) {
        Err(ExecError::Other(m)) => assert_eq!(m, "job produced no output"),
        other => panic!("unexpected {other:?}"),
    }
}

#[test]
fn failed_leaf_stops_unless_continuing() {
    let r = resolved(vec![Step::new(Capability::Transcribe)]);
    let mut state = RunState::new();
    let err = ExecError::Step("boom".into());
    let stop = finish_leaf(&mut state, &r.steps[0], "/w/a.wav", Err(err.clone()), false, "q".into(), "f".into(), 1, stat);
    assert_eq!(stop, Err(err.clone()));
    assert!(state.any_failed);
    assert_eq!(state.completed, 1);
    let mut state2 = RunState::new();
    let go = finish_leaf(&mut state2, &r.steps[0], "/w/a.wav", Err(err.clone()), true, "q".into(), "f".into(), 1, stat);
    assert!(go.is_ok());
    assert!(state2.any_failed);
    assert_eq!(state2.step_reports[0].status, StepReportStatus::Failed);
    let mut state3 = RunState::new();
    let e = fail_leaf(&mut state3, &r.steps[0], err.clone(), Some("/w/a.wav".into()), "t".into(), stat);
    assert_eq!(e, err);
    assert_eq!(state3.step_reports[0].inputs[0].path, "/w/a.wav");
    assert_eq!(state3.completed, 0);
}

#[test]
fn branches_merge_in_order() {
    let mut state = RunState::new();
    let mut a = ArtifactRegistry::new();
    a.insert("x".into(), "media", "/a".into());
    let mut b = ArtifactRegistry::new();
    b.insert("x".into(), "media", "/b".into());
    let branches = vec![
        BranchOutcome { artifacts: a, step_reports: vec![], last_out: Some("/a".into()), any_failed: false, error: None },
        BranchOutcome { artifacts: b, step_reports: vec![], last_out: Some("/b".into()), any_failed: false, error: Some("bad".into()) },
    ];
    let r = merge_branches(&mut state, branches, false);
    assert_eq!(r, Err(ExecError::Step("bad".into())));
    assert_eq!(state.artifacts.path("x").as_deref(), Some("/b"));
    assert_eq!(state.prev.as_deref(), Some("/b"));
    assert!(state.any_failed);
}

#[test]
fn postprocess_inputs_become_paths() {
    let mut options = NameMap::new();
    let mut inputs = NameMap::new();
    inputs.insert("t".into(), ArgValue::String("igor.text".into()));
    inputs.insert("doc".into(), ArgValue::String("notes.md".into()));
    inputs.insert("any".into(), ArgValue::String("room/*".into()));
    options.insert("inputs".into(), ArgValue::Mapping(inputs));
    let mut arts = NameMap::new();
    arts.insert("igor.text".to_string(), "/w/igor.txt".to_string());
    arts.insert("room.text".to_string(), "/w/room.txt".to_string());
    resolve_postprocess_inputs(&mut options, &arts, "/w").unwrap();
    let m = options.get("inputs").and_then(|v| v.as_map()).unwrap();
    assert_eq!(m.get("t"), Some(&ArgValue::String("/w/igor.txt".into())));
    assert_eq!(m.get("doc"), Some(&ArgValue::String("/w/notes.md".into())));
    assert_eq!(m.get("any"), Some(&ArgValue::String("/w/room.txt".into())));
    let mut bad = NameMap::new();
    let mut inputs = NameMap::new();
    inputs.insert("t".into(), ArgValue::String("missing".into()));
    bad.insert("inputs".into(), ArgValue::Mapping(inputs));
    assert_eq!(
        resolve_postprocess_inputs(&mut bad, &arts, "/w").unwrap_err(),
        "postprocess input 't': artifact not produced: missing"
    );
}

#[test]
fn dry_run_lists_leaves_in_plan_shape() {
    let mut t = Step::new(Capability::Transcribe);
    t.id = Some("t".to_string());
    t.options.insert("engine".into(), ArgValue::String("gigaam".into()));
    let r = resolve_job(
        job(vec![
            WorkflowNode::from(t),
            WorkflowNode::parallel(vec![
                WorkflowNode::from(Step::new(Capability::Diarize)),
                WorkflowNode::from(Step::new(Capability::FixCasing)),
            ]),
        ]),
        &Ok("/".to_string()),
    )
    .unwrap();
    let text = dry_run_text(&r);
    assert!(text.contains("1. transcribe [0]  id=t  engine=gigaam"), "{text}");
    assert!(text.contains("parallel:"), "{text}");
    assert!(text.contains("3. fix-casing [1.1]"), "{text}");
}
