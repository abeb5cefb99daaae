use vd_pipeline::collections::NameMap;
use vd_pipeline::commands::{
    check_transcribe_engine, command_outcome, compact_step_error, diarize_args,
    fix_args, fix_overlap_args, import_url_result, import_url_source, infer_diarize_output,
    infer_fix_output, infer_gigaam_output, infer_preprocess_output, meeting_md_path,
    postprocess_args, postprocess_primary, preprocess_args, preprocess_chain, progress_env,
    reuse_existing, same_output_as_input, segments_sidecar_for, timemap_beside, tool_for,
    transcribe_args, want_overwrite,
};
use vd_pipeline::exec::{ExecError, InvokeRequest};
use vd_pipeline::schema::{ArgValue, Capability};

fn req(cap: Capability, input: &str, overwrite: bool) -> InvokeRequest {
    let mut options = NameMap::new();
    if overwrite {
        options.insert("overwrite".into(), ArgValue::Bool(true));
    }
    InvokeRequest {
        capability: cap,
        step_id: None,
        working_dir: "/w".to_string(),
        input: input.to_string(),
        output: None,
        output_dir: None,
        context_assets: None,
        options,
        progress_snapshot: None,
        progress_step_base: None,
        progress_step_span: None,
    }
}

fn s(v: &[&str]) -> Vec<String> {
    v.iter().map(|x| x.to_string()).collect()
}

#[test]
fn reuse_existing_skips_when_artifact_present() {
    let input = "/d/igor.transcript.txt";
    let fixed = "/d/igor.transcript.fixed.txt";
    let r = req(Capability::FixAsr, input, false);
    let same = same_output_as_input(fixed, input, false);
    let reused = reuse_existing(&r, fixed, true, same).expect("should reuse");
    assert_eq!(reused.primary_output, fixed);
    assert!(reused.outputs.is_empty());
    assert!(!want_overwrite(&r, same));
}

#[test]
fn reuse_existing_refuses_in_place_fix_chain() {
    let fixed = "/d/igor.transcript.fixed.txt";
    let r = req(Capability::FixAsr, fixed, false);
    let same = same_output_as_input(fixed, fixed, false);
    assert!(reuse_existing(&r, fixed, true, same).is_none());
    assert!(want_overwrite(&r, same));
}

#[test]
fn reuse_existing_honors_explicit_overwrite() {
    let input = "/d/igor.transcript.txt";
    let fixed = "/d/igor.transcript.fixed.txt";
    let r = req(Capability::FixAsr, input, true);
    let same = same_output_as_input(fixed, input, false);
    assert!(reuse_existing(&r, fixed, true, same).is_none());
    assert!(want_overwrite(&r, same));
}

#[test]
fn outputs_are_placed_beside_input_or_in_output_dir() {
    let mut r = req(Capability::FixAsr, "/d/igor.transcript.txt", false);
    assert_eq!(infer_fix_output(&r), "/d/.voxdecoder/work/igor.transcript.fixed.txt");
    r.input = "/d/igor.fixed.md".to_string();
    r.output_dir = Some("/out".to_string());
    assert_eq!(infer_fix_output(&r), "/out/igor.fixed.md");
    assert_eq!(infer_gigaam_output(&r), "/out/igor.fixed.txt");
    assert_eq!(infer_diarize_output(&r), "/out/igor.fixed.diarization.json");
    r.output = Some("/x/named.txt".to_string());
    assert_eq!(infer_fix_output(&r), "/x/named.txt");
    let mut p = req(Capability::Preprocess, "/d/meeting.ogg", false);
    assert_eq!(infer_preprocess_output(&p), "/d/.voxdecoder/work/meeting.prepared.ogg");
    p.input = "/d/meeting.MP4".to_string();
    assert_eq!(infer_preprocess_output(&p), "/d/.voxdecoder/work/meeting.prepared.wav");
    let mut f = NameMap::new();
    f.insert("type".into(), ArgValue::String("extract-audio".into()));
    p.input = "/d/meeting.ogg".to_string();
    p.options.insert("filters".into(), ArgValue::List(vec![ArgValue::Mapping(f)]));
    assert_eq!(infer_preprocess_output(&p), "/d/.voxdecoder/work/meeting.prepared.wav");
}

#[test]
fn sidecars_sit_beside_their_file() {
    assert_eq!(segments_sidecar_for("/w/a.txt"), "/w/a.segments.json");
    assert_eq!(timemap_beside("/w/a.prepared.wav"), "/w/a.prepared.timemap.json");
    assert_eq!(meeting_md_path("/w/meeting.json"), "/w/meeting.md");
    assert_eq!(meeting_md_path("meeting.json"), "meeting.md");
}

#[test]
fn fix_tool_arguments_by_capability() {
    let mut r = req(Capability::FixAsr, "/d/a.txt", false);
    r.context_assets = Some("/ctx".to_string());
    r.options.insert("language".into(), ArgValue::String("ru".into()));
    assert_eq!(
        fix_args(&r, "/d/a.fixed.txt", false),
        s(&["run", "-i", "/d/a.txt", "-q", "-o", "/d/a.fixed.txt", "-l", "ru", "--context", "/ctx"])
    );
    r.capability = Capability::FixTerms;
    assert_eq!(
        fix_args(&r, "/d/a.txt", true),
        s(&["run", "-i", "/d/a.txt", "-q", "-o", "/d/a.txt", "--overwrite", "-l", "ru", "--terms", "/ctx"])
    );
    let mut l = req(Capability::FixLayout, "/d/a.txt", false);
    l.options.insert("use_timemap".into(), ArgValue::Bool(false));
    l.options.insert("timemap".into(), ArgValue::String("/d/t.json".into()));
    assert_eq!(
        fix_args(&l, "o", false),
        s(&["run", "-i", "/d/a.txt", "-q", "-o", "o", "--no-timemap"])
    );
    l.options.insert("use_timemap".into(), ArgValue::Bool(true));
    assert_eq!(
        fix_args(&l, "o", false),
        s(&["run", "-i", "/d/a.txt", "-q", "-o", "o", "--timemap", "/d/t.json"])
    );
    assert_eq!(
        fix_overlap_args(&req(Capability::FixOverlap, "m.json", false), "m.json", true),
        s(&["run", "-i", "m.json", "-q", "-o", "m.json", "--apply", "--overwrite"])
    );
}

#[test]
fn diarize_backend_forms() {
    let mut r = req(Capability::Diarize, "a.wav", false);
    let mut b = NameMap::new();
    b.insert("provider".into(), ArgValue::String("stub".into()));
    b.insert("model".into(), ArgValue::String("deterministic-v1".into()));
    r.options.insert("backend".into(), ArgValue::Mapping(b));
    r.options.insert("device".into(), ArgValue::String("cpu".into()));
    assert_eq!(
        diarize_args(&r, "t.json", false),
        s(&["run", "-i", "a.wav", "-q", "-o", "t.json", "--backend", "stub", "-m", "deterministic-v1", "--device", "cpu"])
    );
    let mut f = req(Capability::Diarize, "a.wav", true);
    f.options.insert("backend".into(), ArgValue::String("pyannote".into()));
    assert_eq!(
        diarize_args(&f, "t.json", false),
        s(&["run", "-i", "a.wav", "-q", "-o", "t.json", "--backend", "pyannote", "--overwrite"])
    );
}

#[test]
fn transcribe_engine_gate_and_arguments() {
    let mut r = req(Capability::Transcribe, "a.wav", false);
    assert!(check_transcribe_engine(&r.options).is_ok());
    r.options.insert("engine".into(), ArgValue::String("whisper".into()));
    match check_transcribe_engine(&r.options) {
        Err(ExecError::Reserved(m)) => assert!(m.contains("whisper is reserved")),
        other => panic!("unexpected {other:?}"),
    }
    r.options.insert("engine".into(), ArgValue::String("vosk".into()));
    match check_transcribe_engine(&r.options) {
        Err(ExecError::Step(m)) => assert_eq!(m, "unknown transcribe engine: vosk"),
        other => panic!("unexpected {other:?}"),
    }
    let mut t = req(Capability::Transcribe, "a.wav", false);
    t.options.insert("flash".into(), ArgValue::Bool(true));
    t.options.insert("segments".into(), ArgValue::Bool(true));
    t.options.insert("model".into(), ArgValue::String("v3".into()));
    assert_eq!(
        transcribe_args(&t, "a.txt", false, false),
        s(&["run", "-i", "a.wav", "-q", "-o", "a.txt", "-m", "v3", "--flash", "--segments"])
    );
    assert_eq!(
        transcribe_args(&t, "a.txt", false, true),
        s(&["run", "-i", "a.wav", "-q", "-o", "a.txt", "-m", "v3", "--segments"])
    );
}

#[test]
fn preprocess_chain_sources() {
    let mut r = req(Capability::Preprocess, "a.ogg", false);
    match preprocess_chain(&r.options) {
        Err(ExecError::Step(m)) => assert_eq!(m, "preprocess requires options.filters or options.chain"),
        other => panic!("unexpected {other:?}"),
    }
    r.options.insert("filters".into(), ArgValue::List(vec![ArgValue::String("mono".into())]));
    match preprocess_chain(&r.options) {
        Err(ExecError::Step(m)) => assert_eq!(m, "preprocess filters entries must be maps"),
        other => panic!("unexpected {other:?}"),
    }
    r.options.insert("filters".into(), ArgValue::List(vec![ArgValue::Mapping(NameMap::new())]));
    assert_eq!(preprocess_chain(&r.options).unwrap(), None);
    r.options.insert("chain".into(), ArgValue::String("c.yaml".into()));
    assert_eq!(preprocess_chain(&r.options).unwrap(), Some("c.yaml".to_string()));
    assert_eq!(
        preprocess_args(&r, "c.yaml", "p.wav", false),
        s(&["run", "-q", "-i", "a.ogg", "--provider", "stub", "--chain", "c.yaml", "-o", "p.wav"])
    );
}

#[test]
fn postprocess_arguments() {
    let mut r = req(Capability::Postprocess, "/w/t.txt", false);
    match postprocess_args(&r, false) {
        Err(ExecError::Step(m)) => assert_eq!(m, "postprocess requires options.recipes"),
        other => panic!("unexpected {other:?}"),
    }
    r.options.insert("recipes".into(), ArgValue::Strings(s(&["a.yaml", "b.yaml"])));
    r.output = Some("/o/sum.md".to_string());
    assert_eq!(
        postprocess_args(&r, false).unwrap(),
        s(&["run", "-q", "--input", "input=/w/t.txt", "--recipe", "a.yaml", "--recipe", "b.yaml", "--runner", "stub", "-d", "/o"])
    );
    let mut inputs = NameMap::new();
    inputs.insert("transcript".into(), ArgValue::String("/w/t.txt".into()));
    inputs.insert("meeting".into(), ArgValue::String("/w/m.json".into()));
    r.options.insert("inputs".into(), ArgValue::Mapping(inputs));
    let mut runner = NameMap::new();
    runner.insert("type".into(), ArgValue::String("llm".into()));
    runner.insert("model".into(), ArgValue::String("m1".into()));
    r.options.insert("provider".into(), ArgValue::Mapping(runner));
    let mut vars = NameMap::new();
    vars.insert("lang".into(), ArgValue::String("ru".into()));
    r.options.insert("variables".into(), ArgValue::Mapping(vars));
    r.options.insert("recipes".into(), ArgValue::String("one.yaml".into()));
    assert_eq!(
        postprocess_args(&r, false).unwrap(),
        s(&["run", "-q", "--input", "meeting=/w/m.json", "--input", "transcript=/w/t.txt", "--recipe", "one.yaml", "--runner", "llm", "-m", "m1", "--var", "lang=ru", "-d", "/o"])
    );
    assert_eq!(postprocess_primary(&r), "/o/sum.md");
    r.output = None;
    assert_eq!(postprocess_primary(&r), "/w");
}

#[test]
fn import_url_source_and_result() {
    let mut r = req(Capability::ImportUrl, "https://example.org/v", false);
    assert_eq!(import_url_source(&r).unwrap(), "https://example.org/v");
    r.input = "/local/file".to_string();
    match import_url_source(&r) {
        Err(ExecError::Step(m)) => assert_eq!(m, "import-url requires options.url or http(s) input"),
        other => panic!("unexpected {other:?}"),
    }
    let got = import_url_result("/i", &vec![false, true, true, false, false], true, false).unwrap();
    assert_eq!(got.primary_output, "/i/audio.wav");
    assert_eq!(got.outputs.get("metadata").map(String::as_str), Some("/i/metadata.yaml"));
    assert!(got.outputs.get("subtitle").is_none());
    let meta = import_url_result("/i", &vec![false; 5], true, true).unwrap();
    assert_eq!(meta.primary_output, "/i/metadata.yaml");
    assert_eq!(meta.outputs.get("subtitle").map(String::as_str), Some("/i/subtitles.vtt"));
    match import_url_result("/i", &vec![false; 5], false, true) {
        Err(ExecError::Step(m)) => assert_eq!(m, "import-url produced no artifacts"),
        other => panic!("unexpected {other:?}"),
    }
}

#[test]
fn failure_text_is_compacted() {
    let raw = "ffmpeg version 6\r\n  error: bad input  \nframe=1\n\nsecond\n";
    assert_eq!(compact_step_error(raw), "error: bad input\nsecond");
    let many: String = (0..30).map(|i| format!("line {i}\n")).collect();
    let c = compact_step_error(&many);
    assert!(c.starts_with("line 10\n") && c.ends_with("line 29"));
    let long = "x".repeat(2000);
    let c = compact_step_error(&long);
    assert_eq!(c, format!("…{}", "x".repeat(1500)));
    // 2001 bytes: the last 1500 would begin inside a two-byte letter, so the tail starts
    // at the next letter and holds 1499 bytes.
    let cyr = format!("{}a", "я".repeat(1000));
    assert_eq!(compact_step_error(&cyr), format!("…{}a", "я".repeat(749)));
    let even = "я".repeat(1001);
    assert_eq!(compact_step_error(&even), format!("…{}", "я".repeat(750)));
}

#[test]
fn command_outcomes() {
    assert!(command_outcome("vd-x", true, Some(0), "", "", false).is_ok());
    match command_outcome("/bin/vd-x", false, Some(3), "  boom \n", "out", false) {
        Err(ExecError::Step(m)) => assert_eq!(m, "/bin/vd-x exited 3: boom"),
        other => panic!("unexpected {other:?}"),
    }
    match command_outcome("vd-x", false, None, "", "", false) {
        Err(ExecError::Step(m)) => assert_eq!(m, "vd-x exited 1"),
        other => panic!("unexpected {other:?}"),
    }
    match command_outcome("vd-x", false, Some(-2), "", "stdout says", false) {
        Err(ExecError::Step(m)) => assert_eq!(m, "vd-x exited -2: stdout says"),
        other => panic!("unexpected {other:?}"),
    }
    assert!(command_outcome("vd-x", false, Some(1), "error: output already exists", "", true).is_ok());
    assert!(command_outcome("vd-x", false, Some(1), "error: output already exists", "", false).is_err());
}

#[test]
fn progress_environment() {
    let mut r = req(Capability::Transcribe, "a.wav", false);
    assert!(progress_env(&r).is_empty());
    r.progress_snapshot = Some("/tmp/p.json".to_string());
    r.progress_step_base = Some(25);
    r.progress_step_span = Some(50);
    assert_eq!(
        progress_env(&r),
        vec![
            ("VD_PROGRESS_SNAPSHOT".to_string(), "/tmp/p.json".to_string()),
            ("VD_PROGRESS_STEP_BASE".to_string(), "25".to_string()),
            ("VD_PROGRESS_STEP_SPAN".to_string(), "50".to_string()),
        ]
    );
}

#[test]
fn tools_by_capability() {
    assert_eq!(tool_for(Capability::Transcribe), Some("vd-gigaam"));
    assert_eq!(tool_for(Capability::FixLayout), Some("vd-fix-layout"));
    assert_eq!(tool_for(Capability::MeetingMerge), None);
    assert_eq!(tool_for(Capability::ImportUrl), Some("vd-url"));
}

#[test]
fn fix_chain_rewrites_one_file() {
    let mut r = req(Capability::FixCasing, "/d/igor.fixed.fixed.txt", false);
    r.output_dir = Some("/o".to_string());
    let first = infer_fix_output(&r);
    assert_eq!(first, "/o/igor.fixed.fixed.txt");
    r.input = first.clone();
    assert_eq!(infer_fix_output(&r), first);
    let mut q = req(Capability::FixAsr, "/d/notes", false);
    q.output_dir = Some("/o/".to_string());
    let first = infer_fix_output(&q);
    assert_eq!(first, "/o/notes.fixed.txt");
    q.input = first.clone();
    assert_eq!(infer_fix_output(&q), first);
}

#[test]
fn existing_output_is_reused_or_overwritten() {
    for overwrite in [false, true] {
        for same in [false, true] {
            let r = req(Capability::FixAsr, "/d/a.txt", overwrite);
            assert_ne!(reuse_existing(&r, "/d/a.txt", true, same).is_some(), want_overwrite(&r, same));
        }
    }
}

#[test]
fn missing_output_is_never_reused() {
    let r = req(Capability::FixAsr, "/d/a.txt", false);
    assert!(reuse_existing(&r, "/d/a.fixed.txt", false, false).is_none());
}
