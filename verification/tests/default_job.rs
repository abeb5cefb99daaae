use vd_pipeline::defaults::{default_job, is_video_path, DefaultJobArgs};
use vd_pipeline::schema::{ArgValue, Capability, Step, TranscribeEngine};

fn base_args() -> DefaultJobArgs {
    DefaultJobArgs {
        audio: "meeting.ogg".to_string(),
        engine: TranscribeEngine::Gigaam,
        model: None,
        device: None,
        flash: false,
        speed: None,
        docs: None,
        output_dir: None,
        working_dir: None,
        continue_on_error: false,
        overwrite: false,
    }
}

fn find(steps: &[&Step], c: Capability) -> Option<usize> {
    steps.iter().position(|s| s.capability == c)
}

fn filter_type(f: &ArgValue) -> Option<String> {
    f.as_map().and_then(|m| m.get("type")).and_then(|v| v.as_string())
}

#[test]
fn default_always_includes_prepare_context() {
    let job = default_job(&base_args(), false);
    assert!(job.leaf_steps().iter().any(|s| s.capability == Capability::PrepareContext));
    assert_eq!(job.context.docs, Some(".".to_string()));
}

#[test]
fn docs_override_sets_context() {
    let mut args = base_args();
    args.docs = Some("./docs".to_string());
    let job = default_job(&args, false);
    assert!(job.leaf_steps().iter().any(|s| s.capability == Capability::PrepareContext));
    assert_eq!(job.context.docs, Some("./docs".to_string()));
}

#[test]
fn speed_inserts_preprocess_filter() {
    let mut args = base_args();
    args.speed = Some("2".to_string());
    let job = default_job(&args, false);
    let steps = job.leaf_steps();
    let prep = steps[find(&steps, Capability::Preprocess).expect("preprocess")];
    let filters = prep.options.get("filters").and_then(|v| v.as_list()).expect("filters list");
    let has_speed = filters.iter().any(|f| filter_type(f).as_deref() == Some("speed"));
    assert!(has_speed, "expected speed filter in preprocess chain");
}

#[test]
fn video_input_prepends_extract_audio_with_ffmpeg() {
    let mut args = base_args();
    args.audio = "meeting.mp4".to_string();
    let job = default_job(&args, false);
    let steps = job.leaf_steps();
    let prep = steps[find(&steps, Capability::Preprocess).expect("preprocess")];
    assert_eq!(
        prep.options.get("provider").and_then(|v| v.as_string()).as_deref(),
        Some("ffmpeg")
    );
    let filters = prep.options.get("filters").and_then(|v| v.as_list()).expect("filters list");
    assert_eq!(filter_type(&filters[0]).as_deref(), Some("extract-audio"));
}

#[test]
fn is_video_path_detects_containers() {
    assert!(is_video_path("a.MP4"));
    assert!(is_video_path("a.mkv"));
    assert!(!is_video_path("a.wav"));
    assert!(!is_video_path("a.m4a"));
}

#[test]
fn macos_defaults_device_metal() {
    let job = default_job(&base_args(), true);
    let steps = job.leaf_steps();
    let tx = steps[find(&steps, Capability::Transcribe).expect("transcribe")];
    assert_eq!(tx.options.get("device").and_then(|v| v.as_string()).as_deref(), Some("metal"));
    let job = default_job(&base_args(), false);
    let steps = job.leaf_steps();
    let tx = steps[find(&steps, Capability::Transcribe).expect("transcribe")];
    assert!(tx.options.get("device").is_none());
}

#[test]
fn audio_input_gets_stub_provider_and_four_filters() {
    let job = default_job(&base_args(), false);
    let steps = job.leaf_steps();
    let prep = steps[find(&steps, Capability::Preprocess).expect("preprocess")];
    assert_eq!(prep.options.get("provider").and_then(|v| v.as_string()).as_deref(), Some("stub"));
    let filters = prep.options.get("filters").and_then(|v| v.as_list()).expect("filters list");
    let kinds: Vec<String> = filters.iter().filter_map(filter_type).collect();
    assert_eq!(kinds, vec!["resample", "mono", "trim-silence", "normalize"]);
}
