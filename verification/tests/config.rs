use vd_pipeline::config::{defaults, parse_bool, FileConfig};

#[test]
fn set_then_get_and_list() {
    let mut c = FileConfig::empty();
    assert_eq!(c.get("progress").unwrap(), "text");
    assert_eq!(c.get("asr").unwrap(), "gigaam");
    assert_eq!(c.get("continue_on_error").unwrap(), "off");
    c.set("progress", "json").unwrap();
    c.set("continue_on_error", "yes").unwrap_err();
    c.set("continue_on_error", "on").unwrap();
    assert_eq!(c.get("progress").unwrap(), "json");
    assert_eq!(c.get("continue_on_error").unwrap(), "on");
    assert_eq!(c.set("asr", "vosk").unwrap_err(), "invalid asr: vosk");
    assert_eq!(c.set("progress", "none").unwrap_err(), "invalid progress: none");
    assert_eq!(c.get("colour").unwrap_err(), "unknown config key: colour");
    assert_eq!(c.list_lines().len(), 3);
    assert!(!defaults().continue_on_error);
}

#[test]
fn flags_round_trip_through_their_text() {
    for v in [true, false] {
        let text = vd_pipeline::config::bool_str(v);
        assert_eq!(parse_bool(text), Ok(v));
    }
    assert_eq!(parse_bool("1"), Ok(true));
    assert_eq!(parse_bool("off"), Ok(false));
    assert!(parse_bool("maybe").is_err());
}

#[test]
fn settings_file_text_round_trip() {
    let mut c = FileConfig::empty();
    c.set("asr", "whisper").unwrap();
    c.set("continue_on_error", "true").unwrap();
    let text = c.to_toml_text();
    assert_eq!(text, "asr = \"whisper\"\ncontinue_on_error = \"on\"\n");
    let back = FileConfig::from_toml_text(&text).unwrap();
    assert_eq!(back, c);
    let typed = FileConfig::from_toml_text("continue_on_error = true\nprogress = \"json\"\nother = 3\n").unwrap();
    assert_eq!(typed.continue_on_error, Some(true));
    assert_eq!(typed.progress.as_deref(), Some("json"));
    assert!(FileConfig::from_toml_text("progress = ").is_err());
}
