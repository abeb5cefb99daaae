use vd_pipeline::collections::NameMap;
use vd_pipeline::exec::InvokeRequest;
use vd_pipeline::meeting::{
    alignment_field, attribute_mix_residual, component_count, display_name, effective_reference,
    failed_participant_track, format_meeting_markdown, has_non_ascii_letter, is_mix_branch_label,
    known_speaker_names, meeting_output, meeting_roster, meeting_tracks, normalize_compare,
    participant_names,
    residual_fallback_name, scrub_mix_branch_labels, speaker_from_text_id, speaker_labels_map,
    weakest_participant, TurnText,
};
use vd_pipeline::schema::{ArgValue, Capability};

fn turn(speaker: &str, text: &str) -> TurnText {
    TurnText { speaker: speaker.to_string(), text: text.to_string() }
}

fn names(v: &[&str]) -> Vec<String> {
    v.iter().map(|x| x.to_string()).collect()
}

#[test]
fn meeting_markdown_speaker_blocks() {
    let turns = vec![turn("Игорь", "Привет"), turn("Владимир", "Здравствуй")];
    let md = format_meeting_markdown(&turns);
    assert_eq!(md, "**Игорь**\nПривет\n\n**Владимир**\nЗдравствуй\n\n");
}

#[test]
fn meeting_markdown_collapses_consecutive_same_speaker() {
    let turns = vec![
        turn("Игорь", "Первый"),
        turn("Игорь", "Второй"),
        turn("Владимир", "Ответ"),
        turn("Игорь", "Снова"),
    ];
    let md = format_meeting_markdown(&turns);
    assert_eq!(md, "**Игорь**\nПервый\n\nВторой\n\n**Владимир**\nОтвет\n\n**Игорь**\nСнова\n\n");
}

#[test]
fn meeting_markdown_skips_blank_turns_and_trims() {
    let turns = vec![turn("a", "  one \n"), turn("b", "   "), turn("a", "two")];
    assert_eq!(format_meeting_markdown(&turns), "**a**\none\n\ntwo\n\n");
    assert_eq!(format_meeting_markdown(&vec![]), "");
}

#[test]
fn known_names_map_id_to_display() {
    let mut igor = NameMap::new();
    igor.insert("name".into(), ArgValue::String("Игорь".into()));
    let mut known = NameMap::new();
    known.insert("igor".into(), ArgValue::Mapping(igor));
    known.insert("anon".into(), ArgValue::Bool(true));
    let mut participants = NameMap::new();
    participants.insert("known".into(), ArgValue::Mapping(known));
    let mut options = NameMap::new();
    options.insert("participants".into(), ArgValue::Mapping(participants));
    let map = known_speaker_names(&options);
    assert_eq!(map.get("igor").map(String::as_str), Some("Игорь"));
    assert_eq!(map.get("anon").map(String::as_str), Some("anon"));
}

#[test]
fn speaker_labels_preserve_cyrillic_display() {
    let mut labels = NameMap::new();
    labels.insert("игорь".into(), ArgValue::String("Игорь".into()));
    labels.insert("empty".into(), ArgValue::String("".into()));
    let mut options = NameMap::new();
    options.insert("speaker_labels".into(), ArgValue::Mapping(labels));
    let map = speaker_labels_map(&options);
    assert_eq!(map.get("игорь").map(String::as_str), Some("Игорь"));
    assert!(map.get("empty").is_none());
}

#[test]
fn display_prefers_non_latin_label_over_latin_known_name() {
    let mut known = NameMap::new();
    known.insert("igor".to_string(), "Igor".to_string());
    let mut labels = NameMap::new();
    labels.insert("igor".to_string(), "Игорь".to_string());
    assert_eq!(display_name("igor", &known, &labels), "Игорь");
    let mut known2 = NameMap::new();
    known2.insert("igor".to_string(), "Игорь Петров".to_string());
    assert_eq!(display_name("igor", &known2, &labels), "Игорь Петров");
    assert_eq!(display_name("x", &NameMap::new(), &NameMap::new()), "x");
    assert!(has_non_ascii_letter("Ёж"));
    assert!(!has_non_ascii_letter("Igor 2 — ok"));
}

#[test]
fn mix_residual_never_keeps_room_label() {
    let participant_turns = vec![
        turn("Владимир", "привет от владимира длинный текст чтобы покрыть"),
        turn("Игорь", "ок"),
    ];
    let mut residual = vec![turn("room", "остаток с микса который не покрыт треками")];
    attribute_mix_residual(&mut residual, &vec![None], &participant_turns, &names(&["Владимир", "Игорь"]));
    assert_ne!(residual[0].speaker, "room");
    assert_eq!(residual[0].speaker, "Игорь");
}

#[test]
fn failed_track_residual_ignores_diarize_steal() {
    let participant_turns = vec![turn("Владимир", &"а".repeat(400)), turn("Николай", "Д.")];
    let mut residual = vec![turn("room", "речь коуча только на миксе")];
    let who = names(&["Владимир", "Николай"]);
    // Diarization alone would credit the strong track.
    attribute_mix_residual(&mut residual, &vec![Some("Владимир".to_string())], &participant_turns, &who);
    assert_eq!(residual[0].speaker, "Николай");
    scrub_mix_branch_labels(&mut residual, &participant_turns, &who);
    assert!(!is_mix_branch_label(&residual[0].speaker));
}

#[test]
fn scrub_rewrites_stray_room_label() {
    let mut turns = vec![turn("room", "ещё остаток")];
    let participants = vec![turn("Владимир", &"x".repeat(250))];
    scrub_mix_branch_labels(&mut turns, &participants, &names(&["Владимир", "Николай"]));
    assert_eq!(turns[0].speaker, "Николай");
}

#[test]
fn diarized_names_are_used_without_a_failed_track() {
    let participant_turns = vec![turn("A", &"a".repeat(300)), turn("B", &"b".repeat(100))];
    let mut residual = vec![turn("room", "x"), turn("merged", "y")];
    let who = names(&["A", "B"]);
    assert_eq!(failed_participant_track(&participant_turns, &who), None);
    assert_eq!(weakest_participant(&participant_turns, &who), Some("B".to_string()));
    attribute_mix_residual(&mut residual, &vec![Some("A".to_string()), None], &participant_turns, &who);
    assert_eq!(residual[0].speaker, "A");
    assert_eq!(residual[1].speaker, "B");
    assert_eq!(residual[1].text, "y");
}

#[test]
fn fallback_names() {
    assert_eq!(residual_fallback_name(&vec![], &names(&["Solo"])), "Solo");
    assert_eq!(residual_fallback_name(&vec![], &names(&[])), "Unknown");
    assert_eq!(residual_fallback_name(&vec![], &names(&["P", "Q"])), "P");
    assert!(is_mix_branch_label("ROOM"));
    assert!(is_mix_branch_label("Merged"));
    assert!(!is_mix_branch_label("roomy"));
}

#[test]
fn roster_lists_each_participant_once_without_mix_labels() {
    let r = meeting_roster(&names(&["A", "B", "A"]), &names(&["B", "room", "C", "C", "Merged"]));
    assert_eq!(r, names(&["A", "B", "C"]));
}

fn merge_req(options: NameMap<ArgValue>) -> InvokeRequest {
    InvokeRequest {
        capability: Capability::MeetingMerge,
        step_id: None,
        working_dir: "/w".to_string(),
        input: "/w/in.txt".to_string(),
        output: None,
        output_dir: None,
        context_assets: None,
        options,
        progress_snapshot: None,
        progress_step_base: None,
        progress_step_span: None,
    }
}

#[test]
fn meeting_output_paths() {
    let mut r = merge_req(NameMap::new());
    assert_eq!(meeting_output(&r), "/w/meeting.json");
    r.options.insert("artifact_stem".into(), ArgValue::String("call".into()));
    r.output_dir = Some("/o".to_string());
    assert_eq!(meeting_output(&r), "/o/call.json");
    r.options.insert("artifact_stem".into(), ArgValue::String("  ".into()));
    r.output = Some("m.json".to_string());
    assert_eq!(meeting_output(&r), "/o/m.json");
    r.output = Some("sub/m.json".to_string());
    assert_eq!(meeting_output(&r), "sub/m.json");
    assert_eq!(component_count("m.json"), 1);
    assert_eq!(component_count("./m.json"), 2);
    assert_eq!(component_count("a/./b/"), 2);
    assert_eq!(component_count("."), 1);
    assert_eq!(component_count(""), 0);
}

#[test]
fn tracks_and_participants() {
    let mut paths = NameMap::new();
    paths.insert("igor.text".into(), ArgValue::String("/w/igor.txt".into()));
    paths.insert("room.fixed".into(), ArgValue::String("/w/room.txt".into()));
    paths.insert("vlad.text".into(), ArgValue::String("/w/vlad.txt".into()));
    paths.insert("skip".into(), ArgValue::Strings(vec![]));
    let mut labels = NameMap::new();
    labels.insert("igor".into(), ArgValue::String("Игорь".into()));
    let mut options = NameMap::new();
    options.insert("text_paths".into(), ArgValue::Mapping(paths));
    options.insert("speaker_labels".into(), ArgValue::Mapping(labels));
    options.insert("mix_text_ids".into(), ArgValue::Strings(vec!["vlad.text".to_string()]));
    let tracks = meeting_tracks(&merge_req(options));
    let got: Vec<(String, String, bool)> =
        tracks.iter().map(|t| (t.speaker.clone(), t.path.clone(), t.is_mix)).collect();
    assert_eq!(
        got,
        vec![
            ("Игорь".to_string(), "/w/igor.txt".to_string(), false),
            ("room".to_string(), "/w/room.txt".to_string(), true),
            ("vlad".to_string(), "/w/vlad.txt".to_string(), true),
        ]
    );
    assert_eq!(participant_names(&tracks), names(&["Игорь"]));
    let fallback = meeting_tracks(&merge_req(NameMap::new()));
    assert_eq!(fallback.len(), 1);
    assert_eq!(fallback[0].speaker, "speaker");
    assert_eq!(fallback[0].path, "/w/in.txt");
    assert_eq!(speaker_from_text_id("a.fixed"), "a");
    assert_eq!(speaker_from_text_id("a.text"), "a");
    assert_eq!(speaker_from_text_id("a.txt"), "a.txt");
}

#[test]
fn reference_and_alignment_settings() {
    assert_eq!(effective_reference(true, true, "auto"), "timeline");
    assert_eq!(effective_reference(false, true, "auto"), "mix");
    assert_eq!(effective_reference(true, true, "mix"), "mix");
    assert_eq!(effective_reference(true, false, "mix"), "none");
    let mut a = NameMap::new();
    a.insert("reference".into(), ArgValue::String("mix".into()));
    let mut o = NameMap::new();
    o.insert("alignment".into(), ArgValue::Mapping(a));
    assert_eq!(alignment_field(&o, "reference", "auto"), "mix");
    assert_eq!(alignment_field(&o, "mode", "longest"), "longest");
    assert_eq!(alignment_field(&NameMap::new(), "reference", "auto"), "auto");
}

#[test]
fn compare_form_keeps_lowercase_words() {
    assert_eq!(normalize_compare("  Hello,  World!  "), "hello world");
    assert_eq!(normalize_compare("a ."), "a");
    assert_eq!(normalize_compare("ПРИВЕТ\tмир 42"), "привет мир 42");
    assert_eq!(normalize_compare(" ... "), "");
}
