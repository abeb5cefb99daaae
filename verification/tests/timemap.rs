use vd_pipeline::collections::NameMap;
use vd_pipeline::timemap::{is_timeline_path, remap_kind, timeline_sidecars, timeline_targets, RemapKind};

#[test]
fn timeline_files_are_recognised() {
    assert!(is_timeline_path("/w/a.SEGMENTS.json"));
    assert!(is_timeline_path("/w/a.srt"));
    assert!(is_timeline_path("/w/a.timemap.json"));
    assert!(!is_timeline_path("/w/a.txt"));
    assert_eq!(remap_kind("/w/a.timemap.json"), RemapKind::Skip);
    assert_eq!(remap_kind("/w/a.segments.json"), RemapKind::Segments);
    assert_eq!(remap_kind("/w/segment-list.json"), RemapKind::Segments);
    assert_eq!(remap_kind("/w/a.SRT"), RemapKind::Srt);
    assert_eq!(remap_kind("/w/a.vtt"), RemapKind::Skip);
}

#[test]
fn targets_collect_named_sidecars_and_srt_primary_once() {
    assert_eq!(
        timeline_sidecars("/w/a.txt"),
        vec!["/w/a.segments.json".to_string(), "/w/a.srt".to_string(), "/w/a.vtt".to_string()]
    );
    let mut named = NameMap::new();
    named.insert("segments".to_string(), "/w/a.segments.json".to_string());
    named.insert("text".to_string(), "/w/a.txt".to_string());
    let t = timeline_targets("/w/a.txt", &named, &vec![true, false, true]);
    assert_eq!(t, vec!["/w/a.segments.json".to_string(), "/w/a.vtt".to_string()]);
    let t = timeline_targets("/w/b.srt", &NameMap::new(), &vec![false, true, false]);
    assert_eq!(t, vec!["/w/b.srt".to_string()]);
}
