use vd_pipeline::artifacts::ArtifactRegistry;
use vd_pipeline::collections::NameMap;
use vd_pipeline::schema::Capability;

#[test]
fn get_after_insert_and_replacement() {
    let mut reg = ArtifactRegistry::new();
    reg.insert("igor.text".into(), "transcript", "/w/igor.txt".into());
    assert_eq!(reg.path("igor.text").as_deref(), Some("/w/igor.txt"));
    reg.insert("igor.text".into(), "transcript", "/w/igor2.txt".into());
    let rec = reg.get("igor.text").unwrap();
    assert_eq!(rec.path, "/w/igor2.txt");
    assert_eq!(rec.kind, "transcript");
    assert!(reg.get("nope").is_none());
}

#[test]
fn publish_step_registers_produced_id_and_named_outputs() {
    let mut reg = ArtifactRegistry::new();
    let mut named = NameMap::new();
    named.insert("segments".to_string(), "/w/a.segments.json".to_string());
    reg.publish_step(
        Capability::Transcribe,
        Some("a.text"),
        &vec!["a.raw".to_string()],
        "/w/a.txt",
        &named,
    );
    assert_eq!(reg.path("a.text").as_deref(), Some("/w/a.txt"));
    assert_eq!(reg.path("a.raw").as_deref(), Some("/w/a.txt"));
    assert_eq!(reg.path("segments").as_deref(), Some("/w/a.segments.json"));
    assert_eq!(reg.get("segments").unwrap().kind, "transcript");
    let paths = reg.paths_map();
    assert_eq!(paths.len(), 3);
    assert_eq!(paths.key_at(0), "a.raw");
}

#[test]
fn wildcard_resolves_first_name_extending_prefix() {
    let mut reg = ArtifactRegistry::new();
    reg.insert("room.text".into(), "transcript", "/w/room.txt".into());
    reg.insert("igor.text".into(), "transcript", "/w/igor.txt".into());
    reg.insert("igor".into(), "media", "/w/igor.wav".into());
    assert_eq!(reg.resolve("igor/*").map(|r| r.path.clone()).as_deref(), Some("/w/igor.txt"));
    assert_eq!(reg.resolve("room.text").map(|r| r.path.clone()).as_deref(), Some("/w/room.txt"));
    assert!(reg.resolve("room").is_none());
    assert!(reg.resolve("bob/*").is_none());
}

#[test]
fn merge_prefers_the_other_registry() {
    let mut a = ArtifactRegistry::new();
    a.insert("x".into(), "media", "/a/x".into());
    a.insert("y".into(), "media", "/a/y".into());
    let mut b = ArtifactRegistry::new();
    b.insert("y".into(), "media", "/b/y".into());
    let copy = a.duplicate();
    a.merge(b);
    assert_eq!(a.path("x").as_deref(), Some("/a/x"));
    assert_eq!(a.path("y").as_deref(), Some("/b/y"));
    assert_eq!(copy.path("y").as_deref(), Some("/a/y"));
    let mut m = NameMap::new();
    m.insert("z".to_string(), "/m/z".to_string());
    a.extend_from_map(&m, "derived");
    assert_eq!(a.get("z").unwrap().kind, "derived");
}

#[test]
fn wildcard_takes_least_extension_else_prefix_itself() {
    let mut reg = ArtifactRegistry::new();
    reg.insert("a.y".into(), "transcript", "/w/a.y".into());
    reg.insert("a".into(), "media", "/w/a".into());
    reg.insert("a.x".into(), "transcript", "/w/a.x".into());
    assert_eq!(reg.resolve("a/*").map(|r| r.path.clone()).as_deref(), Some("/w/a.x"));
    let mut only = ArtifactRegistry::new();
    only.insert("a".into(), "media", "/w/a".into());
    assert_eq!(only.resolve("a/*").map(|r| r.path.clone()).as_deref(), Some("/w/a"));
}
