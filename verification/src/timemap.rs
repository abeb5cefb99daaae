//! Which step outputs carry timestamps that a time map must move back to the original
//! media's clock, and how each is rewritten. The rewriting itself happens outside.

use vstd::prelude::*;

use crate::collections::NameMap;
use crate::commands::{has_infix, or_text, sibling};
use crate::paths::{extension, extension_of, file_name, file_name_of};
use crate::resolve::contains_str;
use crate::schema::string_views;
use crate::text::{chars_of, ends_with, has_suffix, lower_ascii_seq, lowercase_ascii, owned, str_eq};

verus! {

/// The lower-cased file name of `path` (empty when it has none).
pub open spec fn lower_name(path: Seq<char>) -> Seq<char> {
    lower_ascii_seq(or_text(file_name_of(path), Seq::<char>::empty()))
}

fn lower_name_of(path: &str) -> (r: String)
    ensures
        r@ == lower_name(path@),
{
    let n = match file_name(path) {
        Some(n) => n,
        None => String::new(),
    };
    lowercase_ascii(n.as_str())
}

fn has_text(s: &str, needle: &str) -> (b: bool)
    ensures
        b == has_infix(s@, needle@),
{
    crate::commands::contains_text(s, needle)
}

/// A file whose timestamps follow the media: segment lists, subtitles, time maps.
pub open spec fn is_timeline(path: Seq<char>) -> bool {
    let l = lower_name(path);
    has_suffix(l, ".segments.json"@) || has_suffix(l, ".srt"@) || has_suffix(l, ".vtt"@)
        || has_infix(l, "timemap"@)
}

pub fn is_timeline_path(path: &str) -> (b: bool)
    ensures
        b == is_timeline(path@),
{
    let l = lower_name_of(path);
    let x = l.as_str();
    ends_with(x, ".segments.json") || ends_with(x, ".srt") || ends_with(x, ".vtt") || has_text(
        x,
        "timemap",
    )
}

/// How a timeline file is rewritten.
#[derive(Debug, Clone, Copy, PartialEq, Eq)]
pub enum RemapKind {
    /// Left as it is: a time map itself, or a format that is not rewritten.
    Skip,
    /// A JSON segment list.
    Segments,
    /// SubRip subtitles.
    Srt,
}

pub open spec fn remap_kind_of(path: Seq<char>) -> RemapKind {
    let l = lower_name(path);
    if has_infix(l, "timemap"@) {
        RemapKind::Skip
    } else if has_suffix(l, ".segments.json"@) || (has_suffix(l, ".json"@) && has_infix(
        l,
        "segment"@,
    )) {
        RemapKind::Segments
    } else if has_suffix(l, ".srt"@) {
        RemapKind::Srt
    } else {
        RemapKind::Skip
    }
}

/// How the timeline file `path` is rewritten.
pub fn remap_kind(path: &str) -> (k: RemapKind)
    ensures
        k == remap_kind_of(path@),
{
    let l = lower_name_of(path);
    let x = l.as_str();
    if has_text(x, "timemap") {
        RemapKind::Skip
    } else if ends_with(x, ".segments.json") || (ends_with(x, ".json") && has_text(x, "segment")) {
        RemapKind::Segments
    } else if ends_with(x, ".srt") {
        RemapKind::Srt
    } else {
        RemapKind::Skip
    }
}

/// The timeline files conventionally written beside a primary transcript.
pub open spec fn sidecars_of(primary: Seq<char>) -> Seq<Seq<char>> {
    seq![
        sibling(primary, "out"@, ".segments.json"@),
        sibling(primary, "out"@, ".srt"@),
        sibling(primary, "out"@, ".vtt"@),
    ]
}

/// The timeline files conventionally written beside `primary`.
pub fn timeline_sidecars(primary: &str) -> (r: Vec<String>)
    ensures
        string_views(r@) == sidecars_of(primary@),
{
    let mut r: Vec<String> = Vec::new();
    r.push(crate::commands::segments_sidecar_for(primary));
    r.push(crate::commands::sibling_of(primary, "out", ".srt"));
    r.push(crate::commands::sibling_of(primary, "out", ".vtt"));
    assert(string_views(r@) =~= sidecars_of(primary@));
    r
}

/// The timeline files among `paths`, in order.
pub open spec fn timeline_only(paths: Seq<Seq<char>>) -> Seq<Seq<char>>
    decreases paths.len(),
{
    if paths.len() == 0 {
        Seq::<Seq<char>>::empty()
    } else if is_timeline(paths.last()) {
        timeline_only(paths.drop_last()).push(paths.last())
    } else {
        timeline_only(paths.drop_last())
    }
}

/// `t` with `p` added at the end when it exists and is not there yet.
pub open spec fn add_new(t: Seq<Seq<char>>, p: Seq<char>, exists: bool) -> Seq<Seq<char>> {
    if exists && !t.contains(p) {
        t.push(p)
    } else {
        t
    }
}

/// The files a time map is applied to after a step: the named outputs that are timeline
/// files, the conventional sidecars beside the primary output that exist, and the primary
/// itself when it is SubRip; each once.
pub open spec fn timeline_targets_of(
    primary: Seq<char>,
    named: Seq<Seq<char>>,
    exists: Seq<bool>,
) -> Seq<Seq<char>> {
    let sc = sidecars_of(primary);
    let t = add_new(
        add_new(add_new(timeline_only(named), sc[0], exists[0]), sc[1], exists[1]),
        sc[2],
        exists[2],
    );
    let srt = match extension_of(primary) {
        Some(e) => lower_ascii_seq(e) == "srt"@,
        None => false,
    };
    add_new(t, primary, srt)
}

fn push_new(t: &mut Vec<String>, p: &str, exists: bool)
    ensures
        string_views(final(t)@) == add_new(string_views(old(t)@), p@, exists),
{
    if exists && !contains_str(t, p) {
        let ghost before = string_views(t@);
        t.push(owned(p));
        assert(string_views(t@) =~= before.push(p@));
    }
}

/// The files a time map is applied to after a step; `sidecar_exists` tells which of
/// [`timeline_sidecars`] exist.
pub fn timeline_targets(primary: &str, named: &NameMap<String>, sidecar_exists: &Vec<bool>) -> (r:
    Vec<String>)
    requires
        sidecar_exists@.len() == 3,
    ensures
        string_views(r@) == timeline_targets_of(
            primary@,
            string_views(named.value_list()),
            sidecar_exists@,
        ),
{
    let ghost vals = string_views(named.value_list());
    let n = named.len();
    let mut t: Vec<String> = Vec::new();
    let mut i: usize = 0;
    proof {
        named.lemma_parts();
        assert(vals.subrange(0, 0) =~= Seq::<Seq<char>>::empty());
    }
    while i < n
        invariant
            n == named.key_list().len(),
            named.well_formed(),
            vals == string_views(named.value_list()),
            vals.len() == n,
            i <= n,
            string_views(t@) == timeline_only(vals.subrange(0, i as int)),
        decreases n - i,
    {
        let v = named.value_at(i);
        proof {
            let s1 = vals.subrange(0, i + 1);
            assert(s1.drop_last() =~= vals.subrange(0, i as int));
            assert(s1.last() == v@);
        }
        if is_timeline_path(v.as_str()) {
            let ghost before = string_views(t@);
            t.push(v.clone());
            assert(string_views(t@) =~= before.push(v@));
        }
        i = i + 1;
    }
    assert(vals.subrange(0, n as int) =~= vals);
    let sc = timeline_sidecars(primary);
    assert(sc@.len() == 3 && sc@[0]@ == sidecars_of(primary@)[0] && sc@[1]@ == sidecars_of(primary@)[1]
        && sc@[2]@ == sidecars_of(primary@)[2]) by {
        assert(string_views(sc@).len() == sc@.len());
        assert(string_views(sc@)[0] == sc@[0]@);
        assert(string_views(sc@)[1] == sc@[1]@);
        assert(string_views(sc@)[2] == sc@[2]@);
    }
    push_new(&mut t, sc[0].as_str(), sidecar_exists[0]);
    push_new(&mut t, sc[1].as_str(), sidecar_exists[1]);
    push_new(&mut t, sc[2].as_str(), sidecar_exists[2]);
    let srt = match extension(primary) {
        Some(e) => str_eq(lowercase_ascii(e.as_str()).as_str(), "srt"),
        None => false,
    };
    push_new(&mut t, primary, srt);
    t
}

} // verus!
