//! Meeting merge: where the meeting document goes, which transcript tracks it reads and
//! the speaker each is shown as, who the mix residual is attributed to, the participant
//! roster, and the Markdown rendering. Timing (how turns and diarize segments overlap) is
//! floating point and is worked out outside; what it finds comes in as arguments.

use vstd::prelude::*;

use crate::collections::NameMap;
use crate::commands::{map_entries_of, or_text, strip_suffix_of};
use crate::exec::{text_of, InvokeRequest};
use crate::paths::{file_name, file_name_of, is_abs, is_absolute, join, join_path};
use crate::resolve::contains_str;
use crate::schema::{
    arg_text, arg_view, lemma_options_view, option_text, options_view, string_views, ArgValue,
    ArgView,
};
use crate::text::{
    chars_of, concat, eq_ignore_ascii_case, has_suffix, is_whitespace, is_ws, lower_ascii_seq,
    owned, str_eq, string_of, trim, trim_ws,
};

verus! {

/// How parallel tracks are aligned when merged.
#[derive(Debug, Clone, Copy, PartialEq, Eq)]
pub enum MergeStrategy {
    Longest,
    Start,
    End,
}

/// `p[i]` begins a component of a relative path.
pub open spec fn seg_start(p: Seq<char>, i: int) -> bool {
    0 <= i < p.len() && p[i] != '/' && (i == 0 || p[i - 1] == '/')
}

/// The component beginning at `i` is `.`.
pub open spec fn dot_seg(p: Seq<char>, i: int) -> bool {
    p[i] == '.' && (i + 1 == p.len() || p[i + 1] == '/')
}

/// Components other than `.` that begin before position `n`.
pub open spec fn named_segs(p: Seq<char>, n: int) -> nat
    decreases n,
{
    if n <= 0 {
        0
    } else {
        named_segs(p, n - 1) + if seg_start(p, n - 1) && !dot_seg(p, n - 1) {
            1nat
        } else {
            0nat
        }
    }
}

/// How many components `Path::components` yields for a relative path: a leading `.`,
/// then each name between separators other than `.`.
pub open spec fn rel_components(p: Seq<char>) -> nat {
    (if p.len() > 0 && dot_seg(p, 0) {
        1nat
    } else {
        0nat
    }) + named_segs(p, p.len() as int)
}

proof fn lemma_named_segs_dot(p: Seq<char>, n: int)
    requires
        1 <= n,
        dot_seg(p, 0),
    ensures
        named_segs(p, n) <= n - 1,
    decreases n,
{
    if n > 1 {
        lemma_named_segs_dot(p, n - 1);
    } else {
        assert(named_segs(p, 0) == 0);
    }
}

/// The number of components of relative path `p`.
pub fn component_count(p: &str) -> (n: usize)
    ensures
        n == rel_components(p@),
{
    let v = chars_of(p);
    let len = v.len();
    let mut n: usize = 0;
    let mut i: usize = 0;
    while i < len
        invariant
            len == v@.len(),
            v@ == p@,
            i <= len,
            n == named_segs(v@, i as int),
            n <= i,
        decreases len - i,
    {
        let starts = v[i] != '/' && (i == 0 || v[i - 1] == '/');
        let dot = v[i] == '.' && (i + 1 == len || v[i + 1] == '/');
        if starts && !dot {
            n = n + 1;
        }
        i = i + 1;
    }
    if len > 0 && v[0] == '.' && (len == 1 || v[1] == '/') {
        proof {
            lemma_named_segs_dot(v@, len as int);
        }
        assert(n < len);
        n = n + 1;
    }
    n
}

/// The stem of the meeting document: option `artifact_stem` unless blank, else `meeting`.
pub open spec fn artifact_stem_of(opts: NameMap<ArgValue>) -> Seq<char> {
    match option_text(opts, "artifact_stem"@) {
        Some(s) => if trim_ws(s).len() > 0 {
            s
        } else {
            "meeting"@
        },
        None => "meeting"@,
    }
}

/// Where the meeting JSON goes: the step's output, else `{stem}.json` in the Job's output
/// directory, else in the working directory; a bare file name is taken from that
/// directory too.
pub open spec fn meeting_output_of(
    output: Option<Seq<char>>,
    out_dir: Option<Seq<char>>,
    wd: Seq<char>,
    stem: Seq<char>,
) -> Seq<char> {
    let json = stem + ".json"@;
    let out = match output {
        Some(o) => o,
        None => match out_dir {
            Some(d) => join_path(d, json),
            None => join_path(wd, json),
        },
    };
    if !is_abs(out) && rel_components(out) == 1 {
        join_path(or_text(out_dir, wd), or_text(file_name_of(out), Seq::<char>::empty()))
    } else {
        out
    }
}

/// Where a meeting-merge step writes its JSON.
pub fn meeting_output(req: &InvokeRequest) -> (r: String)
    ensures
        r@ == meeting_output_of(
            text_of(req.output),
            text_of(req.output_dir),
            req.working_dir@,
            artifact_stem_of(req.options),
        ),
{
    let stem = match crate::schema::opt_string(&req.options, "artifact_stem") {
        Some(s) => {
            let t = chars_of(trim(s.as_str()).as_str());
            if t.len() > 0 {
                s
            } else {
                owned("meeting")
            }
        },
        None => owned("meeting"),
    };
    let json = concat(stem.as_str(), ".json");
    let out = match &req.output {
        Some(o) => o.clone(),
        None => match &req.output_dir {
            Some(d) => join(d.as_str(), json.as_str()),
            None => join(req.working_dir.as_str(), json.as_str()),
        },
    };
    if !is_absolute(out.as_str()) && component_count(out.as_str()) == 1 {
        let dir = match &req.output_dir {
            Some(d) => d.clone(),
            None => req.working_dir.clone(),
        };
        let name = match file_name(out.as_str()) {
            Some(n) => n,
            None => String::new(),
        };
        join(dir.as_str(), name.as_str())
    } else {
        out
    }
}

/// The speaker a transcript artifact id belongs to: the id without `.text`, else without
/// `.fixed`.
pub open spec fn speaker_of_text_id(id: Seq<char>) -> Seq<char> {
    if has_suffix(id, ".text"@) {
        strip_suffix_of(id, ".text"@)
    } else {
        strip_suffix_of(id, ".fixed"@)
    }
}

pub fn speaker_from_text_id(id: &str) -> (r: String)
    ensures
        r@ == speaker_of_text_id(id@),
{
    if crate::text::ends_with(id, ".text") {
        crate::commands::strip_suffix(id, ".text")
    } else {
        crate::commands::strip_suffix(id, ".fixed")
    }
}

/// The display name a `participants.known` entry gives: its `name`, else its id.
pub open spec fn known_name(id: Seq<char>, v: ArgValue) -> Seq<char> {
    if v is Mapping && option_text(v->Mapping_0, "name"@) is Some {
        option_text(v->Mapping_0, "name"@)->0
    } else {
        id
    }
}

/// The entries of `participants.known`, when both are maps.
pub open spec fn known_map(opts: NameMap<ArgValue>) -> Option<NameMap<ArgValue>> {
    if opts@.contains_key("participants"@) && opts@["participants"@] is Mapping {
        let p = opts@["participants"@]->Mapping_0;
        if p@.contains_key("known"@) && p@["known"@] is Mapping {
            Some(p@["known"@]->Mapping_0)
        } else {
            None
        }
    } else {
        None
    }
}

/// Display names by speaker id from `participants.known`.
pub open spec fn known_names_of(opts: NameMap<ArgValue>) -> Map<Seq<char>, Seq<char>> {
    match known_map(opts) {
        Some(k) => Map::new(|id: Seq<char>| k@.contains_key(id), |id: Seq<char>| known_name(id, k@[id])),
        None => Map::<Seq<char>, Seq<char>>::empty(),
    }
}

fn known_entry_name(id: &String, v: &ArgValue) -> (r: String)
    ensures
        r@ == known_name(id@, *v),
{
    if let Some(m) = v.as_map() {
        if let Some(n) = crate::schema::opt_string(m, "name") {
            return n;
        }
    }
    id.clone()
}

/// Display names by speaker id, from `participants.known`.
pub fn known_speaker_names(opts: &NameMap<ArgValue>) -> (r: NameMap<String>)
    ensures
        crate::resolve::path_views(r@) == known_names_of(*opts),
{
    let k = match opts.get("participants") {
        Some(p) => match p.as_map() {
            Some(pm) => match pm.get("known") {
                Some(kv) => match kv.as_map() {
                    Some(km) => km,
                    None => {
                        let e: NameMap<String> = NameMap::new();
                        assert(crate::resolve::path_views(e@) =~= known_names_of(*opts));
                        return e;
                    },
                },
                None => {
                    let e: NameMap<String> = NameMap::new();
                    assert(crate::resolve::path_views(e@) =~= known_names_of(*opts));
                    return e;
                },
            },
            None => {
                let e: NameMap<String> = NameMap::new();
                assert(crate::resolve::path_views(e@) =~= known_names_of(*opts));
                return e;
            },
        },
        None => {
            let e: NameMap<String> = NameMap::new();
            assert(crate::resolve::path_views(e@) =~= known_names_of(*opts));
            return e;
        },
    };
    assert(known_map(*opts) == Some(*k));
    let n = k.len();
    let mut vals: Vec<String> = Vec::new();
    let mut i: usize = 0;
    while i < n
        invariant
            n == k.key_list().len(),
            k.well_formed(),
            i <= n,
            vals@.len() == i,
            forall|j: int|
                0 <= j < i ==> #[trigger] vals@[j]@ == known_name(
                    k.key_list()[j],
                    k.value_list()[j],
                ),
        decreases n - i,
    {
        let id = k.key_at(i);
        let v = k.value_at(i);
        vals.push(known_entry_name(id, v));
        i = i + 1;
    }
    let r = k.with_values(vals);
    proof {
        k.lemma_view();
        r.lemma_view();
        assert forall|x: Seq<char>| #[trigger] crate::resolve::path_views(r@).contains_key(x)
            <==> known_names_of(*opts).contains_key(x) by {}
        assert forall|x: Seq<char>| #[trigger] known_names_of(*opts).contains_key(x) implies
            crate::resolve::path_views(r@)[x] == known_names_of(*opts)[x] by {
            let j = k.key_list().index_of(x);
            assert(k.key_list()[j] == x);
            assert(r.key_list()[j] == x);
        }
        assert(crate::resolve::path_views(r@) =~= known_names_of(*opts));
    }
    r
}

/// A speaker label: non-empty scalar text.
pub open spec fn label_of(v: ArgValue) -> Option<Seq<char>> {
    match arg_text(arg_view(v)) {
        Some(t) => if t.len() > 0 {
            Some(t)
        } else {
            None
        },
        None => None,
    }
}

/// Original-script labels by speaker id, from the `speaker_labels` map.
pub open spec fn speaker_labels_of(opts: NameMap<ArgValue>) -> Map<Seq<char>, Seq<char>> {
    if opts@.contains_key("speaker_labels"@) && opts@["speaker_labels"@] is Mapping {
        let m = opts@["speaker_labels"@]->Mapping_0;
        Map::new(
            |id: Seq<char>| m@.contains_key(id) && label_of(m@[id]) is Some,
            |id: Seq<char>| label_of(m@[id])->0,
        )
    } else {
        Map::<Seq<char>, Seq<char>>::empty()
    }
}

spec fn labels_upto(m: NameMap<ArgValue>, i: int) -> Map<Seq<char>, Seq<char>> {
    Map::new(
        |id: Seq<char>| m.key_list().subrange(0, i).contains(id) && label_of(m@[id]) is Some,
        |id: Seq<char>| label_of(m@[id])->0,
    )
}

/// Original-script labels by speaker id (`игорь` → `Игорь`), from `speaker_labels`.
pub fn speaker_labels_map(opts: &NameMap<ArgValue>) -> (r: NameMap<String>)
    ensures
        crate::resolve::path_views(r@) == speaker_labels_of(*opts),
{
    let mut out: NameMap<String> = NameMap::new();
    let m = match opts.get("speaker_labels") {
        Some(v) => match v.as_map() {
            Some(m) => m,
            None => {
                assert(crate::resolve::path_views(out@) =~= speaker_labels_of(*opts));
                return out;
            },
        },
        None => {
            assert(crate::resolve::path_views(out@) =~= speaker_labels_of(*opts));
            return out;
        },
    };
    let n = m.len();
    proof {
        m.lemma_view();
        assert(crate::resolve::path_views(out@) =~= labels_upto(*m, 0));
    }
    let mut i: usize = 0;
    while i < n
        invariant
            n == m.key_list().len(),
            m.well_formed(),
            forall|j: int| #![trigger m.key_list()[j]] 0 <= j < m.key_list().len() ==>
                m@.contains_key(m.key_list()[j]) && m@[m.key_list()[j]] == m.value_list()[j],
            i <= n,
            crate::resolve::path_views(out@) == labels_upto(*m, i as int),
        decreases n - i,
    {
        let id = m.key_at(i);
        let v = m.value_at(i);
        let ghost before = crate::resolve::path_views(out@);
        let ghost ks = m.key_list();
        let mut pushed = false;
        if let Some(name) = v.as_string() {
            if chars_of(name.as_str()).len() > 0 {
                out.insert(id.clone(), name);
                pushed = true;
            }
        }
        proof {
            assert(ks[i as int] == id@);
            assert forall|x: Seq<char>| #[trigger] ks.subrange(0, i + 1).contains(x) <==> (
            ks.subrange(0, i as int).contains(x) || x == id@) by {
                if ks.subrange(0, i + 1).contains(x) {
                    let j = ks.subrange(0, i + 1).index_of(x);
                    if j < i {
                        assert(ks.subrange(0, i as int)[j] == x);
                    }
                }
                if ks.subrange(0, i as int).contains(x) {
                    let j = ks.subrange(0, i as int).index_of(x);
                    assert(ks.subrange(0, i + 1)[j] == x);
                }
                if x == id@ {
                    assert(ks.subrange(0, i + 1)[i as int] == x);
                }
            }
            assert(pushed == (label_of(m@[id@]) is Some));
            let after = crate::resolve::path_views(out@);
            let want = labels_upto(*m, i + 1);
            if pushed {
                assert(after =~= before.insert(id@, label_of(m@[id@])->0));
            } else {
                assert(after =~= before);
            }
            assert forall|x: Seq<char>| #[trigger] want.contains_key(x) <==> after.contains_key(x) by {
                if x == id@ {
                } else {
                    assert(want.contains_key(x) == labels_upto(*m, i as int).contains_key(x));
                }
            }
            assert forall|x: Seq<char>| #[trigger] want.contains_key(x) implies want[x] == after[x] by {
                if x == id@ {
                } else {
                    assert(labels_upto(*m, i as int).contains_key(x));
                }
            }
            assert(after =~= want);
        }
        i = i + 1;
    }
    proof {
        assert(m.key_list().subrange(0, n as int) =~= m.key_list());
        assert(crate::resolve::path_views(out@) =~= speaker_labels_of(*opts));
    }
    out
}

/// Whether `c` is alphabetic (the Unicode `Alphabetic` property).
pub uninterp spec fn alphabetic(c: char) -> bool;

/// `char::is_alphabetic`; Unicode's `Alphabetic` table is too long to state, so the result
/// is named: nothing is claimed of it beyond being that property of `c`.
#[verifier::external_body]
fn is_alphabetic(c: char) -> (b: bool)
    ensures
        b == alphabetic(c),
{
    c.is_alphabetic()
}

/// Whether `c` is alphanumeric (the Unicode `Alphabetic` or `Numeric` property).
pub uninterp spec fn alphanumeric(c: char) -> bool;

/// `char::is_alphanumeric`; Unicode's tables are too long to state, so the result is
/// named: nothing is claimed of it beyond being that property of `c`.
#[verifier::external_body]
fn is_alphanumeric(c: char) -> (b: bool)
    ensures
        b == alphanumeric(c),
{
    c.is_alphanumeric()
}

/// The lowercase mapping of `c` (one or more characters).
pub uninterp spec fn lowercase_of(c: char) -> Seq<char>;

/// `char::to_lowercase`, collected into a `String`; Unicode's case tables are too long to
/// state, so the result is named.
#[verifier::external_body]
fn lowercase_chars(c: char) -> (r: String)
    ensures
        r@ == lowercase_of(c),
{
    c.to_lowercase().collect()
}

/// Scans text for comparison: a run of white space after some kept text becomes one
/// space, alphanumeric characters are kept in lowercase, anything else is dropped. Gives
/// the text kept and whether it ends in such a space.
pub open spec fn compare_scan(s: Seq<char>) -> (Seq<char>, bool)
    decreases s.len(),
{
    if s.len() == 0 {
        (Seq::empty(), false)
    } else {
        let prev = compare_scan(s.drop_last());
        let c = s.last();
        if is_ws(c) {
            if !prev.1 && prev.0.len() > 0 {
                (prev.0.push(' '), true)
            } else {
                prev
            }
        } else if alphanumeric(c) {
            (prev.0 + lowercase_of(c), false)
        } else {
            prev
        }
    }
}

/// `s` without its trailing spaces.
pub open spec fn strip_trailing_spaces(s: Seq<char>) -> Seq<char>
    decreases s.len(),
{
    if s.len() > 0 && s.last() == ' ' {
        strip_trailing_spaces(s.drop_last())
    } else {
        s
    }
}

/// The form two turn texts are compared in: trimmed, scanned, without trailing spaces.
pub open spec fn compare_form(text: Seq<char>) -> Seq<char> {
    strip_trailing_spaces(compare_scan(trim_ws(text)).0)
}

/// Turn text normalized for comparison: lowercase words separated by single spaces.
pub fn normalize_compare(text: &str) -> (r: String)
    ensures
        r@ == compare_form(text@),
{
    let t = trim(text);
    let v = chars_of(t.as_str());
    let mut out: Vec<char> = Vec::new();
    let mut last_was_space = false;
    let mut i: usize = 0;
    while i < v.len()
        invariant
            v@ == trim_ws(text@),
            i <= v.len(),
            (out@, last_was_space) == compare_scan(v@.subrange(0, i as int)),
        decreases v.len() - i,
    {
        let c = v[i];
        proof {
            let s = v@.subrange(0, i + 1);
            assert(s.drop_last() =~= v@.subrange(0, i as int));
            assert(s.last() == c);
        }
        if is_whitespace(c) {
            if !last_was_space && out.len() > 0 {
                out.push(' ');
                last_was_space = true;
            }
        } else if is_alphanumeric(c) {
            let mut lower = chars_of(lowercase_chars(c).as_str());
            out.append(&mut lower);
            last_was_space = false;
        }
        i = i + 1;
    }
    assert(v@.subrange(0, v.len() as int) =~= v@);
    let ghost scanned = out@;
    while out.len() > 0 && out[out.len() - 1] == ' '
        invariant
            strip_trailing_spaces(out@) == strip_trailing_spaces(scanned),
        decreases out.len(),
    {
        out.pop();
    }
    string_of(&out)
}

/// `s` holds a letter outside ASCII (Cyrillic, for instance).
pub open spec fn non_ascii_letter(s: Seq<char>) -> bool {
    exists|i: int| 0 <= i < s.len() && #[trigger] alphabetic(s[i]) && (s[i] as u32) >= 128
}

pub fn has_non_ascii_letter(s: &str) -> (b: bool)
    ensures
        b == non_ascii_letter(s@),
{
    let v = chars_of(s);
    let mut i: usize = 0;
    while i < v.len()
        invariant
            v@ == s@,
            i <= v.len(),
            forall|j: int| 0 <= j < i ==> !(#[trigger] alphabetic(v@[j]) && (v@[j] as u32) >= 128),
        decreases v.len() - i,
    {
        let c = v[i];
        if is_alphabetic(c) && (c as u32) >= 128 {
            assert(alphabetic(s@[i as int]) && (s@[i as int] as u32) >= 128);
            return true;
        }
        i = i + 1;
    }
    false
}

/// The name a track of speaker `id` is shown under: a known name, unless it is Latin and
/// the label is in another script; else the label; else the id.
pub open spec fn display_of(
    id: Seq<char>,
    known: Map<Seq<char>, Seq<char>>,
    labels: Map<Seq<char>, Seq<char>>,
) -> Seq<char> {
    if known.contains_key(id) {
        if labels.contains_key(id) && !non_ascii_letter(known[id]) && non_ascii_letter(labels[id]) {
            labels[id]
        } else {
            known[id]
        }
    } else if labels.contains_key(id) {
        labels[id]
    } else {
        id
    }
}

pub fn display_name(id: &str, known: &NameMap<String>, labels: &NameMap<String>) -> (r: String)
    ensures
        r@ == display_of(
            id@,
            crate::resolve::path_views(known@),
            crate::resolve::path_views(labels@),
        ),
{
    match (known.get(id), labels.get(id)) {
        (Some(k), Some(l)) => {
            if !has_non_ascii_letter(k.as_str()) && has_non_ascii_letter(l.as_str()) {
                l.clone()
            } else {
                k.clone()
            }
        },
        (Some(k), None) => k.clone(),
        (None, Some(l)) => l.clone(),
        (None, None) => owned(id),
    }
}

/// The artifact ids of mix (room) tracks, from `mix_text_ids`.
pub open spec fn mix_ids_of(opts: NameMap<ArgValue>) -> Seq<Seq<char>> {
    if opts@.contains_key("mix_text_ids"@) && opts@["mix_text_ids"@] is Strings {
        string_views(opts@["mix_text_ids"@]->Strings_0@)
    } else {
        Seq::<Seq<char>>::empty()
    }
}

/// A track of speaker `id` is the mix: its text artifact or id is listed, or it is `room`.
pub open spec fn is_mix_of(id: Seq<char>, mix_ids: Seq<Seq<char>>) -> bool {
    mix_ids.contains(id + ".text"@) || mix_ids.contains(id) || lower_ascii_seq(id)
        == lower_ascii_seq("room"@)
}

/// One transcript track of a meeting: who speaks in it, where its text is, and whether it
/// is the room mix.
#[derive(Debug, Clone)]
pub struct Track {
    pub speaker: String,
    pub path: String,
    pub is_mix: bool,
}

/// The `(speaker id, path)` of each `text_paths` entry with text.
pub open spec fn text_sources(es: Seq<(Seq<char>, ArgView)>) -> Seq<(Seq<char>, Seq<char>)>
    decreases es.len(),
{
    if es.len() == 0 {
        Seq::<(Seq<char>, Seq<char>)>::empty()
    } else {
        text_sources(es.drop_last()) + match arg_text(es.last().1) {
            Some(p) => seq![(speaker_of_text_id(es.last().0), p)],
            None => Seq::<(Seq<char>, Seq<char>)>::empty(),
        }
    }
}

/// The tracks' sources: the `text_paths` entries, else the step input as one `speaker`.
pub open spec fn track_sources(opts: NameMap<ArgValue>, input: Seq<char>) -> Seq<
    (Seq<char>, Seq<char>),
> {
    let s = match map_entries_of(opts, "text_paths"@) {
        Some(es) => text_sources(es),
        None => Seq::<(Seq<char>, Seq<char>)>::empty(),
    };
    if s.len() > 0 {
        s
    } else {
        seq![("speaker"@, input)]
    }
}

/// Track `t` reads `src`: a mix keeps its id as speaker, others their display name.
pub open spec fn track_ok(t: Track, src: (Seq<char>, Seq<char>), opts: NameMap<ArgValue>) -> bool {
    let mix = is_mix_of(src.0, mix_ids_of(opts));
    &&& t.path@ == src.1
    &&& t.is_mix == mix
    &&& t.speaker@ == (if mix {
        src.0
    } else {
        display_of(src.0, known_names_of(opts), speaker_labels_of(opts))
    })
}

fn text_path_sources(m: &NameMap<ArgValue>) -> (r: (Vec<String>, Vec<String>))
    ensures
        r.0@.len() == r.1@.len(),
        r.0@.len() == text_sources(options_view(*m)).len(),
        forall|i: int|
            0 <= i < r.0@.len() ==> (#[trigger] r.0@[i]@, r.1@[i]@) == text_sources(
                options_view(*m),
            )[i],
{
    let n = m.len();
    let ghost es = options_view(*m);
    proof {
        lemma_options_view(*m);
        assert(es.subrange(0, 0) =~= Seq::<(Seq<char>, ArgView)>::empty());
    }
    let mut ids: Vec<String> = Vec::new();
    let mut paths: Vec<String> = Vec::new();
    let mut i: usize = 0;
    while i < n
        invariant
            n == m.key_list().len(),
            m.well_formed(),
            es == options_view(*m),
            es.len() == n,
            forall|j: int|
                0 <= j < m.key_list().len() ==> #[trigger] es[j] == (
                    m.key_list()[j],
                    arg_view(m.value_list()[j]),
                ),
            i <= n,
            ids@.len() == paths@.len(),
            ids@.len() == text_sources(es.subrange(0, i as int)).len(),
            forall|j: int|
                0 <= j < ids@.len() ==> (#[trigger] ids@[j]@, paths@[j]@) == text_sources(
                    es.subrange(0, i as int),
                )[j],
        decreases n - i,
    {
        let k = m.key_at(i);
        let v = m.value_at(i);
        proof {
            let e1 = es.subrange(0, i + 1);
            assert(e1.drop_last() =~= es.subrange(0, i as int));
            assert(e1.last() == es[i as int]);
        }
        if let Some(p) = v.as_string() {
            ids.push(speaker_from_text_id(k.as_str()));
            paths.push(p);
        }
        i = i + 1;
        proof {
            assert forall|j: int| 0 <= j < ids@.len() implies (#[trigger] ids@[j]@, paths@[j]@)
                == text_sources(es.subrange(0, i as int))[j] by {
                let e1 = es.subrange(0, i as int);
                assert(e1.drop_last() =~= es.subrange(0, i - 1));
            }
        }
    }
    proof {
        assert(es.subrange(0, n as int) =~= es);
    }
    (ids, paths)
}

/// The tracks a meeting-merge step reads, in `text_paths` order.
pub fn meeting_tracks(req: &InvokeRequest) -> (r: Vec<Track>)
    ensures
        r@.len() == track_sources(req.options, req.input@).len(),
        forall|i: int|
            0 <= i < r@.len() ==> track_ok(
                #[trigger] r@[i],
                track_sources(req.options, req.input@)[i],
                req.options,
            ),
{
    let opts = &req.options;
    let (mut ids, mut paths) = match opts.get("text_paths") {
        Some(v) => match v.as_map() {
            Some(m) => text_path_sources(m),
            None => (Vec::new(), Vec::new()),
        },
        None => (Vec::new(), Vec::new()),
    };
    let ghost srcs = track_sources(req.options, req.input@);
    if ids.len() == 0 {
        ids.push(owned("speaker"));
        paths.push(req.input.clone());
    }
    assert(ids@.len() == srcs.len());
    assert(forall|j: int| 0 <= j < ids@.len() ==> (#[trigger] ids@[j]@, paths@[j]@) == srcs[j]);
    let known = known_speaker_names(opts);
    let labels = speaker_labels_map(opts);
    let mix_ids: Vec<String> = match opts.get("mix_text_ids") {
        Some(ArgValue::Strings(v)) => crate::text::clone_strings(v),
        _ => Vec::new(),
    };
    assert(string_views(mix_ids@) == mix_ids_of(*opts));
    let mut out: Vec<Track> = Vec::new();
    let mut i: usize = 0;
    while i < ids.len()
        invariant
            ids@.len() == paths@.len(),
            ids@.len() == srcs.len(),
            forall|j: int| 0 <= j < ids@.len() ==> (#[trigger] ids@[j]@, paths@[j]@) == srcs[j],
            string_views(mix_ids@) == mix_ids_of(*opts),
            crate::resolve::path_views(known@) == known_names_of(*opts),
            crate::resolve::path_views(labels@) == speaker_labels_of(*opts),
            i <= ids@.len(),
            out@.len() == i,
            forall|j: int| 0 <= j < i ==> track_ok(#[trigger] out@[j], srcs[j], *opts),
        decreases ids@.len() - i,
    {
        let id = ids[i].as_str();
        let with_text = concat(id, ".text");
        let mix = contains_str(&mix_ids, with_text.as_str()) || contains_str(&mix_ids, id)
            || eq_ignore_ascii_case(id, "room");
        let speaker = if mix {
            owned(id)
        } else {
            display_name(id, &known, &labels)
        };
        assert((ids@[i as int]@, paths@[i as int]@) == srcs[i as int]);
        out.push(Track { speaker, path: paths[i].clone(), is_mix: mix });
        i = i + 1;
    }
    out
}

/// Each item once, at its first place.
pub open spec fn dedup(s: Seq<Seq<char>>) -> Seq<Seq<char>>
    decreases s.len(),
{
    if s.len() == 0 {
        Seq::<Seq<char>>::empty()
    } else if dedup(s.drop_last()).contains(s.last()) {
        dedup(s.drop_last())
    } else {
        dedup(s.drop_last()).push(s.last())
    }
}

/// The speakers of the tracks that are not the mix, in track order.
pub open spec fn participant_speakers(ts: Seq<Track>) -> Seq<Seq<char>>
    decreases ts.len(),
{
    if ts.len() == 0 {
        Seq::<Seq<char>>::empty()
    } else if ts.last().is_mix {
        participant_speakers(ts.drop_last())
    } else {
        participant_speakers(ts.drop_last()).push(ts.last().speaker@)
    }
}

/// The participants a meeting's tracks name: each non-mix speaker once, in track order.
pub fn participant_names(tracks: &Vec<Track>) -> (r: Vec<String>)
    ensures
        string_views(r@) == dedup(participant_speakers(tracks@)),
{
    let mut out: Vec<String> = Vec::new();
    let mut i: usize = 0;
    assert(tracks@.subrange(0, 0) =~= Seq::<Track>::empty());
    while i < tracks.len()
        invariant
            i <= tracks@.len(),
            string_views(out@) == dedup(participant_speakers(tracks@.subrange(0, i as int))),
        decreases tracks@.len() - i,
    {
        let t = &tracks[i];
        proof {
            let t1 = tracks@.subrange(0, i + 1);
            assert(t1.drop_last() =~= tracks@.subrange(0, i as int));
        }
        proof {
            let t0 = tracks@.subrange(0, i as int);
            let t1 = tracks@.subrange(0, i + 1);
            assert(t1.last() == tracks@[i as int]);
            if !tracks@[i as int].is_mix {
                assert(participant_speakers(t1) == participant_speakers(t0).push(t.speaker@));
                assert(participant_speakers(t1).drop_last() =~= participant_speakers(t0));
                assert(participant_speakers(t1).last() == t.speaker@);
            } else {
                assert(participant_speakers(t1) == participant_speakers(t0));
            }
        }
        if !t.is_mix {
            if !contains_str(&out, t.speaker.as_str()) {
                let ghost before = string_views(out@);
                out.push(t.speaker.clone());
                assert(string_views(out@) =~= before.push(t.speaker@));
            }
        }
        i = i + 1;
    }
    assert(tracks@.subrange(0, tracks@.len() as int) =~= tracks@);
    out
}

/// What a meeting turn says and who says it (its timing is kept beside it, outside).
#[derive(Debug, Clone)]
pub struct TurnText {
    pub speaker: String,
    pub text: String,
}

/// Characters spoken by `name` over `turns`.
pub open spec fn chars_by(turns: Seq<TurnText>, name: Seq<char>) -> nat
    decreases turns.len(),
{
    if turns.len() == 0 {
        0
    } else {
        chars_by(turns.drop_last(), name) + if turns.last().speaker@ == name {
            turns.last().text@.len()
        } else {
            0nat
        }
    }
}

/// Characters of all `turns`.
pub open spec fn all_chars(turns: Seq<TurnText>) -> nat
    decreases turns.len(),
{
    if turns.len() == 0 {
        0
    } else {
        all_chars(turns.drop_last()) + turns.last().text@.len()
    }
}

proof fn lemma_chars_by_bound(turns: Seq<TurnText>, name: Seq<char>)
    ensures
        chars_by(turns, name) <= all_chars(turns),
    decreases turns.len(),
{
    if turns.len() > 0 {
        lemma_chars_by_bound(turns.drop_last(), name);
    }
}

/// Characters spoken by each of `names`.
pub open spec fn char_counts(turns: Seq<TurnText>, names: Seq<Seq<char>>) -> Seq<nat> {
    names.map_values(|n: Seq<char>| chars_by(turns, n))
}

/// Position of the first least count.
pub open spec fn first_min_index(cs: Seq<nat>) -> int
    decreases cs.len(),
{
    if cs.len() <= 1 {
        0
    } else {
        let j = first_min_index(cs.drop_last());
        if cs.last() < cs[j] {
            cs.len() - 1
        } else {
            j
        }
    }
}

/// The greatest count (0 for none).
pub open spec fn max_count(cs: Seq<nat>) -> nat
    decreases cs.len(),
{
    if cs.len() == 0 {
        0
    } else if cs.last() > max_count(cs.drop_last()) {
        cs.last()
    } else {
        max_count(cs.drop_last())
    }
}

/// A participant whose track is near-empty (at most 32 characters, under a twentieth of
/// the fullest, which has 200 or more): their speech survives only on the mix.
pub open spec fn failed_track_of(turns: Seq<TurnText>, names: Seq<Seq<char>>) -> Option<Seq<char>> {
    if names.len() < 2 {
        None
    } else {
        let cs = char_counts(turns, names);
        let i = first_min_index(cs);
        let mx = max_count(cs);
        if cs[i] <= 32 && mx >= 200 && cs[i] * 20 < mx {
            Some(names[i])
        } else {
            None
        }
    }
}

/// The participant with the fewest characters (the first of them).
pub open spec fn weakest_of(turns: Seq<TurnText>, names: Seq<Seq<char>>) -> Option<Seq<char>> {
    if names.len() == 0 {
        None
    } else {
        Some(names[first_min_index(char_counts(turns, names))])
    }
}

/// Who unattributed mix speech goes to: the only participant; else a failed track; else
/// the weakest; else `Unknown`.
pub open spec fn fallback_of(turns: Seq<TurnText>, names: Seq<Seq<char>>) -> Seq<char> {
    if names.len() == 1 {
        names[0]
    } else {
        match failed_track_of(turns, names) {
            Some(n) => n,
            None => match weakest_of(turns, names) {
                Some(n) => n,
                None => "Unknown"@,
            },
        }
    }
}

/// Every count fits in a machine word (the texts are in memory).
pub open spec fn turns_fit(turns: Seq<TurnText>) -> bool {
    all_chars(turns) <= u64::MAX
}

fn count_chars_by(turns: &Vec<TurnText>, name: &str) -> (c: u64)
    requires
        turns_fit(turns@),
    ensures
        c == chars_by(turns@, name@),
{
    let mut c: u64 = 0;
    let mut i: usize = 0;
    assert(turns@.subrange(0, 0) =~= Seq::<TurnText>::empty());
    while i < turns.len()
        invariant
            turns_fit(turns@),
            i <= turns@.len(),
            c == chars_by(turns@.subrange(0, i as int), name@),
        decreases turns@.len() - i,
    {
        let t = &turns[i];
        proof {
            let t1 = turns@.subrange(0, i + 1);
            assert(t1.drop_last() =~= turns@.subrange(0, i as int));
            lemma_chars_by_bound(t1, name@);
            lemma_all_chars_prefix(turns@, i + 1);
        }
        if str_eq(t.speaker.as_str(), name) {
            let n = chars_of(t.text.as_str()).len();
            c = c + n as u64;
        }
        i = i + 1;
    }
    assert(turns@.subrange(0, turns@.len() as int) =~= turns@);
    c
}

proof fn lemma_all_chars_prefix(turns: Seq<TurnText>, n: int)
    requires
        0 <= n <= turns.len(),
    ensures
        all_chars(turns.subrange(0, n)) <= all_chars(turns),
    decreases turns.len(),
{
    if n < turns.len() {
        assert(turns.drop_last().subrange(0, n) =~= turns.subrange(0, n));
        lemma_all_chars_prefix(turns.drop_last(), n);
    } else {
        assert(turns.subrange(0, n) =~= turns);
    }
}

fn counts_of(turns: &Vec<TurnText>, names: &Vec<String>) -> (r: Vec<u64>)
    requires
        turns_fit(turns@),
    ensures
        r@.len() == names@.len(),
        forall|i: int| 0 <= i < names@.len() ==> #[trigger] r@[i] == char_counts(
            turns@,
            string_views(names@),
        )[i],
{
    let mut r: Vec<u64> = Vec::new();
    let mut i: usize = 0;
    while i < names.len()
        invariant
            turns_fit(turns@),
            i <= names@.len(),
            r@.len() == i,
            forall|j: int| 0 <= j < i ==> #[trigger] r@[j] == char_counts(
                turns@,
                string_views(names@),
            )[j],
        decreases names@.len() - i,
    {
        let c = count_chars_by(turns, names[i].as_str());
        r.push(c);
        i = i + 1;
    }
    r
}

spec fn nat_counts(v: Seq<u64>) -> Seq<nat> {
    v.map_values(|x: u64| x as nat)
}

proof fn lemma_first_min(cs: Seq<nat>)
    requires
        cs.len() > 0,
    ensures
        0 <= first_min_index(cs) < cs.len(),
        forall|j: int| 0 <= j < cs.len() ==> cs[first_min_index(cs)] <= #[trigger] cs[j],
        forall|j: int| 0 <= j < first_min_index(cs) ==> cs[first_min_index(cs)] < #[trigger] cs[j],
    decreases cs.len(),
{
    if cs.len() > 1 {
        let d = cs.drop_last();
        lemma_first_min(d);
        let k = first_min_index(d);
        assert(d[k] == cs[k]);
        assert forall|j: int| 0 <= j < cs.len() - 1 implies d[j] == cs[j] by {}
        if cs.last() < cs[k] {
            assert forall|j: int| 0 <= j < cs.len() implies cs[cs.len() - 1] <= #[trigger] cs[j] by {
                if j < cs.len() - 1 {
                    assert(d[k] <= d[j]);
                }
            }
            assert forall|j: int| 0 <= j < cs.len() - 1 implies cs[cs.len() - 1] < #[trigger] cs[j] by {
                assert(d[k] <= d[j]);
            }
        } else {
            assert forall|j: int| 0 <= j < cs.len() implies cs[k] <= #[trigger] cs[j] by {
                if j < cs.len() - 1 {
                    assert(d[k] <= d[j]);
                }
            }
            assert forall|j: int| 0 <= j < k implies cs[k] < #[trigger] cs[j] by {
                assert(d[k] < d[j]);
            }
        }
    }
}

/// The first least count and where it is.
fn first_min(cs: &Vec<u64>) -> (r: (usize, u64))
    requires
        cs@.len() > 0,
    ensures
        r.0 == first_min_index(nat_counts(cs@)),
        r.0 < cs@.len(),
        r.1 == cs@[r.0 as int],
{
    let mut best: usize = 0;
    let mut i: usize = 1;
    assert(nat_counts(cs@).subrange(0, 1).len() == 1);
    while i < cs.len()
        invariant
            cs@.len() > 0,
            1 <= i <= cs@.len(),
            best == first_min_index(nat_counts(cs@).subrange(0, i as int)),
            best < i,
        decreases cs@.len() - i,
    {
        proof {
            let s1 = nat_counts(cs@).subrange(0, i + 1);
            assert(s1.drop_last() =~= nat_counts(cs@).subrange(0, i as int));
            lemma_first_min(nat_counts(cs@).subrange(0, i as int));
        }
        if cs[i] < cs[best] {
            best = i;
        }
        i = i + 1;
    }
    assert(nat_counts(cs@).subrange(0, cs@.len() as int) =~= nat_counts(cs@));
    proof {
        lemma_first_min(nat_counts(cs@));
    }
    (best, cs[best])
}

fn max_of(cs: &Vec<u64>) -> (m: u64)
    ensures
        m == max_count(nat_counts(cs@)),
{
    let mut m: u64 = 0;
    let mut i: usize = 0;
    assert(nat_counts(cs@).subrange(0, 0) =~= Seq::<nat>::empty());
    while i < cs.len()
        invariant
            i <= cs@.len(),
            m == max_count(nat_counts(cs@).subrange(0, i as int)),
        decreases cs@.len() - i,
    {
        proof {
            let s1 = nat_counts(cs@).subrange(0, i + 1);
            assert(s1.drop_last() =~= nat_counts(cs@).subrange(0, i as int));
        }
        if cs[i] > m {
            m = cs[i];
        }
        i = i + 1;
    }
    assert(nat_counts(cs@).subrange(0, cs@.len() as int) =~= nat_counts(cs@));
    m
}

/// A participant whose track is near-empty while another holds real content.
pub fn failed_participant_track(turns: &Vec<TurnText>, names: &Vec<String>) -> (r: Option<String>)
    requires
        turns_fit(turns@),
    ensures
        text_of(r) == failed_track_of(turns@, string_views(names@)),
{
    if names.len() < 2 {
        return None;
    }
    let cs = counts_of(turns, names);
    proof {
        assert(nat_counts(cs@) =~= char_counts(turns@, string_views(names@)));
    }
    let (i, mn) = first_min(&cs);
    let mx = max_of(&cs);
    if mn <= 32 && mx >= 200 && mn * 20 < mx {
        Some(names[i].clone())
    } else {
        None
    }
}

/// The participant with the fewest characters.
pub fn weakest_participant(turns: &Vec<TurnText>, names: &Vec<String>) -> (r: Option<String>)
    requires
        turns_fit(turns@),
    ensures
        text_of(r) == weakest_of(turns@, string_views(names@)),
{
    if names.len() == 0 {
        return None;
    }
    let cs = counts_of(turns, names);
    proof {
        assert(nat_counts(cs@) =~= char_counts(turns@, string_views(names@)));
    }
    let (i, _) = first_min(&cs);
    Some(names[i].clone())
}

/// Who unattributed mix speech goes to.
pub fn residual_fallback_name(turns: &Vec<TurnText>, names: &Vec<String>) -> (r: String)
    requires
        turns_fit(turns@),
    ensures
        r@ == fallback_of(turns@, string_views(names@)),
{
    if names.len() == 1 {
        return names[0].clone();
    }
    match failed_participant_track(turns, names) {
        Some(n) => n,
        None => match weakest_participant(turns, names) {
            Some(n) => n,
            None => owned("Unknown"),
        },
    }
}

/// A mix branch label: `room` or `merged`, in any case.
pub open spec fn mix_label(s: Seq<char>) -> bool {
    lower_ascii_seq(s) == lower_ascii_seq("room"@) || lower_ascii_seq(s) == lower_ascii_seq(
        "merged"@,
    )
}

pub fn is_mix_branch_label(label: &str) -> (b: bool)
    ensures
        b == mix_label(label@),
{
    eq_ignore_ascii_case(label, "room") || eq_ignore_ascii_case(label, "merged")
}

/// `t` is `was` with speaker `speaker`.
pub open spec fn relabeled(t: TurnText, was: TurnText, speaker: Seq<char>) -> bool {
    t.text@ == was.text@ && t.speaker@ == speaker
}

/// Relabels mix residual turns, never keeping the mix's own label. With a failed track,
/// all of it goes to the fallback (diarization would credit the strong track); otherwise
/// each turn goes to the participant its diarized speaker maps to (`diarized`, worked out
/// from timing outside), else to the fallback. Texts are kept.
pub fn attribute_mix_residual(
    residual: &mut Vec<TurnText>,
    diarized: &Vec<Option<String>>,
    participant_turns: &Vec<TurnText>,
    names: &Vec<String>,
)
    requires
        diarized@.len() == old(residual)@.len(),
        turns_fit(participant_turns@),
    ensures
        final(residual)@.len() == old(residual)@.len(),
        forall|i: int|
            0 <= i < old(residual)@.len() ==> relabeled(#[trigger] final(residual)@[i], old(
                residual,
            )@[i], if failed_track_of(
                participant_turns@,
                string_views(names@),
            ) is Some {
                fallback_of(participant_turns@, string_views(names@))
            } else {
                match text_of(diarized@[i]) {
                    Some(n) => n,
                    None => fallback_of(participant_turns@, string_views(names@)),
                }
            }),
{
    if residual.len() == 0 {
        return;
    }
    let fallback = residual_fallback_name(participant_turns, names);
    let failed = failed_participant_track(participant_turns, names).is_some();
    let n = residual.len();
    let mut out: Vec<TurnText> = Vec::new();
    let mut i: usize = 0;
    while i < n
        invariant
            n == old(residual)@.len(),
            residual@ == old(residual)@,
            diarized@.len() == n,
            fallback@ == fallback_of(participant_turns@, string_views(names@)),
            failed == (failed_track_of(participant_turns@, string_views(names@)) is Some),
            i <= n,
            out@.len() == i,
            forall|j: int|
                0 <= j < i ==> relabeled(#[trigger] out@[j], old(residual)@[j], if failed {
                    fallback@
                } else {
                    match text_of(diarized@[j]) {
                        Some(d) => d,
                        None => fallback@,
                    }
                }),
        decreases n - i,
    {
        let speaker = if failed {
            fallback.clone()
        } else {
            match &diarized[i] {
                Some(d) => d.clone(),
                None => fallback.clone(),
            }
        };
        out.push(TurnText { speaker, text: residual[i].text.clone() });
        i = i + 1;
    }
    *residual = out;
}

/// Last scrub: any turn still labelled `room` or `merged` goes to the fallback name.
pub fn scrub_mix_branch_labels(
    turns: &mut Vec<TurnText>,
    participant_turns: &Vec<TurnText>,
    names: &Vec<String>,
)
    requires
        turns_fit(participant_turns@),
    ensures
        final(turns)@.len() == old(turns)@.len(),
        forall|i: int|
            0 <= i < old(turns)@.len() ==> relabeled(#[trigger] final(turns)@[i], old(turns)@[i], if mix_label(old(turns)@[i].speaker@) {
                fallback_of(participant_turns@, string_views(names@))
            } else {
                old(turns)@[i].speaker@
            }),
{
    let fallback = residual_fallback_name(participant_turns, names);
    let n = turns.len();
    let mut out: Vec<TurnText> = Vec::new();
    let mut i: usize = 0;
    while i < n
        invariant
            n == old(turns)@.len(),
            turns@ == old(turns)@,
            fallback@ == fallback_of(participant_turns@, string_views(names@)),
            i <= n,
            out@.len() == i,
            forall|j: int|
                0 <= j < i ==> relabeled(#[trigger] out@[j], old(turns)@[j], if mix_label(old(turns)@[j].speaker@) {
                    fallback@
                } else {
                    old(turns)@[j].speaker@
                }),
        decreases n - i,
    {
        let t = &turns[i];
        let speaker = if is_mix_branch_label(t.speaker.as_str()) {
            fallback.clone()
        } else {
            t.speaker.clone()
        };
        out.push(TurnText { speaker, text: t.text.clone() });
        i = i + 1;
    }
    *turns = out;
}

/// After the scrub, no turn carries a mix label, provided the fallback name is not one.
pub proof fn law_scrub_leaves_no_mix_label(
    before: Seq<TurnText>,
    after: Seq<TurnText>,
    participant_turns: Seq<TurnText>,
    names: Seq<Seq<char>>,
)
    requires
        after.len() == before.len(),
        forall|i: int|
            0 <= i < before.len() ==> relabeled(
                #[trigger] after[i],
                before[i],
                if mix_label(before[i].speaker@) {
                    fallback_of(participant_turns, names)
                } else {
                    before[i].speaker@
                },
            ),
        !mix_label(fallback_of(participant_turns, names)),
    ensures
        forall|i: int| 0 <= i < after.len() ==> !mix_label(#[trigger] after[i].speaker@),
{
    assert forall|i: int| 0 <= i < after.len() implies !mix_label(#[trigger] after[i].speaker@) by {
        assert(relabeled(after[i], before[i], if mix_label(before[i].speaker@) {
            fallback_of(participant_turns, names)
        } else {
            before[i].speaker@
        }));
    }
}

/// The speakers that are not mix labels, in order.
pub open spec fn non_mix(s: Seq<Seq<char>>) -> Seq<Seq<char>>
    decreases s.len(),
{
    if s.len() == 0 {
        Seq::<Seq<char>>::empty()
    } else if mix_label(s.last()) {
        non_mix(s.drop_last())
    } else {
        non_mix(s.drop_last()).push(s.last())
    }
}

/// The roster: the participants, then speakers credited with residual turns, each once,
/// never a mix label.
pub fn meeting_roster(participants: &Vec<String>, turn_speakers: &Vec<String>) -> (r: Vec<String>)
    ensures
        string_views(r@) == dedup(string_views(participants@) + non_mix(
            string_views(turn_speakers@),
        )),
{
    let ghost ps = string_views(participants@);
    let ghost ts = string_views(turn_speakers@);
    let mut all: Vec<String> = crate::text::clone_strings(participants);
    let mut i: usize = 0;
    assert(ts.subrange(0, 0) =~= Seq::<Seq<char>>::empty());
    assert(string_views(all@) =~= ps + non_mix(ts.subrange(0, 0)));
    while i < turn_speakers.len()
        invariant
            ps == string_views(participants@),
            ts == string_views(turn_speakers@),
            i <= ts.len(),
            string_views(all@) == ps + non_mix(ts.subrange(0, i as int)),
        decreases ts.len() - i,
    {
        proof {
            let t1 = ts.subrange(0, i + 1);
            assert(t1.drop_last() =~= ts.subrange(0, i as int));
        }
        if !is_mix_branch_label(turn_speakers[i].as_str()) {
            let ghost before = string_views(all@);
            all.push(turn_speakers[i].clone());
            assert(string_views(all@) =~= before.push(ts[i as int]));
        }
        i = i + 1;
        assert(string_views(all@) =~= ps + non_mix(ts.subrange(0, i as int)));
    }
    assert(ts.subrange(0, ts.len() as int) =~= ts);
    dedup_strings(&all)
}

proof fn lemma_dedup(s: Seq<Seq<char>>)
    ensures
        forall|x: Seq<char>| #[trigger] dedup(s).contains(x) <==> s.contains(x),
        dedup(s).no_duplicates(),
    decreases s.len(),
{
    if s.len() > 0 {
        let d = dedup(s.drop_last());
        lemma_dedup(s.drop_last());
        assert forall|x: Seq<char>| #[trigger] s.contains(x) <==> (s.drop_last().contains(x) || x
            == s.last()) by {
            if s.contains(x) {
                let j = s.index_of(x);
                if j < s.len() - 1 {
                    assert(s.drop_last()[j] == x);
                }
            }
            if s.drop_last().contains(x) {
                let j = s.drop_last().index_of(x);
                assert(s[j] == x);
            }
            if x == s.last() {
                assert(s[s.len() - 1] == x);
            }
        }
        if !d.contains(s.last()) {
            assert forall|x: Seq<char>| #[trigger] d.push(s.last()).contains(x) <==> (d.contains(x)
                || x == s.last()) by {
                if d.push(s.last()).contains(x) {
                    let j = d.push(s.last()).index_of(x);
                    if j < d.len() {
                        assert(d[j] == x);
                    }
                }
                if d.contains(x) {
                    let j = d.index_of(x);
                    assert(d.push(s.last())[j] == x);
                }
                if x == s.last() {
                    assert(d.push(s.last())[d.len() as int] == x);
                }
            }
        }
    }
}

proof fn lemma_non_mix(s: Seq<Seq<char>>)
    ensures
        forall|x: Seq<char>| #[trigger] non_mix(s).contains(x) <==> s.contains(x) && !mix_label(x),
    decreases s.len(),
{
    if s.len() > 0 {
        lemma_non_mix(s.drop_last());
        let r = non_mix(s.drop_last());
        assert forall|x: Seq<char>| #[trigger] s.contains(x) <==> (s.drop_last().contains(x) || x
            == s.last()) by {
            if s.contains(x) {
                let j = s.index_of(x);
                if j < s.len() - 1 {
                    assert(s.drop_last()[j] == x);
                }
            }
            if s.drop_last().contains(x) {
                let j = s.drop_last().index_of(x);
                assert(s[j] == x);
            }
            if x == s.last() {
                assert(s[s.len() - 1] == x);
            }
        }
        if !mix_label(s.last()) {
            assert forall|x: Seq<char>| #[trigger] r.push(s.last()).contains(x) <==> (r.contains(x)
                || x == s.last()) by {
                if r.push(s.last()).contains(x) {
                    let j = r.push(s.last()).index_of(x);
                    if j < r.len() {
                        assert(r[j] == x);
                    }
                }
                if r.contains(x) {
                    let j = r.index_of(x);
                    assert(r.push(s.last())[j] == x);
                }
                if x == s.last() {
                    assert(r.push(s.last())[r.len() as int] == x);
                }
            }
        }
    }
}

/// The roster names every participant and every speaker of a turn that is not a mix
/// label, each once; when no participant is a mix label, neither is any roster entry.
pub proof fn law_roster(participants: Seq<Seq<char>>, speakers: Seq<Seq<char>>)
    ensures
        dedup(participants + non_mix(speakers)).no_duplicates(),
        forall|p: Seq<char>| #[trigger] participants.contains(p) ==> dedup(
            participants + non_mix(speakers),
        ).contains(p),
        forall|s: Seq<char>| #[trigger] speakers.contains(s) && !mix_label(s) ==> dedup(
            participants + non_mix(speakers),
        ).contains(s),
        (forall|p: Seq<char>| #[trigger] participants.contains(p) ==> !mix_label(p)) ==> forall|
            x: Seq<char>,
        | #[trigger] dedup(participants + non_mix(speakers)).contains(x) ==> !mix_label(x),
{
    let all = participants + non_mix(speakers);
    lemma_dedup(all);
    lemma_non_mix(speakers);
    assert forall|x: Seq<char>| #[trigger] all.contains(x) <==> (participants.contains(x)
        || non_mix(speakers).contains(x)) by {
        if all.contains(x) {
            let j = all.index_of(x);
            if j < participants.len() {
                assert(participants[j] == x);
            } else {
                assert(non_mix(speakers)[j - participants.len()] == x);
            }
        }
        if participants.contains(x) {
            let j = participants.index_of(x);
            assert(all[j] == x);
        }
        if non_mix(speakers).contains(x) {
            let j = non_mix(speakers).index_of(x);
            assert(all[participants.len() + j] == x);
        }
    }
}

/// Each string once, at its first place.
pub fn dedup_strings(v: &Vec<String>) -> (r: Vec<String>)
    ensures
        string_views(r@) == dedup(string_views(v@)),
{
    let ghost s = string_views(v@);
    let mut out: Vec<String> = Vec::new();
    let mut i: usize = 0;
    assert(s.subrange(0, 0) =~= Seq::<Seq<char>>::empty());
    while i < v.len()
        invariant
            s == string_views(v@),
            i <= s.len(),
            string_views(out@) == dedup(s.subrange(0, i as int)),
        decreases s.len() - i,
    {
        proof {
            let s1 = s.subrange(0, i + 1);
            assert(s1.drop_last() =~= s.subrange(0, i as int));
        }
        if !contains_str(&out, v[i].as_str()) {
            let ghost before = string_views(out@);
            out.push(v[i].clone());
            assert(string_views(out@) =~= before.push(s[i as int]));
        }
        i = i + 1;
    }
    assert(s.subrange(0, s.len() as int) =~= s);
    out
}

/// The Markdown of turns from `last` on: a `**Name**` header when the speaker changes,
/// then each non-blank text, trimmed, as a paragraph.
pub open spec fn markdown_from(turns: Seq<TurnText>, last: Option<Seq<char>>) -> Seq<char>
    decreases turns.len(),
{
    if turns.len() == 0 {
        Seq::<char>::empty()
    } else {
        let t = turns[0];
        let text = trim_ws(t.text@);
        if text.len() == 0 {
            markdown_from(turns.drop_first(), last)
        } else {
            let header = if last != Some(t.speaker@) {
                "**"@ + t.speaker@ + "**\n"@
            } else {
                Seq::<char>::empty()
            };
            header + text + "\n\n"@ + markdown_from(turns.drop_first(), Some(t.speaker@))
        }
    }
}

/// The human-readable meeting transcript: a speaker header only when the speaker changes;
/// consecutive turns of one speaker are paragraphs under one header.
pub fn format_meeting_markdown(turns: &Vec<TurnText>) -> (r: String)
    ensures
        r@ == markdown_from(turns@, None),
{
    let mut out = String::new();
    let mut last: Option<String> = None;
    let n = turns.len();
    let mut i: usize = 0;
    assert(turns@.subrange(0, n as int) =~= turns@);
    assert(out@ =~= Seq::<char>::empty());
    while i < n
        invariant
            n == turns@.len(),
            i <= n,
            out@ + markdown_from(turns@.subrange(i as int, n as int), text_of(last))
                == markdown_from(turns@, None),
        decreases n - i,
    {
        let t = &turns[i];
        let ghost rest = turns@.subrange(i as int, n as int);
        proof {
            assert(rest[0] == turns@[i as int]);
            assert(rest.drop_first() =~= turns@.subrange(i + 1, n as int));
        }
        let text = trim(t.text.as_str());
        let nonblank = chars_of(text.as_str()).len() > 0;
        if nonblank {
            let changed = match &last {
                Some(l) => !str_eq(l.as_str(), t.speaker.as_str()),
                None => true,
            };
            let ghost before = out@;
            if changed {
                out = concat(out.as_str(), "**");
                out = concat(out.as_str(), t.speaker.as_str());
                out = concat(out.as_str(), "**\n");
                last = Some(t.speaker.clone());
            }
            out = concat(out.as_str(), text.as_str());
            out = concat(out.as_str(), "\n\n");
            proof {
                let header = if changed {
                    "**"@ + t.speaker@ + "**\n"@
                } else {
                    Seq::<char>::empty()
                };
                assert(out@ =~= before + header + text@ + "\n\n"@);
                assert(text_of(last) == Some(t.speaker@));
            }
        }
        i = i + 1;
    }
    out
}

/// The alignment setting `key` (the `alignment` map's text), or `d`.
pub open spec fn alignment_setting(opts: NameMap<ArgValue>, key: Seq<char>, d: Seq<char>) -> Seq<char> {
    if opts@.contains_key("alignment"@) && opts@["alignment"@] is Mapping {
        or_text(option_text(opts@["alignment"@]->Mapping_0, key), d)
    } else {
        d
    }
}

/// The alignment setting `key`, or `default`.
pub fn alignment_field(opts: &NameMap<ArgValue>, key: &str, default: &str) -> (r: String)
    ensures
        r@ == alignment_setting(*opts, key@, default@),
{
    if let Some(v) = opts.get("alignment") {
        if let Some(m) = v.as_map() {
            return match crate::schema::opt_string(m, key) {
                Some(t) => t,
                None => owned(default),
            };
        }
    }
    owned(default)
}

/// The reference actually used: a timeline when there is one and `timeline` or `auto`
/// was asked; else the mix when there is one and `mix` or `auto` was asked; else none.
pub open spec fn reference_used(timeline: bool, mix: bool, asked: Seq<char>) -> Seq<char> {
    if timeline && (asked == "timeline"@ || asked == "auto"@) {
        "timeline"@
    } else if mix && (asked == "mix"@ || asked == "auto"@) {
        "mix"@
    } else {
        "none"@
    }
}

pub fn effective_reference(timeline: bool, mix: bool, asked: &str) -> (r: &'static str)
    ensures
        r@ == reference_used(timeline, mix, asked@),
{
    if timeline && (str_eq(asked, "timeline") || str_eq(asked, "auto")) {
        "timeline"
    } else if mix && (str_eq(asked, "mix") || str_eq(asked, "auto")) {
        "mix"
    } else {
        "none"
    }
}

} // verus!
