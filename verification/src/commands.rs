//! What each capability's child tool is run with: output paths, arguments, and the
//! decisions around them (reusing an existing output, asking for an overwrite, which
//! sidecars belong to the result). Spawning the tools and looking at the disk happen
//! outside; what they find (whether a file exists) comes in as arguments.

use vstd::prelude::*;

use crate::collections::NameMap;
use crate::defaults::{is_video, is_video_path};
use crate::exec::{exec_error_text, text_of, ExecError, InvokeRequest};
use crate::paths::{
    extension, extension_of, file_name_of, file_stem, file_stem_of, join, join_path, parent, parent_of,
    work_dir_for_input, work_dir_of,
};
use crate::schema::{
    arg_text, arg_view, lemma_options_view, option_bool, option_text, options_view, string_views,
    ArgValue, ArgView, Capability,
};
use crate::text::{
    chars_of, concat, has_prefix, has_suffix, owned, slice_chars, starts_with, str_eq, string_of,
    vec_has_suffix,
};

verus! {

/// `o`, or `d` when absent.
pub open spec fn or_text(o: Option<Seq<char>>, d: Seq<char>) -> Seq<char> {
    match o {
        Some(s) => s,
        None => d,
    }
}

/// `s` without the suffix `p`, when it ends with it.
pub open spec fn strip_suffix_of(s: Seq<char>, p: Seq<char>) -> Seq<char> {
    if has_suffix(s, p) {
        s.subrange(0, s.len() - p.len())
    } else {
        s
    }
}

/// `s` without the suffix `p`, when it ends with it.
pub fn strip_suffix(s: &str, p: &str) -> (r: String)
    ensures
        r@ == strip_suffix_of(s@, p@),
{
    let x = chars_of(s);
    let y = chars_of(p);
    if vec_has_suffix(&x, &y) {
        let v = slice_chars(&x, 0, x.len() - y.len());
        string_of(&v)
    } else {
        string_of(&x)
    }
}

fn or_default(o: Option<String>, d: &str) -> (r: String)
    ensures
        r@ == or_text(text_of(o), d@),
{
    match o {
        Some(s) => s,
        None => owned(d),
    }
}

/// Where a generated file `name` goes: under the Job's output directory when it has one,
/// else in the work directory beside the input.
pub open spec fn placed(out_dir: Option<Seq<char>>, input: Seq<char>, name: Seq<char>) -> Seq<char> {
    match out_dir {
        Some(d) => join_path(d, name),
        None => join_path(work_dir_of(input), name),
    }
}

fn place(req: &InvokeRequest, name: &str) -> (r: String)
    ensures
        r@ == placed(text_of(req.output_dir), req.input@, name@),
{
    match &req.output_dir {
        Some(d) => join(d.as_str(), name),
        None => {
            let w = work_dir_for_input(req.input.as_str());
            join(w.as_str(), name)
        },
    }
}

/// The filter kind of a filter map: its `type`, else its `operation`.
pub open spec fn filter_kind(m: NameMap<ArgValue>) -> Option<Seq<char>> {
    if m@.contains_key("type"@) {
        arg_text(arg_view(m@["type"@]))
    } else if m@.contains_key("operation"@) {
        arg_text(arg_view(m@["operation"@]))
    } else {
        None
    }
}

/// `f` is a filter map of kind `extract-audio`.
pub open spec fn is_extract_audio(f: ArgValue) -> bool {
    f is Mapping && filter_kind(f->Mapping_0) == Some("extract-audio"@)
}

/// The `filters` option is a list with an `extract-audio` filter.
pub open spec fn extracts_audio(opts: NameMap<ArgValue>) -> bool {
    &&& opts@.contains_key("filters"@)
    &&& opts@["filters"@] is List
    &&& exists|i: int|
        0 <= i < opts@["filters"@]->List_0@.len() && #[trigger] is_extract_audio(
            opts@["filters"@]->List_0@[i],
        )
}

fn is_extract_audio_filter(f: &ArgValue) -> (b: bool)
    ensures
        b == is_extract_audio(*f),
{
    match f.as_map() {
        Some(m) => {
            let kind = match m.get("type") {
                Some(v) => v.as_string(),
                None => match m.get("operation") {
                    Some(v) => v.as_string(),
                    None => None,
                },
            };
            match kind {
                Some(k) => str_eq(k.as_str(), "extract-audio"),
                None => false,
            }
        },
        None => false,
    }
}

/// The preprocess filters extract the audio track.
pub fn filters_include_extract_audio(opts: &NameMap<ArgValue>) -> (b: bool)
    ensures
        b == extracts_audio(*opts),
{
    match opts.get("filters") {
        Some(v) => match v.as_list() {
            Some(list) => {
                assert(list@ == opts@["filters"@]->List_0@);
                let mut i: usize = 0;
                while i < list.len()
                    invariant
                        i <= list.len(),
                        list@ == opts@["filters"@]->List_0@,
                        opts@.contains_key("filters"@),
                        opts@["filters"@] is List,
                        forall|j: int| 0 <= j < i ==> !is_extract_audio(#[trigger] list@[j]),
                    decreases list.len() - i,
                {
                    if is_extract_audio_filter(&list[i]) {
                        assert(is_extract_audio(list@[i as int]));
                        return true;
                    }
                    i = i + 1;
                }
                false
            },
            None => false,
        },
        None => false,
    }
}

/// Preprocess output: the step's own output, else `{stem}.prepared.{ext}` placed as
/// generated files are. Extracted audio and video input give WAV; other input keeps its
/// extension.
pub open spec fn preprocess_output(
    output: Option<Seq<char>>,
    out_dir: Option<Seq<char>>,
    input: Seq<char>,
    opts: NameMap<ArgValue>,
) -> Seq<char> {
    match output {
        Some(o) => o,
        None => {
            let stem = or_text(file_stem_of(input), "prepared"@);
            let ext = if extracts_audio(opts) || is_video(input) {
                "wav"@
            } else {
                or_text(extension_of(input), "wav"@)
            };
            placed(out_dir, input, stem + ".prepared."@ + ext)
        },
    }
}

/// Where the preprocess step writes its media.
pub fn infer_preprocess_output(req: &InvokeRequest) -> (r: String)
    ensures
        r@ == preprocess_output(
            text_of(req.output),
            text_of(req.output_dir),
            req.input@,
            req.options,
        ),
{
    if let Some(o) = &req.output {
        return o.clone();
    }
    let stem = or_default(file_stem(req.input.as_str()), "prepared");
    let ext = if filters_include_extract_audio(&req.options) || is_video_path(req.input.as_str()) {
        owned("wav")
    } else {
        or_default(extension(req.input.as_str()), "wav")
    };
    let name = concat(concat(stem.as_str(), ".prepared.").as_str(), ext.as_str());
    place(req, name.as_str())
}

/// `{stem}{suffix}` placed as generated files are, unless the step names its output;
/// `out` stands for a missing stem.
pub open spec fn derived_output(
    output: Option<Seq<char>>,
    out_dir: Option<Seq<char>>,
    input: Seq<char>,
    suffix: Seq<char>,
) -> Seq<char> {
    match output {
        Some(o) => o,
        None => placed(out_dir, input, or_text(file_stem_of(input), "out"@) + suffix),
    }
}

fn derive_output(req: &InvokeRequest, suffix: &str) -> (r: String)
    ensures
        r@ == derived_output(text_of(req.output), text_of(req.output_dir), req.input@, suffix@),
{
    if let Some(o) = &req.output {
        return o.clone();
    }
    let stem = or_default(file_stem(req.input.as_str()), "out");
    let name = concat(stem.as_str(), suffix);
    place(req, name.as_str())
}

/// Where the diarize step writes its timeline: `{stem}.diarization.json`.
pub fn infer_diarize_output(req: &InvokeRequest) -> (r: String)
    ensures
        r@ == derived_output(
            text_of(req.output),
            text_of(req.output_dir),
            req.input@,
            ".diarization.json"@,
        ),
{
    derive_output(req, ".diarization.json")
}

/// Where the transcribe step writes its text: `{stem}.txt`.
pub fn infer_gigaam_output(req: &InvokeRequest) -> (r: String)
    ensures
        r@ == derived_output(text_of(req.output), text_of(req.output_dir), req.input@, ".txt"@),
{
    derive_output(req, ".txt")
}

/// Fix output: `{stem}.fixed.{ext}`, where a stem already ending in `.fixed` loses it, so
/// a chain of fixes rewrites one file.
pub open spec fn fix_output(
    output: Option<Seq<char>>,
    out_dir: Option<Seq<char>>,
    input: Seq<char>,
) -> Seq<char> {
    match output {
        Some(o) => o,
        None => {
            let stem = strip_suffix_of(or_text(file_stem_of(input), "out"@), ".fixed"@);
            let ext = or_text(extension_of(input), "txt"@);
            placed(out_dir, input, stem + ".fixed."@ + ext)
        },
    }
}

/// The parts of a fix output name: the stem and extension have no separator and the
/// extension no dot.
proof fn lemma_fix_name_parts(input: Seq<char>)
    ensures
        crate::paths::lacks(strip_suffix_of(or_text(file_stem_of(input), "out"@), ".fixed"@), '/'),
        crate::paths::lacks(or_text(extension_of(input), "txt"@), '/'),
        crate::paths::lacks(or_text(extension_of(input), "txt"@), '.'),
{
    reveal_strlit("out");
    reveal_strlit("txt");
    let q = crate::paths::trim_slashes(input);
    let seg = q.subrange(crate::paths::last_index_of(q, '/') + 1, q.len() as int);
    crate::paths::lemma_last_index_of(q, '/');
    assert(crate::paths::lacks(seg, '/')) by {
        assert forall|i: int| 0 <= i < seg.len() implies seg[i] != '/' by {
            assert(seg[i] == q[crate::paths::last_index_of(q, '/') + 1 + i]);
        }
    }
    let stem0 = or_text(file_stem_of(input), "out"@);
    assert(crate::paths::lacks(stem0, '/')) by {
        if file_name_of(input) is Some {
            let n = file_name_of(input)->0;
            assert(n == seg);
            let dt = crate::paths::last_index_of(n, '.');
            crate::paths::lemma_last_index_of(n, '.');
            if dt > 0 {
                assert(stem0 == n.subrange(0, dt));
                assert forall|i: int| 0 <= i < stem0.len() implies stem0[i] != '/' by {
                    assert(stem0[i] == n[i]);
                }
            } else {
                assert(stem0 == n);
            }
        }
    }
    let stem = strip_suffix_of(stem0, ".fixed"@);
    assert(crate::paths::lacks(stem, '/')) by {
        assert forall|i: int| 0 <= i < stem.len() implies stem[i] != '/' by {
            assert(stem[i] == stem0[i]);
        }
    }
    let ext = or_text(extension_of(input), "txt"@);
    if file_name_of(input) is Some {
        let n = file_name_of(input)->0;
        assert(n == seg);
        let dt = crate::paths::last_index_of(n, '.');
        crate::paths::lemma_last_index_of(n, '.');
        if dt > 0 {
            assert forall|i: int| 0 <= i < ext.len() implies ext[i] != '/' && ext[i] != '.' by {
                assert(ext[i] == n[dt + 1 + i]);
            }
        }
    }
}

/// Where `{stem}.fixed.{ext}` splits: its extension is `ext` and its stem `{stem}.fixed`.
proof fn lemma_fix_name_split(d: Seq<char>, stem: Seq<char>, ext: Seq<char>)
    requires
        crate::paths::lacks(stem, '/'),
        crate::paths::lacks(ext, '/'),
        crate::paths::lacks(ext, '.'),
    ensures
        extension_of(join_path(d, stem + ".fixed."@ + ext)) == Some(ext),
        file_stem_of(join_path(d, stem + ".fixed."@ + ext)) == Some(stem + ".fixed"@),
{
    reveal_strlit(".fixed.");
    reveal_strlit(".fixed");
    let name = stem + ".fixed."@ + ext;
    let dot: int = stem.len() as int + 6;
    assert(name.len() == stem.len() + 7 + ext.len());
    assert(crate::paths::lacks(name, '/')) by {
        assert forall|i: int| 0 <= i < name.len() implies name[i] != '/' by {
            if i < stem.len() {
                assert(name[i] == stem[i]);
            } else if i < stem.len() + 7 {
                assert(name[i] == ".fixed."@[i - stem.len()]);
            } else {
                assert(name[i] == ext[i - stem.len() - 7]);
            }
        }
    }
    assert(name != seq!['.']);
    assert(name != seq!['.', '.']) by {
        assert(name.len() >= 7);
    }
    crate::paths::lemma_file_name_of_join(d, name);
    assert(name[dot] == '.');
    assert forall|j: int| dot < j < name.len() implies name[j] != '.' by {
        assert(name[j] == ext[j - dot - 1]);
    }
    crate::paths::lemma_last_index_at(name, '.', dot);
    assert(name.subrange(dot + 1, name.len() as int) =~= ext);
    assert(name.subrange(0, dot) =~= stem + ".fixed"@);
}

/// A chain of fixes rewrites one file: fixing the output of a fix (into the same output
/// directory) names the same file again.
pub proof fn law_fix_chain_rewrites_in_place(d: Seq<char>, input: Seq<char>)
    ensures
        fix_output(None, Some(d), fix_output(None, Some(d), input)) == fix_output(
            None,
            Some(d),
            input,
        ),
{
    reveal_strlit(".fixed");
    let stem = strip_suffix_of(or_text(file_stem_of(input), "out"@), ".fixed"@);
    let ext = or_text(extension_of(input), "txt"@);
    lemma_fix_name_parts(input);
    let first = join_path(d, stem + ".fixed."@ + ext);
    assert(fix_output(None, Some(d), input) == first);
    lemma_fix_name_split(d, stem, ext);
    let stem2 = stem + ".fixed"@;
    assert(has_suffix(stem2, ".fixed"@)) by {
        assert(stem2.subrange(stem2.len() - 6, stem2.len() as int) =~= ".fixed"@);
    }
    assert(strip_suffix_of(stem2, ".fixed"@) =~= stem);
}

/// Where a fix step writes its transcript.
pub fn infer_fix_output(req: &InvokeRequest) -> (r: String)
    ensures
        r@ == fix_output(text_of(req.output), text_of(req.output_dir), req.input@),
{
    if let Some(o) = &req.output {
        return o.clone();
    }
    let stem0 = or_default(file_stem(req.input.as_str()), "out");
    let stem = strip_suffix(stem0.as_str(), ".fixed");
    let ext = or_default(extension(req.input.as_str()), "txt");
    let name = concat(concat(stem.as_str(), ".fixed.").as_str(), ext.as_str());
    place(req, name.as_str())
}

/// The file `{stem}{suffix}` beside `main` (stem `d` when `main` has none).
pub open spec fn sibling(main: Seq<char>, d: Seq<char>, suffix: Seq<char>) -> Seq<char> {
    join_path(or_text(parent_of(main), "."@), or_text(file_stem_of(main), d) + suffix)
}

pub(crate) fn sibling_of(main: &str, d: &str, suffix: &str) -> (r: String)
    ensures
        r@ == sibling(main@, d@, suffix@),
{
    let dir = or_default(parent(main), ".");
    let stem = or_default(file_stem(main), d);
    let name = concat(stem.as_str(), suffix);
    join(dir.as_str(), name.as_str())
}

/// The segments sidecar of a transcript: `{stem}.segments.json` beside it.
pub fn segments_sidecar_for(main: &str) -> (r: String)
    ensures
        r@ == sibling(main@, "out"@, ".segments.json"@),
{
    sibling_of(main, "out", ".segments.json")
}

/// The time map written beside prepared media: `{stem}.timemap.json`.
pub fn timemap_beside(primary: &str) -> (r: String)
    ensures
        r@ == sibling(primary@, "prepared"@, ".timemap.json"@),
{
    sibling_of(primary, "prepared", ".timemap.json")
}

/// The Markdown rendering beside a meeting JSON: `{stem}.md`.
pub fn meeting_md_path(json_out: &str) -> (r: String)
    ensures
        r@ == sibling(json_out@, "meeting"@, ".md"@),
{
    sibling_of(json_out, "meeting", ".md")
}

/// The step asked for `overwrite: true`.
pub open spec fn overwrite_asked(opts: NameMap<ArgValue>) -> bool {
    option_bool(opts, "overwrite"@) == Some(true)
}

pub fn explicit_overwrite(req: &InvokeRequest) -> (b: bool)
    ensures
        b == overwrite_asked(req.options),
{
    match crate::schema::opt_bool(&req.options, "overwrite") {
        Some(v) => v,
        None => false,
    }
}

/// `out` is the input itself: the same text, or (as `same_file` reports from the disk)
/// the same file.
pub fn same_output_as_input(out: &str, input: &str, same_file: bool) -> (b: bool)
    ensures
        b == (out@ == input@ || same_file),
{
    str_eq(out, input) || same_file
}

/// An existing primary output is reused instead of being made again, unless an overwrite
/// was asked for or the output is the input itself (a fix chain rewrites in place).
/// The reused result names `primary` as the output, with no named outputs.
pub fn reuse_existing(
    req: &InvokeRequest,
    primary: &str,
    primary_exists: bool,
    same_as_input: bool,
) -> (r: Option<crate::exec::InvokeResult>)
    ensures
        r is Some == (primary_exists && !overwrite_asked(req.options) && !same_as_input),
        r matches Some(x) ==> x.primary_output@ == primary@ && x.outputs@ == Map::<
            Seq<char>,
            String,
        >::empty(),
{
    if primary_exists && !explicit_overwrite(req) && !same_as_input {
        Some(crate::exec::InvokeResult::primary_only(primary))
    } else {
        None
    }
}

/// An output that already exists is either reused or overwritten, never both and never
/// neither.
pub proof fn law_existing_output_reused_or_overwritten(opts: NameMap<ArgValue>, same_as_input: bool)
    ensures
        (true && !overwrite_asked(opts) && !same_as_input) != (overwrite_asked(opts)
            || same_as_input),
{
}

/// `--overwrite` is passed when asked for, or when the output is the input itself.
pub fn want_overwrite(req: &InvokeRequest, same_as_input: bool) -> (b: bool)
    ensures
        b == (overwrite_asked(req.options) || same_as_input),
{
    explicit_overwrite(req) || same_as_input
}

/// `[flag, v]` when `v` is present, else nothing.
pub open spec fn flag_pair(flag: Seq<char>, v: Option<Seq<char>>) -> Seq<Seq<char>> {
    match v {
        Some(x) => seq![flag, x],
        None => Seq::<Seq<char>>::empty(),
    }
}

/// `[flag]` when `b`, else nothing.
pub open spec fn flag_if(flag: Seq<char>, b: bool) -> Seq<Seq<char>> {
    if b {
        seq![flag]
    } else {
        Seq::<Seq<char>>::empty()
    }
}

/// `[flag, t]` (or `[flag, k=t]` when `keyed`) for each entry `k` with scalar text `t`, in
/// key order.
pub open spec fn entry_args(es: Seq<(Seq<char>, ArgView)>, flag: Seq<char>, keyed: bool) -> Seq<
    Seq<char>,
>
    decreases es.len(),
{
    if es.len() == 0 {
        Seq::<Seq<char>>::empty()
    } else {
        entry_args(es.drop_last(), flag, keyed) + match arg_text(es.last().1) {
            Some(t) => seq![flag, if keyed {
                es.last().0 + "="@ + t
            } else {
                t
            }],
            None => Seq::<Seq<char>>::empty(),
        }
    }
}

/// `[flag, x]` for each `x` of `xs`.
pub open spec fn each_flagged(xs: Seq<Seq<char>>, flag: Seq<char>) -> Seq<Seq<char>>
    decreases xs.len(),
{
    if xs.len() == 0 {
        Seq::<Seq<char>>::empty()
    } else {
        each_flagged(xs.drop_last(), flag) + seq![flag, xs.last()]
    }
}

fn push_arg(args: &mut Vec<String>, s: &str)
    ensures
        string_views(final(args)@) == string_views(old(args)@).push(s@),
{
    args.push(owned(s));
    assert(string_views(args@) =~= string_views(old(args)@).push(s@));
}

fn push_string(args: &mut Vec<String>, s: String)
    ensures
        string_views(final(args)@) == string_views(old(args)@).push(s@),
{
    let ghost t = s@;
    args.push(s);
    assert(string_views(args@) =~= string_views(old(args)@).push(t));
}

fn push_pair(args: &mut Vec<String>, flag: &str, v: Option<String>)
    ensures
        string_views(final(args)@) == string_views(old(args)@) + flag_pair(flag@, text_of(v)),
{
    match v {
        Some(x) => {
            push_arg(args, flag);
            push_string(args, x);
        },
        None => {},
    }
    assert(string_views(args@) =~= string_views(old(args)@) + flag_pair(flag@, text_of(v)));
}

fn push_if(args: &mut Vec<String>, flag: &str, b: bool)
    ensures
        string_views(final(args)@) == string_views(old(args)@) + flag_if(flag@, b),
{
    if b {
        push_arg(args, flag);
    }
    assert(string_views(args@) =~= string_views(old(args)@) + flag_if(flag@, b));
}

/// Pushes `entry_args` of map `m`; tells whether anything was pushed.
fn push_entry_args(args: &mut Vec<String>, m: &NameMap<ArgValue>, flag: &str, keyed: bool) -> (any:
    bool)
    ensures
        string_views(final(args)@) == string_views(old(args)@) + entry_args(
            options_view(*m),
            flag@,
            keyed,
        ),
        any == (entry_args(options_view(*m), flag@, keyed).len() > 0),
{
    let n = m.len();
    let ghost es = options_view(*m);
    proof {
        lemma_options_view(*m);
        assert(es.subrange(0, 0) =~= Seq::<(Seq<char>, ArgView)>::empty());
    }
    let mut any = false;
    let mut i: usize = 0;
    while i < n
        invariant
            n == m.key_list().len(),
            m.well_formed(),
            es == options_view(*m),
            es.len() == n,
            forall|j: int|
                0 <= j < m.key_list().len() ==> #[trigger] es[j] == (
                    m.key_list()[j],
                    arg_view(m.value_list()[j]),
                ),
            i <= n,
            string_views(args@) == string_views(old(args)@) + entry_args(
                es.subrange(0, i as int),
                flag@,
                keyed,
            ),
            any == (entry_args(es.subrange(0, i as int), flag@, keyed).len() > 0),
        decreases n - i,
    {
        let k = m.key_at(i);
        let v = m.value_at(i);
        proof {
            let e1 = es.subrange(0, i + 1);
            assert(e1.drop_last() =~= es.subrange(0, i as int));
            assert(e1.last() == es[i as int]);
        }
        match v.as_string() {
            Some(t) => {
                push_arg(args, flag);
                if keyed {
                    let kv = concat(concat(k.as_str(), "=").as_str(), t.as_str());
                    push_string(args, kv);
                } else {
                    push_string(args, t);
                }
                any = true;
            },
            None => {},
        }
        i = i + 1;
        proof {
            assert(string_views(args@) =~= string_views(old(args)@) + entry_args(
                es.subrange(0, i as int),
                flag@,
                keyed,
            ));
        }
    }
    proof {
        assert(es.subrange(0, n as int) =~= es);
    }
    any
}

fn push_each(args: &mut Vec<String>, xs: &Vec<String>, flag: &str)
    ensures
        string_views(final(args)@) == string_views(old(args)@) + each_flagged(
            string_views(xs@),
            flag@,
        ),
{
    let ghost vs = string_views(xs@);
    assert(vs.subrange(0, 0) =~= Seq::<Seq<char>>::empty());
    let mut i: usize = 0;
    while i < xs.len()
        invariant
            vs == string_views(xs@),
            i <= xs.len(),
            string_views(args@) == string_views(old(args)@) + each_flagged(
                vs.subrange(0, i as int),
                flag@,
            ),
        decreases xs.len() - i,
    {
        push_arg(args, flag);
        push_string(args, xs[i].clone());
        proof {
            let v1 = vs.subrange(0, i + 1);
            assert(v1.drop_last() =~= vs.subrange(0, i as int));
        }
        i = i + 1;
        assert(string_views(args@) =~= string_views(old(args)@) + each_flagged(
            vs.subrange(0, i as int),
            flag@,
        ));
    }
    assert(vs.subrange(0, xs.len() as int) =~= vs);
}

/// The child tool that carries out a capability; meeting-merge runs in process.
pub open spec fn tool_name(c: Capability) -> Option<Seq<char>> {
    match c {
        Capability::Transcribe => Some("vd-gigaam"@),
        Capability::PrepareContext => Some("vd-assets"@),
        Capability::FixCasing => Some("vd-fix-casing"@),
        Capability::FixAsr => Some("vd-fix-asr"@),
        Capability::FixDisfluency => Some("vd-fix-disfluency"@),
        Capability::FixTerms => Some("vd-fix-terms"@),
        Capability::FixLayout => Some("vd-fix-layout"@),
        Capability::FixOverlap => Some("vd-fix-overlap"@),
        Capability::Diarize => Some("vd-diarize"@),
        Capability::MeetingMerge => None,
        Capability::Preprocess => Some("vd-preprocess"@),
        Capability::Postprocess => Some("vd-postprocess"@),
        Capability::ImportUrl => Some("vd-url"@),
    }
}

/// The child tool that carries out `c`.
pub fn tool_for(c: Capability) -> (r: Option<&'static str>)
    ensures
        r.is_some() == tool_name(c).is_some(),
        r.is_some() ==> r->0@ == tool_name(c)->0,
{
    match c {
        Capability::Transcribe => Some("vd-gigaam"),
        Capability::PrepareContext => Some("vd-assets"),
        Capability::FixCasing => Some("vd-fix-casing"),
        Capability::FixAsr => Some("vd-fix-asr"),
        Capability::FixDisfluency => Some("vd-fix-disfluency"),
        Capability::FixTerms => Some("vd-fix-terms"),
        Capability::FixLayout => Some("vd-fix-layout"),
        Capability::FixOverlap => Some("vd-fix-overlap"),
        Capability::Diarize => Some("vd-diarize"),
        Capability::MeetingMerge => None,
        Capability::Preprocess => Some("vd-preprocess"),
        Capability::Postprocess => Some("vd-postprocess"),
        Capability::ImportUrl => Some("vd-url"),
    }
}

/// `run -i {input} -q -o {output}`: the common head of a tool invocation.
pub open spec fn io_head(input: Seq<char>, output: Seq<char>) -> Seq<Seq<char>> {
    seq!["run"@, "-i"@, input, "-q"@, "-o"@, output]
}

fn io_head_args(input: &str, output: &str) -> (r: Vec<String>)
    ensures
        string_views(r@) == io_head(input@, output@),
{
    let mut a: Vec<String> = Vec::new();
    push_arg(&mut a, "run");
    push_arg(&mut a, "-i");
    push_arg(&mut a, input);
    push_arg(&mut a, "-q");
    push_arg(&mut a, "-o");
    push_arg(&mut a, output);
    assert(string_views(a@) =~= io_head(input@, output@));
    a
}

/// Arguments of a `vd-fix-*` tool: language for all; the context assets for `fix-asr`
/// (`--context`) and `fix-terms` (`--terms`); density and the time map for `fix-layout`.
pub open spec fn fix_tool_args(
    cap: Capability,
    input: Seq<char>,
    primary: Seq<char>,
    overwrite: bool,
    opts: NameMap<ArgValue>,
    ctx: Option<Seq<char>>,
) -> Seq<Seq<char>> {
    io_head(input, primary) + flag_if("--overwrite"@, overwrite) + flag_pair(
        "-l"@,
        option_text(opts, "language"@),
    ) + (if cap == Capability::FixAsr {
        flag_pair("--context"@, ctx)
    } else {
        Seq::<Seq<char>>::empty()
    }) + (if cap == Capability::FixTerms {
        flag_pair("--terms"@, ctx)
    } else {
        Seq::<Seq<char>>::empty()
    }) + (if cap == Capability::FixLayout {
        flag_pair("--density"@, option_text(opts, "density"@)) + (if option_bool(
            opts,
            "use_timemap"@,
        ) == Some(false) {
            seq!["--no-timemap"@]
        } else {
            flag_pair("--timemap"@, option_text(opts, "timemap"@))
        })
    } else {
        Seq::<Seq<char>>::empty()
    })
}

/// The arguments a fix step's tool is run with, writing `primary`.
pub fn fix_args(req: &InvokeRequest, primary: &str, same_as_input: bool) -> (r: Vec<String>)
    ensures
        string_views(r@) == fix_tool_args(
            req.capability,
            req.input@,
            primary@,
            overwrite_asked(req.options) || same_as_input,
            req.options,
            text_of(req.context_assets),
        ),
{
    let opts = &req.options;
    let mut a = io_head_args(req.input.as_str(), primary);
    push_if(&mut a, "--overwrite", want_overwrite(req, same_as_input));
    push_pair(&mut a, "-l", crate::schema::opt_string(opts, "language"));
    let ghost base = string_views(a@);
    if req.capability == Capability::FixAsr {
        push_pair(&mut a, "--context", crate::text::clone_opt(&req.context_assets));
    }
    assert(string_views(a@) =~= base + (if req.capability == Capability::FixAsr {
        flag_pair("--context"@, text_of(req.context_assets))
    } else {
        Seq::<Seq<char>>::empty()
    }));
    let ghost base = string_views(a@);
    if req.capability == Capability::FixTerms {
        push_pair(&mut a, "--terms", crate::text::clone_opt(&req.context_assets));
    }
    assert(string_views(a@) =~= base + (if req.capability == Capability::FixTerms {
        flag_pair("--terms"@, text_of(req.context_assets))
    } else {
        Seq::<Seq<char>>::empty()
    }));
    let ghost base = string_views(a@);
    if req.capability == Capability::FixLayout {
        push_pair(&mut a, "--density", crate::schema::opt_string(opts, "density"));
        let ghost mid = string_views(a@);
        if crate::schema::opt_bool(opts, "use_timemap") == Some(false) {
            push_arg(&mut a, "--no-timemap");
        } else {
            push_pair(&mut a, "--timemap", crate::schema::opt_string(opts, "timemap"));
        }
        assert(string_views(a@) =~= mid + (if option_bool(*opts, "use_timemap"@) == Some(false) {
            seq!["--no-timemap"@]
        } else {
            flag_pair("--timemap"@, option_text(*opts, "timemap"@))
        }));
    }
    a
}

/// Arguments of `vd-fix-overlap`: it only reports unless given `--apply`.
pub open spec fn fix_overlap_tool_args(input: Seq<char>, primary: Seq<char>, overwrite: bool) -> Seq<
    Seq<char>,
> {
    io_head(input, primary) + seq!["--apply"@] + flag_if("--overwrite"@, overwrite)
}

/// The arguments `vd-fix-overlap` is run with, writing `primary`.
pub fn fix_overlap_args(req: &InvokeRequest, primary: &str, same_as_input: bool) -> (r: Vec<
    String,
>)
    ensures
        string_views(r@) == fix_overlap_tool_args(
            req.input@,
            primary@,
            overwrite_asked(req.options) || same_as_input,
        ),
{
    let mut a = io_head_args(req.input.as_str(), primary);
    push_arg(&mut a, "--apply");
    push_if(&mut a, "--overwrite", want_overwrite(req, same_as_input));
    a
}

/// Text of option `k1` when present, else of option `k2`.
pub open spec fn first_text(opts: NameMap<ArgValue>, k1: Seq<char>, k2: Seq<char>) -> Option<
    Seq<char>,
> {
    if opts@.contains_key(k1) {
        option_text(opts, k1)
    } else {
        option_text(opts, k2)
    }
}

fn opt_first(opts: &NameMap<ArgValue>, k1: &str, k2: &str) -> (r: Option<String>)
    ensures
        text_of(r) == first_text(*opts, k1@, k2@),
{
    if opts.contains_key(k1) {
        crate::schema::opt_string(opts, k1)
    } else {
        crate::schema::opt_string(opts, k2)
    }
}

/// Diarize backend and model: from a `backend: {provider, model}` map, else from flat
/// `provider` (or `backend`) and `model`.
pub open spec fn diarize_backend_of(opts: NameMap<ArgValue>) -> (
    Option<Seq<char>>,
    Option<Seq<char>>,
) {
    if opts@.contains_key("backend"@) && opts@["backend"@] is Mapping {
        let m = opts@["backend"@]->Mapping_0;
        (option_text(m, "provider"@), option_text(m, "model"@))
    } else {
        (first_text(opts, "provider"@, "backend"@), option_text(opts, "model"@))
    }
}

pub fn diarize_backend(opts: &NameMap<ArgValue>) -> (r: (Option<String>, Option<String>))
    ensures
        (text_of(r.0), text_of(r.1)) == diarize_backend_of(*opts),
{
    if let Some(v) = opts.get("backend") {
        if let Some(m) = v.as_map() {
            return (
                crate::schema::opt_string(m, "provider"),
                crate::schema::opt_string(m, "model"),
            );
        }
    }
    (opt_first(opts, "provider", "backend"), crate::schema::opt_string(opts, "model"))
}

/// Arguments of `vd-diarize`.
pub open spec fn diarize_tool_args(
    input: Seq<char>,
    primary: Seq<char>,
    overwrite: bool,
    opts: NameMap<ArgValue>,
) -> Seq<Seq<char>> {
    io_head(input, primary) + flag_pair("--backend"@, diarize_backend_of(opts).0) + flag_pair(
        "-m"@,
        diarize_backend_of(opts).1,
    ) + flag_pair("--device"@, option_text(opts, "device"@)) + flag_if("--overwrite"@, overwrite)
}

/// The arguments `vd-diarize` is run with, writing `primary`.
pub fn diarize_args(req: &InvokeRequest, primary: &str, same_as_input: bool) -> (r: Vec<String>)
    ensures
        string_views(r@) == diarize_tool_args(
            req.input@,
            primary@,
            overwrite_asked(req.options) || same_as_input,
            req.options,
        ),
{
    let mut a = io_head_args(req.input.as_str(), primary);
    let (p, m) = diarize_backend(&req.options);
    push_pair(&mut a, "--backend", p);
    push_pair(&mut a, "-m", m);
    push_pair(&mut a, "--device", crate::schema::opt_string(&req.options, "device"));
    push_if(&mut a, "--overwrite", want_overwrite(req, same_as_input));
    a
}

/// The transcription engine asked for (`gigaam` by default).
pub open spec fn engine_asked(opts: NameMap<ArgValue>) -> Seq<char> {
    or_text(option_text(opts, "engine"@), "gigaam"@)
}

/// Only `gigaam` runs; `whisper` is reserved; anything else is unknown.
pub fn check_transcribe_engine(opts: &NameMap<ArgValue>) -> (r: Result<(), ExecError>)
    ensures
        engine_asked(*opts) == "gigaam"@ ==> r is Ok,
        engine_asked(*opts) == "whisper"@ ==> (r matches Err(ExecError::Reserved(m))
            && m@ == "whisper is reserved; vd-whisper is not available yet"@),
        engine_asked(*opts) != "gigaam"@ && engine_asked(*opts) != "whisper"@ ==> (r matches Err(
            ExecError::Step(m),
        ) && m@ == "unknown transcribe engine: "@ + engine_asked(*opts)),
{
    let engine = or_default(crate::schema::opt_string(opts, "engine"), "gigaam");
    proof {
        reveal_strlit("gigaam");
        reveal_strlit("whisper");
    }
    if str_eq(engine.as_str(), "whisper") {
        assert("gigaam"@[0] != "whisper"@[0]);
        return Err(ExecError::Reserved(owned("whisper is reserved; vd-whisper is not available yet")));
    }
    if !str_eq(engine.as_str(), "gigaam") {
        return Err(ExecError::Step(concat("unknown transcribe engine: ", engine.as_str())));
    }
    Ok(())
}

/// Arguments of `vd-gigaam`. `--flash` exists only in non-macOS builds of the tool.
pub open spec fn transcribe_tool_args(
    input: Seq<char>,
    out: Seq<char>,
    overwrite: bool,
    opts: NameMap<ArgValue>,
    macos: bool,
) -> Seq<Seq<char>> {
    io_head(input, out) + flag_pair("-m"@, option_text(opts, "model"@)) + flag_pair(
        "--device"@,
        option_text(opts, "device"@),
    ) + flag_if("--flash"@, !macos && option_bool(opts, "flash"@) == Some(true)) + flag_if(
        "--overwrite"@,
        overwrite,
    ) + flag_if("--segments"@, option_bool(opts, "segments"@) == Some(true)) + flag_if(
        "--word-timestamps"@,
        option_bool(opts, "word_timestamps"@) == Some(true),
    ) + flag_pair("--format"@, option_text(opts, "format"@))
}

fn opt_true(opts: &NameMap<ArgValue>, key: &str) -> (b: bool)
    ensures
        b == (option_bool(*opts, key@) == Some(true)),
{
    crate::schema::opt_bool(opts, key) == Some(true)
}

/// The arguments `vd-gigaam` is run with, writing `out`.
pub fn transcribe_args(req: &InvokeRequest, out: &str, same_as_input: bool, macos: bool) -> (r:
    Vec<String>)
    ensures
        string_views(r@) == transcribe_tool_args(
            req.input@,
            out@,
            overwrite_asked(req.options) || same_as_input,
            req.options,
            macos,
        ),
{
    let opts = &req.options;
    let mut a = io_head_args(req.input.as_str(), out);
    push_pair(&mut a, "-m", crate::schema::opt_string(opts, "model"));
    push_pair(&mut a, "--device", crate::schema::opt_string(opts, "device"));
    push_if(&mut a, "--flash", !macos && opt_true(opts, "flash"));
    push_if(&mut a, "--overwrite", want_overwrite(req, same_as_input));
    push_if(&mut a, "--segments", opt_true(opts, "segments"));
    push_if(&mut a, "--word-timestamps", opt_true(opts, "word_timestamps"));
    push_pair(&mut a, "--format", crate::schema::opt_string(opts, "format"));
    a
}

/// Where context assets go: the step's output, else the Job's assets directory, else
/// `.voxdecoder` in the working directory.
pub open spec fn assets_dir_of(output: Option<Seq<char>>, ctx: Option<Seq<char>>, wd: Seq<char>) -> Seq<
    char,
> {
    match output {
        Some(o) => o,
        None => match ctx {
            Some(c) => c,
            None => join_path(wd, ".voxdecoder"@),
        },
    }
}

pub fn assets_dir(req: &InvokeRequest) -> (r: String)
    ensures
        r@ == assets_dir_of(text_of(req.output), text_of(req.context_assets), req.working_dir@),
{
    match &req.output {
        Some(o) => o.clone(),
        None => match &req.context_assets {
            Some(c) => c.clone(),
            None => join(req.working_dir.as_str(), ".voxdecoder"),
        },
    }
}

/// Arguments of `vd-assets`.
pub open spec fn assets_tool_args(input: Seq<char>, out_dir: Seq<char>, opts: NameMap<ArgValue>) -> Seq<
    Seq<char>,
> {
    seq!["run"@, "-i"@, input, "-o"@, out_dir, "-q"@] + flag_if(
        "--ocr"@,
        option_bool(opts, "ocr"@) == Some(true),
    ) + flag_if("--force"@, option_bool(opts, "force"@) == Some(true))
}

/// The arguments `vd-assets` is run with, writing into `out_dir`.
pub fn prepare_context_args(req: &InvokeRequest, out_dir: &str) -> (r: Vec<String>)
    ensures
        string_views(r@) == assets_tool_args(req.input@, out_dir@, req.options),
{
    let mut a: Vec<String> = Vec::new();
    push_arg(&mut a, "run");
    push_arg(&mut a, "-i");
    push_arg(&mut a, req.input.as_str());
    push_arg(&mut a, "-o");
    push_arg(&mut a, out_dir);
    push_arg(&mut a, "-q");
    push_if(&mut a, "--ocr", opt_true(&req.options, "ocr"));
    push_if(&mut a, "--force", opt_true(&req.options, "force"));
    assert(string_views(a@) =~= assets_tool_args(req.input@, out_dir@, req.options));
    a
}

/// Document extensions the asset builder converts (compared without case).
pub open spec fn doc_ext(e: Seq<char>) -> bool {
    ||| e == "md"@ ||| e == "markdown"@ ||| e == "txt"@ ||| e == "rst"@ ||| e == "pdf"@
    ||| e == "docx"@ ||| e == "doc"@ ||| e == "xlsx"@ ||| e == "xls"@ ||| e == "pptx"@
    ||| e == "ppt"@ ||| e == "odt"@ ||| e == "ods"@
}

/// `path` is a document the asset builder converts.
pub fn is_doc_source(path: &str) -> (b: bool)
    ensures
        b == match extension_of(path@) {
            Some(e) => doc_ext(crate::text::lower_ascii_seq(e)),
            None => false,
        },
{
    match extension(path) {
        Some(e) => {
            let l = crate::text::lowercase_ascii(e.as_str());
            let x = l.as_str();
            str_eq(x, "md") || str_eq(x, "markdown") || str_eq(x, "txt") || str_eq(x, "rst")
                || str_eq(x, "pdf") || str_eq(x, "docx") || str_eq(x, "doc") || str_eq(x, "xlsx")
                || str_eq(x, "xls") || str_eq(x, "pptx") || str_eq(x, "ppt") || str_eq(x, "odt")
                || str_eq(x, "ods")
        },
        None => false,
    }
}

/// Every entry of a filter list is a map.
pub open spec fn all_maps(list: Seq<ArgValue>) -> bool {
    forall|i: int| 0 <= i < list.len() ==> #[trigger] list[i] is Mapping
}

/// Where the preprocess chain comes from: `chain` names a chain file; else the `filters`
/// list (all maps) is written to one; else the step is malformed.
pub fn preprocess_chain(opts: &NameMap<ArgValue>) -> (r: Result<Option<String>, ExecError>)
    ensures
        option_text(*opts, "chain"@) is Some ==> r is Ok && text_of(r->Ok_0) == option_text(
            *opts,
            "chain"@,
        ),
        option_text(*opts, "chain"@) is None && opts@.contains_key("filters"@)
            && opts@["filters"@] is List && all_maps(opts@["filters"@]->List_0@) ==> r
            == Ok::<Option<String>, ExecError>(None),
        option_text(*opts, "chain"@) is None && opts@.contains_key("filters"@)
            && opts@["filters"@] is List && !all_maps(opts@["filters"@]->List_0@) ==> (r matches Err(
            ExecError::Step(m),
        ) && m@ == "preprocess filters entries must be maps"@),
        option_text(*opts, "chain"@) is None && !(opts@.contains_key("filters"@)
            && opts@["filters"@] is List) ==> (r matches Err(ExecError::Step(m)) && m@
            == "preprocess requires options.filters or options.chain"@),
{
    if let Some(c) = crate::schema::opt_string(opts, "chain") {
        return Ok(Some(c));
    }
    let list = match opts.get("filters") {
        Some(v) => match v.as_list() {
            Some(l) => {
                assert(l@ == opts@["filters"@]->List_0@);
                l
            },
            None => return Err(
                ExecError::Step(owned("preprocess requires options.filters or options.chain")),
            ),
        },
        None => return Err(
            ExecError::Step(owned("preprocess requires options.filters or options.chain")),
        ),
    };
    let mut i: usize = 0;
    while i < list.len()
        invariant
            i <= list.len(),
            list@ == opts@["filters"@]->List_0@,
            option_text(*opts, "chain"@) is None,
            opts@.contains_key("filters"@),
            opts@["filters"@] is List,
            forall|j: int| 0 <= j < i ==> #[trigger] list@[j] is Mapping,
        decreases list.len() - i,
    {
        if list[i].as_map().is_none() {
            return Err(ExecError::Step(owned("preprocess filters entries must be maps")));
        }
        i = i + 1;
    }
    Ok(None)
}

/// Arguments of `vd-preprocess`: the provider (`stub` by default), the chain file and the
/// output.
pub open spec fn preprocess_tool_args(
    input: Seq<char>,
    opts: NameMap<ArgValue>,
    chain: Seq<char>,
    primary: Seq<char>,
    overwrite: bool,
) -> Seq<Seq<char>> {
    seq![
        "run"@,
        "-q"@,
        "-i"@,
        input,
        "--provider"@,
        or_text(option_text(opts, "provider"@), "stub"@),
        "--chain"@,
        chain,
        "-o"@,
        primary,
    ] + flag_if("--overwrite"@, overwrite)
}

/// The arguments `vd-preprocess` is run with, reading chain file `chain`, writing `primary`.
pub fn preprocess_args(req: &InvokeRequest, chain: &str, primary: &str, same_as_input: bool) -> (r:
    Vec<String>)
    ensures
        string_views(r@) == preprocess_tool_args(
            req.input@,
            req.options,
            chain@,
            primary@,
            overwrite_asked(req.options) || same_as_input,
        ),
{
    let mut a: Vec<String> = Vec::new();
    push_arg(&mut a, "run");
    push_arg(&mut a, "-q");
    push_arg(&mut a, "-i");
    push_arg(&mut a, req.input.as_str());
    push_arg(&mut a, "--provider");
    push_string(&mut a, or_default(crate::schema::opt_string(&req.options, "provider"), "stub"));
    push_arg(&mut a, "--chain");
    push_arg(&mut a, chain);
    push_arg(&mut a, "-o");
    push_arg(&mut a, primary);
    push_if(&mut a, "--overwrite", want_overwrite(req, same_as_input));
    assert(string_views(a@) =~= preprocess_tool_args(
        req.input@,
        req.options,
        chain@,
        primary@,
        overwrite_asked(req.options) || same_as_input,
    ));
    a
}

/// The entries of map option `key`, when it is a map.
pub open spec fn map_entries_of(opts: NameMap<ArgValue>, key: Seq<char>) -> Option<
    Seq<(Seq<char>, ArgView)>,
> {
    if opts@.contains_key(key) && opts@[key] is Mapping {
        Some(options_view(opts@[key]->Mapping_0))
    } else {
        None
    }
}

/// Named postprocess inputs (`--input name=path` for each `inputs` entry with text), or
/// the step input as `input` when there is none.
pub open spec fn pp_input_args(opts: NameMap<ArgValue>, input: Seq<char>) -> Seq<Seq<char>> {
    let named = match map_entries_of(opts, "inputs"@) {
        Some(es) => entry_args(es, "--input"@, true),
        None => Seq::<Seq<char>>::empty(),
    };
    if named.len() > 0 {
        named
    } else {
        seq!["--input"@, "input="@ + input]
    }
}

/// `--recipe` for each recipe: a list of names, one name, or the text values of a map;
/// none when `recipes` is missing or of another shape.
pub open spec fn recipe_args(opts: NameMap<ArgValue>) -> Option<Seq<Seq<char>>> {
    if !opts@.contains_key("recipes"@) {
        None
    } else {
        match opts@["recipes"@] {
            ArgValue::Strings(rs) => Some(each_flagged(string_views(rs@), "--recipe"@)),
            ArgValue::String(r) => Some(seq!["--recipe"@, r@]),
            ArgValue::Mapping(m) => Some(entry_args(options_view(m), "--recipe"@, false)),
            _ => None,
        }
    }
}

/// The option naming the runner: `runner`, else `provider`.
pub open spec fn runner_key(opts: NameMap<ArgValue>) -> Seq<char> {
    if opts@.contains_key("runner"@) {
        "runner"@
    } else {
        "provider"@
    }
}

/// Runner arguments: from a `{type, model}` map, else the runner's name, else `stub`.
pub open spec fn runner_args(opts: NameMap<ArgValue>) -> Seq<Seq<char>> {
    let k = runner_key(opts);
    if opts@.contains_key(k) && opts@[k] is Mapping {
        let m = opts@[k]->Mapping_0;
        flag_pair("--runner"@, option_text(m, "type"@)) + flag_pair("-m"@, option_text(m, "model"@))
    } else {
        seq!["--runner"@, or_text(option_text(opts, k), "stub"@)]
    }
}

/// `--var k=v` for each `variables` entry with text.
pub open spec fn var_args(opts: NameMap<ArgValue>) -> Seq<Seq<char>> {
    match map_entries_of(opts, "variables"@) {
        Some(es) => entry_args(es, "--var"@, true),
        None => Seq::<Seq<char>>::empty(),
    }
}

/// The output directory: the Job's, else the parent of the step's output.
pub open spec fn pp_dir_args(out_dir: Option<Seq<char>>, output: Option<Seq<char>>) -> Seq<Seq<char>> {
    match out_dir {
        Some(d) => seq!["-d"@, d],
        None => match output {
            Some(o) => flag_pair("-d"@, parent_of(o)),
            None => Seq::<Seq<char>>::empty(),
        },
    }
}

/// Arguments of `vd-postprocess`, when the step names its recipes.
pub open spec fn postprocess_tool_args(
    opts: NameMap<ArgValue>,
    input: Seq<char>,
    out_dir: Option<Seq<char>>,
    output: Option<Seq<char>>,
    overwrite: bool,
) -> Option<Seq<Seq<char>>> {
    match recipe_args(opts) {
        None => None,
        Some(rec) => Some(
            seq!["run"@, "-q"@] + pp_input_args(opts, input) + rec + runner_args(opts) + var_args(
                opts,
            ) + pp_dir_args(out_dir, output) + flag_if("--overwrite"@, overwrite),
        ),
    }
}

fn push_map_option(args: &mut Vec<String>, opts: &NameMap<ArgValue>, key: &str, flag: &str) -> (any:
    bool)
    ensures
        string_views(final(args)@) == string_views(old(args)@) + match map_entries_of(*opts, key@) {
            Some(es) => entry_args(es, flag@, true),
            None => Seq::<Seq<char>>::empty(),
        },
        any == (match map_entries_of(*opts, key@) {
            Some(es) => entry_args(es, flag@, true),
            None => Seq::<Seq<char>>::empty(),
        }.len() > 0),
{
    match opts.get(key) {
        Some(v) => match v.as_map() {
            Some(m) => push_entry_args(args, m, flag, true),
            None => {
                assert(string_views(args@) =~= string_views(old(args)@) + Seq::<Seq<char>>::empty());
                false
            },
        },
        None => {
            assert(string_views(args@) =~= string_views(old(args)@) + Seq::<Seq<char>>::empty());
            false
        },
    }
}

fn push_pp_inputs(a: &mut Vec<String>, opts: &NameMap<ArgValue>, input: &str)
    ensures
        string_views(final(a)@) == string_views(old(a)@) + pp_input_args(*opts, input@),
{
    let mut named: Vec<String> = Vec::new();
    let have_named = push_map_option(&mut named, opts, "inputs", "--input");
    assert(string_views(named@) =~= Seq::<Seq<char>>::empty() + string_views(named@));
    if have_named {
        let mut k: usize = 0;
        while k < named.len()
            invariant
                k <= named.len(),
                string_views(a@) == string_views(old(a)@) + string_views(named@).subrange(
                    0,
                    k as int,
                ),
            decreases named.len() - k,
        {
            push_string(a, named[k].clone());
            k = k + 1;
            assert(string_views(a@) =~= string_views(old(a)@) + string_views(named@).subrange(
                0,
                k as int,
            ));
        }
        assert(string_views(named@).subrange(0, named.len() as int) =~= string_views(named@));
    } else {
        push_arg(a, "--input");
        push_string(a, concat("input=", input));
    }
    assert(string_views(a@) =~= string_views(old(a)@) + pp_input_args(*opts, input@));
}

fn push_recipes(a: &mut Vec<String>, opts: &NameMap<ArgValue>) -> (ok: bool)
    ensures
        ok == recipe_args(*opts) is Some,
        ok ==> string_views(final(a)@) == string_views(old(a)@) + recipe_args(*opts)->0,
{
    match opts.get("recipes") {
        Some(ArgValue::Strings(rs)) => {
            push_each(a, rs, "--recipe");
            true
        },
        Some(ArgValue::String(r)) => {
            push_arg(a, "--recipe");
            push_string(a, r.clone());
            assert(string_views(a@) =~= string_views(old(a)@) + recipe_args(*opts)->0);
            true
        },
        Some(ArgValue::Mapping(m)) => {
            push_entry_args(a, m, "--recipe", false);
            true
        },
        _ => false,
    }
}

fn push_runner(a: &mut Vec<String>, opts: &NameMap<ArgValue>)
    ensures
        string_views(final(a)@) == string_views(old(a)@) + runner_args(*opts),
{
    let runner = if opts.contains_key("runner") {
        opts.get("runner")
    } else {
        opts.get("provider")
    };
    if let Some(v) = runner {
        if let Some(m) = v.as_map() {
            push_pair(a, "--runner", crate::schema::opt_string(m, "type"));
            push_pair(a, "-m", crate::schema::opt_string(m, "model"));
            assert(string_views(a@) =~= string_views(old(a)@) + runner_args(*opts));
            return;
        }
    }
    push_arg(a, "--runner");
    let t = match runner {
        Some(v) => v.as_string(),
        None => None,
    };
    push_string(a, or_default(t, "stub"));
    assert(string_views(a@) =~= string_views(old(a)@) + runner_args(*opts));
}

fn push_pp_dir(a: &mut Vec<String>, req: &InvokeRequest)
    ensures
        string_views(final(a)@) == string_views(old(a)@) + pp_dir_args(
            text_of(req.output_dir),
            text_of(req.output),
        ),
{
    match &req.output_dir {
        Some(d) => {
            push_arg(a, "-d");
            push_arg(a, d.as_str());
        },
        None => match &req.output {
            Some(o) => push_pair(a, "-d", parent(o.as_str())),
            None => {},
        },
    }
    assert(string_views(a@) =~= string_views(old(a)@) + pp_dir_args(
        text_of(req.output_dir),
        text_of(req.output),
    ));
}

/// The arguments `vd-postprocess` is run with; an error when the step has no recipes.
pub fn postprocess_args(req: &InvokeRequest, same_as_input: bool) -> (r: Result<
    Vec<String>,
    ExecError,
>)
    ensures
        match postprocess_tool_args(
            req.options,
            req.input@,
            text_of(req.output_dir),
            text_of(req.output),
            overwrite_asked(req.options) || same_as_input,
        ) {
            None => r matches Err(ExecError::Step(m)) && m@ == "postprocess requires options.recipes"@,
            Some(a) => r is Ok && string_views(r->Ok_0@) == a,
        },
{
    let opts = &req.options;
    let mut a: Vec<String> = Vec::new();
    push_arg(&mut a, "run");
    push_arg(&mut a, "-q");
    let ghost s0 = string_views(a@);
    push_pp_inputs(&mut a, opts, req.input.as_str());
    let ghost s1 = string_views(a@);
    if !push_recipes(&mut a, opts) {
        return Err(ExecError::Step(owned("postprocess requires options.recipes")));
    }
    let ghost s2 = string_views(a@);
    push_runner(&mut a, opts);
    let ghost s3 = string_views(a@);
    push_map_option(&mut a, opts, "variables", "--var");
    let ghost s4 = string_views(a@);
    push_pp_dir(&mut a, req);
    let ghost s5 = string_views(a@);
    let ow = want_overwrite(req, same_as_input);
    push_if(&mut a, "--overwrite", ow);
    proof {
        let rec = recipe_args(*opts)->0;
        assert(s0 =~= seq!["run"@, "-q"@]);
        assert(string_views(a@) =~= seq!["run"@, "-q"@] + pp_input_args(*opts, req.input@) + rec
            + runner_args(*opts) + var_args(*opts) + pp_dir_args(
            text_of(req.output_dir),
            text_of(req.output),
        ) + flag_if("--overwrite"@, ow));
    }
    Ok(a)
}

/// The postprocess primary output: the step's output, else the Job's output directory,
/// else the working directory.
pub fn postprocess_primary(req: &InvokeRequest) -> (r: String)
    ensures
        r@ == or_text(text_of(req.output), or_text(text_of(req.output_dir), req.working_dir@)),
{
    match &req.output {
        Some(o) => o.clone(),
        None => match &req.output_dir {
            Some(d) => d.clone(),
            None => req.working_dir.clone(),
        },
    }
}

/// The URL to import: option `url`, else an `http(s)://` input.
pub open spec fn import_url_of(opts: NameMap<ArgValue>, input: Seq<char>) -> Option<Seq<char>> {
    match option_text(opts, "url"@) {
        Some(u) => Some(u),
        None => if crate::text::has_prefix(input, "http://"@) || crate::text::has_prefix(
            input,
            "https://"@,
        ) {
            Some(input)
        } else {
            None
        },
    }
}

/// The URL an import step fetches.
pub fn import_url_source(req: &InvokeRequest) -> (r: Result<String, ExecError>)
    ensures
        match import_url_of(req.options, req.input@) {
            Some(u) => r is Ok && r->Ok_0@ == u,
            None => r matches Err(ExecError::Step(m)) && m@
                == "import-url requires options.url or http(s) input"@,
        },
{
    if let Some(u) = crate::schema::opt_string(&req.options, "url") {
        return Ok(u);
    }
    if crate::text::starts_with(req.input.as_str(), "http://") || crate::text::starts_with(
        req.input.as_str(),
        "https://",
    ) {
        return Ok(req.input.clone());
    }
    Err(ExecError::Step(owned("import-url requires options.url or http(s) input")))
}

/// Where an import lands: the Job's output directory, else the parent of the step's
/// output, else `import` in the working directory.
pub open spec fn import_dir_of(out_dir: Option<Seq<char>>, output: Option<Seq<char>>, wd: Seq<char>) -> Seq<
    char,
> {
    match out_dir {
        Some(d) => d,
        None => match output {
            Some(o) => match parent_of(o) {
                Some(p) => p,
                None => join_path(wd, "import"@),
            },
            None => join_path(wd, "import"@),
        },
    }
}

pub fn import_dir(req: &InvokeRequest) -> (r: String)
    ensures
        r@ == import_dir_of(text_of(req.output_dir), text_of(req.output), req.working_dir@),
{
    match &req.output_dir {
        Some(d) => d.clone(),
        None => {
            let p = match &req.output {
                Some(o) => parent(o.as_str()),
                None => None,
            };
            match p {
                Some(p) => p,
                None => join(req.working_dir.as_str(), "import"),
            }
        },
    }
}

/// Arguments of `vd-url`.
pub open spec fn import_tool_args(url: Seq<char>, dir: Seq<char>, opts: NameMap<ArgValue>) -> Seq<
    Seq<char>,
> {
    seq!["run"@, "-q"@, "-i"@, url, "--output-dir"@, dir, "--overwrite"@] + flag_pair(
        "--subtitles"@,
        option_text(opts, "subtitles"@),
    ) + flag_pair("--provider"@, option_text(opts, "provider"@)) + flag_if(
        "--metadata-only"@,
        option_bool(opts, "metadata_only"@) == Some(true) || option_bool(opts, "metadata-only"@)
            == Some(true),
    )
}

/// The arguments `vd-url` is run with.
pub fn import_url_args(req: &InvokeRequest, url: &str, dir: &str) -> (r: Vec<String>)
    ensures
        string_views(r@) == import_tool_args(url@, dir@, req.options),
{
    let opts = &req.options;
    let mut a: Vec<String> = Vec::new();
    push_arg(&mut a, "run");
    push_arg(&mut a, "-q");
    push_arg(&mut a, "-i");
    push_arg(&mut a, url);
    push_arg(&mut a, "--output-dir");
    push_arg(&mut a, dir);
    push_arg(&mut a, "--overwrite");
    push_pair(&mut a, "--subtitles", crate::schema::opt_string(opts, "subtitles"));
    push_pair(&mut a, "--provider", crate::schema::opt_string(opts, "provider"));
    push_if(
        &mut a,
        "--metadata-only",
        opt_true(opts, "metadata_only") || opt_true(opts, "metadata-only"),
    );
    assert(string_views(a@) =~= import_tool_args(url@, dir@, req.options));
    a
}

/// The audio files an import may leave, in order of preference.
pub open spec fn audio_names() -> Seq<Seq<char>> {
    seq!["audio.m4a"@, "audio.wav"@, "audio.mp3"@, "audio.ogg"@, "audio.opus"@]
}

/// The audio files an import may leave in `dir`, in order of preference.
pub fn import_audio_candidates(dir: &str) -> (r: Vec<String>)
    ensures
        r@.len() == 5,
        forall|i: int| 0 <= i < 5 ==> #[trigger] r@[i]@ == join_path(dir@, audio_names()[i]),
{
    let mut r: Vec<String> = Vec::new();
    r.push(join(dir, "audio.m4a"));
    r.push(join(dir, "audio.wav"));
    r.push(join(dir, "audio.mp3"));
    r.push(join(dir, "audio.ogg"));
    r.push(join(dir, "audio.opus"));
    r
}

/// The named outputs of an import: its metadata and subtitles, when present.
pub open spec fn import_outputs(dir: Seq<char>, metadata: bool, subtitle: bool) -> Map<
    Seq<char>,
    Seq<char>,
> {
    let m0 = Map::<Seq<char>, Seq<char>>::empty();
    let m1 = if metadata {
        m0.insert("metadata"@, join_path(dir, "metadata.yaml"@))
    } else {
        m0
    };
    if subtitle {
        m1.insert("subtitle"@, join_path(dir, "subtitles.vtt"@))
    } else {
        m1
    }
}

/// What an import produced: the first audio file found (in order of preference), else its
/// metadata, else an error; metadata and subtitles found are the named outputs.
pub fn import_url_result(
    dir: &str,
    audio_exists: &Vec<bool>,
    metadata_exists: bool,
    subtitle_exists: bool,
) -> (r: Result<crate::exec::InvokeResult, ExecError>)
    requires
        audio_exists@.len() == 5,
    ensures
        (exists|i: int| 0 <= i < 5 && audio_exists@[i]) ==> r is Ok && exists|i: int|
            0 <= i < 5 && audio_exists@[i] && (forall|j: int| 0 <= j < i ==> !audio_exists@[j])
                && r->Ok_0.primary_output@ == join_path(dir@, #[trigger] audio_names()[i]),
        !(exists|i: int| 0 <= i < 5 && audio_exists@[i]) && metadata_exists ==> r is Ok
            && r->Ok_0.primary_output@ == join_path(dir@, "metadata.yaml"@),
        !(exists|i: int| 0 <= i < 5 && audio_exists@[i]) && !metadata_exists ==> (r matches Err(
            ExecError::Step(m),
        ) && m@ == "import-url produced no artifacts"@),
        r is Ok ==> crate::resolve::path_views(r->Ok_0.outputs@) == import_outputs(
            dir@,
            metadata_exists,
            subtitle_exists,
        ),
{
    let cands = import_audio_candidates(dir);
    let mut found: Option<String> = None;
    let mut i: usize = 0;
    while i < 5
        invariant
            i <= 5,
            audio_exists@.len() == 5,
            cands@.len() == 5,
            forall|k: int| 0 <= k < 5 ==> #[trigger] cands@[k]@ == join_path(dir@, audio_names()[k]),
            found is None ==> forall|j: int| 0 <= j < i ==> !audio_exists@[j],
            found is Some ==> exists|k: int|
                0 <= k < 5 && audio_exists@[k] && (forall|j: int| 0 <= j < k ==> !audio_exists@[j])
                    && found->0@ == join_path(dir@, #[trigger] audio_names()[k]),
        decreases 5 - i,
    {
        if found.is_none() && audio_exists[i] {
            found = Some(cands[i].clone());
            assert(cands@[i as int]@ == join_path(dir@, audio_names()[i as int]));
        }
        i = i + 1;
    }
    let metadata = join(dir, "metadata.yaml");
    let subtitle = join(dir, "subtitles.vtt");
    let primary = match found {
        Some(a) => a,
        None => {
            if metadata_exists {
                metadata.clone()
            } else {
                return Err(ExecError::Step(owned("import-url produced no artifacts")));
            }
        },
    };
    let mut outputs: NameMap<String> = NameMap::new();
    if metadata_exists {
        outputs.insert(owned("metadata"), metadata);
    }
    if subtitle_exists {
        outputs.insert(owned("subtitle"), subtitle);
    }
    proof {
        assert(crate::resolve::path_views(outputs@) =~= import_outputs(
            dir@,
            metadata_exists,
            subtitle_exists,
        ));
    }
    Ok(crate::exec::InvokeResult { primary_output: primary, outputs })
}

/// The pieces of `s` between line breaks (`\n` or `\r`).
pub open spec fn split_lines(s: Seq<char>) -> Seq<Seq<char>>
    decreases s.len(),
{
    if s.len() == 0 {
        seq![Seq::<char>::empty()]
    } else {
        let p = split_lines(s.drop_last());
        if s.last() == '\n' || s.last() == '\r' {
            p.push(Seq::<char>::empty())
        } else {
            p.update(p.len() - 1, p.last().push(s.last()))
        }
    }
}

/// Child tool chatter (banners, build configuration, progress counters).
pub open spec fn noise_line(l: Seq<char>) -> bool {
    ||| has_prefix(l, "ffmpeg version"@)
    ||| has_prefix(l, "built with"@)
    ||| has_prefix(l, "configuration:"@)
    ||| has_prefix(l, "libav"@)
    ||| has_prefix(l, "libsw"@)
    ||| has_prefix(l, "size="@)
    ||| has_prefix(l, "frame="@)
}

/// The lines worth reporting: trimmed, non-empty and not chatter.
pub open spec fn kept_lines(ls: Seq<Seq<char>>) -> Seq<Seq<char>>
    decreases ls.len(),
{
    if ls.len() == 0 {
        Seq::<Seq<char>>::empty()
    } else {
        let t = crate::text::trim_ws(ls.last());
        if t.len() > 0 && !noise_line(t) {
            kept_lines(ls.drop_last()).push(t)
        } else {
            kept_lines(ls.drop_last())
        }
    }
}

/// The last `n` items of `ls`.
pub open spec fn last_n(ls: Seq<Seq<char>>, n: int) -> Seq<Seq<char>> {
    if ls.len() > n {
        ls.subrange(ls.len() - n, ls.len() as int)
    } else {
        ls
    }
}

/// The last 20 kept lines of a child's output, one per line.
pub open spec fn compact_lines(raw: Seq<char>) -> Seq<char> {
    crate::text::join_seqs(last_n(kept_lines(split_lines(raw)), 20), "\n"@)
}

/// Bytes of `c` in UTF-8.
pub open spec fn utf8_width(c: char) -> nat {
    if (c as u32) < 0x80 {
        1
    } else if (c as u32) < 0x800 {
        2
    } else if (c as u32) < 0x10000 {
        3
    } else {
        4
    }
}

/// Bytes of `s` in UTF-8 (what `str::len` counts).
pub open spec fn utf8_len(s: Seq<char>) -> nat
    decreases s.len(),
{
    if s.len() == 0 {
        0
    } else {
        utf8_len(s.drop_last()) + utf8_width(s.last())
    }
}

/// `k` is where the longest tail of `j` with at most 1500 bytes in UTF-8 begins: the
/// characters before it hold at least all but 1500 of the bytes, and one fewer would not.
pub open spec fn is_cut(j: Seq<char>, k: int) -> bool {
    &&& 0 <= k <= j.len()
    &&& utf8_len(j.subrange(0, k)) + 1500 >= utf8_len(j)
    &&& (k == 0 || utf8_len(j.subrange(0, k - 1)) + 1500 < utf8_len(j))
}

/// Where the longest tail of `j` of at most 1500 bytes begins (see [`is_cut`]).
pub open spec fn cut_point(j: Seq<char>) -> int {
    choose|k: int| is_cut(j, k)
}

/// A child's failure text kept short: the last 20 lines worth reporting, and when that is
/// over 1500 bytes, `…` and its longest tail of at most 1500 bytes that begins at a
/// character (without leading white space).
pub open spec fn compacted(raw: Seq<char>) -> Seq<char> {
    let j = compact_lines(raw);
    if utf8_len(j) <= 1500 {
        j
    } else {
        let tail = j.subrange(cut_point(j), j.len() as int);
        "…"@ + tail.subrange(crate::text::lead_ws(tail), tail.len() as int)
    }
}

fn is_noise(l: &str) -> (b: bool)
    ensures
        b == noise_line(l@),
{
    starts_with(l, "ffmpeg version") || starts_with(l, "built with") || starts_with(
        l,
        "configuration:",
    ) || starts_with(l, "libav") || starts_with(l, "libsw") || starts_with(l, "size=")
        || starts_with(l, "frame=")
}

fn split_into_lines(raw: &str) -> (r: Vec<String>)
    ensures
        string_views(r@) == split_lines(raw@),
{
    let v = chars_of(raw);
    let mut done: Vec<String> = Vec::new();
    let mut cur: Vec<char> = Vec::new();
    let mut i: usize = 0;
    assert(v@.subrange(0, 0) =~= Seq::<char>::empty());
    assert(string_views(done@).push(cur@) =~= split_lines(v@.subrange(0, 0)));
    while i < v.len()
        invariant
            v@ == raw@,
            i <= v.len(),
            string_views(done@).push(cur@) == split_lines(v@.subrange(0, i as int)),
        decreases v.len() - i,
    {
        let c = v[i];
        let ghost s1 = v@.subrange(0, i + 1);
        proof {
            assert(s1.drop_last() =~= v@.subrange(0, i as int));
            assert(s1.last() == c);
        }
        if c == '\n' || c == '\r' {
            let line = string_of(&cur);
            let ghost before = string_views(done@);
            done.push(line);
            cur = Vec::new();
            assert(string_views(done@) =~= before.push(line@));
            assert(string_views(done@).push(cur@) =~= split_lines(s1));
        } else {
            let ghost before = cur@;
            cur.push(c);
            assert(string_views(done@).push(cur@) =~= string_views(done@).push(before).update(
                string_views(done@).len() as int,
                before.push(c),
            ));
        }
        i = i + 1;
    }
    assert(v@.subrange(0, v.len() as int) =~= v@);
    let line = string_of(&cur);
    let ghost before = string_views(done@);
    done.push(line);
    assert(string_views(done@) =~= before.push(line@));
    done
}

fn keep_lines(ls: &Vec<String>) -> (r: Vec<String>)
    ensures
        string_views(r@) == kept_lines(string_views(ls@)),
{
    let ghost s = string_views(ls@);
    let mut out: Vec<String> = Vec::new();
    let mut i: usize = 0;
    assert(s.subrange(0, 0) =~= Seq::<Seq<char>>::empty());
    while i < ls.len()
        invariant
            s == string_views(ls@),
            i <= s.len(),
            string_views(out@) == kept_lines(s.subrange(0, i as int)),
        decreases s.len() - i,
    {
        proof {
            let s1 = s.subrange(0, i + 1);
            assert(s1.drop_last() =~= s.subrange(0, i as int));
        }
        let t = crate::text::trim(ls[i].as_str());
        if chars_of(t.as_str()).len() > 0 && !is_noise(t.as_str()) {
            let ghost before = string_views(out@);
            let ghost tv = t@;
            out.push(t);
            assert(string_views(out@) =~= before.push(tv));
        }
        i = i + 1;
    }
    assert(s.subrange(0, s.len() as int) =~= s);
    out
}

fn width_of(c: char) -> (w: u8)
    ensures
        w == utf8_width(c),
{
    let n = c as u32;
    if n < 0x80 {
        1
    } else if n < 0x800 {
        2
    } else if n < 0x10000 {
        3
    } else {
        4
    }
}

proof fn lemma_utf8_prefix_grows(s: Seq<char>, a: int, b: int)
    requires
        0 <= a < b <= s.len(),
    ensures
        utf8_len(s.subrange(0, a)) < utf8_len(s.subrange(0, b)),
    decreases b - a,
{
    let sb = s.subrange(0, b);
    assert(sb.drop_last() =~= s.subrange(0, b - 1));
    if a < b - 1 {
        lemma_utf8_prefix_grows(s, a, b - 1);
    }
}

/// The last 20 reportable lines of `raw` and, when long, its cut tail (see [`compacted`]).
fn compact_text(raw: &str) -> (r: String)
    ensures
        r@ == compacted(raw@),
{
    let lines = split_into_lines(raw);
    let kept = keep_lines(&lines);
    let n = kept.len();
    let tail_lines: Vec<String> = if n > 20 {
        let mut t: Vec<String> = Vec::new();
        let mut k: usize = n - 20;
        let ghost ks = string_views(kept@);
        while k < n
            invariant
                n == kept@.len(),
                n > 20,
                n - 20 <= k <= n,
                ks == string_views(kept@),
                string_views(t@) == ks.subrange(n - 20, k as int),
            decreases n - k,
        {
            let ghost before = string_views(t@);
            t.push(kept[k].clone());
            assert(string_views(t@) =~= before.push(ks[k as int]));
            k = k + 1;
            assert(string_views(t@) =~= ks.subrange(n - 20, k as int));
        }
        t
    } else {
        kept
    };
    assert(string_views(tail_lines@) == last_n(kept_lines(split_lines(raw@)), 20));
    let joined = crate::text::join_strings(&tail_lines, "\n");
    assert(tail_lines@.map_values(|s: String| s@) =~= string_views(tail_lines@));
    let j = chars_of(joined.as_str());
    let len = j.len();
    let mut total: u128 = 0;
    let mut i: usize = 0;
    assert(j@.subrange(0, 0) =~= Seq::<char>::empty());
    while i < len
        invariant
            len == j@.len(),
            i <= len,
            total == utf8_len(j@.subrange(0, i as int)),
            total <= 4 * i,
        decreases len - i,
    {
        let w = width_of(j[i]);
        proof {
            let s1 = j@.subrange(0, i + 1);
            assert(s1.drop_last() =~= j@.subrange(0, i as int));
        }
        total = total + w as u128;
        i = i + 1;
    }
    assert(j@.subrange(0, len as int) =~= j@);
    if total <= 1500 {
        return joined;
    }
    let target: u128 = total - 1500;
    let mut acc: u128 = 0;
    let mut k: usize = 0;
    while k < len && acc < target
        invariant
            len == j@.len(),
            k <= len,
            acc == utf8_len(j@.subrange(0, k as int)),
            acc <= 4 * k,
            target + 1500 == utf8_len(j@),
            forall|m: int| 0 <= m < k ==> #[trigger] utf8_len(j@.subrange(0, m)) < target,
        decreases len - k,
    {
        let w = width_of(j[k]);
        proof {
            let s1 = j@.subrange(0, k + 1);
            assert(s1.drop_last() =~= j@.subrange(0, k as int));
        }
        acc = acc + w as u128;
        k = k + 1;
    }
    proof {
        if k == len {
            assert(j@.subrange(0, k as int) =~= j@);
        }
        assert(acc >= target);
        if k > 0 {
            assert(utf8_len(j@.subrange(0, k - 1)) < target);
        }
        assert(is_cut(j@, k as int));
        let c = choose|m: int| is_cut(j@, m);
        if c < k {
            assert(utf8_len(j@.subrange(0, c)) < target);
        } else if c > k {
            if c - 1 > k {
                lemma_utf8_prefix_grows(j@, k as int, c - 1);
            }
        }
        assert(c == k);
    }
    let tail = slice_chars(&j, k, len);
    let tail_s = string_of(&tail);
    let trimmed = crate::text::trim_start(tail_s.as_str());
    concat("…", trimmed.as_str())
}

/// A child's failure text kept short enough for status reports.
pub fn compact_step_error(raw: &str) -> (r: String)
    ensures
        r@ == compacted(raw@),
{
    compact_text(raw)
}

/// Decimal text of an integer, with `-` when negative.
pub open spec fn int_text(i: int) -> Seq<char> {
    if i < 0 {
        "-"@ + crate::text::decimal((-i) as nat)
    } else {
        crate::text::decimal(i as nat)
    }
}

fn i32_text(i: i32) -> (r: String)
    ensures
        r@ == int_text(i as int),
{
    if i < 0 {
        let m: u64 = (-(i as i64)) as u64;
        concat("-", crate::text::u64_to_decimal(m).as_str())
    } else {
        crate::text::u64_to_decimal(i as u64)
    }
}

/// What a child reported on failure: its error output, else its standard output, trimmed.
pub open spec fn detail_of(stderr: Seq<char>, stdout: Seq<char>) -> Seq<char> {
    if crate::text::trim_ws(stderr).len() > 0 {
        crate::text::trim_ws(stderr)
    } else {
        crate::text::trim_ws(stdout)
    }
}

/// `needle` occurs in `s`.
pub open spec fn has_infix(s: Seq<char>, needle: Seq<char>) -> bool {
    exists|i: int| 0 <= i <= s.len() - needle.len() && #[trigger] s.subrange(i, i + needle.len()) == needle
}

pub(crate) fn contains_text(s: &str, needle: &str) -> (b: bool)
    ensures
        b == has_infix(s@, needle@),
{
    let x = chars_of(s);
    let y = chars_of(needle);
    if y.len() > x.len() {
        return false;
    }
    let mut i: usize = 0;
    while i <= x.len() - y.len()
        invariant
            y.len() <= x.len(),
            x@ == s@,
            y@ == needle@,
            i <= x.len() - y.len() + 1,
            forall|m: int| 0 <= m < i ==> #[trigger] x@.subrange(m, m + y.len()) != y@,
        decreases x.len() - y.len() + 1 - i,
    {
        let piece = slice_chars(&x, i, i + y.len());
        if crate::text::seq_eq(&piece, &y) {
            return true;
        }
        if i == x.len() - y.len() {
            return false;
        }
        i = i + 1;
    }
    false
}

/// How a child run ended. A success is fine; so is a refusal to overwrite an output that
/// may be reused (`reusable`, see [`reuse_existing`]). Otherwise the error names the tool,
/// its exit code (1 when killed by a signal) and the compacted detail.
pub open spec fn command_result(
    bin: Seq<char>,
    success: bool,
    code: Option<i32>,
    detail: Seq<char>,
    reusable: bool,
) -> Result<(), Seq<char>> {
    if success || (has_infix(detail, "output already exists"@) && reusable) {
        Ok(())
    } else {
        let c = match code {
            Some(c) => c as int,
            None => 1,
        };
        let d = compacted(detail);
        if d.len() == 0 {
            Err(bin + " exited "@ + int_text(c))
        } else {
            Err(bin + " exited "@ + int_text(c) + ": "@ + d)
        }
    }
}

/// Judges how a child run ended, from its status and output.
pub fn command_outcome(
    bin: &str,
    success: bool,
    code: Option<i32>,
    stderr: &str,
    stdout: &str,
    reusable: bool,
) -> (r: Result<(), ExecError>)
    ensures
        match command_result(bin@, success, code, detail_of(stderr@, stdout@), reusable) {
            Ok(()) => r is Ok,
            Err(m) => r matches Err(ExecError::Step(e)) && e@ == m,
        },
{
    if success {
        return Ok(());
    }
    let e = crate::text::trim(stderr);
    let detail = if chars_of(e.as_str()).len() > 0 {
        e
    } else {
        crate::text::trim(stdout)
    };
    if contains_text(detail.as_str(), "output already exists") && reusable {
        return Ok(());
    }
    let c: i32 = match code {
        Some(c) => c,
        None => 1,
    };
    let d = compact_step_error(detail.as_str());
    let head = concat(concat(bin, " exited ").as_str(), i32_text(c).as_str());
    if chars_of(d.as_str()).len() == 0 {
        Err(ExecError::Step(head))
    } else {
        Err(ExecError::Step(concat(concat(head.as_str(), ": ").as_str(), d.as_str())))
    }
}

/// The environment a child gets for live progress: the snapshot file, and the step's base
/// and span of the Job's percentage, each when set.
pub open spec fn progress_env_of(
    snapshot: Option<Seq<char>>,
    base: Option<u8>,
    span: Option<u8>,
) -> Seq<(Seq<char>, Seq<char>)> {
    (match snapshot {
        Some(p) => seq![("VD_PROGRESS_SNAPSHOT"@, p)],
        None => Seq::<(Seq<char>, Seq<char>)>::empty(),
    }) + (match base {
        Some(b) => seq![("VD_PROGRESS_STEP_BASE"@, crate::text::decimal(b as nat))],
        None => Seq::<(Seq<char>, Seq<char>)>::empty(),
    }) + (match span {
        Some(s) => seq![("VD_PROGRESS_STEP_SPAN"@, crate::text::decimal(s as nat))],
        None => Seq::<(Seq<char>, Seq<char>)>::empty(),
    })
}

pub open spec fn pair_views(v: Seq<(String, String)>) -> Seq<(Seq<char>, Seq<char>)> {
    v.map_values(|p: (String, String)| (p.0@, p.1@))
}

/// The progress environment of a child run.
pub fn progress_env(req: &InvokeRequest) -> (r: Vec<(String, String)>)
    ensures
        pair_views(r@) == progress_env_of(
            text_of(req.progress_snapshot),
            req.progress_step_base,
            req.progress_step_span,
        ),
{
    let mut env: Vec<(String, String)> = Vec::new();
    if let Some(p) = &req.progress_snapshot {
        env.push((owned("VD_PROGRESS_SNAPSHOT"), p.clone()));
    }
    if let Some(b) = req.progress_step_base {
        env.push((owned("VD_PROGRESS_STEP_BASE"), crate::text::u64_to_decimal(b as u64)));
    }
    if let Some(s) = req.progress_step_span {
        env.push((owned("VD_PROGRESS_STEP_SPAN"), crate::text::u64_to_decimal(s as u64)));
    }
    assert(pair_views(env@) =~= progress_env_of(
        text_of(req.progress_snapshot),
        req.progress_step_base,
        req.progress_step_span,
    ));
    env
}

} // verus!
