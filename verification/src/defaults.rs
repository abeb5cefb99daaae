//! The default Job built from command-line flags.

use vstd::prelude::*;

use crate::collections::NameMap;
use crate::paths::{extension, extension_of};
use crate::schema::{
    engine_name, ArgValue, Capability, Job, JobContext, JobInput, JobOutput, Step,
    TranscribeEngine, WorkflowNode,
};
use crate::text::{clone_opt, lower_ascii_seq, lowercase_ascii, owned, str_eq};

verus! {

/// Flags that shape the default Job. `speed` is the factor's decimal text.
#[derive(Debug, Clone)]
pub struct DefaultJobArgs {
    pub audio: String,
    pub engine: TranscribeEngine,
    pub model: Option<String>,
    pub device: Option<String>,
    pub flash: bool,
    pub speed: Option<String>,
    pub docs: Option<String>,
    pub output_dir: Option<String>,
    pub working_dir: Option<String>,
    pub continue_on_error: bool,
    pub overwrite: bool,
}

/// Video container extensions (compared without case).
pub open spec fn video_ext(e: Seq<char>) -> bool {
    ||| e == "mp4"@ ||| e == "mkv"@ ||| e == "mov"@ ||| e == "webm"@ ||| e == "avi"@
    ||| e == "m4v"@ ||| e == "mpeg"@ ||| e == "mpg"@ ||| e == "flv"@ ||| e == "wmv"@
}

/// `path` has a video container extension.
pub open spec fn is_video(path: Seq<char>) -> bool {
    match extension_of(path) {
        Some(e) => video_ext(lower_ascii_seq(e)),
        None => false,
    }
}

pub fn is_video_path(path: &str) -> (b: bool)
    ensures
        b == is_video(path@),
{
    match extension(path) {
        Some(e) => {
            let l = lowercase_ascii(e.as_str());
            let x = l.as_str();
            str_eq(x, "mp4") || str_eq(x, "mkv") || str_eq(x, "mov") || str_eq(x, "webm")
                || str_eq(x, "avi") || str_eq(x, "m4v") || str_eq(x, "mpeg") || str_eq(x, "mpg")
                || str_eq(x, "flv") || str_eq(x, "wmv")
        },
        None => false,
    }
}

pub open spec fn text_is(v: ArgValue, t: Seq<char>) -> bool {
    v is String && v->String_0@ == t
}

pub open spec fn number_is(v: ArgValue, t: Seq<char>) -> bool {
    v is Number && v->Number_0@ == t
}

/// `v` is a filter map `{type: op}`, plus the number `extra.1` under `extra.0` when given.
pub open spec fn filter_is(v: ArgValue, op: Seq<char>, extra: Option<(Seq<char>, Seq<char>)>) -> bool {
    &&& v is Mapping
    &&& v->Mapping_0@.dom() == (match extra {
        Some((k, _)) => set!["type"@, k],
        None => set!["type"@],
    })
    &&& text_is(v->Mapping_0@["type"@], op)
    &&& (match extra {
        Some((k, n)) => number_is(v->Mapping_0@[k], n),
        None => true,
    })
}

/// The preprocess filter chain: for video, audio extraction first; then resample to
/// 16 kHz, mono, trim silence, normalize; then the speed change when asked for.
pub open spec fn filters_ok(fs: Seq<ArgValue>, video: bool, speed: Option<Seq<char>>) -> bool {
    let base: int = if video {
        1
    } else {
        0
    };
    &&& fs.len() == base + 4 + (if speed is Some {
        1int
    } else {
        0int
    })
    &&& (video ==> filter_is(fs[0], "extract-audio"@, None))
    &&& filter_is(fs[base], "resample"@, Some(("rate"@, "16000"@)))
    &&& filter_is(fs[base + 1], "mono"@, None)
    &&& filter_is(fs[base + 2], "trim-silence"@, None)
    &&& filter_is(fs[base + 3], "normalize"@, None)
    &&& (match speed {
        Some(f) => filter_is(fs[base + 4], "speed"@, Some(("factor"@, f))),
        None => true,
    })
}

/// `opts` holds `overwrite: true` exactly when asked for, besides `others`.
pub open spec fn overwrite_ok(opts: Map<Seq<char>, ArgValue>, overwrite: bool) -> bool {
    overwrite ==> opts.contains_key("overwrite"@) && opts["overwrite"@] == ArgValue::Bool(true)
}

pub open spec fn opt_seq(o: Option<String>) -> Option<Seq<char>> {
    match o {
        Some(s) => Some(s@),
        None => None,
    }
}

/// Preprocess options: the provider (`ffmpeg` for video, else `stub`), the filter chain,
/// and `overwrite`.
pub open spec fn preprocess_options_ok(opts: Map<Seq<char>, ArgValue>, args: DefaultJobArgs) -> bool {
    let video = is_video(args.audio@);
    &&& opts.dom() == (if args.overwrite {
        set!["provider"@, "filters"@, "overwrite"@]
    } else {
        set!["provider"@, "filters"@]
    })
    &&& text_is(opts["provider"@], if video {
        "ffmpeg"@
    } else {
        "stub"@
    })
    &&& opts["filters"@] is List
    &&& filters_ok(opts["filters"@]->List_0@, video, opt_seq(args.speed))
    &&& overwrite_ok(opts, args.overwrite)
}

/// Transcribe options: the engine, the model and device when given (device `metal` by
/// default on macOS), `flash` and `overwrite` when set.
pub open spec fn transcribe_options_ok(
    opts: Map<Seq<char>, ArgValue>,
    args: DefaultJobArgs,
    macos: bool,
) -> bool {
    let device: Option<Seq<char>> = match args.device {
        Some(d) => Some(d@),
        None => if macos {
            Some("metal"@)
        } else {
            None
        },
    };
    &&& text_is(opts["engine"@], engine_name(args.engine))
    &&& opts.contains_key("engine"@)
    &&& (opts.contains_key("model"@) <==> args.model is Some)
    &&& (match args.model {
        Some(m) => text_is(opts["model"@], m@),
        None => true,
    })
    &&& (opts.contains_key("device"@) <==> device is Some)
    &&& (match device {
        Some(d) => text_is(opts["device"@], d),
        None => true,
    })
    &&& (opts.contains_key("flash"@) <==> args.flash)
    &&& (args.flash ==> opts["flash"@] == ArgValue::Bool(true))
    &&& (opts.contains_key("overwrite"@) <==> args.overwrite)
    &&& overwrite_ok(opts, args.overwrite)
    &&& forall|k: Seq<char>|
        #[trigger] opts.contains_key(k) ==> k == "engine"@ || k == "model"@ || k == "device"@
            || k == "flash"@ || k == "overwrite"@
}

/// Options of the fix leaves: just `overwrite` when set.
pub open spec fn plain_options_ok(opts: Map<Seq<char>, ArgValue>, overwrite: bool) -> bool {
    &&& opts.dom() == (if overwrite {
        set!["overwrite"@]
    } else {
        Set::<Seq<char>>::empty()
    })
    &&& overwrite_ok(opts, overwrite)
}

/// A leaf of capability `c` with the given id and input, and otherwise nothing set.
pub open spec fn leaf_is(n: WorkflowNode, c: Capability, id: Option<Seq<char>>, input: Option<Seq<char>>) -> bool {
    &&& n is Step
    &&& n->Step_0.capability == c
    &&& opt_seq(n->Step_0.id) == id
    &&& opt_seq(n->Step_0.input) == input
    &&& n->Step_0.name is None
    &&& n->Step_0.inputs@.len() == 0
    &&& n->Step_0.output is None
    &&& n->Step_0.outputs@ == Map::<Seq<char>, String>::empty()
    &&& n->Step_0.produces@.len() == 0
    &&& n->Step_0.consumes@.len() == 0
    &&& n->Step_0.depends@.len() == 0
    &&& !n->Step_0.skip
    &&& n->Step_0.resource is None
}

fn filter_type(op: &str, extra: Option<(&str, &str)>) -> (r: ArgValue)
    requires
        match extra {
            Some((k, _)) => k@ != "type"@,
            None => true,
        },
    ensures
        filter_is(
            r,
            op@,
            match extra {
                Some((k, n)) => Some((k@, n@)),
                None => None,
            },
        ),
{
    let mut m: NameMap<ArgValue> = NameMap::new();
    m.insert(owned("type"), ArgValue::String(owned(op)));
    if let Some((k, n)) = extra {
        m.insert(owned(k), ArgValue::Number(owned(n)));
        assert(m@.dom() =~= set!["type"@, k@]);
    } else {
        assert(m@.dom() =~= set!["type"@]);
    }
    ArgValue::Mapping(m)
}

fn overwrite_opts(overwrite: bool) -> (r: NameMap<ArgValue>)
    ensures
        plain_options_ok(r@, overwrite),
{
    let mut o: NameMap<ArgValue> = NameMap::new();
    if overwrite {
        o.insert(owned("overwrite"), ArgValue::Bool(true));
        assert(o@.dom() =~= set!["overwrite"@]);
    } else {
        assert(o@.dom() =~= Set::<Seq<char>>::empty());
    }
    o
}

fn preprocess_options(args: &DefaultJobArgs) -> (r: NameMap<ArgValue>)
    ensures
        preprocess_options_ok(r@, *args),
{
    let video = is_video_path(args.audio.as_str());
    proof {
        reveal_strlit("type");
        reveal_strlit("rate");
        reveal_strlit("factor");
        assert("rate"@[0] != "type"@[0]);
        assert("factor"@.len() != "type"@.len());
    }
    let mut filters: Vec<ArgValue> = Vec::new();
    if video {
        filters.push(filter_type("extract-audio", None));
    }
    filters.push(filter_type("resample", Some(("rate", "16000"))));
    filters.push(filter_type("mono", None));
    filters.push(filter_type("trim-silence", None));
    filters.push(filter_type("normalize", None));
    if let Some(f) = &args.speed {
        filters.push(filter_type("speed", Some(("factor", f.as_str()))));
    }
    let ghost fv = filters@;
    let mut m: NameMap<ArgValue> = NameMap::new();
    m.insert(owned("provider"), ArgValue::String(owned(if video {
        "ffmpeg"
    } else {
        "stub"
    })));
    m.insert(owned("filters"), ArgValue::List(filters));
    if args.overwrite {
        m.insert(owned("overwrite"), ArgValue::Bool(true));
    }
    proof {
        reveal_strlit("provider");
        reveal_strlit("filters");
        reveal_strlit("overwrite");
        assert("provider"@.len() == 8 && "filters"@.len() == 7 && "overwrite"@.len() == 9);
        assert("provider"@ != "filters"@);
        assert("overwrite"@ != "filters"@ && "overwrite"@ != "provider"@);
        if args.overwrite {
            assert(m@.dom() =~= set!["provider"@, "filters"@, "overwrite"@]);
        } else {
            assert(m@.dom() =~= set!["provider"@, "filters"@]);
        }
        assert(m@["filters"@]->List_0@ == fv);
    }
    m
}

fn transcribe_options(args: &DefaultJobArgs, macos: bool) -> (r: NameMap<ArgValue>)
    ensures
        transcribe_options_ok(r@, *args, macos),
{
    let mut m: NameMap<ArgValue> = NameMap::new();
    m.insert(owned("engine"), ArgValue::String(owned(args.engine.as_str())));
    if let Some(md) = &args.model {
        m.insert(owned("model"), ArgValue::String(md.clone()));
    }
    match &args.device {
        Some(d) => {
            m.insert(owned("device"), ArgValue::String(d.clone()));
        },
        None => {
            if macos {
                m.insert(owned("device"), ArgValue::String(owned("metal")));
            }
        },
    }
    if args.flash {
        m.insert(owned("flash"), ArgValue::Bool(true));
    }
    if args.overwrite {
        m.insert(owned("overwrite"), ArgValue::Bool(true));
    }
    proof {
        reveal_strlit("engine");
        reveal_strlit("model");
        reveal_strlit("device");
        reveal_strlit("flash");
        reveal_strlit("overwrite");
        assert("engine"@.len() == 6 && "model"@.len() == 5 && "device"@.len() == 6
            && "flash"@.len() == 5 && "overwrite"@.len() == 9);
        assert("engine"@[0] != "device"@[0] && "model"@[0] != "flash"@[0]);
    }
    m
}

/// The default workflow: preprocess, transcribe, prepare context, then fix casing, ASR
/// and terms, with documents from `docs` or the working directory.
pub open spec fn default_job_ok(job: Job, args: DefaultJobArgs, macos: bool) -> bool {
    let s = job.steps@;
    &&& job.version == 1
    &&& job.name is None
    &&& opt_seq(job.working_dir) == opt_seq(args.working_dir)
    &&& opt_seq(job.input.audio) == Some(args.audio@)
    &&& opt_seq(job.context.docs) == Some(
        match args.docs {
            Some(d) => d@,
            None => "."@,
        },
    )
    &&& job.context.assets is None
    &&& opt_seq(job.output.dir) == opt_seq(args.output_dir)
    &&& job.continue_on_error == args.continue_on_error
    &&& job.max_parallel is None
    &&& job.resources@ == Map::<Seq<char>, u32>::empty()
    &&& s.len() == 6
    &&& leaf_is(s[0], Capability::Preprocess, Some("prepared"@), None)
    &&& preprocess_options_ok(s[0]->Step_0.options@, args)
    &&& leaf_is(s[1], Capability::Transcribe, Some("transcript"@), Some("prepared"@))
    &&& transcribe_options_ok(s[1]->Step_0.options@, args, macos)
    &&& leaf_is(s[2], Capability::PrepareContext, None, None)
    &&& s[2]->Step_0.options@ == Map::<Seq<char>, ArgValue>::empty()
    &&& leaf_is(s[3], Capability::FixCasing, None, Some("transcript"@))
    &&& plain_options_ok(s[3]->Step_0.options@, args.overwrite)
    &&& leaf_is(s[4], Capability::FixAsr, None, None)
    &&& plain_options_ok(s[4]->Step_0.options@, args.overwrite)
    &&& leaf_is(s[5], Capability::FixTerms, None, None)
    &&& plain_options_ok(s[5]->Step_0.options@, args.overwrite)
}

/// The default Job for `args`; `macos` selects the platform's default device.
pub fn default_job(args: &DefaultJobArgs, macos: bool) -> (job: Job)
    ensures
        default_job_ok(job, *args, macos),
{
    let mut prep = Step::new(Capability::Preprocess);
    prep.id = Some(owned("prepared"));
    prep.options = preprocess_options(args);
    let mut tx = Step::new(Capability::Transcribe);
    tx.id = Some(owned("transcript"));
    tx.input = Some(owned("prepared"));
    tx.options = transcribe_options(args, macos);
    let ctx = Step::new(Capability::PrepareContext);
    let mut casing = Step::new(Capability::FixCasing);
    casing.input = Some(owned("transcript"));
    casing.options = overwrite_opts(args.overwrite);
    let mut asr = Step::new(Capability::FixAsr);
    asr.options = overwrite_opts(args.overwrite);
    let mut terms = Step::new(Capability::FixTerms);
    terms.options = overwrite_opts(args.overwrite);
    let mut steps: Vec<WorkflowNode> = Vec::new();
    steps.push(WorkflowNode::Step(prep));
    steps.push(WorkflowNode::Step(tx));
    steps.push(WorkflowNode::Step(ctx));
    steps.push(WorkflowNode::Step(casing));
    steps.push(WorkflowNode::Step(asr));
    steps.push(WorkflowNode::Step(terms));
    let docs = match &args.docs {
        Some(d) => d.clone(),
        None => owned("."),
    };
    Job {
        version: 1,
        name: None,
        working_dir: clone_opt(&args.working_dir),
        input: JobInput { audio: Some(args.audio.clone()) },
        context: JobContext { docs: Some(docs), assets: None },
        output: JobOutput { dir: clone_opt(&args.output_dir) },
        continue_on_error: args.continue_on_error,
        max_parallel: None,
        resources: NameMap::new(),
        steps,
    }
}

} // verus!
