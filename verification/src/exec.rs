//! Executor decisions: what a leaf runs on, how its outcome updates the run, how parallel
//! branches merge, and the dry-run description of a resolved Job.
//!
//! The loop that invokes capabilities, times them and runs branches concurrently drives
//! these functions from outside; each decision here is a plain function of the run state.

use vstd::prelude::*;

use crate::artifacts::{path_records, published, ArtifactRegistry, RecordView};
use crate::collections::NameMap;
use crate::report::{make_step_report, report_is, ArtifactStat, StepReport, StepReportStatus};
use crate::resolve::{exec_input, exec_input_of, first_prefixed, first_with_prefix, path_views, trim_wild, trim_wildcard};
use crate::schema::{
    arg_text, arg_view, capability_kind, capability_name, content, duplicate_options, fault_of,
    job_error_text, job_leaves, lemma_arg_view_kind, lemma_arg_view_mapping, lemma_options_view,
    options_view, ref_is_path, string_views, ArgValue, ArgView, ArtifactRef, Capability, Fault,
    Job, JobError, ResolvedJob, ResolvedStep, Step, WorkflowPlan, option_text,
};
use crate::paths::{resolve_against, resolve_path};
use crate::text::{
    clone_opt, concat, decimal, ends_with, has_suffix, join_seqs, join_strings, owned,
    u64_to_decimal,
};

verus! {

/// A failure while executing a Job.
#[derive(Debug, Clone, PartialEq, Eq)]
pub enum ExecError {
    /// A leaf could not run or failed.
    Step(String),
    /// A capability that is reserved.
    Reserved(String),
    /// Anything else.
    Other(String),
}

pub open spec fn exec_error_text(e: ExecError) -> Seq<char> {
    match e {
        ExecError::Step(m) | ExecError::Reserved(m) | ExecError::Other(m) => m@,
    }
}

impl ExecError {
    /// Process exit code: 2 for reserved, else 1.
    pub fn exit_code(&self) -> (c: u8)
        ensures
            c == (if *self is Reserved {
                2u8
            } else {
                1u8
            }),
    {
        match self {
            ExecError::Reserved(_) => 2,
            ExecError::Step(_) | ExecError::Other(_) => 1,
        }
    }

    /// The message (what the error displays as).
    pub fn message(&self) -> (m: String)
        ensures
            m@ == exec_error_text(*self),
    {
        match self {
            ExecError::Step(m) | ExecError::Reserved(m) | ExecError::Other(m) => m.clone(),
        }
    }
}

/// What a capability is invoked with.
#[derive(Debug)]
pub struct InvokeRequest {
    pub capability: Capability,
    /// The leaf's id, when it has one.
    pub step_id: Option<String>,
    pub working_dir: String,
    pub input: String,
    pub output: Option<String>,
    pub output_dir: Option<String>,
    pub context_assets: Option<String>,
    pub options: NameMap<ArgValue>,
    /// Where child tools write live progress, when set.
    pub progress_snapshot: Option<String>,
    /// Job-level percent at the start of the leaf.
    pub progress_step_base: Option<u8>,
    /// Percent span given to the leaf.
    pub progress_step_span: Option<u8>,
}

/// What a capability produced: its primary output and named outputs.
#[derive(Debug)]
pub struct InvokeResult {
    pub primary_output: String,
    pub outputs: NameMap<String>,
}

impl InvokeResult {
    /// A result with `primary` as its output and no named outputs.
    pub fn primary_only(primary: &str) -> (r: Self)
        ensures
            r.primary_output@ == primary@,
            r.outputs@ == Map::<Seq<char>, String>::empty(),
    {
        InvokeResult { primary_output: owned(primary), outputs: NameMap::new() }
    }
}

/// Runs one capability invocation.
pub trait Binder {
    fn invoke(&self, req: &InvokeRequest) -> Result<InvokeResult, ExecError>;
}

/// The state of a run between leaves.
#[derive(Debug)]
pub struct RunState {
    pub artifacts: ArtifactRegistry,
    pub prev: Option<String>,
    pub last_out: Option<String>,
    pub step_reports: Vec<StepReport>,
    pub any_failed: bool,
    pub completed: u32,
}

impl RunState {
    pub fn new() -> (s: Self)
        ensures
            s.artifacts@ == Map::<Seq<char>, RecordView>::empty(),
            s.artifacts.names() == Seq::<Seq<char>>::empty(),
            s.prev is None,
            s.last_out is None,
            s.step_reports@.len() == 0,
            !s.any_failed,
            s.completed == 0,
    {
        RunState {
            artifacts: ArtifactRegistry::new(),
            prev: None,
            last_out: None,
            step_reports: Vec::new(),
            any_failed: false,
            completed: 0,
        }
    }
}

pub open spec fn text_of(o: Option<String>) -> Option<Seq<char>> {
    match o {
        Some(s) => Some(s@),
        None => None,
    }
}

/// Artifact paths by name, as the registry holds them.
pub open spec fn registry_paths(m: Map<Seq<char>, RecordView>) -> Map<Seq<char>, Seq<char>> {
    m.map_values(|v: RecordView| v.2)
}

/// The path a postprocess input reference resolves to at run time, or the error message.
pub open spec fn pp_input_path(
    name: Seq<char>,
    raw: Seq<char>,
    names: Seq<Seq<char>>,
    arts: Map<Seq<char>, Seq<char>>,
    wd: Seq<char>,
) -> Result<Seq<char>, Seq<char>> {
    if ref_is_path(raw) {
        Ok(resolve_path(wd, raw))
    } else if has_suffix(raw, "/*"@) {
        match first_with_prefix(names, trim_wild(raw)) {
            Some(i) => Ok(arts[names[i]]),
            None => Err("postprocess input '"@ + name + "': no match for "@ + raw),
        }
    } else if arts.contains_key(raw) {
        Ok(arts[raw])
    } else {
        Err("postprocess input '"@ + name + "': artifact not produced: "@ + raw)
    }
}

/// The resolved postprocess inputs: each entry with scalar text, in name order, mapped to
/// its path; entries without text are left out; the first unresolvable one is the error.
pub open spec fn pp_resolution(
    es: Seq<(Seq<char>, ArgView)>,
    names: Seq<Seq<char>>,
    arts: Map<Seq<char>, Seq<char>>,
    wd: Seq<char>,
) -> Result<Map<Seq<char>, Seq<char>>, Seq<char>>
    decreases es.len(),
{
    if es.len() == 0 {
        Ok(Map::<Seq<char>, Seq<char>>::empty())
    } else {
        match pp_resolution(es.drop_last(), names, arts, wd) {
            Err(e) => Err(e),
            Ok(m) => match arg_text(es.last().1) {
                None => Ok(m),
                Some(raw) => match pp_input_path(es.last().0, raw, names, arts, wd) {
                    Err(e) => Err(e),
                    Ok(p) => Ok(m.insert(es.last().0, p)),
                },
            },
        }
    }
}

/// The entries of the `inputs` mapping of options, when there is one.
pub open spec fn pp_entries(options: NameMap<ArgValue>) -> Option<Seq<(Seq<char>, ArgView)>> {
    if content(options).contains_key("inputs"@) {
        match content(options)["inputs"@] {
            ArgView::Mapping(es) => Some(es),
            _ => None,
        }
    } else {
        None
    }
}

/// `m` holds the string `paths[k]` under each key `k` of `paths`, and nothing else.
pub open spec fn holds_paths(m: Map<Seq<char>, ArgValue>, paths: Map<Seq<char>, Seq<char>>) -> bool {
    &&& m.dom() == paths.dom()
    &&& forall|k: Seq<char>|
        #[trigger] paths.contains_key(k) ==> m[k] is String && m[k]->String_0@ == paths[k]
}

/// `after` is `before` with `inputs` replaced by a map holding `paths`.
pub open spec fn inputs_replaced(
    before: Map<Seq<char>, ArgValue>,
    after: Map<Seq<char>, ArgValue>,
    paths: Map<Seq<char>, Seq<char>>,
) -> bool {
    &&& after.dom() == before.dom()
    &&& forall|k: Seq<char>|
        #[trigger] before.contains_key(k) && k != "inputs"@ ==> after[k] == before[k]
    &&& after.contains_key("inputs"@)
    &&& after["inputs"@] is Mapping
    &&& holds_paths(after["inputs"@]->Mapping_0@, paths)
}

/// Replaces postprocess `inputs` references by the paths they resolve to.
pub fn resolve_postprocess_inputs(
    options: &mut NameMap<ArgValue>,
    artifacts: &NameMap<String>,
    working_dir: &str,
) -> (r: Result<(), String>)
    ensures
        match pp_entries(*old(options)) {
            None => r is Ok && final(options)@ == old(options)@,
            Some(es) => match pp_resolution(
                es,
                artifacts.key_list(),
                path_views(artifacts@),
                working_dir@,
            ) {
                Err(e) => r is Err && r->Err_0@ == e && final(options)@ == old(options)@,
                Ok(paths) => r is Ok && inputs_replaced(old(options)@, final(options)@, paths),
            },
        },
{
    let map = match options.get("inputs") {
        Some(v) => {
            proof {
                lemma_arg_view_kind(*v);
            }
            match v {
                ArgValue::Mapping(m) => m,
                _ => return Ok(()),
            }
        },
        None => return Ok(()),
    };
    let ghost names = artifacts.key_list();
    let ghost arts = path_views(artifacts@);
    let n = map.len();
    let ghost es = options_view(*map);
    proof {
        lemma_arg_view_mapping(*map);
        lemma_options_view(*map);
        assert(pp_entries(*options) == Some(es));
        assert(es.subrange(0, 0) =~= Seq::<(Seq<char>, ArgView)>::empty());
    }
    let mut resolved: NameMap<ArgValue> = NameMap::new();
    let ghost mut acc: Map<Seq<char>, Seq<char>> = Map::empty();
    assert(resolved@.dom() =~= acc.dom());
    let mut i: usize = 0;
    while i < n
        invariant
            n == map.key_list().len(),
            map.well_formed(),
            es == options_view(*map),
            pp_entries(*old(options)) == Some(es),
            old(options)@.contains_key("inputs"@),
            es.len() == n,
            forall|j: int|
                0 <= j < map.key_list().len() ==> #[trigger] es[j] == (
                    map.key_list()[j],
                    arg_view(map.value_list()[j]),
                ),
            names == artifacts.key_list(),
            arts == path_views(artifacts@),
            i <= n,
            pp_resolution(es.subrange(0, i as int), names, arts, working_dir@) == Ok::<
                Map<Seq<char>, Seq<char>>,
                Seq<char>,
            >(acc),
            holds_paths(resolved@, acc),
        decreases n - i,
    {
        let name = map.key_at(i);
        let v = map.value_at(i);
        proof {
            let e1 = es.subrange(0, i + 1);
            assert(e1.drop_last() =~= es.subrange(0, i as int));
            assert(e1.last() == es[i as int]);
            assert(es[i as int] == (name@, arg_view(*v)));
        }
        if let Some(raw) = v.as_string() {
            proof {
                reveal_strlit("/*");
            }
            let path = match ArtifactRef::parse(raw.as_str()) {
                ArtifactRef::Id(id) => {
                    if ends_with(id.as_str(), "/*") {
                        let prefix = trim_wildcard(id.as_str());
                        match first_prefixed(artifacts, prefix.as_str()) {
                            Some(p) => p,
                            None => {
                                let msg = concat(
                                    concat(
                                        concat("postprocess input '", name.as_str()).as_str(),
                                        "': no match for ",
                                    ).as_str(),
                                    id.as_str(),
                                );
                                proof {
                                    lemma_pp_resolution_err(
                                        es,
                                        names,
                                        arts,
                                        working_dir@,
                                        i as int + 1,
                                    );
                                }
                                return Err(msg);
                            },
                        }
                    } else {
                        match artifacts.get(id.as_str()) {
                            Some(p) => p.clone(),
                            None => {
                                let msg = concat(
                                    concat(
                                        concat("postprocess input '", name.as_str()).as_str(),
                                        "': artifact not produced: ",
                                    ).as_str(),
                                    id.as_str(),
                                );
                                proof {
                                    lemma_pp_resolution_err(
                                        es,
                                        names,
                                        arts,
                                        working_dir@,
                                        i as int + 1,
                                    );
                                }
                                return Err(msg);
                            },
                        }
                    }
                },
                ArtifactRef::Path(p) => resolve_against(working_dir, p.as_str()),
            };
            resolved.insert(name.clone(), ArgValue::String(path));
            proof {
                acc = acc.insert(name@, path@);
                assert(resolved@.dom() =~= acc.dom());
            }
        }
        i = i + 1;
    }
    proof {
        assert(es.subrange(0, n as int) =~= es);
    }
    let ghost rv = resolved@;
    let key = owned("inputs");
    options.insert(key, ArgValue::Mapping(resolved));
    proof {
        assert(options@["inputs"@]->Mapping_0@ == rv);
        assert(holds_paths(rv, acc));
        assert(options@.dom() =~= old(options)@.dom());
        assert(inputs_replaced(old(options)@, options@, acc));
    }
    Ok(())
}

proof fn lemma_pp_resolution_err(
    es: Seq<(Seq<char>, ArgView)>,
    names: Seq<Seq<char>>,
    arts: Map<Seq<char>, Seq<char>>,
    wd: Seq<char>,
    n: int,
)
    requires
        0 <= n <= es.len(),
        pp_resolution(es.subrange(0, n), names, arts, wd) is Err,
    ensures
        pp_resolution(es, names, arts, wd) == pp_resolution(es.subrange(0, n), names, arts, wd),
    decreases es.len() - n,
{
    if n < es.len() {
        assert(es.subrange(0, n + 1).drop_last() =~= es.subrange(0, n));
        lemma_pp_resolution_err(es, names, arts, wd, n + 1);
    } else {
        assert(es.subrange(0, n) =~= es);
    }
}

/// What to do with a leaf.
#[derive(Debug)]
pub enum LeafPlan {
    /// The leaf is skipped.
    Skip,
    /// The leaf cannot run: the error, and the input when one was found.
    Fail(ExecError, Option<String>),
    /// Invoke the capability with this request.
    Invoke(InvokeRequest),
}

pub open spec fn fault_message(f: Fault) -> Seq<char> {
    match f {
        Fault::Usage(m) | Fault::NotFound(m) | Fault::Reserved(m) | Fault::Other(m) => m,
    }
}

/// The options a leaf is invoked with: its own, with postprocess `inputs` replaced by the
/// resolved paths when there are some.
pub open spec fn options_carried(
    after: NameMap<ArgValue>,
    step_opts: NameMap<ArgValue>,
    paths: Option<Map<Seq<char>, Seq<char>>>,
) -> bool {
    match paths {
        None => content(after) == content(step_opts),
        Some(p) => {
            &&& after@.dom() == step_opts@.dom()
            &&& forall|k: Seq<char>|
                #[trigger] step_opts@.contains_key(k) && k != "inputs"@ ==> content(after)[k]
                    == content(step_opts)[k]
            &&& after@.contains_key("inputs"@)
            &&& after@["inputs"@] is Mapping
            &&& holds_paths(after@["inputs"@]->Mapping_0@, p)
        },
    }
}

/// The request leaf `step` of Job `job` at `wd` is invoked with, on `input`.
pub open spec fn request_is(
    r: InvokeRequest,
    step: ResolvedStep,
    job: Job,
    wd: Seq<char>,
    input: Seq<char>,
    paths: Option<Map<Seq<char>, Seq<char>>>,
) -> bool {
    &&& r.capability == step.capability
    &&& text_of(r.step_id) == text_of(step.id)
    &&& r.working_dir@ == wd
    &&& r.input@ == input
    &&& text_of(r.output) == text_of(step.output)
    &&& text_of(r.output_dir) == text_of(job.output.dir)
    &&& text_of(r.context_assets) == text_of(job.context.assets)
    &&& options_carried(r.options, step.options, paths)
    &&& r.progress_snapshot is None
    &&& r.progress_step_base is None
    &&& r.progress_step_span is None
}

/// What leaf `idx` does, given the artifacts and previous output of the run so far.
pub open spec fn leaf_plan_ok(p: LeafPlan, state: RunState, resolved: ResolvedJob, idx: int) -> bool {
    let step = resolved.steps@[idx];
    let job = resolved.job;
    let ls = job_leaves(job);
    let wd = resolved.working_dir@;
    let names = state.artifacts.names();
    let arts = registry_paths(state.artifacts@);
    if idx >= ls.len() {
        p matches LeafPlan::Fail(e, None) && e is Other && exec_error_text(e) == "missing leaf step "@
            + decimal(idx as nat)
    } else if step.skip {
        p is Skip
    } else {
        match exec_input_of(ls[idx], job, wd, names, arts, text_of(state.prev)) {
            Err(f) => p matches LeafPlan::Fail(e, None) && e is Step && exec_error_text(e)
                == fault_message(f),
            Ok(input) => if step.capability == Capability::Postprocess && pp_entries(step.options) is Some {
                match pp_resolution(pp_entries(step.options)->0, names, arts, wd) {
                    Err(m) => p matches LeafPlan::Fail(e, Some(i)) && e is Step && exec_error_text(e)
                        == m && i@ == input,
                    Ok(paths) => p matches LeafPlan::Invoke(r) && request_is(
                        r,
                        step,
                        job,
                        wd,
                        input,
                        Some(paths),
                    ),
                }
            } else {
                p matches LeafPlan::Invoke(r) && request_is(r, step, job, wd, input, None)
            },
        }
    }
}

/// Decides what leaf `idx` does: skip it, fail it, or invoke it on the input found from
/// the artifacts published so far and the previous output.
pub fn plan_leaf(state: &RunState, resolved: &ResolvedJob, idx: usize) -> (p: LeafPlan)
    requires
        idx < resolved.steps@.len(),
    ensures
        leaf_plan_ok(p, *state, *resolved, idx as int),
{
    let step = &resolved.steps[idx];
    let job_step = match crate::resolve::leaf_step_at(&resolved.job, idx) {
        Some(s) => s,
        None => {
            let msg = concat("missing leaf step ", u64_to_decimal(idx as u64).as_str());
            return LeafPlan::Fail(ExecError::Other(msg), None);
        },
    };
    if step.skip {
        return LeafPlan::Skip;
    }
    let paths = state.artifacts.paths_map();
    assert(path_views(paths@) =~= registry_paths(state.artifacts@));
    let prev: Option<&String> = match &state.prev {
        Some(p) => Some(p),
        None => None,
    };
    let input = match exec_input(job_step, &resolved.job, resolved.working_dir.as_str(), &paths, prev) {
        Ok(i) => i,
        Err(e) => {
            let msg = e.message();
            return LeafPlan::Fail(ExecError::Step(msg), None);
        },
    };
    let mut options = duplicate_options(&step.options);
    let ghost dup = options;
    if step.capability == Capability::Postprocess {
        match resolve_postprocess_inputs(&mut options, &paths, resolved.working_dir.as_str()) {
            Ok(()) => {},
            Err(e) => return LeafPlan::Fail(ExecError::Step(e), Some(input)),
        }
        proof {
            if pp_entries(step.options) is Some {
                let paths_v = pp_resolution(
                    pp_entries(step.options)->0,
                    state.artifacts.names(),
                    registry_paths(state.artifacts@),
                    resolved.working_dir@,
                )->Ok_0;
                assert forall|k: Seq<char>|
                    #[trigger] step.options@.contains_key(k) && k != "inputs"@ implies content(
                    options,
                )[k] == content(step.options)[k] by {
                    assert(content(dup)[k] == content(step.options)[k]);
                }
                assert(options_carried(options, step.options, Some(paths_v)));
            }
        }
    }
    LeafPlan::Invoke(
        InvokeRequest {
            capability: step.capability,
            step_id: clone_opt(&step.id),
            working_dir: resolved.working_dir.clone(),
            input,
            output: clone_opt(&step.output),
            output_dir: clone_opt(&resolved.job.output.dir),
            context_assets: clone_opt(&resolved.job.context.assets),
            options,
            progress_snapshot: None,
            progress_step_base: None,
            progress_step_span: None,
        },
    )
}

/// Records a skipped leaf at `now`; it counts as completed.
pub fn skip_leaf(state: &mut RunState, step: &ResolvedStep, now: String)
    requires
        old(state).completed < u32::MAX,
    ensures
        final(state).completed == old(state).completed + 1,
        final(state).step_reports@.len() == old(state).step_reports@.len() + 1,
        final(state).step_reports@.drop_last() == old(state).step_reports@,
        report_is(
            final(state).step_reports@.last(),
            *step,
            StepReportStatus::Skipped,
            now@,
            now@,
            0,
            Seq::empty(),
            Seq::empty(),
        ),
        final(state).artifacts@ == old(state).artifacts@,
        text_of(final(state).prev) == text_of(old(state).prev),
        text_of(final(state).last_out) == text_of(old(state).last_out),
        final(state).any_failed == old(state).any_failed,
{
    let rep = make_step_report(
        step,
        StepReportStatus::Skipped,
        now.clone(),
        now,
        0,
        Vec::new(),
        Vec::new(),
    );
    state.step_reports.push(rep);
    state.completed = state.completed + 1;
}

/// Records a leaf that could not run (at `now`, on `input` when one was found) and gives
/// back its error; the run has a failure. `stat` describes a file.
pub fn fail_leaf<F>(
    state: &mut RunState,
    step: &ResolvedStep,
    err: ExecError,
    input: Option<String>,
    now: String,
    stat: F,
) -> (r: ExecError)
    where
        F: Fn(&str) -> ArtifactStat,
    requires
        forall|x: &str| #[trigger] stat.requires((x,)),
    ensures
        r == err,
        final(state).any_failed,
        final(state).completed == old(state).completed,
        final(state).step_reports@.len() == old(state).step_reports@.len() + 1,
        final(state).step_reports@.drop_last() == old(state).step_reports@,
        ({
            let rep = final(state).step_reports@.last();
            &&& rep.inputs@.len() == (if input is Some {
                1int
            } else {
                0int
            })
            &&& (match input {
                Some(i) => stat_of(stat, i@, rep.inputs@[0]),
                None => true,
            })
            &&& report_is(
                rep,
                *step,
                StepReportStatus::Failed,
                now@,
                now@,
                0,
                rep.inputs@,
                Seq::empty(),
            )
        }),
        final(state).artifacts@ == old(state).artifacts@,
        text_of(final(state).prev) == text_of(old(state).prev),
        text_of(final(state).last_out) == text_of(old(state).last_out),
{
    let mut inputs: Vec<ArtifactStat> = Vec::new();
    if let Some(i) = &input {
        let x = i.as_str();
        let st = stat(x);
        inputs.push(st);
        assert(x@ == i@ && stat.ensures((x,), inputs@[0]));
        assert(stat_of(stat, i@, inputs@[0]));
    }
    let rep = make_step_report(step, StepReportStatus::Failed, now.clone(), now, 0, inputs, Vec::new());
    state.step_reports.push(rep);
    state.any_failed = true;
    err
}

/// `s` is what `stat` gave for some text equal to `path`.
pub open spec fn stat_of<F: Fn(&str) -> ArtifactStat>(stat: F, path: Seq<char>, s: ArtifactStat) -> bool {
    exists|x: &str| x@ == path && #[trigger] stat.ensures((x,), s)
}

/// The files a finished leaf reports: its primary output, then its named outputs in name
/// order.
pub open spec fn output_files(res: InvokeResult) -> Seq<Seq<char>> {
    seq![res.primary_output@] + res.outputs.value_list().map_values(|p: String| p@)
}

/// Records a finished invocation of leaf `step` on `input` (queued at `queued`, finished
/// at `finished`, after `duration_ms`). A success publishes the leaf's artifacts and makes
/// its primary output the previous and last output; a failure marks the run failed and
/// stops it unless `continue_on_error`. Either way the leaf counts as completed.
pub fn finish_leaf<F>(
    state: &mut RunState,
    step: &ResolvedStep,
    input: &str,
    result: Result<InvokeResult, ExecError>,
    continue_on_error: bool,
    queued: String,
    finished: String,
    duration_ms: u64,
    stat: F,
) -> (r: Result<(), ExecError>)
    where
        F: Fn(&str) -> ArtifactStat,
    requires
        old(state).completed < u32::MAX,
        forall|x: &str| #[trigger] stat.requires((x,)),
    ensures
        final(state).completed == old(state).completed + 1,
        final(state).step_reports@.len() == old(state).step_reports@.len() + 1,
        final(state).step_reports@.drop_last() == old(state).step_reports@,
        final(state).step_reports@.last().inputs@.len() == 1,
        stat.ensures((input,), final(state).step_reports@.last().inputs@[0]),
        match result {
            Ok(res) => {
                let rep = final(state).step_reports@.last();
                let outs = output_files(res);
                &&& r is Ok
                &&& final(state).artifacts@ == published(
                    old(state).artifacts@,
                    capability_kind(step.capability),
                    text_of(step.id),
                    string_views(step.produces@),
                    res.primary_output@,
                    res.outputs@,
                ).union_prefer_right(path_records(step.outputs@, capability_kind(step.capability)))
                &&& text_of(final(state).prev) == Some(res.primary_output@)
                &&& text_of(final(state).last_out) == Some(res.primary_output@)
                &&& final(state).any_failed == old(state).any_failed
                &&& rep.outputs@.len() == outs.len()
                &&& forall|j: int|
                    0 <= j < outs.len() ==> stat_of(stat, outs[j], #[trigger] rep.outputs@[j])
                &&& report_is(
                    rep,
                    *step,
                    StepReportStatus::Completed,
                    queued@,
                    finished@,
                    duration_ms,
                    rep.inputs@,
                    rep.outputs@,
                )
            },
            Err(e) => {
                &&& (if continue_on_error {
                    r is Ok
                } else {
                    r == Err::<(), ExecError>(e)
                })
                &&& final(state).any_failed
                &&& final(state).artifacts@ == old(state).artifacts@
                &&& text_of(final(state).prev) == text_of(old(state).prev)
                &&& text_of(final(state).last_out) == text_of(old(state).last_out)
                &&& report_is(
                    final(state).step_reports@.last(),
                    *step,
                    StepReportStatus::Failed,
                    queued@,
                    finished@,
                    duration_ms,
                    final(state).step_reports@.last().inputs@,
                    Seq::empty(),
                )
            },
        },
{
    let mut inputs: Vec<ArtifactStat> = Vec::new();
    inputs.push(stat(input));
    match result {
        Ok(res) => {
            let kind = step.capability.default_artifact_kind();
            let id: Option<&str> = match &step.id {
                Some(i) => Some(i.as_str()),
                None => None,
            };
            assert(match id {
                Some(i) => Some(i@),
                None => None,
            } == text_of(step.id));
            state.artifacts.publish_step(
                step.capability,
                id,
                &step.produces,
                res.primary_output.as_str(),
                &res.outputs,
            );
            state.artifacts.extend_from_map(&step.outputs, kind);
            let mut outputs: Vec<ArtifactStat> = Vec::new();
            let x0 = res.primary_output.as_str();
            outputs.push(stat(x0));
            let n = res.outputs.len();
            let ghost outs = output_files(res);
            assert(x0@ == outs[0] && stat.ensures((x0,), outputs@[0]));
            assert(stat_of(stat, outs[0], outputs@[0]));
            let mut j: usize = 0;
            while j < n
                invariant
                    n == res.outputs.key_list().len(),
                    res.outputs.well_formed(),
                    outs == output_files(res),
                    j <= n,
                    outputs@.len() == j + 1,
                    forall|x: &str| #[trigger] stat.requires((x,)),
                    forall|t: int|
                        0 <= t < j + 1 ==> stat_of(stat, outs[t], #[trigger] outputs@[t]),
                decreases n - j,
            {
                let p = res.outputs.value_at(j);
                assert(outs[j + 1] == p@);
                let x = p.as_str();
                let ghost before = outputs@;
                outputs.push(stat(x));
                assert(x@ == outs[j + 1] && stat.ensures((x,), outputs@[j + 1]));
                assert(stat_of(stat, outs[j + 1], outputs@[j + 1]));
                assert forall|t: int| 0 <= t < j + 2 implies stat_of(stat, outs[t], #[trigger] outputs@[t]) by {
                    if t < j + 1 {
                        assert(outputs@[t] == before[t]);
                    }
                }
                j = j + 1;
            }
            let rep = make_step_report(
                step,
                StepReportStatus::Completed,
                queued,
                finished,
                duration_ms,
                inputs,
                outputs,
            );
            state.step_reports.push(rep);
            state.prev = Some(res.primary_output.clone());
            state.last_out = Some(res.primary_output);
            state.completed = state.completed + 1;
            Ok(())
        },
        Err(e) => {
            let rep = make_step_report(
                step,
                StepReportStatus::Failed,
                queued,
                finished,
                duration_ms,
                inputs,
                Vec::new(),
            );
            state.step_reports.push(rep);
            state.any_failed = true;
            state.completed = state.completed + 1;
            if continue_on_error {
                Ok(())
            } else {
                Err(e)
            }
        },
    }
}

/// What one parallel branch left behind.
#[derive(Debug)]
pub struct BranchOutcome {
    pub artifacts: ArtifactRegistry,
    pub step_reports: Vec<StepReport>,
    pub last_out: Option<String>,
    pub any_failed: bool,
    /// The branch's error message, when it stopped on one.
    pub error: Option<String>,
}

/// The artifacts after merging branches in order: a later branch's name replaces an
/// earlier one.
pub open spec fn merged_artifacts(m: Map<Seq<char>, RecordView>, bs: Seq<BranchOutcome>) -> Map<
    Seq<char>,
    RecordView,
>
    decreases bs.len(),
{
    if bs.len() == 0 {
        m
    } else {
        merged_artifacts(m, bs.drop_last()).union_prefer_right(bs.last().artifacts@)
    }
}

pub open spec fn merged_reports(bs: Seq<BranchOutcome>) -> Seq<StepReport>
    decreases bs.len(),
{
    if bs.len() == 0 {
        Seq::empty()
    } else {
        merged_reports(bs.drop_last()) + bs.last().step_reports@
    }
}

/// The last output among branches (the last branch that has one), if any.
pub open spec fn merged_last(bs: Seq<BranchOutcome>) -> Option<Seq<char>>
    decreases bs.len(),
{
    if bs.len() == 0 {
        None
    } else if bs.last().last_out is Some {
        text_of(bs.last().last_out)
    } else {
        merged_last(bs.drop_last())
    }
}

/// The first branch error, in order.
pub open spec fn first_error(bs: Seq<BranchOutcome>) -> Option<Seq<char>>
    decreases bs.len(),
{
    if bs.len() == 0 {
        None
    } else if first_error(bs.drop_last()) is Some {
        first_error(bs.drop_last())
    } else {
        text_of(bs.last().error)
    }
}

pub open spec fn any_branch_failed(bs: Seq<BranchOutcome>) -> bool {
    exists|i: int| 0 <= i < bs.len() && #[trigger] bs[i].any_failed
}

/// Merges parallel branches, in the order given: their artifacts, reports (each counting
/// as completed), last output and failures; the first branch error stops the run unless
/// `continue_on_error`.
pub fn merge_branches(
    state: &mut RunState,
    branches: Vec<BranchOutcome>,
    continue_on_error: bool,
) -> (r: Result<(), ExecError>)
    requires
        old(state).completed + merged_reports(branches@).len() <= u32::MAX,
    ensures
        final(state).artifacts@ == merged_artifacts(old(state).artifacts@, branches@),
        final(state).step_reports@ == old(state).step_reports@ + merged_reports(branches@),
        final(state).completed == old(state).completed + merged_reports(branches@).len(),
        text_of(final(state).prev) == (match merged_last(branches@) {
            Some(p) => Some(p),
            None => text_of(old(state).prev),
        }),
        text_of(final(state).last_out) == (match merged_last(branches@) {
            Some(p) => Some(p),
            None => text_of(old(state).last_out),
        }),
        final(state).any_failed == (old(state).any_failed || any_branch_failed(branches@)
            || first_error(branches@) is Some),
        match first_error(branches@) {
            Some(m) => if continue_on_error {
                r is Ok
            } else {
                r is Err && r->Err_0 is Step && exec_error_text(r->Err_0) == m
            },
            None => r is Ok,
        },
{
    let ghost bs = branches@;
    let mut rest = branches;
    let mut first: Option<String> = None;
    let mut k: usize = 0;
    let n = rest.len();
    assert(bs.subrange(0, 0) =~= Seq::<BranchOutcome>::empty());
    while rest.len() > 0
        invariant
            n == bs.len(),
            rest@ == bs.subrange(k as int, n as int),
            k <= n,
            state.artifacts@ == merged_artifacts(old(state).artifacts@, bs.subrange(0, k as int)),
            state.step_reports@ == old(state).step_reports@ + merged_reports(bs.subrange(0, k as int)),
            state.completed == old(state).completed + merged_reports(bs.subrange(0, k as int)).len(),
            old(state).completed + merged_reports(bs).len() <= u32::MAX,
            text_of(state.prev) == (match merged_last(bs.subrange(0, k as int)) {
                Some(p) => Some(p),
                None => text_of(old(state).prev),
            }),
            text_of(state.last_out) == (match merged_last(bs.subrange(0, k as int)) {
                Some(p) => Some(p),
                None => text_of(old(state).last_out),
            }),
            state.any_failed == (old(state).any_failed || any_branch_failed(bs.subrange(0, k as int))),
            text_of(first) == first_error(bs.subrange(0, k as int)),
        decreases rest.len(),
    {
        let b = rest.remove(0);
        proof {
            let t = bs.subrange(0, k + 1);
            assert(t.drop_last() =~= bs.subrange(0, k as int));
            assert(t.last() == b);
            lemma_merged_reports_prefix(bs, k as int + 1);
            assert(any_branch_failed(t) == (any_branch_failed(bs.subrange(0, k as int)) || b.any_failed)) by {
                if b.any_failed {
                    assert(t[k as int].any_failed);
                }
                if any_branch_failed(t) {
                    let i = choose|i: int| 0 <= i < t.len() && #[trigger] t[i].any_failed;
                    if i < k {
                        assert(bs.subrange(0, k as int)[i].any_failed);
                    }
                }
                if any_branch_failed(bs.subrange(0, k as int)) {
                    let i = choose|i: int| 0 <= i < k && #[trigger] bs.subrange(0, k as int)[i].any_failed;
                    assert(t[i].any_failed);
                }
            }
        }
        let BranchOutcome { artifacts, step_reports, last_out, any_failed, error } = b;
        state.artifacts.merge(artifacts);
        let ghost reps = step_reports@;
        let cnt = step_reports.len();
        let mut reports = step_reports;
        let ghost before_reports = state.step_reports@;
        state.step_reports.append(&mut reports);
        assert(state.step_reports@ =~= old(state).step_reports@ + merged_reports(bs.subrange(0, k + 1)));
        state.completed = state.completed + (cnt as u32);
        if let Some(p) = last_out {
            state.prev = Some(p.clone());
            state.last_out = Some(p);
        }
        if any_failed {
            state.any_failed = true;
        }
        if first.is_none() {
            first = error;
        }
        k = k + 1;
    }
    assert(bs.subrange(0, n as int) =~= bs);
    match first {
        Some(msg) => {
            state.any_failed = true;
            if !continue_on_error {
                return Err(ExecError::Step(msg));
            }
            Ok(())
        },
        None => Ok(()),
    }
}

proof fn lemma_merged_reports_prefix(bs: Seq<BranchOutcome>, n: int)
    requires
        0 <= n <= bs.len(),
    ensures
        merged_reports(bs.subrange(0, n)).len() <= merged_reports(bs).len(),
    decreases bs.len() - n,
{
    if n < bs.len() {
        lemma_merged_reports_prefix(bs, n + 1);
        assert(bs.subrange(0, n + 1).drop_last() =~= bs.subrange(0, n));
    } else {
        assert(bs.subrange(0, n) =~= bs);
    }
}

/// The output of a whole run: its last output, or the error that it produced none.
pub fn run_outcome(state: &RunState) -> (r: Result<String, ExecError>)
    ensures
        match state.last_out {
            Some(p) => r is Ok && r->Ok_0@ == p@,
            None => r is Err && r->Err_0 is Other && exec_error_text(r->Err_0)
                == "job produced no output"@,
        },
{
    match &state.last_out {
        Some(p) => Ok(p.clone()),
        None => Err(ExecError::Other(owned("job produced no output"))),
    }
}

/// The parts of a leaf's dry-run line.
pub open spec fn leaf_parts(s: ResolvedStep) -> Seq<Seq<char>> {
    seq![
        decimal(s.index as nat) + ". "@ + capability_name(s.capability) + " ["@ + s.path@ + "]"@,
    ] + (if s.skip {
        seq!["skip"@]
    } else {
        Seq::empty()
    }) + (match s.id {
        Some(i) => seq!["id="@ + i@],
        None => Seq::empty(),
    }) + (if s.produces@.len() > 0 {
        seq!["produces=["@ + join_seqs(string_views(s.produces@), ", "@) + "]"@]
    } else {
        Seq::empty()
    }) + (if s.consumes@.len() > 0 {
        seq!["consumes=["@ + join_seqs(string_views(s.consumes@), ", "@) + "]"@]
    } else {
        Seq::empty()
    }) + (match option_text(s.options, "engine"@) {
        Some(e) => seq!["engine="@ + e],
        None => Seq::empty(),
    }) + (match option_text(s.options, "model"@) {
        Some(m) => seq!["model="@ + m],
        None => Seq::empty(),
    })
}

/// The one-line description of a leaf in a dry run.
pub open spec fn leaf_line(s: ResolvedStep) -> Seq<char> {
    join_seqs(leaf_parts(s), "  "@)
}

/// Every leaf of the plan names one of `n` leaves.
pub open spec fn plan_in_range(p: WorkflowPlan, n: nat) -> bool
    decreases p,
{
    match p {
        WorkflowPlan::Leaf(i) => i < n,
        WorkflowPlan::Sequence(v) => plans_in_range(v@, n),
        WorkflowPlan::Parallel(v) => plans_in_range(v@, n),
    }
}

pub open spec fn plans_in_range(ps: Seq<WorkflowPlan>, n: nat) -> bool
    decreases ps,
{
    if ps.len() == 0 {
        true
    } else {
        plans_in_range(ps.subrange(0, ps.len() - 1), n) && plan_in_range(ps[ps.len() - 1], n)
    }
}

/// The dry-run lines of a plan indented by `pad`: a leaf's line, or `sequence:` /
/// `parallel:` followed by the lines of the parts, indented two spaces more.
pub open spec fn plan_lines(p: WorkflowPlan, steps: Seq<ResolvedStep>, pad: Seq<char>) -> Seq<Seq<char>>
    decreases p,
{
    match p {
        WorkflowPlan::Leaf(i) => seq![pad + leaf_line(steps[i as int])],
        WorkflowPlan::Sequence(v) => seq![pad + "sequence:"@] + plans_lines(
            v@,
            steps,
            pad + "  "@,
        ),
        WorkflowPlan::Parallel(v) => seq![pad + "parallel:"@] + plans_lines(
            v@,
            steps,
            pad + "  "@,
        ),
    }
}

pub open spec fn plans_lines(ps: Seq<WorkflowPlan>, steps: Seq<ResolvedStep>, pad: Seq<char>) -> Seq<
    Seq<char>,
>
    decreases ps,
{
    if ps.len() == 0 {
        Seq::empty()
    } else {
        plans_lines(ps.subrange(0, ps.len() - 1), steps, pad) + plan_lines(
            ps[ps.len() - 1],
            steps,
            pad,
        )
    }
}

fn leaf_text(s: &ResolvedStep) -> (r: String)
    ensures
        r@ == leaf_line(*s),
{
    let mut parts: Vec<String> = Vec::new();
    let head = concat(
        concat(
            concat(
                concat(u64_to_decimal(s.index as u64).as_str(), ". ").as_str(),
                s.capability.as_str(),
            ).as_str(),
            " [",
        ).as_str(),
        concat(s.path.as_str(), "]").as_str(),
    );
    assert(head@ =~= decimal(s.index as nat) + ". "@ + capability_name(s.capability) + " ["@
        + s.path@ + "]"@);
    parts.push(head);
    proof {
        reveal_strlit("skip");
    }
    if s.skip {
        parts.push(owned("skip"));
    }
    let ghost a1 = parts@.map_values(|x: String| x@);
    if let Some(i) = &s.id {
        parts.push(concat("id=", i.as_str()));
    }
    let ghost a2 = parts@.map_values(|x: String| x@);
    if s.produces.len() > 0 {
        let j = join_strings(&s.produces, ", ");
        parts.push(concat(concat("produces=[", j.as_str()).as_str(), "]"));
    }
    let ghost a3 = parts@.map_values(|x: String| x@);
    if s.consumes.len() > 0 {
        let j = join_strings(&s.consumes, ", ");
        parts.push(concat(concat("consumes=[", j.as_str()).as_str(), "]"));
    }
    let ghost a4 = parts@.map_values(|x: String| x@);
    if let Some(e) = crate::schema::opt_string(&s.options, "engine") {
        parts.push(concat("engine=", e.as_str()));
    }
    let ghost a5 = parts@.map_values(|x: String| x@);
    if let Some(m) = crate::schema::opt_string(&s.options, "model") {
        parts.push(concat("model=", m.as_str()));
    }
    proof {
        let h: Seq<Seq<char>> = seq![
            decimal(s.index as nat) + ". "@ + capability_name(s.capability) + " ["@ + s.path@ + "]"@,
        ];
        assert(a1 =~= h + (if s.skip {
            seq!["skip"@]
        } else {
            Seq::<Seq<char>>::empty()
        }));
        assert(a2 =~= a1 + (match s.id {
            Some(i) => seq!["id="@ + i@],
            None => Seq::<Seq<char>>::empty(),
        }));
        assert(a3 =~= a2 + (if s.produces@.len() > 0 {
            seq!["produces=["@ + join_seqs(string_views(s.produces@), ", "@) + "]"@]
        } else {
            Seq::<Seq<char>>::empty()
        }));
        assert(a4 =~= a3 + (if s.consumes@.len() > 0 {
            seq!["consumes=["@ + join_seqs(string_views(s.consumes@), ", "@) + "]"@]
        } else {
            Seq::<Seq<char>>::empty()
        }));
        assert(a5 =~= a4 + (match option_text(s.options, "engine"@) {
            Some(e) => seq!["engine="@ + e],
            None => Seq::<Seq<char>>::empty(),
        }));
    }
    let r = join_strings(&parts, "  ");
    proof {
        assert(parts@.map_values(|x: String| x@) =~= leaf_parts(*s));
    }
    r
}

fn push_plan_text(
    lines: &mut Vec<String>,
    plan: &WorkflowPlan,
    steps: &Vec<ResolvedStep>,
    pad: &str,
)
    requires
        plan_in_range(*plan, steps@.len()),
    ensures
        final(lines)@.map_values(|x: String| x@) == old(lines)@.map_values(|x: String| x@)
            + plan_lines(*plan, steps@, pad@),
    decreases plan, 0nat,
{
    match plan {
        WorkflowPlan::Leaf(i) => {
            let ghost before = lines@;
            lines.push(concat(pad, leaf_text(&steps[*i]).as_str()));
            assert(lines@.map_values(|x: String| x@) =~= before.map_values(|x: String| x@)
                + plan_lines(*plan, steps@, pad@));
        },
        WorkflowPlan::Sequence(kids) => {
            let ghost before = lines@;
            lines.push(concat(pad, "sequence:"));
            let ghost mid = lines@;
            assert(decreases_to!(*plan => plan->Sequence_0));
            let inner = concat(pad, "  ");
            push_plans_text(lines, kids, steps, inner.as_str());
            assert(mid.map_values(|x: String| x@) =~= before.map_values(|x: String| x@).push(
                pad@ + "sequence:"@,
            ));
            assert(lines@.map_values(|x: String| x@) =~= before.map_values(|x: String| x@)
                + plan_lines(*plan, steps@, pad@));
        },
        WorkflowPlan::Parallel(kids) => {
            let ghost before = lines@;
            lines.push(concat(pad, "parallel:"));
            let ghost mid = lines@;
            assert(decreases_to!(*plan => plan->Parallel_0));
            let inner = concat(pad, "  ");
            push_plans_text(lines, kids, steps, inner.as_str());
            assert(mid.map_values(|x: String| x@) =~= before.map_values(|x: String| x@).push(
                pad@ + "parallel:"@,
            ));
            assert(lines@.map_values(|x: String| x@) =~= before.map_values(|x: String| x@)
                + plan_lines(*plan, steps@, pad@));
        },
    }
}

fn push_plans_text(
    lines: &mut Vec<String>,
    kids: &Vec<WorkflowPlan>,
    steps: &Vec<ResolvedStep>,
    pad: &str,
)
    requires
        plans_in_range(kids@, steps@.len()),
    ensures
        final(lines)@.map_values(|x: String| x@) == old(lines)@.map_values(|x: String| x@)
            + plans_lines(kids@, steps@, pad@),
    decreases kids, 1nat,
{
    let ghost base = lines@.map_values(|x: String| x@);
    let mut i: usize = 0;
    assert(kids@.subrange(0, 0) =~= Seq::<WorkflowPlan>::empty());
    assert(base + plans_lines(kids@.subrange(0, 0), steps@, pad@) =~= base);
    while i < kids.len()
        invariant
            i <= kids@.len(),
            plans_in_range(kids@, steps@.len()),
            lines@.map_values(|x: String| x@) == base + plans_lines(
                kids@.subrange(0, i as int),
                steps@,
                pad@,
            ),
        decreases kids@.len() - i,
    {
        proof {
            lemma_plans_in_range_at(kids@, steps@.len(), i as int);
        }
        assert(decreases_to!(*kids => kids@));
        assert(decreases_to!(kids@ => kids@[i as int]));
        push_plan_text(lines, &kids[i], steps, pad);
        proof {
            let t = kids@.subrange(0, i + 1);
            assert(t.subrange(0, i as int) =~= kids@.subrange(0, i as int));
            assert(t[i as int] == kids@[i as int]);
            assert(base + plans_lines(t, steps@, pad@) =~= base + plans_lines(
                kids@.subrange(0, i as int),
                steps@,
                pad@,
            ) + plan_lines(kids@[i as int], steps@, pad@));
        }
        i = i + 1;
    }
    assert(kids@.subrange(0, kids@.len() as int) =~= kids@);
}

proof fn lemma_plans_in_range_at(ps: Seq<WorkflowPlan>, n: nat, i: int)
    requires
        plans_in_range(ps, n),
        0 <= i < ps.len(),
    ensures
        plan_in_range(ps[i], n),
    decreases ps.len(),
{
    if i < ps.len() - 1 {
        let q = ps.subrange(0, ps.len() - 1);
        lemma_plans_in_range_at(q, n, i);
        assert(q[i] == ps[i]);
    }
}

/// The dry-run description of a resolved Job, one line per item.
pub open spec fn dry_run_lines(r: ResolvedJob) -> Seq<Seq<char>> {
    seq![
        "Job: "@ + match r.job.name {
            Some(n) => n@,
            None => "(unnamed)"@,
        },
        "working_dir: "@ + r.working_dir@,
    ] + (match r.job.input.audio {
        Some(a) => seq!["input.audio: "@ + a@],
        None => Seq::empty(),
    }) + (match r.job.max_parallel {
        Some(p) => seq!["max_parallel: "@ + decimal(p as nat)],
        None => Seq::empty(),
    }) + seq!["leaves: "@ + decimal(r.steps@.len()), "workflow:"@] + plan_lines(
        r.plan,
        r.steps@,
        "  "@,
    )
}

/// The dry-run text of a resolved Job: its lines joined by line breaks.
pub fn dry_run_text(resolved: &ResolvedJob) -> (r: String)
    requires
        plan_in_range(resolved.plan, resolved.steps@.len()),
    ensures
        r@ == join_seqs(dry_run_lines(*resolved), "\n"@),
{
    let mut lines: Vec<String> = Vec::new();
    let name = match &resolved.job.name {
        Some(n) => n.clone(),
        None => owned("(unnamed)"),
    };
    lines.push(concat("Job: ", name.as_str()));
    lines.push(concat("working_dir: ", resolved.working_dir.as_str()));
    if let Some(a) = &resolved.job.input.audio {
        lines.push(concat("input.audio: ", a.as_str()));
    }
    if let Some(p) = resolved.job.max_parallel {
        lines.push(concat("max_parallel: ", u64_to_decimal(p as u64).as_str()));
    }
    lines.push(concat("leaves: ", u64_to_decimal(resolved.steps.len() as u64).as_str()));
    lines.push(owned("workflow:"));
    let ghost head = lines@.map_values(|x: String| x@);
    push_plan_text(&mut lines, &resolved.plan, &resolved.steps, "  ");
    proof {
        assert(head + plan_lines(resolved.plan, resolved.steps@, "  "@) =~= dry_run_lines(*resolved));
    }
    join_strings(&lines, "\n")
}

} // verus!
