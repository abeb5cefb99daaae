//! Resolve a Job: working directory, engine and capability gates, artifact-reference
//! validation, workflow plan and leaf order.

use vstd::prelude::*;

use crate::collections::NameMap;
use crate::paths::{is_abs, is_absolute, join, join_path, resolve_against, resolve_path};
use crate::schema::{
    arg_text, arg_view, is_filesystem_ref, job_leaves, opt_string, option_text, parse_engine,
    ref_is_path, step_input_refs, step_refs, string_views, str_views, ArgValue, ArtifactRef,
    Capability, Fault, capability_name, duplicate_options, node_leaves, nodes_leaves,
    options_view, plan_view, plans_view, PlanView, ResolvedJob, ResolvedStep, WorkflowNode,
    WorkflowPlan,
    Job, JobError, Step, TranscribeEngine, fault_of,
};
use crate::schedule::{ints, is_kahn_order, is_topo_order, schedule_leaf_order};
use crate::text::{
    chars_of, clone_opt, clone_strings, concat, contains_char, decimal, ends_with, has_char,
    has_prefix, has_suffix, owned, slice_chars, starts_with, str_eq, string_of, u64_to_decimal,
};

verus! {

/// The working directory a Job resolves against.
pub open spec fn working_dir_of(job: Job, cwd: Result<Seq<char>, Seq<char>>) -> Result<
    Seq<char>,
    Fault,
> {
    let from_cwd = |p: Seq<char>| match cwd {
        Ok(c) => Ok(join_path(c, p)),
        Err(m) => Err(Fault::Other(m)),
    };
    match job.working_dir {
        Some(p) => if p@.len() == 0 {
            from_cwd(Seq::<char>::empty())
        } else if is_abs(p@) {
            Ok(p@)
        } else {
            from_cwd(p@)
        },
        None => from_cwd(Seq::<char>::empty()),
    }
}

/// Result of the current directory lookup, as plain values.
pub open spec fn cwd_view(cwd: &Result<String, String>) -> Result<Seq<char>, Seq<char>> {
    match cwd {
        Ok(c) => Ok(c@),
        Err(m) => Err(m@),
    }
}

/// A per-leaf check of resolution.
pub enum Gate {
    Engine,
    Capability,
}

pub open spec fn gate_fault(g: Gate, s: Step) -> Option<Fault> {
    match g {
        Gate::Engine => engine_fault(s),
        Gate::Capability => capability_fault(s),
    }
}

/// First fault gate `f` finds among `leaves`, in order.
pub open spec fn first_fault(leaves: Seq<Step>, f: Gate) -> Option<Fault>
    decreases leaves.len(),
{
    if leaves.len() == 0 {
        None
    } else {
        match first_fault(leaves.drop_last(), f) {
            Some(x) => Some(x),
            None => gate_fault(f, leaves.last()),
        }
    }
}

/// Engine gate of one leaf: `whisper` is reserved; only `gigaam` runs.
pub open spec fn engine_fault(s: Step) -> Option<Fault> {
    if s.capability != Capability::Transcribe {
        None
    } else {
        let engine = match option_text(s.options, "engine"@) {
            Some(t) => t,
            None => "gigaam"@,
        };
        match parse_engine(engine) {
            Some(TranscribeEngine::Whisper) => Some(
                Fault::Reserved("whisper is reserved; vd-whisper is not available yet"@),
            ),
            Some(TranscribeEngine::Gigaam) => None,
            None => Some(Fault::Usage("unknown transcribe engine: "@ + engine)),
        }
    }
}

/// `recipes` is a non-empty string or string list.
pub open spec fn has_recipes(opts: NameMap<ArgValue>) -> bool {
    opts@.contains_key("recipes"@) && match opts@["recipes"@] {
        ArgValue::Strings(v) => v@.len() > 0,
        ArgValue::String(x) => x@.len() > 0,
        _ => false,
    }
}

/// `filters` is a non-empty list.
pub open spec fn has_filters(opts: NameMap<ArgValue>) -> bool {
    opts@.contains_key("filters"@) && match opts@["filters"@] {
        ArgValue::List(v) => v@.len() > 0,
        _ => false,
    }
}

/// `chain` has non-empty scalar text.
pub open spec fn has_chain(opts: NameMap<ArgValue>) -> bool {
    match option_text(opts, "chain"@) {
        Some(t) => t.len() > 0,
        None => false,
    }
}

/// Capability gate of one leaf: postprocess needs recipes, preprocess filters or a chain.
pub open spec fn capability_fault(s: Step) -> Option<Fault> {
    if s.capability == Capability::Postprocess && !has_recipes(s.options) {
        Some(Fault::Usage("postprocess requires options.recipes"@))
    } else if s.capability == Capability::Preprocess && !has_filters(s.options) && !has_chain(
        s.options,
    ) {
        Some(Fault::Usage("preprocess requires options.filters or options.chain"@))
    } else {
        None
    }
}

pub proof fn lemma_first_fault_push(leaves: Seq<Step>, f: Gate, i: int)
    requires
        0 <= i < leaves.len(),
    ensures
        first_fault(leaves.subrange(0, i + 1), f) == (match first_fault(leaves.subrange(0, i), f) {
            Some(x) => Some(x),
            None => gate_fault(f, leaves[i]),
        }),
{
    let t = leaves.subrange(0, i + 1);
    assert(t.drop_last() =~= leaves.subrange(0, i));
}

/// The working directory of `job`.
pub fn job_working_dir(job: &Job, cwd: &Result<String, String>) -> (r: Result<String, JobError>)
    ensures
        match working_dir_of(*job, cwd_view(cwd)) {
            Ok(w) => r is Ok && r->Ok_0@ == w,
            Err(f) => r is Err && fault_of(r->Err_0) == f,
        },
{
    let rel: String = match &job.working_dir {
        Some(p) => {
            if p.as_str().is_empty() {
                String::new()
            } else if is_absolute(p.as_str()) {
                return Ok(p.clone());
            } else {
                p.clone()
            }
        },
        None => String::new(),
    };
    match cwd {
        Ok(c) => Ok(join(c.as_str(), rel.as_str())),
        Err(m) => Err(JobError::Other(m.clone())),
    }
}

/// Engine gate over all leaves.
pub fn gate_engines(job: &Job) -> (r: Result<(), JobError>)
    ensures
        match first_fault(job_leaves(*job), Gate::Engine) {
            None => r is Ok,
            Some(f) => r is Err && fault_of(r->Err_0) == f,
        },
{
    let leaves = job.leaf_steps();
    let ghost ls = job_leaves(*job);
    let ghost f = Gate::Engine;
    let mut i: usize = 0;
    assert(ls.subrange(0, 0) =~= Seq::<Step>::empty());
    while i < leaves.len()
        invariant
            f == Gate::Engine,
            step_refs(leaves@) == ls,
            ls == job_leaves(*job),
            i <= leaves.len(),
            first_fault(ls.subrange(0, i as int), f) is None,
        decreases leaves.len() - i,
    {
        let step: &Step = leaves[i];
        assert(*step == ls[i as int]);
        proof {
            lemma_first_fault_push(ls, f, i as int);
        }
        if step.capability == Capability::Transcribe {
            let engine = match opt_string(&step.options, "engine") {
                Some(t) => t,
                None => owned("gigaam"),
            };
            match TranscribeEngine::parse(engine.as_str()) {
                Some(TranscribeEngine::Whisper) => {
                    let e = JobError::Reserved(
                        owned("whisper is reserved; vd-whisper is not available yet"),
                    );
                    proof {
                        lemma_first_fault_prefix(ls, f, i as int + 1);
                    }
                    return Err(e);
                },
                Some(TranscribeEngine::Gigaam) => {},
                None => {
                    let e = JobError::Usage(concat("unknown transcribe engine: ", engine.as_str()));
                    proof {
                        lemma_first_fault_prefix(ls, f, i as int + 1);
                    }
                    return Err(e);
                },
            }
        }
        i = i + 1;
    }
    assert(ls.subrange(0, leaves.len() as int) =~= ls);
    Ok(())
}

/// A fault in a prefix is the first fault of the whole sequence.
pub proof fn lemma_first_fault_prefix(leaves: Seq<Step>, f: Gate, n: int)
    requires
        0 <= n <= leaves.len(),
        first_fault(leaves.subrange(0, n), f) is Some,
    ensures
        first_fault(leaves, f) == first_fault(leaves.subrange(0, n), f),
    decreases leaves.len() - n,
{
    if n < leaves.len() {
        lemma_first_fault_push(leaves, f, n);
        lemma_first_fault_prefix(leaves, f, n + 1);
    } else {
        assert(leaves.subrange(0, n) =~= leaves);
    }
}

/// The preprocess gate: a preprocess leaf whose `chain` option is non-empty text passes,
/// with or without filters, and so does one with a non-empty `filters` list; a preprocess
/// leaf is refused only when it has neither.
pub proof fn law_preprocess_gate(s: Step)
    requires
        s.capability == Capability::Preprocess,
    ensures
        (match s.options@.get("chain"@) {
            Some(ArgValue::String(t)) => t@.len() > 0,
            _ => false,
        }) ==> capability_fault(s) is None,
        (match s.options@.get("filters"@) {
            Some(ArgValue::List(v)) => v@.len() > 0,
            _ => false,
        }) ==> capability_fault(s) is None,
        capability_fault(s) is None ==> (match option_text(s.options, "chain"@) {
            Some(t) => t.len() > 0,
            None => false,
        }) || (match s.options@.get("filters"@) {
            Some(ArgValue::List(v)) => v@.len() > 0,
            _ => false,
        }),
{
    if s.options@.contains_key("chain"@) {
        if let ArgValue::String(t) = s.options@["chain"@] {
            crate::schema::lemma_arg_view_text(t);
        }
    }
}

/// Capability gate over all leaves.
pub fn gate_capabilities(job: &Job) -> (r: Result<(), JobError>)
    ensures
        match first_fault(job_leaves(*job), Gate::Capability) {
            None => r is Ok,
            Some(f) => r is Err && fault_of(r->Err_0) == f,
        },
{
    let leaves = job.leaf_steps();
    let ghost ls = job_leaves(*job);
    let ghost f = Gate::Capability;
    let mut i: usize = 0;
    assert(ls.subrange(0, 0) =~= Seq::<Step>::empty());
    while i < leaves.len()
        invariant
            f == Gate::Capability,
            step_refs(leaves@) == ls,
            ls == job_leaves(*job),
            i <= leaves.len(),
            first_fault(ls.subrange(0, i as int), f) is None,
        decreases leaves.len() - i,
    {
        let step: &Step = leaves[i];
        assert(*step == ls[i as int]);
        proof {
            lemma_first_fault_push(ls, f, i as int);
        }
        if step.capability.is_reserved() {
            let msg = concat(
                concat("capability '", step.capability.as_str()).as_str(),
                "' is reserved",
            );
            return Err(JobError::Reserved(msg));
        }
        if step.capability == Capability::Postprocess {
            let recipes_given = match step.options.get("recipes") {
                Some(ArgValue::Strings(v)) => v.len() > 0,
                Some(ArgValue::String(x)) => !x.as_str().is_empty(),
                _ => false,
            };
            if !recipes_given {
                proof {
                    lemma_first_fault_prefix(ls, f, i as int + 1);
                }
                return Err(JobError::Usage(owned("postprocess requires options.recipes")));
            }
        }
        if step.capability == Capability::Preprocess {
            let has_filters = match step.options.get("filters") {
                Some(ArgValue::List(v)) => v.len() > 0,
                _ => false,
            };
            let has_chain = match opt_string(&step.options, "chain") {
                Some(t) => !t.as_str().is_empty(),
                None => false,
            };
            if !has_filters && !has_chain {
                proof {
                    lemma_first_fault_prefix(ls, f, i as int + 1);
                }
                return Err(
                    JobError::Usage(owned("preprocess requires options.filters or options.chain")),
                );
            }
        }
        i = i + 1;
    }
    assert(ls.subrange(0, leaves.len() as int) =~= ls);
    Ok(())
}

/// Registers output names in order; a name seen before is a duplicate.
pub open spec fn scan_outputs(keys: Seq<Seq<char>>, produced: Seq<Seq<char>>) -> Result<
    Seq<Seq<char>>,
    Fault,
>
    decreases keys.len(),
{
    if keys.len() == 0 {
        Ok(produced)
    } else {
        match scan_outputs(keys.drop_last(), produced) {
            Err(f) => Err(f),
            Ok(p) => if p.contains(keys.last()) {
                Err(Fault::Usage("duplicate artifact id: "@ + keys.last()))
            } else {
                Ok(p.push(keys.last()))
            },
        }
    }
}

/// Adds the non-wildcard names of `produces`.
pub open spec fn add_produces(names: Seq<Seq<char>>, produced: Seq<Seq<char>>) -> Seq<Seq<char>>
    decreases names.len(),
{
    if names.len() == 0 {
        produced
    } else {
        let p = add_produces(names.drop_last(), produced);
        if has_char(names.last(), '*') {
            p
        } else {
            p.push(names.last())
        }
    }
}

/// Registers one leaf's id.
pub open spec fn scan_id(s: Step, produced: Seq<Seq<char>>, ids: Seq<Seq<char>>) -> Result<
    (Seq<Seq<char>>, Seq<Seq<char>>),
    Fault,
> {
    match s.id {
        None => Ok((produced, ids)),
        Some(i) => if ids.contains(i@) {
            Err(Fault::Usage("duplicate step id: "@ + i@))
        } else if produced.contains(i@) {
            Err(Fault::Usage("duplicate artifact id: "@ + i@))
        } else {
            Ok((produced.push(i@), ids.push(i@)))
        },
    }
}

/// Registers one leaf: its id, then its output names, then its produced names.
pub open spec fn scan_step(s: Step, produced: Seq<Seq<char>>, ids: Seq<Seq<char>>) -> Result<
    (Seq<Seq<char>>, Seq<Seq<char>>),
    Fault,
> {
    match scan_id(s, produced, ids) {
        Err(f) => Err(f),
        Ok((p, d)) => match scan_outputs(s.outputs.key_list(), p) {
            Err(f) => Err(f),
            Ok(p2) => Ok((add_produces(string_views(s.produces@), p2), d)),
        },
    }
}

/// Registered artifact names and step ids over all leaves, or the first duplicate.
pub open spec fn scan_ids(leaves: Seq<Step>) -> Result<(Seq<Seq<char>>, Seq<Seq<char>>), Fault>
    decreases leaves.len(),
{
    if leaves.len() == 0 {
        Ok((Seq::<Seq<char>>::empty(), Seq::<Seq<char>>::empty()))
    } else {
        match scan_ids(leaves.drop_last()) {
            Err(f) => Err(f),
            Ok((p, d)) => scan_step(leaves.last(), p, d),
        }
    }
}

/// An artifact id reference that names nothing registered.
pub open spec fn dangling_id(raw: Seq<char>, produced: Seq<Seq<char>>, ids: Seq<Seq<char>>) -> bool {
    !ref_is_path(raw) && !has_char(raw, '*') && !produced.contains(raw) && !ids.contains(raw)
}

/// The first fault that `check` finds among `items`, in order.
pub open spec fn first_of<A>(items: Seq<A>, check: spec_fn(A) -> Option<Fault>) -> Option<Fault>
    decreases items.len(),
{
    if items.len() == 0 {
        None
    } else {
        match first_of(items.drop_last(), check) {
            Some(f) => Some(f),
            None => check(items.last()),
        }
    }
}

pub proof fn lemma_first_of_push<A>(items: Seq<A>, check: spec_fn(A) -> Option<Fault>, i: int)
    requires
        0 <= i < items.len(),
    ensures
        first_of(items.subrange(0, i + 1), check) == (match first_of(items.subrange(0, i), check) {
            Some(x) => Some(x),
            None => check(items[i]),
        }),
{
    assert(items.subrange(0, i + 1).drop_last() =~= items.subrange(0, i));
}

/// A fault found in a prefix is the first fault of the whole sequence.
pub proof fn lemma_first_of_prefix<A>(items: Seq<A>, check: spec_fn(A) -> Option<Fault>, n: int)
    requires
        0 <= n <= items.len(),
        first_of(items.subrange(0, n), check) is Some,
    ensures
        first_of(items, check) == first_of(items.subrange(0, n), check),
    decreases items.len() - n,
{
    if n < items.len() {
        lemma_first_of_push(items, check, n);
        lemma_first_of_prefix(items, check, n + 1);
    } else {
        assert(items.subrange(0, n) =~= items);
    }
}

/// An input reference that names no registered artifact or step.
pub open spec fn input_check(produced: Seq<Seq<char>>, ids: Seq<Seq<char>>) -> spec_fn(Seq<char>) -> Option<Fault> {
    |raw: Seq<char>| if dangling_id(raw, produced, ids) {
        Some(Fault::Usage("unknown artifact id in inputs: "@ + raw))
    } else {
        None
    }
}

/// A `depends` entry that names no step.
pub open spec fn depends_check(ids: Seq<Seq<char>>) -> spec_fn(Seq<char>) -> Option<Fault> {
    |dep: Seq<char>| if !ids.contains(dep) {
        Some(Fault::Usage("unknown depends id: "@ + dep))
    } else {
        None
    }
}

/// A postprocess input value whose text names no registered artifact or step.
pub open spec fn pp_check(produced: Seq<Seq<char>>, ids: Seq<Seq<char>>) -> spec_fn(ArgValue) -> Option<Fault> {
    |v: ArgValue| match arg_text(arg_view(v)) {
        Some(raw) => if dangling_id(raw, produced, ids) {
            Some(Fault::Usage("unknown artifact id in postprocess inputs: "@ + raw))
        } else {
            None
        },
        None => None,
    }
}

/// The `inputs` mapping of a postprocess step's options, when there is one.
pub open spec fn pp_inputs(s: Step) -> Seq<ArgValue> {
    if s.capability == Capability::Postprocess && s.options@.contains_key("inputs"@)
        && s.options@["inputs"@] is Mapping {
        s.options@["inputs"@]->Mapping_0.value_list()
    } else {
        Seq::<ArgValue>::empty()
    }
}

/// First dangling reference of one leaf: inputs, then depends, then postprocess inputs.
pub open spec fn leaf_ref_fault(s: Step, produced: Seq<Seq<char>>, ids: Seq<Seq<char>>) -> Option<Fault> {
    match first_of(step_input_refs(s), input_check(produced, ids)) {
        Some(f) => Some(f),
        None => match first_of(string_views(s.depends@), depends_check(ids)) {
            Some(f) => Some(f),
            None => first_of(pp_inputs(s), pp_check(produced, ids)),
        },
    }
}

pub open spec fn leaf_check(produced: Seq<Seq<char>>, ids: Seq<Seq<char>>) -> spec_fn(Step) -> Option<Fault> {
    |s: Step| leaf_ref_fault(s, produced, ids)
}

/// Artifact-reference validation: duplicates first, then dangling references.
pub open spec fn refs_fault(leaves: Seq<Step>) -> Option<Fault> {
    match scan_ids(leaves) {
        Err(f) => Some(f),
        Ok((p, d)) => first_of(leaves, leaf_check(p, d)),
    }
}

/// `name` is among `v`.
pub fn contains_str(v: &Vec<String>, name: &str) -> (b: bool)
    ensures
        b == string_views(v@).contains(name@),
{
    let mut i: usize = 0;
    while i < v.len()
        invariant
            i <= v.len(),
            forall|j: int| 0 <= j < i ==> v@[j]@ != name@,
        decreases v.len() - i,
    {
        if str_eq(v[i].as_str(), name) {
            assert(string_views(v@)[i as int] == name@);
            return true;
        }
        i = i + 1;
    }
    proof {
        if string_views(v@).contains(name@) {
            let j = string_views(v@).index_of(name@);
            assert(v@[j]@ == name@);
        }
    }
    false
}

fn push_name(v: &mut Vec<String>, name: &str)
    ensures
        string_views(final(v)@) == string_views(old(v)@).push(name@),
{
    v.push(owned(name));
    assert(string_views(v@) =~= string_views(old(v)@).push(name@));
}

fn scan_step_exec(step: &Step, produced: &mut Vec<String>, ids: &mut Vec<String>) -> (r: Result<
    (),
    JobError,
>)
    ensures
        match scan_step(*step, string_views(old(produced)@), string_views(old(ids)@)) {
            Ok((p, d)) => r is Ok && string_views(final(produced)@) == p && string_views(
                final(ids)@,
            ) == d,
            Err(f) => r is Err && fault_of(r->Err_0) == f,
        },
{
    let ghost p0 = string_views(produced@);
    let ghost d0 = string_views(ids@);
    if let Some(id) = &step.id {
        if contains_str(ids, id.as_str()) {
            return Err(JobError::Usage(concat("duplicate step id: ", id.as_str())));
        }
        if contains_str(produced, id.as_str()) {
            return Err(JobError::Usage(concat("duplicate artifact id: ", id.as_str())));
        }
        push_name(ids, id.as_str());
        push_name(produced, id.as_str());
    }
    let ghost p1 = string_views(produced@);
    let ghost d1 = string_views(ids@);
    assert(scan_id(*step, p0, d0) == Ok::<(Seq<Seq<char>>, Seq<Seq<char>>), Fault>((p1, d1)));
    let keys = &step.outputs;
    let n = keys.len();
    let mut i: usize = 0;
    assert(keys.key_list().subrange(0, 0) =~= Seq::<Seq<char>>::empty());
    while i < n
        invariant
            n == keys.key_list().len(),
            i <= n,
            keys == &step.outputs,
            p0 == string_views(old(produced)@),
            d0 == string_views(old(ids)@),
            scan_id(*step, p0, d0) == Ok::<(Seq<Seq<char>>, Seq<Seq<char>>), Fault>((p1, d1)),
            string_views(ids@) == d1,
            scan_outputs(keys.key_list().subrange(0, i as int), p1) == Ok::<
                Seq<Seq<char>>,
                Fault,
            >(string_views(produced@)),
        decreases n - i,
    {
        let k = keys.key_at(i);
        proof {
            let t = keys.key_list().subrange(0, i + 1);
            assert(t.drop_last() =~= keys.key_list().subrange(0, i as int));
        }
        if contains_str(produced, k.as_str()) {
            let e = JobError::Usage(concat("duplicate artifact id: ", k.as_str()));
            proof {
                let t = keys.key_list().subrange(0, i + 1);
                assert(t.last() == k@);
                assert(scan_outputs(t, p1) == Err::<Seq<Seq<char>>, Fault>(fault_of(e)));
                lemma_scan_outputs_err(keys.key_list(), p1, i as int + 1);
            }
            return Err(e);
        }
        push_name(produced, k.as_str());
        i = i + 1;
    }
    assert(keys.key_list().subrange(0, n as int) =~= keys.key_list());
    let ghost p2 = string_views(produced@);
    let mut j: usize = 0;
    assert(string_views(step.produces@.subrange(0, 0)) =~= Seq::<Seq<char>>::empty());
    while j < step.produces.len()
        invariant
            j <= step.produces.len(),
            p0 == string_views(old(produced)@),
            d0 == string_views(old(ids)@),
            scan_id(*step, p0, d0) == Ok::<(Seq<Seq<char>>, Seq<Seq<char>>), Fault>((p1, d1)),
            scan_outputs(step.outputs.key_list(), p1) == Ok::<Seq<Seq<char>>, Fault>(p2),
            string_views(ids@) == d1,
            string_views(produced@) == add_produces(string_views(step.produces@.subrange(0, j as int)), p2),
        decreases step.produces.len() - j,
    {
        let name = step.produces[j].as_str();
        proof {
            let t = string_views(step.produces@.subrange(0, j + 1));
            assert(t.drop_last() =~= string_views(step.produces@.subrange(0, j as int)));
            assert(t.last() == name@);
        }
        if !contains_char(name, '*') {
            push_name(produced, name);
        }
        j = j + 1;
    }
    assert(step.produces@.subrange(0, step.produces.len() as int) =~= step.produces@);
    Ok(())
}

proof fn lemma_scan_outputs_err(keys: Seq<Seq<char>>, p: Seq<Seq<char>>, n: int)
    requires
        0 <= n <= keys.len(),
        scan_outputs(keys.subrange(0, n), p) is Err,
    ensures
        scan_outputs(keys, p) == scan_outputs(keys.subrange(0, n), p),
    decreases keys.len() - n,
{
    if n < keys.len() {
        let t = keys.subrange(0, n + 1);
        assert(t.drop_last() =~= keys.subrange(0, n));
        lemma_scan_outputs_err(keys, p, n + 1);
    } else {
        assert(keys.subrange(0, n) =~= keys);
    }
}

proof fn lemma_scan_ids_push(leaves: Seq<Step>, i: int)
    requires
        0 <= i < leaves.len(),
    ensures
        scan_ids(leaves.subrange(0, i + 1)) == (match scan_ids(leaves.subrange(0, i)) {
            Err(f) => Err(f),
            Ok((p, d)) => scan_step(leaves[i], p, d),
        }),
{
    assert(leaves.subrange(0, i + 1).drop_last() =~= leaves.subrange(0, i));
}

proof fn lemma_scan_ids_err(leaves: Seq<Step>, n: int)
    requires
        0 <= n <= leaves.len(),
        scan_ids(leaves.subrange(0, n)) is Err,
    ensures
        scan_ids(leaves) == scan_ids(leaves.subrange(0, n)),
    decreases leaves.len() - n,
{
    if n < leaves.len() {
        lemma_scan_ids_push(leaves, n);
        lemma_scan_ids_err(leaves, n + 1);
    } else {
        assert(leaves.subrange(0, n) =~= leaves);
    }
}

/// `raw` is an artifact id (not a path, not a wildcard) that neither list holds.
fn is_dangling(raw: &str, produced: &Vec<String>, ids: &Vec<String>) -> (b: bool)
    ensures
        b == dangling_id(raw@, string_views(produced@), string_views(ids@)),
{
    match ArtifactRef::parse(raw) {
        ArtifactRef::Path(_) => false,
        ArtifactRef::Id(id) => !contains_char(id.as_str(), '*') && !contains_str(
            produced,
            id.as_str(),
        ) && !contains_str(ids, id.as_str()),
    }
}

fn check_input_refs(step: &Step, produced: &Vec<String>, ids: &Vec<String>) -> (r: Result<
    (),
    JobError,
>)
    ensures
        match first_of(
            step_input_refs(*step),
            input_check(string_views(produced@), string_views(ids@)),
        ) {
            None => r is Ok,
            Some(f) => r is Err && fault_of(r->Err_0) == f,
        },
{
    let refs = step.input_refs();
    let ghost rs = step_input_refs(*step);
    let ghost c = input_check(string_views(produced@), string_views(ids@));
    let mut i: usize = 0;
    assert(rs.subrange(0, 0) =~= Seq::<Seq<char>>::empty());
    while i < refs.len()
        invariant
            c == input_check(string_views(produced@), string_views(ids@)),
            str_views(refs@) == rs,
            rs == step_input_refs(*step),
            i <= refs.len(),
            first_of(rs.subrange(0, i as int), c) is None,
        decreases refs.len() - i,
    {
        let raw: &str = refs[i];
        assert(raw@ == rs[i as int]);
        proof {
            lemma_first_of_push(rs, c, i as int);
        }
        if is_dangling(raw, produced, ids) {
            let e = JobError::Usage(concat("unknown artifact id in inputs: ", raw));
            proof {
                lemma_first_of_prefix(rs, c, i as int + 1);
            }
            return Err(e);
        }
        i = i + 1;
    }
    assert(rs.subrange(0, refs.len() as int) =~= rs);
    Ok(())
}

fn check_depends(step: &Step, ids: &Vec<String>) -> (r: Result<(), JobError>)
    ensures
        match first_of(string_views(step.depends@), depends_check(string_views(ids@))) {
            None => r is Ok,
            Some(f) => r is Err && fault_of(r->Err_0) == f,
        },
{
    let ghost ds = string_views(step.depends@);
    let ghost c = depends_check(string_views(ids@));
    let mut i: usize = 0;
    assert(ds.subrange(0, 0) =~= Seq::<Seq<char>>::empty());
    while i < step.depends.len()
        invariant
            c == depends_check(string_views(ids@)),
            ds == string_views(step.depends@),
            i <= step.depends.len(),
            first_of(ds.subrange(0, i as int), c) is None,
        decreases step.depends.len() - i,
    {
        let dep = step.depends[i].as_str();
        assert(dep@ == ds[i as int]);
        proof {
            lemma_first_of_push(ds, c, i as int);
        }
        if !contains_str(ids, dep) {
            let e = JobError::Usage(concat("unknown depends id: ", dep));
            proof {
                lemma_first_of_prefix(ds, c, i as int + 1);
            }
            return Err(e);
        }
        i = i + 1;
    }
    assert(ds.subrange(0, step.depends.len() as int) =~= ds);
    Ok(())
}

fn check_pp_inputs(step: &Step, produced: &Vec<String>, ids: &Vec<String>) -> (r: Result<
    (),
    JobError,
>)
    ensures
        match first_of(pp_inputs(*step), pp_check(string_views(produced@), string_views(ids@))) {
            None => r is Ok,
            Some(f) => r is Err && fault_of(r->Err_0) == f,
        },
{
    if step.capability != Capability::Postprocess {
        return Ok(());
    }
    let map = match step.options.get("inputs") {
        Some(v) => match v.as_map() {
            Some(m) => m,
            None => return Ok(()),
        },
        None => return Ok(()),
    };
    let ghost vs = pp_inputs(*step);
    let ghost c = pp_check(string_views(produced@), string_views(ids@));
    assert(vs == map.value_list());
    let n = map.len();
    let mut i: usize = 0;
    assert(vs.subrange(0, 0) =~= Seq::<ArgValue>::empty());
    while i < n
        invariant
            c == pp_check(string_views(produced@), string_views(ids@)),
            vs == map.value_list(),
            vs == pp_inputs(*step),
            n == map.key_list().len(),
            map.well_formed(),
            i <= n,
            first_of(vs.subrange(0, i as int), c) is None,
        decreases n - i,
    {
        let v = map.value_at(i);
        proof {
            lemma_first_of_push(vs, c, i as int);
        }
        if let Some(raw) = v.as_string() {
            if is_dangling(raw.as_str(), produced, ids) {
                let e = JobError::Usage(
                    concat("unknown artifact id in postprocess inputs: ", raw.as_str()),
                );
                proof {
                    lemma_first_of_prefix(vs, c, i as int + 1);
                }
                return Err(e);
            }
        }
        i = i + 1;
    }
    assert(vs.subrange(0, n as int) =~= vs);
    Ok(())
}

fn check_leaf_refs(step: &Step, produced: &Vec<String>, ids: &Vec<String>) -> (r: Result<
    (),
    JobError,
>)
    ensures
        match leaf_ref_fault(*step, string_views(produced@), string_views(ids@)) {
            None => r is Ok,
            Some(f) => r is Err && fault_of(r->Err_0) == f,
        },
{
    check_input_refs(step, produced, ids)?;
    check_depends(step, ids)?;
    check_pp_inputs(step, produced, ids)
}

/// Artifact-reference validation of all leaves: duplicate step ids and artifact names
/// first, then references to names that nothing registers.
pub fn validate_artifact_refs(job: &Job) -> (r: Result<(), JobError>)
    ensures
        match refs_fault(job_leaves(*job)) {
            None => r is Ok,
            Some(f) => r is Err && fault_of(r->Err_0) == f,
        },
{
    let leaves = job.leaf_steps();
    let ghost ls = job_leaves(*job);
    let mut produced: Vec<String> = Vec::new();
    let mut ids: Vec<String> = Vec::new();
    let mut i: usize = 0;
    assert(ls.subrange(0, 0) =~= Seq::<Step>::empty());
    assert(string_views(produced@) =~= Seq::<Seq<char>>::empty());
    assert(string_views(ids@) =~= Seq::<Seq<char>>::empty());
    while i < leaves.len()
        invariant
            step_refs(leaves@) == ls,
            ls == job_leaves(*job),
            i <= leaves.len(),
            scan_ids(ls.subrange(0, i as int)) == Ok::<
                (Seq<Seq<char>>, Seq<Seq<char>>),
                Fault,
            >((string_views(produced@), string_views(ids@))),
        decreases leaves.len() - i,
    {
        let step: &Step = leaves[i];
        assert(*step == ls[i as int]);
        proof {
            lemma_scan_ids_push(ls, i as int);
        }
        let res = scan_step_exec(step, &mut produced, &mut ids);
        if let Err(e) = res {
            proof {
                lemma_scan_ids_err(ls, i as int + 1);
            }
            return Err(e);
        }
        i = i + 1;
    }
    assert(ls.subrange(0, leaves.len() as int) =~= ls);
    let ghost c = leaf_check(string_views(produced@), string_views(ids@));
    let mut j: usize = 0;
    while j < leaves.len()
        invariant
            step_refs(leaves@) == ls,
            ls == job_leaves(*job),
            j <= leaves.len(),
            scan_ids(ls) == Ok::<(Seq<Seq<char>>, Seq<Seq<char>>), Fault>(
                (string_views(produced@), string_views(ids@)),
            ),
            c == leaf_check(string_views(produced@), string_views(ids@)),
            first_of(ls.subrange(0, j as int), c) is None,
        decreases leaves.len() - j,
    {
        let step: &Step = leaves[j];
        assert(*step == ls[j as int]);
        proof {
            lemma_first_of_push(ls, c, j as int);
        }
        let res = check_leaf_refs(step, &produced, &ids);
        if let Err(e) = res {
            proof {
                lemma_first_of_prefix(ls, c, j as int + 1);
            }
            return Err(e);
        }
        j = j + 1;
    }
    assert(ls.subrange(0, leaves.len() as int) =~= ls);
    Ok(())
}

/// Path text of child `i` under `prefix`: `i` at the top of a list, else `prefix.i`.
pub open spec fn child_path(prefix: Seq<char>, i: int, dotted: bool) -> Seq<char> {
    if !dotted && prefix.len() == 0 {
        decimal(i as nat)
    } else {
        prefix + "."@ + decimal(i as nat)
    }
}

/// Path texts of the leaves of a node at `path`, depth first.
pub open spec fn node_paths(n: WorkflowNode, path: Seq<char>) -> Seq<Seq<char>>
    decreases n,
{
    match n {
        WorkflowNode::Step(_) => seq![path],
        WorkflowNode::Sequence { sequence, .. } => list_paths(sequence@, path, false),
        WorkflowNode::Parallel { parallel, .. } => list_paths(parallel@, path, true),
    }
}

/// Path texts of the leaves of a node list under `prefix`, depth first.
pub open spec fn list_paths(ns: Seq<WorkflowNode>, prefix: Seq<char>, dotted: bool) -> Seq<
    Seq<char>,
>
    decreases ns,
{
    if ns.len() == 0 {
        Seq::<Seq<char>>::empty()
    } else {
        list_paths(ns.subrange(0, ns.len() - 1), prefix, dotted) + node_paths(
            ns[ns.len() - 1],
            child_path(prefix, ns.len() - 1, dotted),
        )
    }
}

/// The plan of a node whose first leaf has number `start`.
pub open spec fn node_plan(n: WorkflowNode, start: int) -> PlanView
    decreases n,
{
    match n {
        WorkflowNode::Step(_) => PlanView::Leaf(start),
        WorkflowNode::Sequence { sequence, .. } => PlanView::Sequence(list_plan(sequence@, start)),
        WorkflowNode::Parallel { parallel, .. } => PlanView::Parallel(list_plan(parallel@, start)),
    }
}

/// The plans of a node list whose first leaf has number `start`; leaves are numbered
/// consecutively, depth first.
pub open spec fn list_plan(ns: Seq<WorkflowNode>, start: int) -> Seq<PlanView>
    decreases ns,
{
    if ns.len() == 0 {
        Seq::<PlanView>::empty()
    } else {
        list_plan(ns.subrange(0, ns.len() - 1), start).push(
            node_plan(ns[ns.len() - 1], start + nodes_leaves(ns.subrange(0, ns.len() - 1)).len()),
        )
    }
}

pub proof fn lemma_node_paths_len(n: WorkflowNode, path: Seq<char>)
    ensures
        node_paths(n, path).len() == node_leaves(n).len(),
    decreases n,
{
    match n {
        WorkflowNode::Step(_) => {},
        WorkflowNode::Sequence { sequence, .. } => {
            lemma_list_paths_len(sequence@, path, false);
        },
        WorkflowNode::Parallel { parallel, .. } => {
            lemma_list_paths_len(parallel@, path, true);
        },
    }
}

pub proof fn lemma_list_paths_len(ns: Seq<WorkflowNode>, prefix: Seq<char>, dotted: bool)
    ensures
        list_paths(ns, prefix, dotted).len() == nodes_leaves(ns).len(),
    decreases ns,
{
    if ns.len() > 0 {
        lemma_list_paths_len(ns.subrange(0, ns.len() - 1), prefix, dotted);
        lemma_node_paths_len(ns[ns.len() - 1], child_path(prefix, ns.len() - 1, dotted));
    }
}

/// The fault of one of two concatenated sequences comes first from the left one.
pub proof fn lemma_first_of_concat<A>(a: Seq<A>, b: Seq<A>, check: spec_fn(A) -> Option<Fault>)
    ensures
        first_of(a + b, check) == (match first_of(a, check) {
            Some(f) => Some(f),
            None => first_of(b, check),
        }),
    decreases b.len(),
{
    if b.len() == 0 {
        assert(a + b =~= a);
    } else {
        lemma_first_of_concat(a, b.drop_last(), check);
        assert((a + b).drop_last() =~= a + b.drop_last());
    }
}

/// A leaf fault within the first `n` nodes is the first leaf fault of the whole list.
pub proof fn lemma_nodes_first_prefix(ns: Seq<WorkflowNode>, check: spec_fn(Step) -> Option<Fault>, n: int)
    requires
        0 <= n <= ns.len(),
        first_of(nodes_leaves(ns.subrange(0, n)), check) is Some,
    ensures
        first_of(nodes_leaves(ns), check) == first_of(nodes_leaves(ns.subrange(0, n)), check),
    decreases ns.len() - n,
{
    if n < ns.len() {
        let t = ns.subrange(0, n + 1);
        assert(t.subrange(0, n) =~= ns.subrange(0, n));
        lemma_first_of_concat(nodes_leaves(ns.subrange(0, n)), node_leaves(ns[n]), check);
        lemma_nodes_first_prefix(ns, check, n + 1);
    } else {
        assert(ns.subrange(0, n) =~= ns);
    }
}

/// What the preview of a leaf's input gives: its first reference when that is a path,
/// nothing for an id, else the Job's audio or documents for capabilities that read them.
pub open spec fn preview_of(s: Step, job: Job, wd: Seq<char>) -> Result<Option<Seq<char>>, Fault> {
    let refs = step_input_refs(s);
    if refs.len() > 0 {
        if ref_is_path(refs[0]) {
            Ok(Some(resolve_path(wd, refs[0])))
        } else {
            Ok(None)
        }
    } else {
        match s.capability {
            Capability::Transcribe | Capability::Diarize | Capability::Preprocess => match job.input.audio {
                Some(a) => Ok(Some(resolve_path(wd, a@))),
                None => Err(
                    Fault::Usage(
                        capability_name(s.capability) + " step needs input.audio or step.inputs"@,
                    ),
                ),
            },
            Capability::PrepareContext => match job.context.docs {
                Some(d) => Ok(Some(resolve_path(wd, d@))),
                None => Err(Fault::Usage("prepare-context needs context.docs or step.inputs"@)),
            },
            _ => Ok(None),
        }
    }
}

/// The preview fault of a leaf; skipped leaves are not previewed.
pub open spec fn preview_check(job: Job, wd: Seq<char>) -> spec_fn(Step) -> Option<Fault> {
    |s: Step| if s.skip {
        None
    } else {
        match preview_of(s, job, wd) {
            Err(f) => Some(f),
            Ok(_) => None,
        }
    }
}

pub open spec fn opt_view(o: Option<String>) -> Option<Seq<char>> {
    match o {
        Some(s) => Some(s@),
        None => None,
    }
}

/// `r` is leaf `s`, number `k` (0-based), at `path`, resolved against `wd`.
pub open spec fn resolves_to(
    r: ResolvedStep,
    s: Step,
    k: int,
    path: Seq<char>,
    job: Job,
    wd: Seq<char>,
) -> bool {
    &&& r.index as int == (k + 1) % 0x1_0000_0000
    &&& r.path@ == path
    &&& r.capability == s.capability
    &&& opt_view(r.id) == opt_view(s.id)
    &&& opt_view(r.name) == opt_view(s.name)
    &&& r.skip == s.skip
    &&& opt_view(r.input) == (if s.skip {
        None
    } else {
        preview_of(s, job, wd)->Ok_0
    })
    &&& opt_view(r.output) == (match s.output {
        Some(o) => Some(resolve_path(wd, o@)),
        None => None,
    })
    &&& r.outputs.key_list() == s.outputs.key_list()
    &&& string_views(r.outputs.value_list()) == string_views(s.outputs.value_list()).map_values(
        |p: Seq<char>| resolve_path(wd, p),
    )
    &&& string_views(r.produces@) == string_views(s.produces@)
    &&& string_views(r.consumes@) == string_views(s.consumes@)
    &&& r.options.key_list() == s.options.key_list()
    &&& options_view(r.options) == options_view(s.options)
}

fn preview_input(step: &Step, job: &Job, wd: &str) -> (r: Result<Option<String>, JobError>)
    ensures
        match preview_of(*step, *job, wd@) {
            Ok(o) => r is Ok && opt_view(r->Ok_0) == o,
            Err(f) => r is Err && fault_of(r->Err_0) == f,
        },
{
    let refs = step.input_refs();
    if refs.len() > 0 {
        let raw: &str = refs[0];
        assert(raw@ == step_input_refs(*step)[0]);
        return match ArtifactRef::parse(raw) {
            ArtifactRef::Id(_) => Ok(None),
            ArtifactRef::Path(p) => Ok(Some(resolve_against(wd, p.as_str()))),
        };
    }
    match step.capability {
        Capability::Transcribe | Capability::Diarize | Capability::Preprocess => {
            match &job.input.audio {
                Some(a) => Ok(Some(resolve_against(wd, a.as_str()))),
                None => Err(
                    JobError::Usage(
                        concat(step.capability.as_str(), " step needs input.audio or step.inputs"),
                    ),
                ),
            }
        },
        Capability::PrepareContext => match &job.context.docs {
            Some(d) => Ok(Some(resolve_against(wd, d.as_str()))),
            None => Err(JobError::Usage(owned("prepare-context needs context.docs or step.inputs"))),
        },
        _ => Ok(None),
    }
}

/// Output paths resolved against `wd`, under the same names.
fn resolve_outputs(outputs: &NameMap<String>, wd: &str) -> (r: NameMap<String>)
    ensures
        r.key_list() == outputs.key_list(),
        string_views(r.value_list()) == string_views(outputs.value_list()).map_values(
            |p: Seq<char>| resolve_path(wd@, p),
        ),
{
    let n = outputs.len();
    let mut vals: Vec<String> = Vec::new();
    let mut i: usize = 0;
    while i < n
        invariant
            n == outputs.key_list().len(),
            outputs.well_formed(),
            i <= n,
            vals@.len() == i,
            forall|j: int| 0 <= j < i ==> #[trigger] vals@[j]@ == resolve_path(wd@, outputs.value_list()[j]@),
        decreases n - i,
    {
        let p = outputs.value_at(i);
        vals.push(resolve_against(wd, p.as_str()));
        i = i + 1;
    }
    let r = outputs.with_values(vals);
    assert(string_views(r.value_list()) =~= string_views(outputs.value_list()).map_values(
        |p: Seq<char>| resolve_path(wd@, p),
    ));
    r
}

/// Leaf number `idx` (0-based) as its 1-based `u32`, wrapping as a cast would.
fn leaf_number(idx: usize) -> (n: u32)
    ensures
        n as int == (idx + 1) % 0x1_0000_0000,
{
    let low: u64 = (idx as u64) % 0x1_0000_0000;
    ((low + 1) % 0x1_0000_0000) as u32
}

fn resolve_step(step: &Step, idx: usize, path: String, job: &Job, wd: &str) -> (r: Result<
    ResolvedStep,
    JobError,
>)
    ensures
        match preview_check(*job, wd@)(*step) {
            Some(f) => r is Err && fault_of(r->Err_0) == f,
            None => r is Ok && resolves_to(r->Ok_0, *step, idx as int, path@, *job, wd@),
        },
{
    let input = if step.skip {
        None
    } else {
        preview_input(step, job, wd)?
    };
    let output = match &step.output {
        Some(p) => Some(resolve_against(wd, p.as_str())),
        None => None,
    };
    Ok(
        ResolvedStep {
            index: leaf_number(idx),
            path,
            capability: step.capability,
            id: clone_opt(&step.id),
            name: clone_opt(&step.name),
            skip: step.skip,
            input,
            output,
            outputs: resolve_outputs(&step.outputs, wd),
            produces: clone_strings(&step.produces),
            consumes: clone_strings(&step.consumes),
            options: duplicate_options(&step.options),
        },
    )
}

fn child_path_text(prefix: &str, i: usize, dotted: bool) -> (r: String)
    ensures
        r@ == child_path(prefix@, i as int, dotted),
{
    let d = u64_to_decimal(i as u64);
    if !dotted && prefix.is_empty() {
        d
    } else {
        concat(concat(prefix, ".").as_str(), d.as_str())
    }
}

/// The leaves `leaves` gained past `start`, numbered from `start`, resolve `ls` at `paths`.
pub open spec fn appended(
    leaves: Seq<ResolvedStep>,
    start: int,
    ls: Seq<Step>,
    paths: Seq<Seq<char>>,
    job: Job,
    wd: Seq<char>,
) -> bool {
    &&& leaves.len() == start + ls.len()
    &&& forall|k: int|
        0 <= k < ls.len() ==> #[trigger] resolves_to(
            leaves[start + k],
            ls[k],
            start + k,
            paths[k],
            job,
            wd,
        )
}

fn compile_node(
    node: &WorkflowNode,
    path: String,
    leaves: &mut Vec<ResolvedStep>,
    job: &Job,
    wd: &str,
) -> (r: Result<WorkflowPlan, JobError>)
    ensures
        match first_of(node_leaves(*node), preview_check(*job, wd@)) {
            Some(f) => r is Err && fault_of(r->Err_0) == f,
            None => {
                &&& r is Ok
                &&& plan_view(r->Ok_0) == node_plan(*node, old(leaves)@.len() as int)
                &&& final(leaves)@.subrange(0, old(leaves)@.len() as int) == old(leaves)@
                &&& appended(
                    final(leaves)@,
                    old(leaves)@.len() as int,
                    node_leaves(*node),
                    node_paths(*node, path@),
                    *job,
                    wd@,
                )
            },
        },
    decreases node, 1nat,
{
    match node {
        WorkflowNode::Step(step) => {
            let idx = leaves.len();
            let ghost c = preview_check(*job, wd@);
            proof {
                assert(seq![*step].drop_last() =~= Seq::<Step>::empty());
                assert(node_leaves(*node) == seq![*step]);
                assert(first_of(Seq::<Step>::empty(), c) is None);
                assert(seq![*step].last() == *step);
                assert(first_of(seq![*step], c) == c(*step));
            }
            let resolved = match resolve_step(step, idx, path, job, wd) {
                Ok(r) => r,
                Err(e) => return Err(e),
            };
            leaves.push(resolved);
            assert(leaves@.subrange(0, idx as int) =~= old(leaves)@);
            assert(leaves@[idx + 0] == resolved);
            Ok(WorkflowPlan::Leaf(idx))
        },
        WorkflowNode::Sequence { sequence, .. } => {
            assert(decreases_to!(*node => node->sequence));
            let kids = compile_children(sequence, path.as_str(), false, leaves, job, wd)?;
            Ok(WorkflowPlan::Sequence(kids))
        },
        WorkflowNode::Parallel { parallel, .. } => {
            assert(decreases_to!(*node => node->parallel));
            let kids = compile_children(parallel, path.as_str(), true, leaves, job, wd)?;
            Ok(WorkflowPlan::Parallel(kids))
        },
    }
}

fn compile_children(
    nodes: &Vec<WorkflowNode>,
    prefix: &str,
    dotted: bool,
    leaves: &mut Vec<ResolvedStep>,
    job: &Job,
    wd: &str,
) -> (r: Result<Vec<WorkflowPlan>, JobError>)
    ensures
        match first_of(nodes_leaves(nodes@), preview_check(*job, wd@)) {
            Some(f) => r is Err && fault_of(r->Err_0) == f,
            None => {
                &&& r is Ok
                &&& plans_view(r->Ok_0@) == list_plan(nodes@, old(leaves)@.len() as int)
                &&& final(leaves)@.subrange(0, old(leaves)@.len() as int) == old(leaves)@
                &&& appended(
                    final(leaves)@,
                    old(leaves)@.len() as int,
                    nodes_leaves(nodes@),
                    list_paths(nodes@, prefix@, dotted),
                    *job,
                    wd@,
                )
            },
        },
    decreases nodes, 0nat,
{
    let ghost start = leaves@.len() as int;
    let ghost c = preview_check(*job, wd@);
    let mut kids: Vec<WorkflowPlan> = Vec::new();
    let mut i: usize = 0;
    assert(nodes@.subrange(0, 0) =~= Seq::<WorkflowNode>::empty());
    assert(leaves@.subrange(0, start) =~= leaves@);
    while i < nodes.len()
        invariant
            c == preview_check(*job, wd@),
            start == old(leaves)@.len(),
            i <= nodes.len(),
            first_of(nodes_leaves(nodes@.subrange(0, i as int)), c) is None,
            plans_view(kids@) == list_plan(nodes@.subrange(0, i as int), start),
            leaves@.subrange(0, start) == old(leaves)@,
            appended(
                leaves@,
                start,
                nodes_leaves(nodes@.subrange(0, i as int)),
                list_paths(nodes@.subrange(0, i as int), prefix@, dotted),
                *job,
                wd@,
            ),
        decreases nodes.len() - i,
    {
        let ghost before = leaves@;
        let ghost sub = nodes@.subrange(0, i as int);
        let ghost next = nodes@.subrange(0, i + 1);
        let ghost ls0 = nodes_leaves(sub);
        let ghost node_i = nodes@[i as int];
        proof {
            assert(next.subrange(0, i as int) =~= sub);
            assert(next[i as int] == node_i);
            assert(nodes_leaves(next) == ls0 + node_leaves(node_i));
            lemma_first_of_concat(ls0, node_leaves(node_i), c);
            lemma_list_paths_len(sub, prefix@, dotted);
        }
        assert(decreases_to!(*nodes => nodes@));
        assert(decreases_to!(nodes@ => nodes@[i as int]));
        let child = child_path_text(prefix, i, dotted);
        let res = compile_node(&nodes[i], child, leaves, job, wd);
        let plan = match res {
            Ok(p) => p,
            Err(e) => {
                proof {
                    lemma_nodes_first_prefix(nodes@, c, i as int + 1);
                }
                return Err(e);
            },
        };
        let ghost kids0 = kids@;
        kids.push(plan);
        proof {
            assert(kids@.subrange(0, kids@.len() - 1) =~= kids0);
            assert(list_plan(next, start) == list_plan(sub, start).push(
                node_plan(node_i, start + ls0.len()),
            ));
            let ps0 = list_paths(sub, prefix@, dotted);
            let psn = node_paths(node_i, child_path(prefix@, i as int, dotted));
            assert(list_paths(next, prefix@, dotted) == ps0 + psn);
            lemma_node_paths_len(node_i, child_path(prefix@, i as int, dotted));
            assert(leaves@.subrange(0, start) =~= old(leaves)@) by {
                assert(leaves@.subrange(0, before.len() as int) == before);
                assert forall|j: int| 0 <= j < start implies leaves@[j] == before[j] by {
                    assert(leaves@.subrange(0, before.len() as int)[j] == leaves@[j]);
                }
                assert forall|j: int| 0 <= j < start implies leaves@.subrange(0, start)[j]
                    == old(leaves)@[j] by {
                    assert(before.subrange(0, start)[j] == before[j]);
                }
            }
            let lsn = nodes_leaves(next);
            let psx = ps0 + psn;
            assert forall|k: int| 0 <= k < lsn.len() implies #[trigger] resolves_to(
                leaves@[start + k],
                lsn[k],
                start + k,
                psx[k],
                *job,
                wd@,
            ) by {
                if k < ls0.len() {
                    assert(lsn[k] == ls0[k]);
                    assert(psx[k] == ps0[k]);
                    assert(resolves_to(before[start + k], ls0[k], start + k, ps0[k], *job, wd@));
                    assert(leaves@.subrange(0, before.len() as int)[start + k] == leaves@[start
                        + k]);
                } else {
                    let k2 = k - ls0.len();
                    assert(lsn[k] == node_leaves(node_i)[k2]);
                    assert(psx[k] == psn[k2]);
                    assert(resolves_to(
                        leaves@[before.len() + k2],
                        node_leaves(node_i)[k2],
                        before.len() + k2,
                        psn[k2],
                        *job,
                        wd@,
                    ));
                }
            }
        }
        i = i + 1;
    }
    assert(nodes@.subrange(0, nodes.len() as int) =~= nodes@);
    Ok(kids)
}

/// Compiles the workflow into a plan over leaf numbers and the resolved leaves.
fn compile_plan(job: &Job, wd: &str) -> (r: Result<(WorkflowPlan, Vec<ResolvedStep>), JobError>)
    ensures
        match first_of(job_leaves(*job), preview_check(*job, wd@)) {
            Some(f) => r is Err && fault_of(r->Err_0) == f,
            None => {
                &&& r is Ok
                &&& plan_view(r->Ok_0.0) == PlanView::Sequence(list_plan(job.steps@, 0))
                &&& appended(
                    r->Ok_0.1@,
                    0,
                    job_leaves(*job),
                    list_paths(job.steps@, Seq::<char>::empty(), false),
                    *job,
                    wd@,
                )
            },
        },
{
    let mut leaves: Vec<ResolvedStep> = Vec::new();
    let root: &str = "";
    proof {
        reveal_strlit("");
    }
    assert(root@ == Seq::<char>::empty());
    match compile_children(&job.steps, root, false, &mut leaves, job, wd) {
        Ok(kids) => {
            let plan = WorkflowPlan::Sequence(kids);
            assert(plan_view(plan) == PlanView::Sequence(plans_view(kids@)));
            Ok((plan, leaves))
        },
        Err(e) => Err(e),
    }
}

/// Why resolution refuses `job`, in the order the checks run: the working directory,
/// an empty workflow, the engine gate, the capability gate, artifact references, input
/// previews, and a cycle among the leaves.
pub open spec fn resolve_fault(job: Job, cwd: Result<Seq<char>, Seq<char>>) -> Option<Fault> {
    let ls = job_leaves(job);
    match working_dir_of(job, cwd) {
        Err(f) => Some(f),
        Ok(wd) => if ls.len() == 0 {
            Some(Fault::Usage("job has no capability steps"@))
        } else if first_fault(ls, Gate::Engine) is Some {
            first_fault(ls, Gate::Engine)
        } else if first_fault(ls, Gate::Capability) is Some {
            first_fault(ls, Gate::Capability)
        } else if refs_fault(ls) is Some {
            refs_fault(ls)
        } else if first_of(ls, preview_check(job, wd)) is Some {
            first_of(ls, preview_check(job, wd))
        } else if !exists|o: Seq<int>| is_topo_order(ls, o) {
            Some(Fault::Usage("job DAG has a cycle"@))
        } else {
            None
        },
    }
}

/// What a resolved Job holds: the Job itself, its working directory, its leaves resolved
/// in depth-first order with their paths, the plan over leaf numbers, and the leaves in
/// the order Kahn's algorithm lists them.
pub open spec fn resolved_as(rj: ResolvedJob, job: Job, wd: Seq<char>) -> bool {
    &&& rj.job == job
    &&& rj.working_dir@ == wd
    &&& plan_view(rj.plan) == PlanView::Sequence(list_plan(job.steps@, 0))
    &&& appended(
        rj.steps@,
        0,
        job_leaves(job),
        list_paths(job.steps@, Seq::<char>::empty(), false),
        job,
        wd,
    )
    &&& is_kahn_order(job_leaves(job), ints(rj.order@))
}

/// Resolves a Job against the current directory `cwd` (or the failure to read it).
pub fn resolve_job(job: Job, cwd: &Result<String, String>) -> (r: Result<ResolvedJob, JobError>)
    ensures
        match resolve_fault(job, cwd_view(cwd)) {
            Some(f) => r is Err && fault_of(r->Err_0) == f,
            None => r is Ok && resolved_as(r->Ok_0, job, working_dir_of(job, cwd_view(cwd))->Ok_0),
        },
{
    let working_dir = job_working_dir(&job, cwd)?;
    if job.leaf_count() == 0 {
        return Err(JobError::Usage(owned("job has no capability steps")));
    }
    gate_engines(&job)?;
    gate_capabilities(&job)?;
    validate_artifact_refs(&job)?;
    let (plan, steps) = compile_plan(&job, working_dir.as_str())?;
    let order = schedule_leaf_order(&job)?;
    Ok(ResolvedJob { job, working_dir, steps, plan, order })
}

/// `raw` with every trailing `/*` removed.
pub open spec fn trim_wild(raw: Seq<char>) -> Seq<char>
    decreases raw.len(),
{
    if raw.len() >= 2 && has_suffix(raw, "/*"@) {
        trim_wild(raw.subrange(0, raw.len() - 2))
    } else {
        raw
    }
}

/// Index of the first key (in key order) that starts with `prefix`.
pub open spec fn first_with_prefix(keys: Seq<Seq<char>>, prefix: Seq<char>) -> Option<int>
    decreases keys.len(),
{
    if keys.len() == 0 {
        None
    } else {
        match first_with_prefix(keys.drop_last(), prefix) {
            Some(i) => Some(i),
            None => if has_prefix(keys.last(), prefix) {
                Some(keys.len() - 1)
            } else {
                None
            },
        }
    }
}

pub(crate) fn trim_wildcard(raw: &str) -> (r: String)
    ensures
        r@ == trim_wild(raw@),
{
    let mut v = chars_of(raw);
    let ghost orig = raw@;
    while v.len() >= 2 && v[v.len() - 2] == '/' && v[v.len() - 1] == '*'
        invariant
            trim_wild(orig) == trim_wild(v@),
        decreases v.len(),
    {
        proof {
            reveal_strlit("/*");
            assert(has_suffix(v@, "/*"@)) by {
                assert(v@.subrange(v@.len() - 2, v@.len() as int) =~= "/*"@);
            }
        }
        let n = v.len();
        v = slice_chars(&v, 0, n - 2);
    }
    proof {
        reveal_strlit("/*");
        if v@.len() >= 2 && has_suffix(v@, "/*"@) {
            assert(v@.subrange(v@.len() - 2, v@.len() as int)[0] == '/');
            assert(v@.subrange(v@.len() - 2, v@.len() as int)[1] == '*');
        }
    }
    string_of(&v)
}

/// The path of the first artifact (in name order) whose name starts with `prefix`.
pub(crate) fn first_prefixed(arts: &NameMap<String>, prefix: &str) -> (r: Option<String>)
    ensures
        match first_with_prefix(arts.key_list(), prefix@) {
            Some(i) => r is Some && arts@.contains_key(arts.key_list()[i]) && r->0@
                == arts@[arts.key_list()[i]]@,
            None => r is None,
        },
{
    let n = arts.len();
    let mut i: usize = 0;
    assert(arts.key_list().subrange(0, 0) =~= Seq::<Seq<char>>::empty());
    while i < n
        invariant
            n == arts.key_list().len(),
            arts.well_formed(),
            i <= n,
            first_with_prefix(arts.key_list().subrange(0, i as int), prefix@) is None,
        decreases n - i,
    {
        let k = arts.key_at(i);
        proof {
            let t = arts.key_list().subrange(0, i + 1);
            assert(t.drop_last() =~= arts.key_list().subrange(0, i as int));
        }
        if starts_with(k.as_str(), prefix) {
            proof {
                lemma_first_with_prefix_extend(arts.key_list(), prefix@, i as int + 1);
            }
            return Some(arts.value_at(i).clone());
        }
        i = i + 1;
    }
    assert(arts.key_list().subrange(0, n as int) =~= arts.key_list());
    None
}

proof fn lemma_first_with_prefix_extend(keys: Seq<Seq<char>>, prefix: Seq<char>, n: int)
    requires
        0 <= n <= keys.len(),
        first_with_prefix(keys.subrange(0, n), prefix) is Some,
    ensures
        first_with_prefix(keys, prefix) == first_with_prefix(keys.subrange(0, n), prefix),
    decreases keys.len() - n,
{
    if n < keys.len() {
        assert(keys.subrange(0, n + 1).drop_last() =~= keys.subrange(0, n));
        lemma_first_with_prefix_extend(keys, prefix, n + 1);
    } else {
        assert(keys.subrange(0, n) =~= keys);
    }
}

/// The input path a leaf runs on: its first reference (a path resolved against `wd`, an
/// artifact, or the first artifact matching a `prefix/*` wildcard), else the Job's audio
/// or documents, else the previous leaf's output.
pub open spec fn exec_input_of(
    s: Step,
    job: Job,
    wd: Seq<char>,
    names: Seq<Seq<char>>,
    arts: Map<Seq<char>, Seq<char>>,
    prev: Option<Seq<char>>,
) -> Result<Seq<char>, Fault> {
    let refs = step_input_refs(s);
    if refs.len() > 0 {
        let raw = refs[0];
        if ref_is_path(raw) {
            Ok(resolve_path(wd, raw))
        } else if has_suffix(raw, "/*"@) {
            match first_with_prefix(names, trim_wild(raw)) {
                Some(i) => Ok(arts[names[i]]),
                None => Err(Fault::Usage("no artifact matches wildcard: "@ + raw)),
            }
        } else if arts.contains_key(raw) {
            Ok(arts[raw])
        } else {
            Err(Fault::Usage("artifact not produced yet: "@ + raw))
        }
    } else {
        match s.capability {
            Capability::Transcribe | Capability::Diarize | Capability::Preprocess => match job.input.audio {
                Some(a) => Ok(resolve_path(wd, a@)),
                None => Err(Fault::Usage("missing input.audio"@)),
            },
            Capability::PrepareContext => match job.context.docs {
                Some(d) => Ok(resolve_path(wd, d@)),
                None => Err(Fault::Usage("missing context.docs"@)),
            },
            _ => match prev {
                Some(p) => Ok(p),
                None => Err(
                    Fault::Usage(
                        capability_name(s.capability) + " needs inputs or a previous step output"@,
                    ),
                ),
            },
        }
    }
}

/// A transcribe, diarize or preprocess leaf without input references runs on the Job's
/// `input.audio` resolved against the working directory, or fails for want of it; it never
/// runs on the previous leaf's output, whatever that is.
pub proof fn law_media_leaf_reads_job_audio(
    s: Step,
    job: Job,
    wd: Seq<char>,
    names: Seq<Seq<char>>,
    arts: Map<Seq<char>, Seq<char>>,
    prev: Option<Seq<char>>,
)
    requires
        step_input_refs(s).len() == 0,
        s.capability == Capability::Transcribe || s.capability == Capability::Diarize
            || s.capability == Capability::Preprocess,
    ensures
        exec_input_of(s, job, wd, names, arts, prev) == (match job.input.audio {
            Some(a) => Ok::<Seq<char>, Fault>(resolve_path(wd, a@)),
            None => Err(Fault::Usage("missing input.audio"@)),
        }),
        exec_input_of(s, job, wd, names, arts, prev) == exec_input_of(s, job, wd, names, arts, None),
{
}

pub open spec fn path_views(m: Map<Seq<char>, String>) -> Map<Seq<char>, Seq<char>> {
    m.map_values(|p: String| p@)
}

/// The input path of `step` at run time, given the artifacts published so far and the
/// previous leaf's output.
pub fn exec_input(
    step: &Step,
    job: &Job,
    working_dir: &str,
    artifacts: &NameMap<String>,
    prev: Option<&String>,
) -> (r: Result<String, JobError>)
    ensures
        match exec_input_of(*step, *job, working_dir@, artifacts.key_list(), path_views(artifacts@), (match prev {
            Some(p) => Some(p@),
            None => None,
        })) {
            Ok(p) => r is Ok && r->Ok_0@ == p,
            Err(f) => r is Err && fault_of(r->Err_0) == f,
        },
{
    let refs = step.input_refs();
    if refs.len() > 0 {
        let raw: &str = refs[0];
        assert(raw@ == step_input_refs(*step)[0]);
        return match ArtifactRef::parse(raw) {
            ArtifactRef::Id(id) => {
                if ends_with(id.as_str(), "/*") {
                    let prefix = trim_wildcard(id.as_str());
                    match first_prefixed(artifacts, prefix.as_str()) {
                        Some(p) => Ok(p),
                        None => Err(
                            JobError::Usage(concat("no artifact matches wildcard: ", id.as_str())),
                        ),
                    }
                } else {
                    match artifacts.get(id.as_str()) {
                        Some(p) => Ok(p.clone()),
                        None => Err(
                            JobError::Usage(concat("artifact not produced yet: ", id.as_str())),
                        ),
                    }
                }
            },
            ArtifactRef::Path(p) => Ok(resolve_against(working_dir, p.as_str())),
        };
    }
    match step.capability {
        Capability::Transcribe | Capability::Diarize | Capability::Preprocess => {
            match &job.input.audio {
                Some(a) => Ok(resolve_against(working_dir, a.as_str())),
                None => Err(JobError::Usage(owned("missing input.audio"))),
            }
        },
        Capability::PrepareContext => match &job.context.docs {
            Some(d) => Ok(resolve_against(working_dir, d.as_str())),
            None => Err(JobError::Usage(owned("missing context.docs"))),
        },
        _ => match prev {
            Some(p) => Ok(p.clone()),
            None => Err(
                JobError::Usage(
                    concat(step.capability.as_str(), " needs inputs or a previous step output"),
                ),
            ),
        },
    }
}

/// The leaf at depth-first position `leaf_idx`.
pub fn leaf_step_at(job: &Job, leaf_idx: usize) -> (r: Option<&Step>)
    ensures
        leaf_idx < job_leaves(*job).len() ==> r is Some && *r->0 == job_leaves(*job)[leaf_idx as int],
        leaf_idx >= job_leaves(*job).len() ==> r is None,
{
    let leaves = job.leaf_steps();
    if leaf_idx < leaves.len() {
        Some(leaves[leaf_idx])
    } else {
        None
    }
}

/// The document formats a Job file can be written in.
#[derive(Debug, Clone, Copy, PartialEq, Eq)]
pub enum JobFormat {
    Json,
    Yaml,
}

/// The format of a Job file by its extension (`json`; `yaml` or `yml`; without case).
pub open spec fn job_format_of(path: Seq<char>) -> Result<JobFormat, Seq<char>> {
    let ext = crate::text::lower_ascii_seq(match crate::paths::extension_of(path) {
        Some(e) => e,
        None => Seq::<char>::empty(),
    });
    if ext == "json"@ {
        Ok(JobFormat::Json)
    } else if ext == "yaml"@ || ext == "yml"@ {
        Ok(JobFormat::Yaml)
    } else {
        Err("unsupported job file extension: "@ + ext + " (use .yaml / .yml / .json)"@)
    }
}

/// How a Job file is read, or the usage error for an unknown extension.
pub fn job_format(path: &str) -> (r: Result<JobFormat, JobError>)
    ensures
        match job_format_of(path@) {
            Ok(f) => r == Ok::<JobFormat, JobError>(f),
            Err(m) => r matches Err(JobError::Usage(e)) && e@ == m,
        },
{
    let e = match crate::paths::extension(path) {
        Some(e) => e,
        None => String::new(),
    };
    let ext = crate::text::lowercase_ascii(e.as_str());
    if str_eq(ext.as_str(), "json") {
        Ok(JobFormat::Json)
    } else if str_eq(ext.as_str(), "yaml") || str_eq(ext.as_str(), "yml") {
        Ok(JobFormat::Yaml)
    } else {
        Err(
            JobError::Usage(
                concat(
                    concat("unsupported job file extension: ", ext.as_str()).as_str(),
                    " (use .yaml / .yml / .json)",
                ),
            ),
        )
    }
}

/// A loaded Job is accepted when it is version 1 and has at least one step.
pub open spec fn loaded_job_fault(job: Job) -> Option<Seq<char>> {
    if job.version != 1 {
        Some("unsupported job version: "@ + decimal(job.version as nat) + " (expected 1)"@)
    } else if job_leaves(job).len() == 0 {
        Some("job has no steps"@)
    } else {
        None
    }
}

/// Checks a Job read from a file: its version and that it has steps.
pub fn check_loaded_job(job: Job) -> (r: Result<Job, JobError>)
    ensures
        match loaded_job_fault(job) {
            None => r == Ok::<Job, JobError>(job),
            Some(m) => r matches Err(JobError::Usage(e)) && e@ == m,
        },
{
    if job.version != 1 {
        let v = u64_to_decimal(job.version as u64);
        return Err(
            JobError::Usage(
                concat(
                    concat("unsupported job version: ", v.as_str()).as_str(),
                    " (expected 1)",
                ),
            ),
        );
    }
    if job.leaf_count() == 0 {
        return Err(JobError::Usage(owned("job has no steps")));
    }
    Ok(job)
}

} // verus!
