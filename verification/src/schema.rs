//! Job document types: the workflow tree (`sequence` / `parallel`) over capability steps.

use vstd::prelude::*;

use crate::collections::NameMap;
use crate::paths::{extension, extension_of};
use crate::text::{chars_of, clone_opt, clone_strings, contains_char, has_char, lower_ascii_seq,
    lowercase_ascii, str_eq};

verus! {

/// What a step does (`use:` in a Job document).
#[derive(Debug, Clone, Copy, PartialEq, Eq, Hash, Structural)]
pub enum Capability {
    Transcribe,
    PrepareContext,
    FixCasing,
    FixAsr,
    FixDisfluency,
    FixTerms,
    FixLayout,
    FixOverlap,
    Diarize,
    MeetingMerge,
    Preprocess,
    Postprocess,
    ImportUrl,
}

/// The kebab-case name of a capability.
pub open spec fn capability_name(c: Capability) -> Seq<char> {
    match c {
        Capability::Transcribe => "transcribe"@,
        Capability::PrepareContext => "prepare-context"@,
        Capability::FixCasing => "fix-casing"@,
        Capability::FixAsr => "fix-asr"@,
        Capability::FixDisfluency => "fix-disfluency"@,
        Capability::FixTerms => "fix-terms"@,
        Capability::FixLayout => "fix-layout"@,
        Capability::FixOverlap => "fix-overlap"@,
        Capability::Diarize => "diarize"@,
        Capability::MeetingMerge => "meeting-merge"@,
        Capability::Preprocess => "preprocess"@,
        Capability::Postprocess => "postprocess"@,
        Capability::ImportUrl => "import-url"@,
    }
}

/// The artifact kind a capability's outputs are registered under.
pub open spec fn capability_kind(c: Capability) -> Seq<char> {
    match c {
        Capability::Transcribe | Capability::FixCasing | Capability::FixAsr
        | Capability::FixDisfluency | Capability::FixTerms | Capability::FixLayout
        | Capability::FixOverlap => "transcript"@,
        Capability::PrepareContext => "assets"@,
        Capability::Diarize => "timeline"@,
        Capability::MeetingMerge => "meeting"@,
        Capability::Preprocess => "media"@,
        Capability::Postprocess => "derived"@,
        Capability::ImportUrl => "audio"@,
    }
}

impl Capability {
    /// The kebab-case name.
    pub fn as_str(self) -> (r: &'static str)
        ensures
            r@ == capability_name(self),
    {
        match self {
            Capability::Transcribe => "transcribe",
            Capability::PrepareContext => "prepare-context",
            Capability::FixCasing => "fix-casing",
            Capability::FixAsr => "fix-asr",
            Capability::FixDisfluency => "fix-disfluency",
            Capability::FixTerms => "fix-terms",
            Capability::FixLayout => "fix-layout",
            Capability::FixOverlap => "fix-overlap",
            Capability::Diarize => "diarize",
            Capability::MeetingMerge => "meeting-merge",
            Capability::Preprocess => "preprocess",
            Capability::Postprocess => "postprocess",
            Capability::ImportUrl => "import-url",
        }
    }

    /// No capability is reserved any more.
    pub fn is_reserved(self) -> (b: bool)
        ensures
            !b,
    {
        false
    }

    /// Default artifact kind for registry typing.
    pub fn default_artifact_kind(self) -> (r: &'static str)
        ensures
            r@ == capability_kind(self),
    {
        match self {
            Capability::Transcribe | Capability::FixCasing | Capability::FixAsr
            | Capability::FixDisfluency | Capability::FixTerms | Capability::FixLayout
            | Capability::FixOverlap => "transcript",
            Capability::PrepareContext => "assets",
            Capability::Diarize => "timeline",
            Capability::MeetingMerge => "meeting",
            Capability::Preprocess => "media",
            Capability::Postprocess => "derived",
            Capability::ImportUrl => "audio",
        }
    }
}

/// Speech-recognition engine of a `transcribe` step.
#[derive(Debug, Clone, Copy, PartialEq, Eq, Structural)]
pub enum TranscribeEngine {
    Gigaam,
    Whisper,
}

pub open spec fn engine_name(e: TranscribeEngine) -> Seq<char> {
    match e {
        TranscribeEngine::Gigaam => "gigaam"@,
        TranscribeEngine::Whisper => "whisper"@,
    }
}

pub open spec fn parse_engine(s: Seq<char>) -> Option<TranscribeEngine> {
    if s == "gigaam"@ {
        Some(TranscribeEngine::Gigaam)
    } else if s == "whisper"@ {
        Some(TranscribeEngine::Whisper)
    } else {
        None
    }
}

impl TranscribeEngine {
    /// `gigaam` / `whisper`; anything else is not an engine.
    pub fn parse(s: &str) -> (r: Option<Self>)
        ensures
            r == parse_engine(s@),
    {
        if str_eq(s, "gigaam") {
            Some(TranscribeEngine::Gigaam)
        } else if str_eq(s, "whisper") {
            Some(TranscribeEngine::Whisper)
        } else {
            None
        }
    }

    /// The engine's name.
    pub fn as_str(self) -> (r: &'static str)
        ensures
            r@ == engine_name(self),
    {
        match self {
            TranscribeEngine::Gigaam => "gigaam",
            TranscribeEngine::Whisper => "whisper",
        }
    }
}

/// An option value of a step. A number is held as its decimal text.
#[derive(Debug, PartialEq)]
pub enum ArgValue {
    Bool(bool),
    Number(String),
    String(String),
    Strings(Vec<String>),
    /// Heterogeneous list (e.g. preprocess `filters:`).
    List(Vec<ArgValue>),
    Mapping(NameMap<ArgValue>),
}

/// The mathematical content of an [`ArgValue`]; a map is its entries in key order.
pub enum ArgView {
    Bool(bool),
    Number(Seq<char>),
    Text(Seq<char>),
    Texts(Seq<Seq<char>>),
    List(Seq<ArgView>),
    Mapping(Seq<(Seq<char>, ArgView)>),
}

pub closed spec fn arg_view(a: ArgValue) -> ArgView
    decreases a,
{
    match a {
        ArgValue::Bool(b) => ArgView::Bool(b),
        ArgValue::Number(n) => ArgView::Number(n@),
        ArgValue::String(s) => ArgView::Text(s@),
        ArgValue::Strings(v) => ArgView::Texts(v@.map_values(|s: String| s@)),
        ArgValue::List(v) => ArgView::List(list_view(v@)),
        ArgValue::Mapping(m) => ArgView::Mapping(entries_view(m.keys@, m.vals@)),
    }
}

pub closed spec fn list_view(vs: Seq<ArgValue>) -> Seq<ArgView>
    decreases vs,
{
    if vs.len() == 0 {
        Seq::<ArgView>::empty()
    } else {
        list_view(vs.subrange(0, vs.len() - 1)).push(arg_view(vs[vs.len() - 1]))
    }
}

pub closed spec fn entries_view(ks: Seq<String>, vs: Seq<ArgValue>) -> Seq<(Seq<char>, ArgView)>
    decreases vs,
{
    if vs.len() == 0 || ks.len() != vs.len() {
        Seq::<(Seq<char>, ArgView)>::empty()
    } else {
        entries_view(ks.subrange(0, ks.len() - 1), vs.subrange(0, vs.len() - 1)).push(
            (ks[ks.len() - 1]@, arg_view(vs[vs.len() - 1])),
        )
    }
}

/// Scalar text of a value: a string, a number's text, or `true` / `false`.
pub open spec fn arg_text(a: ArgView) -> Option<Seq<char>> {
    match a {
        ArgView::Text(s) => Some(s),
        ArgView::Number(n) => Some(n),
        ArgView::Bool(b) => Some(if b { "true"@ } else { "false"@ }),
        _ => None,
    }
}

/// Text of option `key` of `opts`, when it has a scalar value.
pub open spec fn option_text(opts: NameMap<ArgValue>, key: Seq<char>) -> Option<Seq<char>> {
    if opts@.contains_key(key) {
        arg_text(arg_view(opts@[key]))
    } else {
        None
    }
}

/// Boolean option `key` of `opts`, when it is a boolean.
pub open spec fn option_bool(opts: NameMap<ArgValue>, key: Seq<char>) -> Option<bool> {
    if opts@.contains_key(key) {
        match opts@[key] {
            ArgValue::Bool(b) => Some(b),
            _ => None,
        }
    } else {
        None
    }
}

impl ArgValue {
    /// The scalar text of this value.
    pub fn as_string(&self) -> (r: Option<String>)
        ensures
            r.is_some() == arg_text(arg_view(*self)).is_some(),
            r.is_some() ==> r->0@ == arg_text(arg_view(*self))->0,
    {
        match self {
            ArgValue::String(s) => Some(s.clone()),
            ArgValue::Number(n) => Some(n.clone()),
            ArgValue::Bool(b) => {
                if *b {
                    Some(crate::text::owned("true"))
                } else {
                    Some(crate::text::owned("false"))
                }
            },
            _ => None,
        }
    }

    /// The boolean, for a boolean value.
    pub fn as_bool(&self) -> (r: Option<bool>)
        ensures
            r == (match *self {
                ArgValue::Bool(b) => Some(b),
                _ => None,
            }),
    {
        match self {
            ArgValue::Bool(b) => Some(*b),
            _ => None,
        }
    }

    /// The entries, for a map value.
    pub fn as_map(&self) -> (r: Option<&NameMap<ArgValue>>)
        ensures
            r.is_some() == (*self is Mapping),
            r.is_some() ==> *r->0 == self->Mapping_0,
    {
        match self {
            ArgValue::Mapping(m) => Some(m),
            _ => None,
        }
    }

    /// The items, for a list value.
    pub fn as_list(&self) -> (r: Option<&Vec<ArgValue>>)
        ensures
            r.is_some() == (*self is List),
            r.is_some() ==> *r->0 == self->List_0,
    {
        match self {
            ArgValue::List(v) => Some(v),
            _ => None,
        }
    }
}

impl ArgValue {
    /// An independent copy with the same content.
    pub fn duplicate(&self) -> (r: Self)
        ensures
            arg_view(r) == arg_view(*self),
        decreases self,
    {
        match self {
            ArgValue::Bool(b) => ArgValue::Bool(*b),
            ArgValue::Number(n) => ArgValue::Number(n.clone()),
            ArgValue::String(s) => ArgValue::String(s.clone()),
            ArgValue::Strings(v) => {
                let c = clone_strings(v);
                assert(c@.map_values(|s: String| s@) =~= v@.map_values(|s: String| s@));
                ArgValue::Strings(c)
            },
            ArgValue::List(v) => {
                let mut out: Vec<ArgValue> = Vec::new();
                let mut i: usize = 0;
                while i < v.len()
                    invariant
                        *self is List,
                        self->List_0 == *v,
                        i <= v.len(),
                        out@.len() == i,
                        list_view(out@) == list_view(v@.subrange(0, i as int)),
                    decreases v.len() - i,
                {
                    assert(decreases_to!(*self => self->List_0));
                    assert(decreases_to!(*v => v@));
                    assert(decreases_to!(v@ => v@[i as int]));
                    let d = v[i].duplicate();
                    let ghost before = out@;
                    out.push(d);
                    proof {
                        assert(out@.subrange(0, out@.len() - 1) =~= before);
                        assert(v@.subrange(0, i + 1).subrange(0, i as int) =~= v@.subrange(0, i as int));
                        assert(v@.subrange(0, i + 1)[i as int] == v@[i as int]);
                        reveal_with_fuel(list_view, 2);
                    }
                    i = i + 1;
                }
                assert(v@.subrange(0, v.len() as int) =~= v@);
                ArgValue::List(out)
            },
            ArgValue::Mapping(m) => {
                assert(decreases_to!(*self => self->Mapping_0));
                ArgValue::Mapping(duplicate_options(m))
            },
        }
    }
}

/// The entries of an option map, in key order, by content.
pub closed spec fn options_view(m: NameMap<ArgValue>) -> Seq<(Seq<char>, ArgView)> {
    entries_view(m.keys@, m.vals@)
}

/// An option map by content: each value by its [`ArgView`].
pub open spec fn content(m: NameMap<ArgValue>) -> Map<Seq<char>, ArgView> {
    m@.map_values(|v: ArgValue| arg_view(v))
}

proof fn lemma_entries_view(ks: Seq<String>, vs: Seq<ArgValue>)
    requires
        ks.len() == vs.len(),
    ensures
        entries_view(ks, vs).len() == ks.len(),
        forall|i: int|
            0 <= i < ks.len() ==> #[trigger] entries_view(ks, vs)[i] == (ks[i]@, arg_view(vs[i])),
    decreases vs.len(),
{
    if vs.len() > 0 {
        let k0 = ks.subrange(0, ks.len() - 1);
        let v0 = vs.subrange(0, vs.len() - 1);
        lemma_entries_view(k0, v0);
        assert forall|i: int| 0 <= i < ks.len() implies #[trigger] entries_view(ks, vs)[i] == (
        ks[i]@, arg_view(vs[i])) by {
            if i < ks.len() - 1 {
                assert(entries_view(k0, v0)[i] == (k0[i]@, arg_view(v0[i])));
            }
        }
    }
}

/// The entries of an option map are its keys with their values' views, in key order.
pub proof fn lemma_options_view(m: NameMap<ArgValue>)
    requires
        m.well_formed(),
    ensures
        options_view(m).len() == m.key_list().len(),
        forall|i: int|
            0 <= i < m.key_list().len() ==> #[trigger] options_view(m)[i] == (
                m.key_list()[i],
                arg_view(m.value_list()[i]),
            ),
{
    m.lemma_parts();
    lemma_entries_view(m.keys@, m.vals@);
}

/// A map value's view lists its entries.
pub proof fn lemma_arg_view_mapping(m: NameMap<ArgValue>)
    ensures
        arg_view(ArgValue::Mapping(m)) == ArgView::Mapping(options_view(m)),
{
}

/// A string value's view is its text.
pub proof fn lemma_arg_view_text(t: String)
    ensures
        arg_view(ArgValue::String(t)) == ArgView::Text(t@),
{
}

/// A value's view is a map view exactly for a map value.
pub proof fn lemma_arg_view_kind(v: ArgValue)
    ensures
        (arg_view(v) is Mapping) == (v is Mapping),
{
}

/// Option maps with the same keys and entries have the same content.
pub proof fn lemma_same_content(a: NameMap<ArgValue>, b: NameMap<ArgValue>)
    requires
        a.well_formed(),
        b.well_formed(),
        a.key_list() == b.key_list(),
        options_view(a) == options_view(b),
    ensures
        content(a) == content(b),
{
    lemma_options_view(a);
    lemma_options_view(b);
    a.lemma_view();
    b.lemma_view();
    assert forall|k: Seq<char>| #[trigger] content(a).contains_key(k) implies content(b).contains_key(k)
        && content(a)[k] == content(b)[k] by {
        let i = a.key_list().index_of(k);
        assert(a.key_list()[i] == k);
        assert(options_view(a)[i] == options_view(b)[i]);
    }
    assert(content(a) =~= content(b));
}

/// An independent copy of an option map with the same keys and content.
pub fn duplicate_options(m: &NameMap<ArgValue>) -> (r: NameMap<ArgValue>)
    ensures
        r.key_list() == m.key_list(),
        options_view(r) == options_view(*m),
        content(r) == content(*m),
    decreases m,
{
    proof {
        use_type_invariant(m);
    }
    let mut keys: Vec<String> = Vec::new();
    let mut vals: Vec<ArgValue> = Vec::new();
    let n = m.keys.len();
    let mut i: usize = 0;
    while i < n
        invariant
            n == m.keys@.len(),
            n == m.vals@.len(),
            i <= n,
            keys@ == m.keys@.subrange(0, i as int),
            vals@.len() == i,
            entries_view(keys@, vals@) == entries_view(
                m.keys@.subrange(0, i as int),
                m.vals@.subrange(0, i as int),
            ),
        decreases n - i,
    {
        assert(decreases_to!(*m => m.vals));
        assert(decreases_to!(m.vals => m.vals@));
        assert(decreases_to!(m.vals@ => m.vals@[i as int]));
        let d = m.vals[i].duplicate();
        let k = m.keys[i].clone();
        let ghost k0 = keys@;
        let ghost v0 = vals@;
        keys.push(k);
        vals.push(d);
        proof {
            assert(keys@.subrange(0, i as int) =~= k0);
            assert(vals@.subrange(0, i as int) =~= v0);
            let ks = m.keys@.subrange(0, i + 1);
            let vs = m.vals@.subrange(0, i + 1);
            assert(ks.subrange(0, i as int) =~= m.keys@.subrange(0, i as int));
            assert(vs.subrange(0, i as int) =~= m.vals@.subrange(0, i as int));
            assert(keys@ =~= ks);
            reveal_with_fuel(entries_view, 2);
        }
        i = i + 1;
    }
    assert(keys@ =~= m.keys@);
    assert(m.vals@.subrange(0, n as int) =~= m.vals@);
    assert(keys@.map_values(|s: String| s@) =~= m.keys@.map_values(|s: String| s@));
    proof {
        m.lemma_parts();
    }
    let r = NameMap::from_parts(keys, vals);
    proof {
        assert(r.well_formed()) by {
            assert(r.key_list().len() == r.value_list().len());
        }
        assert(m.well_formed()) by {
            assert(m.key_list().len() == m.value_list().len());
        }
        lemma_same_content(r, *m);
    }
    r
}

/// Text of option `key`, when it has a scalar value.
pub fn opt_string(opts: &NameMap<ArgValue>, key: &str) -> (r: Option<String>)
    ensures
        r.is_some() == option_text(*opts, key@).is_some(),
        r.is_some() ==> r->0@ == option_text(*opts, key@)->0,
{
    match opts.get(key) {
        Some(v) => v.as_string(),
        None => None,
    }
}

/// Boolean option `key`, when it is a boolean.
pub fn opt_bool(opts: &NameMap<ArgValue>, key: &str) -> (r: Option<bool>)
    ensures
        r == option_bool(*opts, key@),
{
    match opts.get(key) {
        Some(v) => v.as_bool(),
        None => None,
    }
}

/// One capability leaf of a Job.
#[derive(Debug, PartialEq)]
pub struct Step {
    /// The capability (`use:` in a Job document).
    pub capability: Capability,
    pub id: Option<String>,
    pub name: Option<String>,
    /// Sugar for a single-entry [`Self::inputs`].
    pub input: Option<String>,
    pub inputs: Vec<String>,
    pub output: Option<String>,
    pub outputs: NameMap<String>,
    /// Artifact names this step publishes. Empty: its `id` and output names.
    pub produces: Vec<String>,
    /// Artifact names this step requires. Empty: `inputs` / `input`.
    pub consumes: Vec<String>,
    /// Ordering edges to other step ids (no data required).
    pub depends: Vec<String>,
    pub skip: bool,
    pub resource: Option<String>,
    pub options: NameMap<ArgValue>,
}

pub open spec fn string_views(v: Seq<String>) -> Seq<Seq<char>> {
    v.map_values(|s: String| s@)
}

/// Effective input refs: `consumes`, else `inputs`, else `input`.
pub open spec fn step_input_refs(s: Step) -> Seq<Seq<char>> {
    if s.consumes@.len() > 0 {
        string_views(s.consumes@)
    } else if s.inputs@.len() > 0 {
        string_views(s.inputs@)
    } else {
        match s.input {
            Some(i) => seq![i@],
            None => Seq::<Seq<char>>::empty(),
        }
    }
}

/// Names published into the artifact registry: `produces`, else `id` then output names.
pub open spec fn step_produce_names(s: Step) -> Seq<Seq<char>> {
    if s.produces@.len() > 0 {
        string_views(s.produces@)
    } else {
        (match s.id {
            Some(i) => seq![i@],
            None => Seq::<Seq<char>>::empty(),
        }) + s.outputs.key_list()
    }
}

fn views_of(v: &Vec<String>) -> (r: Vec<&str>)
    ensures
        str_views(r@) == string_views(v@),
{
    let mut r: Vec<&str> = Vec::new();
    let mut i: usize = 0;
    while i < v.len()
        invariant
            i <= v.len(),
            r@.len() == i,
            str_views(r@) == string_views(v@.subrange(0, i as int)),
        decreases v.len() - i,
    {
        let ghost before = r@;
        let x = v[i].as_str();
        r.push(x);
        assert(r@.subrange(0, i as int) == before);
        assert(r@[i as int]@ == v@[i as int]@);
        assert forall|j: int| 0 <= j < i + 1 implies #[trigger] str_views(r@)[j]
            == string_views(v@.subrange(0, i + 1))[j] by {
            if j < i {
                assert(str_views(before)[j] == string_views(v@.subrange(0,
                    i as int))[j]);
            }
        }
        i = i + 1;
        assert(str_views(r@) =~= string_views(v@.subrange(0, i as int)));
    }
    assert(v@.subrange(0, v.len() as int) =~= v@);
    r
}

impl Step {
    /// A step of `capability` with nothing else set.
    pub fn new(capability: Capability) -> (s: Self)
        ensures
            s.capability == capability,
            s.id.is_none(),
            s.name.is_none(),
            s.input.is_none(),
            s.inputs@.len() == 0,
            s.output.is_none(),
            s.outputs@ == Map::<Seq<char>, String>::empty(),
            s.outputs.key_list().len() == 0,
            s.produces@.len() == 0,
            s.consumes@.len() == 0,
            s.depends@.len() == 0,
            !s.skip,
            s.resource.is_none(),
            s.options@ == Map::<Seq<char>, ArgValue>::empty(),
            s.options.key_list().len() == 0,
    {
        Step {
            capability,
            id: None,
            name: None,
            input: None,
            inputs: Vec::new(),
            output: None,
            outputs: NameMap::new(),
            produces: Vec::new(),
            consumes: Vec::new(),
            depends: Vec::new(),
            skip: false,
            resource: None,
            options: NameMap::new(),
        }
    }

    /// Effective input refs (`consumes`, else `inputs`, else sugar `input`).
    pub fn input_refs(&self) -> (r: Vec<&str>)
        ensures
            str_views(r@) == step_input_refs(*self),
    {
        if self.consumes.len() > 0 {
            return views_of(&self.consumes);
        }
        if self.inputs.len() > 0 {
            views_of(&self.inputs)
        } else {
            let mut r: Vec<&str> = Vec::new();
            match &self.input {
                Some(i) => {
                    r.push(i.as_str());
                    assert(str_views(r@) =~= seq![i@]);
                },
                None => {
                    assert(str_views(r@) =~= Seq::<Seq<char>>::empty());
                },
            }
            r
        }
    }

    /// Names published into the artifact registry.
    pub fn produce_names(&self) -> (r: Vec<&str>)
        ensures
            str_views(r@) == step_produce_names(*self),
    {
        if self.produces.len() > 0 {
            return views_of(&self.produces);
        }
        let mut names: Vec<&str> = Vec::new();
        let ghost head: Seq<Seq<char>> = match &self.id {
            Some(i) => seq![i@],
            None => Seq::<Seq<char>>::empty(),
        };
        if let Some(id) = &self.id {
            names.push(id.as_str());
        }
        assert(str_views(names@) =~= head);
        let n = self.outputs.len();
        let mut i: usize = 0;
        while i < n
            invariant
                n == self.outputs.key_list().len(),
                i <= n,
                names@.len() == head.len() + i,
                str_views(names@) == head + self.outputs.key_list().subrange(0,
                    i as int),
            decreases n - i,
        {
            let ghost before = names@;
            let k = self.outputs.key_at(i).as_str();
            names.push(k);
            assert(names@.subrange(0, names@.len() - 1) == before);
            assert(names@[names@.len() - 1]@ == self.outputs.key_list()[i as int]);
            assert forall|j: int| 0 <= j < names@.len() implies #[trigger] str_views(names@)[j] == (head + self.outputs.key_list().subrange(0, i + 1))[j] by {
                if j < names@.len() - 1 {
                    assert(str_views(before)[j] == (head
                        + self.outputs.key_list().subrange(0, i as int))[j]);
                }
            }
            i = i + 1;
            assert(str_views(names@) =~= head + self.outputs.key_list().subrange(0,
                i as int));
        }
        assert(self.outputs.key_list().subrange(0, n as int) =~= self.outputs.key_list());
        names
    }
}

/// A node of the workflow tree: a `sequence`, a `parallel` group, or a capability step.
#[derive(Debug, PartialEq)]
pub enum WorkflowNode {
    Sequence { id: Option<String>, sequence: Vec<WorkflowNode> },
    Parallel { id: Option<String>, parallel: Vec<WorkflowNode> },
    Step(Step),
}

/// Capability leaves of a node, depth first in declaration order.
pub open spec fn node_leaves(n: WorkflowNode) -> Seq<Step>
    decreases n,
{
    match n {
        WorkflowNode::Step(s) => seq![s],
        WorkflowNode::Sequence { sequence, .. } => nodes_leaves(sequence@),
        WorkflowNode::Parallel { parallel, .. } => nodes_leaves(parallel@),
    }
}

/// Capability leaves of a node list, depth first in declaration order.
pub open spec fn nodes_leaves(ns: Seq<WorkflowNode>) -> Seq<Step>
    decreases ns,
{
    if ns.len() == 0 {
        Seq::<Step>::empty()
    } else {
        nodes_leaves(ns.subrange(0, ns.len() - 1)) + node_leaves(ns[ns.len() - 1])
    }
}

pub open spec fn str_views(v: Seq<&str>) -> Seq<Seq<char>> {
    v.map_values(|x: &str| x@)
}

pub open spec fn step_refs(v: Seq<&Step>) -> Seq<Step> {
    v.map_values(|s: &Step| *s)
}

impl WorkflowNode {
    pub fn step(step: Step) -> (n: Self)
        ensures
            n == WorkflowNode::Step(step),
    {
        WorkflowNode::Step(step)
    }

    pub fn sequence(nodes: Vec<Self>) -> (n: Self)
        ensures
            n == (WorkflowNode::Sequence { id: None, sequence: nodes }),
    {
        WorkflowNode::Sequence { id: None, sequence: nodes }
    }

    pub fn parallel(nodes: Vec<Self>) -> (n: Self)
        ensures
            n == (WorkflowNode::Parallel { id: None, parallel: nodes }),
    {
        WorkflowNode::Parallel { id: None, parallel: nodes }
    }

    /// Appends this node's capability leaves to `out`, depth first.
    pub fn collect_leaves<'a>(&'a self, out: &mut Vec<&'a Step>)
        ensures
            step_refs(final(out)@) == step_refs(old(out)@) + node_leaves(*self),
        decreases self,
    {
        match self {
            WorkflowNode::Step(s) => {
                out.push(s);
                assert(step_refs(out@) =~= step_refs(old(out)@) + seq![*s]);
            },
            WorkflowNode::Sequence { sequence, .. } => {
                let mut i: usize = 0;
                while i < sequence.len()
                    invariant
                        *self is Sequence,
                        self->sequence == *sequence,
                        i <= sequence.len(),
                        step_refs(out@) == step_refs(old(out)@) + nodes_leaves(sequence@.subrange(0,
                            i as int)),
                    decreases sequence.len() - i,
                {
                    assert(decreases_to!(*self => self->sequence));
                    assert(decreases_to!(self->sequence => sequence@));
                    assert(decreases_to!(sequence@ => sequence@[i as int]));
                    sequence[i].collect_leaves(out);
                    proof {
                        let t = sequence@.subrange(0, i + 1);
                        assert(t.subrange(0, i as int) =~= sequence@.subrange(0, i as int));
                        assert(t[i as int] == sequence@[i as int]);
                        assert(step_refs(out@) =~= step_refs(old(out)@) + nodes_leaves(t));
                    }
                    i = i + 1;
                }
                assert(sequence@.subrange(0, sequence.len() as int) =~= sequence@);
            },
            WorkflowNode::Parallel { parallel, .. } => {
                let mut i: usize = 0;
                while i < parallel.len()
                    invariant
                        *self is Parallel,
                        self->parallel == *parallel,
                        i <= parallel.len(),
                        step_refs(out@) == step_refs(old(out)@) + nodes_leaves(parallel@.subrange(0,
                            i as int)),
                    decreases parallel.len() - i,
                {
                    assert(decreases_to!(*self => self->parallel));
                    assert(decreases_to!(self->parallel => parallel@));
                    assert(decreases_to!(parallel@ => parallel@[i as int]));
                    parallel[i].collect_leaves(out);
                    proof {
                        let t = parallel@.subrange(0, i + 1);
                        assert(t.subrange(0, i as int) =~= parallel@.subrange(0, i as int));
                        assert(t[i as int] == parallel@[i as int]);
                        assert(step_refs(out@) =~= step_refs(old(out)@) + nodes_leaves(t));
                    }
                    i = i + 1;
                }
                assert(parallel@.subrange(0, parallel.len() as int) =~= parallel@);
            },
        }
    }

    /// A `sequence` or `parallel` group (not a capability step).
    pub fn is_control(&self) -> (b: bool)
        ensures
            b == !(*self is Step),
    {
        match self {
            WorkflowNode::Step(_) => false,
            _ => true,
        }
    }
}

impl From<Step> for WorkflowNode {
    fn from(step: Step) -> (n: Self) {
        WorkflowNode::Step(step)
    }
}

impl vstd::std_specs::convert::FromSpecImpl<Step> for WorkflowNode {
    open spec fn obeys_from_spec() -> bool {
        true
    }

    open spec fn from_spec(step: Step) -> WorkflowNode {
        WorkflowNode::Step(step)
    }
}

/// Media input of a Job.
#[derive(Debug, Clone, Default, PartialEq, Eq)]
pub struct JobInput {
    pub audio: Option<String>,
}

/// Project context of a Job.
#[derive(Debug, Clone, Default, PartialEq, Eq)]
pub struct JobContext {
    pub docs: Option<String>,
    pub assets: Option<String>,
}

/// Output location of a Job.
#[derive(Debug, Clone, Default, PartialEq, Eq)]
pub struct JobOutput {
    pub dir: Option<String>,
}

/// A Job document.
#[derive(Debug, PartialEq)]
pub struct Job {
    pub version: u32,
    pub name: Option<String>,
    pub working_dir: Option<String>,
    pub input: JobInput,
    pub context: JobContext,
    pub output: JobOutput,
    pub continue_on_error: bool,
    pub max_parallel: Option<u32>,
    pub resources: NameMap<u32>,
    /// Root workflow; a flat list of steps is an implicit sequence.
    pub steps: Vec<WorkflowNode>,
}

/// Capability leaves of a Job, depth first in declaration order.
pub open spec fn job_leaves(job: Job) -> Seq<Step> {
    nodes_leaves(job.steps@)
}

impl Job {
    /// Depth-first capability leaves in declaration order.
    pub fn leaf_steps(&self) -> (r: Vec<&Step>)
        ensures
            step_refs(r@) == job_leaves(*self),
    {
        let mut out: Vec<&Step> = Vec::new();
        let mut i: usize = 0;
        assert(step_refs(out@) =~= Seq::<Step>::empty());
        while i < self.steps.len()
            invariant
                i <= self.steps.len(),
                step_refs(out@) == nodes_leaves(self.steps@.subrange(0, i as int)),
            decreases self.steps.len() - i,
        {
            self.steps[i].collect_leaves(&mut out);
            proof {
                let t = self.steps@.subrange(0, i + 1);
                assert(t.subrange(0, i as int) =~= self.steps@.subrange(0, i as int));
                assert(t[i as int] == self.steps@[i as int]);
            }
            i = i + 1;
        }
        assert(self.steps@.subrange(0, self.steps.len() as int) =~= self.steps@);
        out
    }

    /// Number of capability leaves.
    pub fn leaf_count(&self) -> (n: usize)
        ensures
            n == job_leaves(*self).len(),
    {
        let v = self.leaf_steps();
        assert(step_refs(v@).len() == v@.len());
        v.len()
    }
}

/// A capability leaf after resolution: paths made absolute, input previewed.
#[derive(Debug)]
pub struct ResolvedStep {
    /// 1-based position among the leaves.
    pub index: u32,
    /// Dotted path in the workflow tree (e.g. `0`, `1.0`, `1.1`).
    pub path: String,
    pub capability: Capability,
    pub id: Option<String>,
    pub name: Option<String>,
    pub skip: bool,
    pub input: Option<String>,
    pub output: Option<String>,
    pub outputs: NameMap<String>,
    pub produces: Vec<String>,
    pub consumes: Vec<String>,
    pub options: NameMap<ArgValue>,
}

/// Execution plan over leaf indices (into [`ResolvedJob::steps`]).
#[derive(Debug, PartialEq, Eq)]
pub enum WorkflowPlan {
    Leaf(usize),
    Sequence(Vec<WorkflowPlan>),
    Parallel(Vec<WorkflowPlan>),
}

/// The shape of a [`WorkflowPlan`].
pub enum PlanView {
    Leaf(int),
    Sequence(Seq<PlanView>),
    Parallel(Seq<PlanView>),
}

pub open spec fn plan_view(p: WorkflowPlan) -> PlanView
    decreases p,
{
    match p {
        WorkflowPlan::Leaf(i) => PlanView::Leaf(i as int),
        WorkflowPlan::Sequence(v) => PlanView::Sequence(plans_view(v@)),
        WorkflowPlan::Parallel(v) => PlanView::Parallel(plans_view(v@)),
    }
}

pub open spec fn plans_view(ps: Seq<WorkflowPlan>) -> Seq<PlanView>
    decreases ps,
{
    if ps.len() == 0 {
        Seq::<PlanView>::empty()
    } else {
        plans_view(ps.subrange(0, ps.len() - 1)).push(plan_view(ps[ps.len() - 1]))
    }
}

/// A validated Job ready for execution.
#[derive(Debug)]
pub struct ResolvedJob {
    pub job: Job,
    pub working_dir: String,
    /// Flattened capability leaves (declaration / depth-first order).
    pub steps: Vec<ResolvedStep>,
    /// Execution plan: the workflow over leaf indices.
    pub plan: WorkflowPlan,
    /// A topological order of the leaves by their data / ordering edges.
    pub order: Vec<usize>,
}

/// The kind and message of a [`JobError`].
pub enum Fault {
    Usage(Seq<char>),
    NotFound(Seq<char>),
    Reserved(Seq<char>),
    Other(Seq<char>),
}

pub open spec fn fault_of(e: JobError) -> Fault {
    match e {
        JobError::Usage(m) => Fault::Usage(m@),
        JobError::NotFound(m) => Fault::NotFound(m@),
        JobError::Reserved(m) => Fault::Reserved(m@),
        JobError::Other(m) => Fault::Other(m@),
    }
}

/// A step input / output reference: an artifact id or a filesystem path.
#[derive(Debug, Clone, PartialEq, Eq)]
pub enum ArtifactRef {
    Id(String),
    Path(String),
}

/// Media and document extensions that make a bare name a file.
pub open spec fn known_file_ext(e: Seq<char>) -> bool {
    ||| e == "wav"@ ||| e == "mp3"@ ||| e == "m4a"@ ||| e == "ogg"@ ||| e == "flac"@
    ||| e == "opus"@ ||| e == "aac"@ ||| e == "wma"@ ||| e == "mp4"@ ||| e == "mkv"@
    ||| e == "mov"@ ||| e == "webm"@ ||| e == "avi"@ ||| e == "m4v"@ ||| e == "mpeg"@
    ||| e == "mpg"@ ||| e == "flv"@ ||| e == "wmv"@ ||| e == "txt"@ ||| e == "md"@
    ||| e == "markdown"@ ||| e == "pdf"@ ||| e == "docx"@ ||| e == "doc"@ ||| e == "rtf"@
    ||| e == "csv"@ ||| e == "html"@ ||| e == "htm"@ ||| e == "srt"@ ||| e == "vtt"@
    ||| e == "json"@ ||| e == "yaml"@ ||| e == "yml"@ ||| e == "toml"@ ||| e == "png"@
    ||| e == "jpg"@ ||| e == "jpeg"@ ||| e == "gif"@ ||| e == "webp"@ ||| e == "svg"@
}

/// `raw` names a filesystem path: it has a separator, or a known file extension.
pub open spec fn is_fs_ref(raw: Seq<char>) -> bool {
    if has_char(raw, '/') || has_char(raw, '\\') {
        true
    } else {
        match extension_of(raw) {
            Some(e) => known_file_ext(lower_ascii_seq(e)),
            None => false,
        }
    }
}

/// How a reference is read: wildcards are ids, then paths by [`is_fs_ref`], else ids.
pub open spec fn ref_is_path(raw: Seq<char>) -> bool {
    !has_char(raw, '*') && is_fs_ref(raw)
}

fn is_known_ext(e: &str) -> (b: bool)
    ensures
        b == known_file_ext(e@),
{
    str_eq(e, "wav") || str_eq(e, "mp3") || str_eq(e, "m4a") || str_eq(e, "ogg") || str_eq(
        e,
        "flac",
    ) || str_eq(e, "opus") || str_eq(e, "aac") || str_eq(e, "wma") || str_eq(e, "mp4")
        || str_eq(e, "mkv") || str_eq(e, "mov") || str_eq(e, "webm") || str_eq(e, "avi")
        || str_eq(e, "m4v") || str_eq(e, "mpeg") || str_eq(e, "mpg") || str_eq(e, "flv")
        || str_eq(e, "wmv") || str_eq(e, "txt") || str_eq(e, "md") || str_eq(e, "markdown")
        || str_eq(e, "pdf") || str_eq(e, "docx") || str_eq(e, "doc") || str_eq(e, "rtf")
        || str_eq(e, "csv") || str_eq(e, "html") || str_eq(e, "htm") || str_eq(e, "srt")
        || str_eq(e, "vtt") || str_eq(e, "json") || str_eq(e, "yaml") || str_eq(e, "yml")
        || str_eq(e, "toml") || str_eq(e, "png") || str_eq(e, "jpg") || str_eq(e, "jpeg")
        || str_eq(e, "gif") || str_eq(e, "webp") || str_eq(e, "svg")
}

/// True when `raw` should be resolved as a filesystem path (not an artifact id).
pub fn is_filesystem_ref(raw: &str) -> (b: bool)
    ensures
        b == is_fs_ref(raw@),
{
    if contains_char(raw, '/') || contains_char(raw, '\\') {
        return true;
    }
    match extension(raw) {
        Some(e) => {
            let lower = lowercase_ascii(e.as_str());
            is_known_ext(lower.as_str())
        },
        None => false,
    }
}

/// A reference names a file, so `ArtifactRef::parse` gives a `Path`, when it has no `*`
/// and either holds a path separator or ends in one of the media and document extensions
/// (after its last dot, in any case): wav, mp3, m4a, ogg, flac, opus, aac, wma, mp4, mkv,
/// mov, webm, avi, m4v, mpeg, mpg, flv, wmv, txt, md, markdown, pdf, docx, doc, rtf, csv,
/// html, htm, srt, vtt, json, yaml, yml, toml, png, jpg, jpeg, gif, webp, svg.
pub proof fn law_known_extension_is_path(raw: Seq<char>)
    requires
        !has_char(raw, '*'),
        has_char(raw, '/') || has_char(raw, '\\') || match extension_of(raw) {
            Some(e) => {
                let l = lower_ascii_seq(e);
                ||| l == "wav"@ ||| l == "mp3"@ ||| l == "m4a"@ ||| l == "ogg"@ ||| l == "flac"@
                ||| l == "opus"@ ||| l == "aac"@ ||| l == "wma"@ ||| l == "mp4"@ ||| l == "mkv"@
                ||| l == "mov"@ ||| l == "webm"@ ||| l == "avi"@ ||| l == "m4v"@ ||| l == "mpeg"@
                ||| l == "mpg"@ ||| l == "flv"@ ||| l == "wmv"@ ||| l == "txt"@ ||| l == "md"@
                ||| l == "markdown"@ ||| l == "pdf"@ ||| l == "docx"@ ||| l == "doc"@ ||| l == "rtf"@
                ||| l == "csv"@ ||| l == "html"@ ||| l == "htm"@ ||| l == "srt"@ ||| l == "vtt"@
                ||| l == "json"@ ||| l == "yaml"@ ||| l == "yml"@ ||| l == "toml"@ ||| l == "png"@
                ||| l == "jpg"@ ||| l == "jpeg"@ ||| l == "gif"@ ||| l == "webp"@ ||| l == "svg"@
            },
            None => false,
        },
    ensures
        ref_is_path(raw),
{
}

impl ArtifactRef {
    /// Parse a step input/output reference.
    ///
    /// Wildcards (`prefix/*`) are ids; names with a path separator or a known
    /// media/document extension are paths; dotted artifact ids (`alice.transcript`) are ids.
    pub fn parse(raw: &str) -> (r: Self)
        ensures
            ref_is_path(raw@) ==> (r is Path && r->Path_0@ == raw@),
            !ref_is_path(raw@) ==> (r is Id && r->Id_0@ == raw@),
    {
        let owned = crate::text::owned(raw);
        if contains_char(raw, '*') {
            return ArtifactRef::Id(owned);
        }
        if is_filesystem_ref(raw) {
            ArtifactRef::Path(owned)
        } else {
            ArtifactRef::Id(owned)
        }
    }

    /// A wildcard id (holds `*`).
    pub fn is_wildcard(&self) -> (b: bool)
        ensures
            b == (match *self {
                ArtifactRef::Id(s) => has_char(s@, '*'),
                ArtifactRef::Path(_) => false,
            }),
    {
        match self {
            ArtifactRef::Id(s) => contains_char(s.as_str(), '*'),
            ArtifactRef::Path(_) => false,
        }
    }
}

/// Failure to load, validate or resolve a Job.
#[derive(Debug, Clone, PartialEq, Eq)]
pub enum JobError {
    Usage(String),
    NotFound(String),
    Reserved(String),
    Other(String),
}

pub open spec fn job_error_code(e: JobError) -> u8 {
    match e {
        JobError::Usage(_) | JobError::Reserved(_) => 2,
        JobError::NotFound(_) => 3,
        JobError::Other(_) => 1,
    }
}

pub open spec fn job_error_text(e: JobError) -> Seq<char> {
    match e {
        JobError::Usage(m) | JobError::NotFound(m) | JobError::Reserved(m) | JobError::Other(m) => m@,
    }
}

impl JobError {
    /// Process exit code: usage / reserved 2, not found 3, other 1.
    pub fn exit_code(&self) -> (c: u8)
        ensures
            c == job_error_code(*self),
    {
        match self {
            JobError::Usage(_) | JobError::Reserved(_) => 2,
            JobError::NotFound(_) => 3,
            JobError::Other(_) => 1,
        }
    }

    /// The message (what the error displays as).
    pub fn message(&self) -> (m: String)
        ensures
            m@ == job_error_text(*self),
    {
        match self {
            JobError::Usage(m) | JobError::NotFound(m) | JobError::Reserved(m) | JobError::Other(
                m,
            ) => m.clone(),
        }
    }
}

} // verus!
