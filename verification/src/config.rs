//! User defaults: `progress`, `asr`, `continue_on_error`, read from and written to TOML.

use vstd::prelude::*;

use crate::schema::{parse_engine, TranscribeEngine};
use crate::text::{concat, owned, str_eq};

verus! {

/// Settings stored in the config file; `None` means the built-in default.
#[derive(Debug, Clone, PartialEq, Eq)]
pub struct FileConfig {
    pub progress: Option<String>,
    pub asr: Option<String>,
    pub continue_on_error: Option<bool>,
}

/// Built-in defaults.
#[derive(Debug, Clone, Copy)]
pub struct Defaults {
    pub progress: &'static str,
    pub asr: &'static str,
    pub continue_on_error: bool,
}

pub fn defaults() -> (d: Defaults)
    ensures
        d.progress@ == "text"@,
        d.asr@ == "gigaam"@,
        !d.continue_on_error,
{
    Defaults { progress: "text", asr: "gigaam", continue_on_error: false }
}

pub open spec fn opt_text(o: Option<String>) -> Option<Seq<char>> {
    match o {
        Some(s) => Some(s@),
        None => None,
    }
}

/// `on` / `off` for a flag.
pub open spec fn flag_text(v: bool) -> Seq<char> {
    if v {
        "on"@
    } else {
        "off"@
    }
}

/// The flag a text names: `on` / `true` / `1`, `off` / `false` / `0`.
pub open spec fn flag_of(s: Seq<char>) -> Option<bool> {
    if s == "on"@ || s == "true"@ || s == "1"@ {
        Some(true)
    } else if s == "off"@ || s == "false"@ || s == "0"@ {
        Some(false)
    } else {
        None
    }
}

pub fn bool_str(v: bool) -> (r: &'static str)
    ensures
        r@ == flag_text(v),
{
    if v {
        "on"
    } else {
        "off"
    }
}

pub fn parse_bool(s: &str) -> (r: Result<bool, String>)
    ensures
        match flag_of(s@) {
            Some(b) => r == Ok::<bool, String>(b),
            None => r is Err && r->Err_0@ == "expected on|off, got "@ + s@,
        },
{
    if str_eq(s, "on") || str_eq(s, "true") || str_eq(s, "1") {
        Ok(true)
    } else if str_eq(s, "off") || str_eq(s, "false") || str_eq(s, "0") {
        Ok(false)
    } else {
        Err(concat("expected on|off, got ", s))
    }
}

/// A flag's text reads back as the flag.
pub proof fn law_flag_round_trip(v: bool)
    ensures
        flag_of(flag_text(v)) == Some(v),
{
    reveal_strlit("on");
    reveal_strlit("off");
    reveal_strlit("true");
    reveal_strlit("false");
    reveal_strlit("1");
    reveal_strlit("0");
    assert("on"@.len() == 2 && "off"@.len() == 3 && "true"@.len() == 4 && "false"@.len() == 5
        && "1"@.len() == 1);
    assert("off"@ != "on"@ && "off"@ != "true"@ && "off"@ != "1"@);
}

/// The top-level entries the config file holds: each stored setting as a string under
/// its key, in the order `to_toml_text` writes them.
pub open spec fn saved_entries(c: FileConfig) -> Seq<(Seq<char>, ScalarView)> {
    (match c.progress {
        Some(p) => seq![("progress"@, ScalarView::Text(p@))],
        None => Seq::empty(),
    }) + (match c.asr {
        Some(a) => seq![("asr"@, ScalarView::Text(a@))],
        None => Seq::empty(),
    }) + (match c.continue_on_error {
        Some(b) => seq![("continue_on_error"@, ScalarView::Text(flag_text(b)))],
        None => Seq::empty(),
    })
}

/// The text of entries written one `key = "value"` line each.
pub open spec fn entry_lines(es: Seq<(Seq<char>, ScalarView)>) -> Seq<char>
    decreases es.len(),
{
    if es.len() == 0 {
        Seq::empty()
    } else {
        let v = match es[0].1 {
            ScalarView::Text(t) => t,
            _ => Seq::empty(),
        };
        es[0].0 + " = \""@ + v + "\"\n"@ + entry_lines(es.drop_first())
    }
}

proof fn lemma_entry_lines_concat(a: Seq<(Seq<char>, ScalarView)>, b: Seq<(Seq<char>, ScalarView)>)
    ensures
        entry_lines(a + b) == entry_lines(a) + entry_lines(b),
    decreases a.len(),
{
    if a.len() == 0 {
        assert(a + b =~= b);
    } else {
        assert((a + b).drop_first() =~= a.drop_first() + b);
        lemma_entry_lines_concat(a.drop_first(), b);
    }
}

proof fn lemma_lookup_concat(a: Seq<(Seq<char>, ScalarView)>, b: Seq<(Seq<char>, ScalarView)>, key: Seq<char>)
    ensures
        lookup(a + b, key) == (match lookup(a, key) {
            Some(v) => Some(v),
            None => lookup(b, key),
        }),
    decreases a.len(),
{
    if a.len() == 0 {
        assert(a + b =~= b);
    } else {
        assert((a + b).drop_first() =~= a.drop_first() + b);
        lemma_lookup_concat(a.drop_first(), b, key);
    }
}

/// A saved config reads back as itself: the file `to_toml_text` writes is the entries of
/// `saved_entries`, one `key = "value"` line each, and those entries give, through the
/// entry conversion that loading uses, the settings that were saved.
pub proof fn law_saved_config_reads_back(c: FileConfig)
    ensures
        config_text(c) == entry_lines(saved_entries(c)),
        settings_of(saved_entries(c)) == fields(c),
{
    reveal_strlit("progress");
    reveal_strlit("asr");
    reveal_strlit("continue_on_error");
    assert("progress"@.len() == 8 && "asr"@.len() == 3 && "continue_on_error"@.len() == 17);
    let e1: Seq<(Seq<char>, ScalarView)> = match c.progress {
        Some(p) => seq![("progress"@, ScalarView::Text(p@))],
        None => Seq::empty(),
    };
    let e2: Seq<(Seq<char>, ScalarView)> = match c.asr {
        Some(a) => seq![("asr"@, ScalarView::Text(a@))],
        None => Seq::empty(),
    };
    let e3: Seq<(Seq<char>, ScalarView)> = match c.continue_on_error {
        Some(b) => seq![("continue_on_error"@, ScalarView::Text(flag_text(b)))],
        None => Seq::empty(),
    };
    assert(saved_entries(c) == e1 + e2 + e3);
    lemma_entry_lines_concat(e1 + e2, e3);
    lemma_entry_lines_concat(e1, e2);
    reveal_with_fuel(entry_lines, 2);
    reveal_with_fuel(lookup, 2);
    assert(entry_lines(e1) == (match c.progress {
        Some(p) => "progress = \""@ + p@ + "\"\n"@,
        None => Seq::<char>::empty(),
    })) by {
        reveal_strlit(" = \"");
        reveal_strlit("progress = \"");
        assert("progress"@ + " = \""@ =~= "progress = \""@);
        if e1.len() > 0 {
            assert(e1.drop_first() =~= Seq::<(Seq<char>, ScalarView)>::empty());
        }
    }
    assert(entry_lines(e2) == (match c.asr {
        Some(a) => "asr = \""@ + a@ + "\"\n"@,
        None => Seq::<char>::empty(),
    })) by {
        reveal_strlit(" = \"");
        reveal_strlit("asr = \"");
        assert("asr"@ + " = \""@ =~= "asr = \""@);
        if e2.len() > 0 {
            assert(e2.drop_first() =~= Seq::<(Seq<char>, ScalarView)>::empty());
        }
    }
    assert(entry_lines(e3) == (match c.continue_on_error {
        Some(b) => "continue_on_error = \""@ + flag_text(b) + "\"\n"@,
        None => Seq::<char>::empty(),
    })) by {
        reveal_strlit(" = \"");
        reveal_strlit("continue_on_error = \"");
        assert("continue_on_error"@ + " = \""@ =~= "continue_on_error = \""@);
        if e3.len() > 0 {
            assert(e3.drop_first() =~= Seq::<(Seq<char>, ScalarView)>::empty());
        }
    }
    assert(config_text(c) =~= entry_lines(saved_entries(c)));
    lemma_lookup_concat(e1 + e2, e3, "progress"@);
    lemma_lookup_concat(e1, e2, "progress"@);
    lemma_lookup_concat(e1 + e2, e3, "asr"@);
    lemma_lookup_concat(e1, e2, "asr"@);
    lemma_lookup_concat(e1 + e2, e3, "continue_on_error"@);
    lemma_lookup_concat(e1, e2, "continue_on_error"@);
    if e1.len() > 0 {
        assert(e1.drop_first() =~= Seq::<(Seq<char>, ScalarView)>::empty());
    }
    if e2.len() > 0 {
        assert(e2.drop_first() =~= Seq::<(Seq<char>, ScalarView)>::empty());
    }
    if e3.len() > 0 {
        assert(e3.drop_first() =~= Seq::<(Seq<char>, ScalarView)>::empty());
    }
    if let Some(b) = c.continue_on_error {
        law_flag_round_trip(b);
    }
}

/// The config file text: one `key = "value"` line per stored setting, continue-on-error
/// as `on` or `off`.
pub open spec fn config_text(c: FileConfig) -> Seq<char> {
    (match c.progress {
        Some(p) => "progress = \""@ + p@ + "\"\n"@,
        None => Seq::<char>::empty(),
    }) + (match c.asr {
        Some(a) => "asr = \""@ + a@ + "\"\n"@,
        None => Seq::<char>::empty(),
    }) + (match c.continue_on_error {
        Some(b) => "continue_on_error = \""@ + flag_text(b) + "\"\n"@,
        None => Seq::<char>::empty(),
    })
}

/// What `get` shows for `key`: the stored value or the default; other keys are unknown.
pub open spec fn shown(cfg: FileConfig, key: Seq<char>) -> Result<Seq<char>, Seq<char>> {
    if key == "progress"@ {
        Ok(
            match cfg.progress {
                Some(p) => p@,
                None => "text"@,
            },
        )
    } else if key == "asr"@ {
        Ok(
            match cfg.asr {
                Some(a) => a@,
                None => "gigaam"@,
            },
        )
    } else if key == "continue_on_error"@ {
        Ok(
            flag_text(
                match cfg.continue_on_error {
                    Some(c) => c,
                    None => false,
                },
            ),
        )
    } else {
        Err("unknown config key: "@ + key)
    }
}

/// What `set` does: accepted values are stored under their key; anything else is refused
/// with a message and leaves the settings unchanged.
pub open spec fn set_result(cfg: FileConfig, key: Seq<char>, value: Seq<char>) -> Result<
    (Option<Seq<char>>, Option<Seq<char>>, Option<bool>),
    Seq<char>,
> {
    let now = (opt_text(cfg.progress), opt_text(cfg.asr), cfg.continue_on_error);
    if key == "progress"@ {
        if value == "text"@ || value == "json"@ {
            Ok((Some(value), now.1, now.2))
        } else {
            Err("invalid progress: "@ + value)
        }
    } else if key == "asr"@ {
        if parse_engine(value) is Some {
            Ok((now.0, Some(value), now.2))
        } else {
            Err("invalid asr: "@ + value)
        }
    } else if key == "continue_on_error"@ {
        match flag_of(value) {
            Some(b) => Ok((now.0, now.1, Some(b))),
            None => Err("expected on|off, got "@ + value),
        }
    } else {
        Err("unknown config key: "@ + key)
    }
}

pub open spec fn fields(cfg: FileConfig) -> (Option<Seq<char>>, Option<Seq<char>>, Option<bool>) {
    (opt_text(cfg.progress), opt_text(cfg.asr), cfg.continue_on_error)
}

/// A config key's line in `config list`: `key = value`.
pub open spec fn list_of(cfg: FileConfig) -> Seq<Seq<char>> {
    seq![
        "progress = "@ + shown(cfg, "progress"@)->Ok_0,
        "asr = "@ + shown(cfg, "asr"@)->Ok_0,
        "continue_on_error = "@ + shown(cfg, "continue_on_error"@)->Ok_0,
    ]
}

/// A scalar of a TOML document's top-level table, as far as the settings read it.
pub enum TomlScalar {
    Text(String),
    Flag(bool),
    Other,
}

pub enum ScalarView {
    Text(Seq<char>),
    Flag(bool),
    Other,
}

pub open spec fn scalar_view(t: TomlScalar) -> ScalarView {
    match t {
        TomlScalar::Text(s) => ScalarView::Text(s@),
        TomlScalar::Flag(b) => ScalarView::Flag(b),
        TomlScalar::Other => ScalarView::Other,
    }
}

pub open spec fn toml_entries_view(v: Seq<(String, TomlScalar)>) -> Seq<(Seq<char>, ScalarView)> {
    v.map_values(|e: (String, TomlScalar)| (e.0@, scalar_view(e.1)))
}

/// The top-level entries the `toml` crate reads from a document, or its error message.
pub uninterp spec fn toml_top_level(text: Seq<char>) -> Result<Seq<(Seq<char>, ScalarView)>, Seq<char>>;

/// `toml::from_str::<toml::Value>`: the document's top-level table, each value told apart
/// as a string, a boolean or anything else; or the parser's error text. The result is
/// named, not stated.
#[verifier::external_body]
fn parse_toml_top_level(text: &str) -> (r: Result<Vec<(String, TomlScalar)>, String>)
    ensures
        match r {
            Ok(v) => toml_top_level(text@) == Ok::<_, Seq<char>>(toml_entries_view(v@)),
            Err(e) => toml_top_level(text@) == Err::<Seq<(Seq<char>, ScalarView)>, _>(e@),
        },
{
    match toml::from_str::<toml::Value>(text) {
        Ok(toml::Value::Table(t)) => Ok(t.into_iter().map(|(k, v)| (k, match v {
            toml::Value::String(s) => TomlScalar::Text(s),
            toml::Value::Boolean(b) => TomlScalar::Flag(b),
            toml::Value::Integer(_) => TomlScalar::Other,
            toml::Value::Float(_) => TomlScalar::Other,
            toml::Value::Datetime(_) => TomlScalar::Other,
            toml::Value::Array(_) => TomlScalar::Other,
            toml::Value::Table(_) => TomlScalar::Other,
        })).collect()),
        Ok(_) => Ok(Vec::new()),
        Err(e) => Err(e.to_string()),
    }
}

/// The value of the first entry named `key`.
pub open spec fn lookup(es: Seq<(Seq<char>, ScalarView)>, key: Seq<char>) -> Option<ScalarView>
    decreases es.len(),
{
    if es.len() == 0 {
        None
    } else if es[0].0 == key {
        Some(es[0].1)
    } else {
        lookup(es.drop_first(), key)
    }
}

/// The settings a table holds: text `progress` and `asr`; `continue_on_error` as a
/// boolean or as flag text.
pub open spec fn settings_of(es: Seq<(Seq<char>, ScalarView)>) -> (
    Option<Seq<char>>,
    Option<Seq<char>>,
    Option<bool>,
) {
    (
        match lookup(es, "progress"@) {
            Some(ScalarView::Text(s)) => Some(s),
            _ => None,
        },
        match lookup(es, "asr"@) {
            Some(ScalarView::Text(s)) => Some(s),
            _ => None,
        },
        match lookup(es, "continue_on_error"@) {
            Some(ScalarView::Flag(b)) => Some(b),
            Some(ScalarView::Text(s)) => flag_of(s),
            _ => None,
        },
    )
}

fn find_entry<'a>(es: &'a Vec<(String, TomlScalar)>, key: &str) -> (r: Option<&'a TomlScalar>)
    ensures
        match lookup(toml_entries_view(es@), key@) {
            Some(v) => r is Some && scalar_view(*r->0) == v,
            None => r is None,
        },
{
    let ghost ev = toml_entries_view(es@);
    let mut i: usize = 0;
    assert(ev.subrange(0, ev.len() as int) =~= ev);
    while i < es.len()
        invariant
            i <= es@.len(),
            ev == toml_entries_view(es@),
            lookup(ev, key@) == lookup(ev.subrange(i as int, ev.len() as int), key@),
        decreases es@.len() - i,
    {
        let ghost rest = ev.subrange(i as int, ev.len() as int);
        assert(rest[0] == ev[i as int]);
        assert(rest.drop_first() =~= ev.subrange(i + 1, ev.len() as int));
        if str_eq(es[i].0.as_str(), key) {
            return Some(&es[i].1);
        }
        i = i + 1;
    }
    None
}

impl FileConfig {
    /// No stored settings.
    pub fn empty() -> (c: Self)
        ensures
            c.progress is None,
            c.asr is None,
            c.continue_on_error is None,
    {
        FileConfig { progress: None, asr: None, continue_on_error: None }
    }

    /// The settings in the entries of a TOML document's top-level table.
    pub fn from_toml_entries(es: &Vec<(String, TomlScalar)>) -> (c: Self)
        ensures
            fields(c) == settings_of(toml_entries_view(es@)),
    {
        let progress = match find_entry(es, "progress") {
            Some(TomlScalar::Text(s)) => Some(s.clone()),
            _ => None,
        };
        let asr = match find_entry(es, "asr") {
            Some(TomlScalar::Text(s)) => Some(s.clone()),
            _ => None,
        };
        let continue_on_error = match find_entry(es, "continue_on_error") {
            Some(TomlScalar::Flag(b)) => Some(*b),
            Some(TomlScalar::Text(s)) => match parse_bool(s.as_str()) {
                Ok(b) => Some(b),
                Err(_) => None,
            },
            _ => None,
        };
        FileConfig { progress, asr, continue_on_error }
    }

    /// The settings of a config file's text.
    pub fn from_toml_text(text: &str) -> (r: Result<Self, String>)
        ensures
            match toml_top_level(text@) {
                Ok(es) => r is Ok && fields(r->Ok_0) == settings_of(es),
                Err(e) => r is Err && r->Err_0@ == e,
            },
    {
        match parse_toml_top_level(text) {
            Ok(es) => Ok(FileConfig::from_toml_entries(&es)),
            Err(e) => Err(e),
        }
    }

    /// The config file text: one `key = "value"` line per stored setting.
    pub fn to_toml_text(&self) -> (r: String)
        ensures
            r@ == config_text(*self),
    {
        let mut out = String::new();
        if let Some(p) = &self.progress {
            out = concat(out.as_str(), concat(concat("progress = \"", p.as_str()).as_str(), "\"\n").as_str());
        }
        if let Some(a) = &self.asr {
            out = concat(out.as_str(), concat(concat("asr = \"", a.as_str()).as_str(), "\"\n").as_str());
        }
        if let Some(c) = self.continue_on_error {
            out = concat(
                out.as_str(),
                concat(concat("continue_on_error = \"", bool_str(c)).as_str(), "\"\n").as_str(),
            );
        }
        proof {
            reveal_strlit("");
        }
        assert(out@ =~= (match self.progress {
            Some(p) => "progress = \""@ + p@ + "\"\n"@,
            None => Seq::<char>::empty(),
        }) + (match self.asr {
            Some(a) => "asr = \""@ + a@ + "\"\n"@,
            None => Seq::<char>::empty(),
        }) + (match self.continue_on_error {
            Some(c) => "continue_on_error = \""@ + flag_text(c) + "\"\n"@,
            None => Seq::<char>::empty(),
        }));
        out
    }

    pub fn get(&self, key: &str) -> (r: Result<String, String>)
        ensures
            match shown(*self, key@) {
                Ok(v) => r is Ok && r->Ok_0@ == v,
                Err(e) => r is Err && r->Err_0@ == e,
            },
    {
        let d = defaults();
        if str_eq(key, "progress") {
            Ok(
                match &self.progress {
                    Some(p) => p.clone(),
                    None => owned(d.progress),
                },
            )
        } else if str_eq(key, "asr") {
            Ok(
                match &self.asr {
                    Some(a) => a.clone(),
                    None => owned(d.asr),
                },
            )
        } else if str_eq(key, "continue_on_error") {
            let c = match self.continue_on_error {
                Some(c) => c,
                None => d.continue_on_error,
            };
            Ok(owned(bool_str(c)))
        } else {
            Err(concat("unknown config key: ", key))
        }
    }

    pub fn set(&mut self, key: &str, value: &str) -> (r: Result<(), String>)
        ensures
            match set_result(*old(self), key@, value@) {
                Ok(f) => r is Ok && fields(*final(self)) == f,
                Err(e) => r is Err && r->Err_0@ == e && fields(*final(self)) == fields(*old(self)),
            },
    {
        if str_eq(key, "progress") {
            if !(str_eq(value, "text") || str_eq(value, "json")) {
                return Err(concat("invalid progress: ", value));
            }
            self.progress = Some(owned(value));
        } else if str_eq(key, "asr") {
            if TranscribeEngine::parse(value).is_none() {
                return Err(concat("invalid asr: ", value));
            }
            self.asr = Some(owned(value));
        } else if str_eq(key, "continue_on_error") {
            match parse_bool(value) {
                Ok(b) => {
                    self.continue_on_error = Some(b);
                },
                Err(e) => return Err(e),
            }
        } else {
            return Err(concat("unknown config key: ", key));
        }
        Ok(())
    }

    pub fn list_lines(&self) -> (r: Vec<String>)
        ensures
            r@.len() == 3,
            r@[0]@ == list_of(*self)[0],
            r@[1]@ == list_of(*self)[1],
            r@[2]@ == list_of(*self)[2],
    {
        let mut r: Vec<String> = Vec::new();
        let p = match self.get("progress") {
            Ok(v) => v,
            Err(e) => e,
        };
        let a = match self.get("asr") {
            Ok(v) => v,
            Err(e) => e,
        };
        let c = match self.get("continue_on_error") {
            Ok(v) => v,
            Err(e) => e,
        };
        proof {
            reveal_strlit("progress");
            reveal_strlit("asr");
            reveal_strlit("continue_on_error");
        }
        r.push(concat("progress = ", p.as_str()));
        r.push(concat("asr = ", a.as_str()));
        r.push(concat("continue_on_error = ", c.as_str()));
        r
    }
}

/// A value that `set` accepts under a key is what `get` then shows for it.
pub proof fn law_set_then_get(before: FileConfig, after: FileConfig, key: Seq<char>, value: Seq<char>)
    requires
        set_result(before, key, value) is Ok,
        fields(after) == set_result(before, key, value)->Ok_0,
    ensures
        shown(after, key) == Ok::<Seq<char>, Seq<char>>(
            if key == "continue_on_error"@ {
                flag_text(flag_of(value)->0)
            } else {
                value
            },
        ),
{
    reveal_strlit("progress");
    reveal_strlit("asr");
    reveal_strlit("continue_on_error");
    assert("progress"@.len() == 8 && "asr"@.len() == 3 && "continue_on_error"@.len() == 17);
    assert("progress"@ != "asr"@ && "progress"@ != "continue_on_error"@ && "asr"@
        != "continue_on_error"@);
    if key == "progress"@ {
        assert(opt_text(after.progress) == Some(value));
    } else if key == "asr"@ {
        assert(opt_text(after.asr) == Some(value));
    }
}

} // verus!
