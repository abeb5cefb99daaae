//! Command-line decisions: argument checks, progress mode, the Job a run uses, exit codes.

use vstd::prelude::*;

use crate::config::{opt_text, FileConfig};
use crate::defaults::{default_job, default_job_ok, DefaultJobArgs};
use crate::schema::{job_error_code, job_error_text, parse_engine, Job, JobError, TranscribeEngine};
use crate::text::{clone_opt, concat, owned, str_eq};

verus! {

/// How progress is shown: human text, JSON events, or nothing.
#[derive(Debug, Clone, Copy, PartialEq, Eq)]
pub enum ProgressMode {
    Text,
    Json,
    Quiet,
}

pub open spec fn progress_named(s: Seq<char>) -> Option<ProgressMode> {
    if s == "text"@ {
        Some(ProgressMode::Text)
    } else if s == "json"@ {
        Some(ProgressMode::Json)
    } else if s == "none"@ {
        Some(ProgressMode::Quiet)
    } else {
        None
    }
}

impl ProgressMode {
    pub fn parse(s: &str) -> (r: Option<Self>)
        ensures
            r == progress_named(s@),
    {
        if str_eq(s, "text") {
            Some(ProgressMode::Text)
        } else if str_eq(s, "json") {
            Some(ProgressMode::Json)
        } else if str_eq(s, "none") {
            Some(ProgressMode::Quiet)
        } else {
            None
        }
    }
}

/// The values `--progress=` accepts.
#[derive(Debug, Clone, Copy, PartialEq, Eq)]
pub enum CliProgress {
    Text,
    Json,
}

pub open spec fn progress_mode_of(p: CliProgress) -> ProgressMode {
    match p {
        CliProgress::Text => ProgressMode::Text,
        CliProgress::Json => ProgressMode::Json,
    }
}

impl CliProgress {
    /// The progress mode a `--progress=` value selects.
    pub fn mode(self) -> (m: ProgressMode)
        ensures
            m == progress_mode_of(self),
    {
        match self {
            CliProgress::Text => ProgressMode::Text,
            CliProgress::Json => ProgressMode::Json,
        }
    }
}

impl From<CliProgress> for ProgressMode {
    fn from(p: CliProgress) -> (m: Self) {
        p.mode()
    }
}

impl vstd::std_specs::convert::FromSpecImpl<CliProgress> for ProgressMode {
    open spec fn obeys_from_spec() -> bool {
        true
    }

    open spec fn from_spec(p: CliProgress) -> ProgressMode {
        progress_mode_of(p)
    }
}

/// What `config` does: list the settings, show or change one, or print the file's path.
#[derive(Debug, Clone, PartialEq, Eq)]
pub enum ConfigAction {
    List,
    Get { key: String },
    Change { key: String, value: String },
    Path,
}

/// The `config` subcommand's arguments.
#[derive(Debug, Clone)]
pub struct ConfigArgs {
    pub action: ConfigAction,
}

/// A parsed command line.
#[derive(Debug)]
pub enum Command {
    Run(RunArgs),
    Config(ConfigArgs),
}

/// A command-line failure: the process exit code and the message to print.
#[derive(Debug)]
pub struct CliError {
    pub(crate) code: u8,
    pub(crate) message: String,
}

impl CliError {
    pub closed spec fn code_of(&self) -> u8 {
        self.code
    }

    pub closed spec fn text_of(&self) -> Seq<char> {
        self.message@
    }

    /// A usage error (exit code 2).
    pub fn usage(msg: &str) -> (e: Self)
        ensures
            e.code_of() == 2,
            e.text_of() == msg@,
    {
        CliError { code: 2, message: owned(msg) }
    }

    pub fn with_code(code: u8, msg: String) -> (e: Self)
        ensures
            e.code_of() == code,
            e.text_of() == msg@,
    {
        CliError { code, message: msg }
    }

    pub fn exit_code(&self) -> (c: u8)
        ensures
            c == self.code_of(),
    {
        self.code
    }

    pub fn message(&self) -> (m: &str)
        ensures
            m@ == self.text_of(),
    {
        self.message.as_str()
    }
}

/// A Job error as a command-line error: same exit code and message.
pub fn map_job_err(e: JobError) -> (c: CliError)
    ensures
        c.code_of() == job_error_code(e),
        c.text_of() == job_error_text(e),
{
    let code = e.exit_code();
    CliError::with_code(code, e.message())
}

/// The `run` flags as parsed.
#[derive(Debug, Clone)]
pub struct RunCli {
    pub input: Option<String>,
    pub file: Option<String>,
    pub job_positional: Option<String>,
    pub asr: String,
    pub model: Option<String>,
    pub device: Option<String>,
    pub flash: bool,
    pub docs: Option<String>,
    pub output_dir: Option<String>,
    pub working_dir: Option<String>,
    pub dry_run: bool,
    pub json: bool,
    pub progress: Option<CliProgress>,
    pub quiet: bool,
    pub continue_on_error: bool,
    pub overwrite: bool,
    pub report: Option<String>,
    pub report_dir: Option<String>,
}

/// The `run` arguments after their checks.
#[derive(Debug, Clone)]
pub struct RunArgs {
    pub input: Option<String>,
    pub job_file: Option<String>,
    pub asr: String,
    pub model: Option<String>,
    pub device: Option<String>,
    pub flash: bool,
    pub docs: Option<String>,
    pub output_dir: Option<String>,
    pub working_dir: Option<String>,
    pub dry_run: bool,
    pub json: bool,
    pub progress: Option<ProgressMode>,
    pub quiet: bool,
    pub continue_on_error: bool,
    pub overwrite: bool,
    pub report: Option<String>,
    pub report_dir: Option<String>,
    /// Interactive confirmation was asked for (or a terminal was detected).
    pub interactive: bool,
}

/// Why `run` flags are refused, checked in this order.
pub open spec fn run_refusal(cli: RunCli) -> Option<(u8, Seq<char>)> {
    let job_file = if cli.file is Some {
        cli.file
    } else {
        cli.job_positional
    };
    if cli.json && !cli.dry_run {
        Some((2, "--json requires --dry-run"@))
    } else if cli.report is Some && cli.report_dir is Some {
        Some((2, "--report and --report-dir are mutually exclusive"@))
    } else if cli.dry_run && (cli.report is Some || cli.report_dir is Some) {
        Some((2, "--report / --report-dir require a real run (not --dry-run)"@))
    } else if job_file is Some && cli.input is Some {
        Some((2, "job file and -i / --input are mutually exclusive"@))
    } else if job_file is None && cli.input is None {
        Some((3, "missing -i / --input or job file"@))
    } else {
        None
    }
}

/// The checked arguments carry the flags over; the job file is `--file`, else the
/// positional one.
pub open spec fn carried(a: RunArgs, cli: RunCli) -> bool {
    &&& opt_text(a.input) == opt_text(cli.input)
    &&& opt_text(a.job_file) == (if cli.file is Some {
        opt_text(cli.file)
    } else {
        opt_text(cli.job_positional)
    })
    &&& a.asr@ == cli.asr@
    &&& opt_text(a.model) == opt_text(cli.model)
    &&& opt_text(a.device) == opt_text(cli.device)
    &&& a.flash == cli.flash
    &&& opt_text(a.docs) == opt_text(cli.docs)
    &&& opt_text(a.output_dir) == opt_text(cli.output_dir)
    &&& opt_text(a.working_dir) == opt_text(cli.working_dir)
    &&& a.dry_run == cli.dry_run
    &&& a.json == cli.json
    &&& a.progress == match cli.progress {
        Some(p) => Some(progress_mode_of(p)),
        None => None,
    }
    &&& a.quiet == cli.quiet
    &&& a.continue_on_error == cli.continue_on_error
    &&& a.overwrite == cli.overwrite
    &&& opt_text(a.report) == opt_text(cli.report)
    &&& opt_text(a.report_dir) == opt_text(cli.report_dir)
    &&& !a.interactive
}

pub fn validate_run(cli: RunCli) -> (r: Result<RunArgs, CliError>)
    ensures
        match run_refusal(cli) {
            Some((code, msg)) => r is Err && r->Err_0.code_of() == code && r->Err_0.text_of()
                == msg,
            None => r is Ok && carried(r->Ok_0, cli),
        },
{
    if cli.json && !cli.dry_run {
        return Err(CliError::usage("--json requires --dry-run"));
    }
    if cli.report.is_some() && cli.report_dir.is_some() {
        return Err(CliError::usage("--report and --report-dir are mutually exclusive"));
    }
    if cli.dry_run && (cli.report.is_some() || cli.report_dir.is_some()) {
        return Err(CliError::usage("--report / --report-dir require a real run (not --dry-run)"));
    }
    let job_file = if cli.file.is_some() {
        clone_opt(&cli.file)
    } else {
        clone_opt(&cli.job_positional)
    };
    if job_file.is_some() && cli.input.is_some() {
        return Err(CliError::usage("job file and -i / --input are mutually exclusive"));
    }
    if job_file.is_none() && cli.input.is_none() {
        return Err(CliError::with_code(3, owned("missing -i / --input or job file")));
    }
    Ok(
        RunArgs {
            input: cli.input,
            job_file,
            asr: cli.asr,
            model: cli.model,
            device: cli.device,
            flash: cli.flash,
            docs: cli.docs,
            output_dir: cli.output_dir,
            working_dir: cli.working_dir,
            dry_run: cli.dry_run,
            json: cli.json,
            progress: match cli.progress {
                Some(p) => Some(p.mode()),
                None => None,
            },
            quiet: cli.quiet,
            continue_on_error: cli.continue_on_error,
            overwrite: cli.overwrite,
            report: cli.report,
            report_dir: cli.report_dir,
            interactive: false,
        },
    )
}

/// The progress mode of a run: none when quiet, else the flag, else the configured mode,
/// else text.
pub open spec fn progress_for(a: RunArgs, file_progress: Option<Seq<char>>) -> ProgressMode {
    if a.quiet {
        ProgressMode::Quiet
    } else if a.progress is Some {
        a.progress->0
    } else {
        match file_progress {
            Some(p) => match progress_named(p) {
                Some(m) => m,
                None => ProgressMode::Text,
            },
            None => ProgressMode::Text,
        }
    }
}

impl RunArgs {
    pub fn effective_progress(&self, file_progress: Option<&str>) -> (m: ProgressMode)
        ensures
            m == progress_for(
                *self,
                match file_progress {
                    Some(p) => Some(p@),
                    None => None,
                },
            ),
    {
        if self.quiet {
            return ProgressMode::Quiet;
        }
        if let Some(p) = self.progress {
            return p;
        }
        match file_progress {
            Some(p) => match ProgressMode::parse(p) {
                Some(m) => m,
                None => ProgressMode::Text,
            },
            None => ProgressMode::Text,
        }
    }
}

/// First arguments that name a command or a top-level flag.
pub open spec fn known_first(s: Seq<char>) -> bool {
    ||| s == "run"@ ||| s == "config"@ ||| s == "help"@ ||| s == "--help"@ ||| s == "-h"@
    ||| s == "--version"@ ||| s == "-V"@
}

pub open spec fn views(v: Seq<String>) -> Seq<Seq<char>> {
    v.map_values(|s: String| s@)
}

/// `vd-pipeline -i FILE` is shorthand for `vd-pipeline run -i FILE`: `run` goes in front of
/// an argument list that does not start with a command.
/// `args` with `run` put in front of arguments that do not start with a command.
pub open spec fn normalized(args: Seq<Seq<char>>) -> Seq<Seq<char>> {
    if args.len() >= 2 && !known_first(args[1]) {
        args.insert(1, "run"@)
    } else {
        args
    }
}

pub fn normalize_argv(args: Vec<String>) -> (r: Vec<String>)
    ensures
        views(r@) == normalized(views(args@)),
{
    if args.len() < 2 {
        return args;
    }
    let first = args[1].as_str();
    let known = str_eq(first, "run") || str_eq(first, "config") || str_eq(first, "help")
        || str_eq(first, "--help") || str_eq(first, "-h") || str_eq(first, "--version")
        || str_eq(first, "-V");
    if known {
        return args;
    }
    let mut out = args;
    let ghost before = out@;
    out.insert(1, owned("run"));
    assert(views(out@) =~= views(before).insert(1, "run"@));
    out
}

/// Normalizing an argument list twice is normalizing it once: the inserted `run` is a
/// command.
pub proof fn law_normalize_argv_idempotent(args: Seq<Seq<char>>)
    ensures
        normalized(normalized(args)) == normalized(args),
{
    if args.len() >= 2 && !known_first(args[1]) {
        assert(normalized(args)[1] == "run"@);
        assert(known_first("run"@));
    }
}

/// Where the Job of a run comes from.
#[derive(Debug)]
pub enum JobSource {
    /// A Job file to load.
    File(String),
    /// An input file for the default Job.
    Input(String),
}

pub fn job_source(args: &RunArgs) -> (r: Result<JobSource, CliError>)
    ensures
        match args.job_file {
            Some(f) => r is Ok && (r->Ok_0 matches JobSource::File(p) && p@ == f@),
            None => match args.input {
                Some(i) => r is Ok && (r->Ok_0 matches JobSource::Input(p) && p@ == i@),
                None => r is Err && r->Err_0.code_of() == 3 && r->Err_0.text_of()
                    == "missing -i / --input"@,
            },
        },
{
    match &args.job_file {
        Some(f) => Ok(JobSource::File(f.clone())),
        None => match &args.input {
            Some(i) => Ok(JobSource::Input(i.clone())),
            None => Err(CliError::with_code(3, owned("missing -i / --input"))),
        },
    }
}

/// A run continues past failures when asked on the command line or in the config file.
pub fn run_continues_on_error(args: &RunArgs, file: &FileConfig) -> (b: bool)
    ensures
        b == (args.continue_on_error || (match file.continue_on_error {
            Some(c) => c,
            None => false,
        })),
{
    args.continue_on_error || match file.continue_on_error {
        Some(c) => c,
        None => false,
    }
}

/// The engine name a run asks for: the flag, unless it is the built-in default, in which
/// case the configured engine (or the default).
pub open spec fn asr_for(args: RunArgs, file: FileConfig) -> Seq<char> {
    if args.asr@ == "gigaam"@ {
        match file.asr {
            Some(a) => a@,
            None => "gigaam"@,
        }
    } else {
        args.asr@
    }
}

/// The default Job of a run on `audio`, or the usage error for an unknown engine.
pub fn default_job_for_run(
    args: &RunArgs,
    file: &FileConfig,
    audio: String,
    continue_on_error: bool,
    macos: bool,
) -> (r: Result<Job, CliError>)
    ensures
        match parse_engine(asr_for(*args, *file)) {
            Some(engine) => r is Ok && default_job_ok(
                r->Ok_0,
                DefaultJobArgs {
                    audio,
                    engine,
                    model: args.model,
                    device: args.device,
                    flash: args.flash,
                    speed: None,
                    docs: args.docs,
                    output_dir: args.output_dir,
                    working_dir: args.working_dir,
                    continue_on_error,
                    overwrite: args.overwrite,
                },
                macos,
            ),
            None => r is Err && r->Err_0.code_of() == 2 && r->Err_0.text_of() == "invalid --asr: "@
                + args.asr@,
        },
{
    let asr = if str_eq(args.asr.as_str(), "gigaam") {
        match &file.asr {
            Some(a) => a.clone(),
            None => owned("gigaam"),
        }
    } else {
        args.asr.clone()
    };
    let engine = match TranscribeEngine::parse(asr.as_str()) {
        Some(e) => e,
        None => return Err(CliError::usage(concat("invalid --asr: ", args.asr.as_str()).as_str())),
    };
    let dargs = DefaultJobArgs {
        audio,
        engine,
        model: args.model.clone(),
        device: args.device.clone(),
        flash: args.flash,
        speed: None,
        docs: args.docs.clone(),
        output_dir: args.output_dir.clone(),
        working_dir: args.working_dir.clone(),
        continue_on_error,
        overwrite: args.overwrite,
    };
    let job = default_job(&dargs, macos);
    Ok(job)
}

} // verus!
