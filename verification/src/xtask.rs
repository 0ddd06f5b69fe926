//! The tasks of the project: the commands that they run, and in what order.
use vstd::prelude::*;

use crate::storage::sstable::{join, join_path};
use crate::style::{bold, green, in_bold, in_color, red, yellow};
use crate::text::{cat, cat_text, decimal, decimal_text, join_texts, joined, text, texts};

verus! {

/// A tool that shows where a program spends its time.
#[derive(Debug, Clone, Copy, PartialEq, Eq, Structural)]
pub enum ProfileTool {
    Perf,
    Flamegraph,
    StraceSyscall,
    StraceIo,
}

/// A value of a benchmark that should not get worse.
#[derive(Debug, Clone, Copy, PartialEq, Eq, Structural)]
pub enum RegressionMetric {
    InsertPerSecond,
    RangePerSecond,
    InsertLatencyP50,
    RangeLatencyP50,
    InsertLatencyP99,
    RangeLatencyP99,
    RssMaxKb,
}

/// A task of the project.
#[derive(Debug, Clone, Copy, PartialEq, Eq, Structural)]
pub enum TaskKind {
    Bench,
    Smoke,
    Prep,
    Profile,
    History,
    Compare,
    Trend,
}

/// The name of a task.
pub open spec fn task_name(t: TaskKind) -> Seq<char> {
    match t {
        TaskKind::Bench => "xtask bench"@,
        TaskKind::Smoke => "xtask smoke"@,
        TaskKind::Prep => "xtask prep"@,
        TaskKind::Profile => "xtask profile"@,
        TaskKind::History => "xtask history"@,
        TaskKind::Compare => "xtask cmp"@,
        TaskKind::Trend => "xtask trend"@,
    }
}

impl TaskKind {
    /// The name of the task.
    pub fn name(&self) -> (s: &'static str)
        ensures
            s@ == task_name(*self),
    {
        match self {
            TaskKind::Bench => "xtask bench",
            TaskKind::Smoke => "xtask smoke",
            TaskKind::Prep => "xtask prep",
            TaskKind::Profile => "xtask profile",
            TaskKind::History => "xtask history",
            TaskKind::Compare => "xtask cmp",
            TaskKind::Trend => "xtask trend",
        }
    }

    /// Whether the task can be run.
    pub fn is_implemented(&self) -> (r: bool)
        ensures
            r == (self is Bench || self is Smoke || self is Prep || self is Compare),
    {
        match self {
            TaskKind::Bench => true,
            TaskKind::Smoke => true,
            TaskKind::Prep => true,
            TaskKind::Compare => true,
            _ => false,
        }
    }
}

/// The settings of a benchmark task.
#[derive(Debug)]
pub struct BenchArgs {
    pub tag: String,
    pub duration: u32,
    pub workloads: Vec<String>,
    pub concurrency_min: u32,
    pub concurrency_max: u32,
    pub concurrency_step: u32,
    pub memtable_mb: u64,
    pub addr: String,
    pub noreg: bool,
    pub set_baseline: bool,
    pub baseline: Option<String>,
    pub server_args: Vec<String>,
    pub bench_args: Vec<String>,
    pub prep: bool,
}

/// A note on the course of a task.
pub open spec fn info_line(label: Seq<char>, msg: Seq<char>) -> Seq<char> {
    cat(seq![in_color("32"@, "=> INFO"@), ": "@, in_bold(label), ": "@, in_bold(msg)])
}

/// A warning.
pub open spec fn warn_line(msg: Seq<char>) -> Seq<char> {
    cat(seq![in_bold(in_color("33"@, "=> WARN"@)), ": "@, in_bold(msg)])
}

/// A failure.
pub open spec fn error_line(msg: Seq<char>) -> Seq<char> {
    cat(seq![in_bold(in_color("31"@, "=> ERRO"@)), ": "@, in_bold(msg)])
}

/// A note on the course of a task.
pub fn info(label: &str, msg: &str) -> (r: String)
    ensures
        r@ == info_line(label@, msg@),
{
    let parts = vec![green("=> INFO"), text(": "), bold(label), text(": "), bold(msg)];
    assert(texts(parts@) =~= seq![
        in_color("32"@, "=> INFO"@),
        ": "@,
        in_bold(label@),
        ": "@,
        in_bold(msg@),
    ]);
    cat_text(&parts)
}

/// A warning.
pub fn warn(msg: &str) -> (r: String)
    ensures
        r@ == warn_line(msg@),
{
    let parts = vec![bold(yellow("=> WARN").as_str()), text(": "), bold(msg)];
    assert(texts(parts@) =~= seq![in_bold(in_color("33"@, "=> WARN"@)), ": "@, in_bold(msg@)]);
    cat_text(&parts)
}

/// A failure.
pub fn error(msg: &str) -> (r: String)
    ensures
        r@ == error_line(msg@),
{
    let parts = vec![bold(red("=> ERRO").as_str()), text(": "), bold(msg)];
    assert(texts(parts@) =~= seq![in_bold(in_color("31"@, "=> ERRO"@)), ": "@, in_bold(msg@)]);
    cat_text(&parts)
}

/// The directory of a benchmark that was started at `ts`.
pub open spec fn run_dir_path(ts: Seq<char>, tag: Seq<char>) -> Seq<char> {
    cat(seq!["bench/runs/"@, ts, "__"@, tag])
}

/// The directory of a benchmark that was started at `ts`.
pub fn run_dir(ts: &str, tag: &str) -> (r: String)
    ensures
        r@ == run_dir_path(ts@, tag@),
{
    let parts = vec![text("bench/runs/"), text(ts), text("__"), text(tag)];
    assert(texts(parts@) =~= seq!["bench/runs/"@, ts@, "__"@, tag@]);
    cat_text(&parts)
}

/// Both lists, one behind the other.
fn append_args(a: Vec<String>, b: &Vec<String>) -> (v: Vec<String>)
    ensures
        texts(v@) == texts(a@) + texts(b@),
{
    let ghost first = texts(a@);
    let mut v = a;
    let mut i: usize = 0;
    assert(first + texts(b@.take(0)) =~= first);
    while i < b.len()
        invariant
            i <= b@.len(),
            texts(v@) == first + texts(b@.take(i as int)),
        decreases b@.len() - i,
    {
        let ghost before = texts(v@);
        v.push(text(b[i].as_str()));
        assert(texts(v@) =~= before.push(b@[i as int]@));
        assert(texts(b@.take(i + 1)) =~= texts(b@.take(i as int)).push(b@[i as int]@));
        assert(texts(v@) =~= first + texts(b@.take(i + 1)));
        i += 1;
    }
    assert(b@.take(b@.len() as int) =~= b@);
    v
}

/// What cargo is asked to do to start the server.
pub open spec fn server_command(a: BenchArgs, dir: Seq<char>) -> Seq<Seq<char>> {
    seq![
        "run"@,
        "-p"@,
        "logregatord"@,
        "--bin"@,
        "server"@,
        "--"@,
        "--addr"@,
        a.addr@,
        "--data-dir"@,
        join_path(dir, "server_data"@),
        "--memtable-mb"@,
        decimal(a.memtable_mb as nat),
        "--batch-size"@,
        "8192"@,
    ] + texts(a.server_args@)
}

/// What cargo is asked to do to start the server.
pub fn server_args(a: &BenchArgs, dir: &str) -> (v: Vec<String>)
    ensures
        texts(v@) == server_command(*a, dir@),
{
    let parts = vec![
        text("run"),
        text("-p"),
        text("logregatord"),
        text("--bin"),
        text("server"),
        text("--"),
        text("--addr"),
        text(a.addr.as_str()),
        text("--data-dir"),
        join(dir, "server_data"),
        text("--memtable-mb"),
        decimal_text(a.memtable_mb as u64),
        text("--batch-size"),
        text("8192"),
    ];
    assert(texts(parts@) =~= seq![
        "run"@,
        "-p"@,
        "logregatord"@,
        "--bin"@,
        "server"@,
        "--"@,
        "--addr"@,
        a.addr@,
        "--data-dir"@,
        join_path(dir@, "server_data"@),
        "--memtable-mb"@,
        decimal(a.memtable_mb as nat),
        "--batch-size"@,
        "8192"@,
    ]);
    append_args(parts, &a.server_args)
}

/// What cargo is asked to do to run the benchmark.
pub open spec fn bench_command(a: BenchArgs, dir: Seq<char>) -> Seq<Seq<char>> {
    seq![
        "run"@,
        "-p"@,
        "logregator-tools"@,
        "--bin"@,
        "bench"@,
        "--"@,
        "--tag"@,
        a.tag@,
        "--duration"@,
        decimal(a.duration as nat),
        "--workloads"@,
        joined(texts(a.workloads@), ","@),
        "--concurrency-min"@,
        decimal(a.concurrency_min as nat),
        "--concurrency-max"@,
        decimal(a.concurrency_max as nat),
        "--concurrency-step"@,
        decimal(a.concurrency_step as nat),
        "--addr"@,
        a.addr@,
        "--out-dir"@,
        dir,
    ] + texts(a.bench_args@)
}

/// What cargo is asked to do to run the benchmark.
pub fn bench_args(a: &BenchArgs, dir: &str) -> (v: Vec<String>)
    ensures
        texts(v@) == bench_command(*a, dir@),
{
    let parts = vec![
        text("run"),
        text("-p"),
        text("logregator-tools"),
        text("--bin"),
        text("bench"),
        text("--"),
        text("--tag"),
        text(a.tag.as_str()),
        text("--duration"),
        decimal_text(a.duration as u64),
        text("--workloads"),
        join_texts(&a.workloads, ","),
        text("--concurrency-min"),
        decimal_text(a.concurrency_min as u64),
        text("--concurrency-max"),
        decimal_text(a.concurrency_max as u64),
        text("--concurrency-step"),
        decimal_text(a.concurrency_step as u64),
        text("--addr"),
        text(a.addr.as_str()),
        text("--out-dir"),
        text(dir),
    ];
    assert(texts(parts@) =~= seq![
        "run"@,
        "-p"@,
        "logregator-tools"@,
        "--bin"@,
        "bench"@,
        "--"@,
        "--tag"@,
        a.tag@,
        "--duration"@,
        decimal(a.duration as nat),
        "--workloads"@,
        joined(texts(a.workloads@), ","@),
        "--concurrency-min"@,
        decimal(a.concurrency_min as nat),
        "--concurrency-max"@,
        decimal(a.concurrency_max as nat),
        "--concurrency-step"@,
        decimal(a.concurrency_step as nat),
        "--addr"@,
        a.addr@,
        "--out-dir"@,
        dir@,
    ]);
    append_args(parts, &a.bench_args)
}

/// What cargo is asked to do to compare the benchmark with the baseline.
pub open spec fn regression_command(baseline: Seq<char>, dir: Seq<char>) -> Seq<Seq<char>> {
    seq![
        "run"@,
        "-p"@,
        "logregator-tools"@,
        "--bin"@,
        "cmp"@,
        "--"@,
        "-b"@,
        baseline,
        "-t"@,
        join_path(dir, "benchmark_result.json"@),
        "--out-file"@,
        join_path(dir, "reg.json"@),
        "--reg"@,
    ]
}

/// What cargo is asked to do to compare the benchmark with the baseline.
pub fn regression_args(baseline: &str, dir: &str) -> (v: Vec<String>)
    ensures
        texts(v@) == regression_command(baseline@, dir@),
{
    let parts = vec![
        text("run"),
        text("-p"),
        text("logregator-tools"),
        text("--bin"),
        text("cmp"),
        text("--"),
        text("-b"),
        text(baseline),
        text("-t"),
        join(dir, "benchmark_result.json"),
        text("--out-file"),
        join(dir, "reg.json"),
        text("--reg"),
    ];
    assert(texts(parts@) =~= seq![
        "run"@,
        "-p"@,
        "logregator-tools"@,
        "--bin"@,
        "cmp"@,
        "--"@,
        "-b"@,
        baseline@,
        "-t"@,
        join_path(dir@, "benchmark_result.json"@),
        "--out-file"@,
        join_path(dir@, "reg.json"@),
        "--reg"@,
    ]);
    parts
}

/// What cargo is asked to do to make the benchmark the baseline.
pub open spec fn baseline_command(dir: Seq<char>, tag: Seq<char>) -> Seq<Seq<char>> {
    seq![
        "run"@,
        "-p"@,
        "logregator-tools"@,
        "--bin"@,
        "baseline"@,
        "--"@,
        "current"@,
        dir,
        "--tag"@,
        tag,
    ]
}

/// What cargo is asked to do to make the benchmark the baseline.
pub fn baseline_args(dir: &str, tag: &str) -> (v: Vec<String>)
    ensures
        texts(v@) == baseline_command(dir@, tag@),
{
    let parts = vec![
        text("run"),
        text("-p"),
        text("logregator-tools"),
        text("--bin"),
        text("baseline"),
        text("--"),
        text("current"),
        text(dir),
        text("--tag"),
        text(tag),
    ];
    assert(texts(parts@) =~= seq![
        "run"@,
        "-p"@,
        "logregator-tools"@,
        "--bin"@,
        "baseline"@,
        "--"@,
        "current"@,
        dir@,
        "--tag"@,
        tag@,
    ]);
    parts
}

/// The flag with its value, if it has one.
pub open spec fn option_args(flag: Seq<char>, value: Option<Seq<char>>) -> Seq<Seq<char>> {
    match value {
        Some(v) => seq![flag, v],
        None => Seq::empty(),
    }
}

/// The flag, if it is set.
pub open spec fn flag_args(flag: Seq<char>, set: bool) -> Seq<Seq<char>> {
    if set {
        seq![flag]
    } else {
        Seq::empty()
    }
}

/// What a comparison with a baseline is asked for.
#[derive(Debug)]
pub struct CompareArgs {
    pub target: String,
    pub baseline: String,
    pub goal: Option<String>,
    pub reg: bool,
    pub out_file: Option<String>,
    pub verbose: bool,
}

/// The characters of a text, if there is one.
pub open spec fn option_view(s: Option<String>) -> Option<Seq<char>> {
    match s {
        Some(s) => Some(s@),
        None => None,
    }
}

/// What cargo is asked to do to compare results with a baseline.
pub open spec fn compare_command(a: CompareArgs) -> Seq<Seq<char>> {
    seq![
        "run"@,
        "-p"@,
        "logregator-tools"@,
        "--bin"@,
        "cmp"@,
        "--"@,
        "-b"@,
        a.baseline@,
        "-t"@,
        a.target@,
    ] + option_args("--goals"@, option_view(a.goal)) + flag_args("--reg"@, a.reg) + flag_args(
        "--verbose"@,
        a.verbose,
    ) + option_args("--out-file"@, option_view(a.out_file))
}

fn push_option(v: &mut Vec<String>, flag: &str, value: &Option<String>)
    ensures
        texts(final(v)@) == texts(old(v)@) + option_args(flag@, option_view(*value)),
{
    let ghost before = texts(v@);
    if let Some(s) = value {
        v.push(text(flag));
        v.push(text(s.as_str()));
        assert(texts(v@) =~= before + seq![flag@, s@]);
    } else {
        assert(before + Seq::<Seq<char>>::empty() =~= before);
    }
}

fn push_flag(v: &mut Vec<String>, flag: &str, set: bool)
    ensures
        texts(final(v)@) == texts(old(v)@) + flag_args(flag@, set),
{
    let ghost before = texts(v@);
    if set {
        v.push(text(flag));
        assert(texts(v@) =~= before + seq![flag@]);
    } else {
        assert(before + Seq::<Seq<char>>::empty() =~= before);
    }
}

/// What cargo is asked to do to compare results with a baseline.
pub fn compare_args(a: &CompareArgs) -> (v: Vec<String>)
    ensures
        texts(v@) == compare_command(*a),
{
    let mut v = vec![
        text("run"),
        text("-p"),
        text("logregator-tools"),
        text("--bin"),
        text("cmp"),
        text("--"),
        text("-b"),
        text(a.baseline.as_str()),
        text("-t"),
        text(a.target.as_str()),
    ];
    assert(texts(v@) =~= seq![
        "run"@,
        "-p"@,
        "logregator-tools"@,
        "--bin"@,
        "cmp"@,
        "--"@,
        "-b"@,
        a.baseline@,
        "-t"@,
        a.target@,
    ]);
    push_option(&mut v, "--goals", &a.goal);
    push_flag(&mut v, "--reg", a.reg);
    push_flag(&mut v, "--verbose", a.verbose);
    push_option(&mut v, "--out-file", &a.out_file);
    v
}

/// What the text under a field of a JSON object is, as `serde_json` reads it.
pub uninterp spec fn text_field(contents: Seq<char>, field: Seq<char>) -> Option<Seq<char>>;

/// `serde_json::from_str` into a `Value`, of which `get` and `as_str` take the field: the result
/// depends on the contents and the name of the field alone. There is none where the contents are
/// no JSON, are no object, or have no text under the field.
#[verifier::external_body]
fn json_text(contents: &str, field: &str) -> (r: Option<String>)
    ensures
        r is Some <==> text_field(contents@, field@) is Some,
        r matches Some(s) ==> text_field(contents@, field@) == Some(s@),
{
    let value = serde_json::from_str::<serde_json::Value>(contents).ok()?;
    let text = value.get(field)?.as_str()?;
    Some(text.to_string())
}

/// The directory of the baseline: the one that was given, else the one under `baseline` in the
/// contents of the pointer file, else none.
pub fn baseline_dir(given: &Option<String>, contents: &str) -> (r: String)
    ensures
        given matches Some(s) ==> r@ == s@,
        given is None ==> (text_field(contents@, "baseline"@) matches Some(s) ==> r@ == s),
        given is None && text_field(contents@, "baseline"@) is None ==> r@ == Seq::<char>::empty(),
{
    chosen_baseline(given, &json_text(contents, "baseline"))
}

/// The directory of the baseline: the one that was given, else the one that is pointed to, else
/// none.
pub fn chosen_baseline(given: &Option<String>, pointer: &Option<String>) -> (r: String)
    ensures
        given matches Some(s) ==> r@ == s@,
        given is None ==> (pointer matches Some(s) ==> r@ == s@),
        given is None && pointer is None ==> r@ == Seq::<char>::empty(),
{
    match given {
        Some(s) => text(s.as_str()),
        None => match pointer {
            Some(s) => text(s.as_str()),
            None => {
                let r = String::new();
                assert(r@ =~= Seq::<char>::empty());
                r
            },
        },
    }
}

/// A step of the benchmark task.
#[derive(Debug, Clone, Copy, PartialEq, Eq, Structural)]
pub enum Step {
    Prep,
    CreateDir,
    LinkLatest,
    FreePort,
    SpawnServer,
    AwaitServer,
    RunBench,
    StopServer,
    FindBaseline,
    Compare,
    SkipCompare,
    CaptureBaseline,
    Report,
    Finished,
    Failed,
}

/// How long the task tries to free the port, in milliseconds.
pub const PORT_LIMIT_MS: u64 = 10_000;

/// How long the task pauses before it tries again to free the port, in milliseconds.
pub const PORT_PAUSE_MS: u64 = 1_000;

/// How long the task waits for the server, in milliseconds.
pub const READY_LIMIT_MS: u64 = 30_000;

/// How long the task pauses before it looks again for the server, in milliseconds.
pub const READY_PAUSE_MS: u64 = 500;

/// What is done about something that the task waits for.
#[derive(Debug, Clone, Copy, PartialEq, Eq, Structural)]
pub enum Wait {
    /// Try; if that fails, pause for so many milliseconds.
    Retry(u64),
    /// Do not try any more.
    GiveUp,
}

/// What is done after `elapsed_ms` milliseconds of waiting for something that is tried for
/// `limit_ms` milliseconds, with pauses of `pause_ms`.
pub fn wait_step(elapsed_ms: u64, limit_ms: u64, pause_ms: u64) -> (r: Wait)
    ensures
        elapsed_ms < limit_ms ==> r == Wait::Retry(pause_ms),
        elapsed_ms >= limit_ms ==> r == Wait::GiveUp,
{
    if elapsed_ms < limit_ms {
        Wait::Retry(pause_ms)
    } else {
        Wait::GiveUp
    }
}

/// How a step went.
#[derive(Debug, Clone, Copy, PartialEq, Eq, Structural)]
pub enum StepOutcome {
    /// It was done, or what it looked for is there.
    Done,
    /// It ran and ended with a failure, or what it looked for is not there.
    Negative,
    /// It could not be carried out.
    Error,
}

/// What follows once the comparison is dealt with.
pub open spec fn after_compare(set_baseline: bool) -> Step {
    if set_baseline {
        Step::CaptureBaseline
    } else {
        Step::Report
    }
}

/// The first step: the project is prepared if that is asked for.
pub open spec fn first_step(prep: bool) -> Step {
    if prep {
        Step::Prep
    } else {
        Step::CreateDir
    }
}

/// The step behind `step`. What goes wrong before the benchmark is over fails the task. A
/// comparison or a baseline that goes badly does not, but one that cannot be carried out does.
/// Without a baseline the comparison is skipped.
pub open spec fn step_after(step: Step, how: StepOutcome, noreg: bool, set_baseline: bool) -> Step {
    match step {
        Step::Finished => Step::Finished,
        Step::Failed => Step::Failed,
        Step::FreePort => if how is Error {
            Step::Failed
        } else {
            Step::SpawnServer
        },
        Step::StopServer => if noreg {
            after_compare(set_baseline)
        } else {
            Step::FindBaseline
        },
        Step::FindBaseline => if how is Done {
            Step::Compare
        } else {
            Step::SkipCompare
        },
        Step::Compare => if how is Error {
            Step::Failed
        } else {
            after_compare(set_baseline)
        },
        Step::SkipCompare => after_compare(set_baseline),
        Step::CaptureBaseline => if how is Error {
            Step::Failed
        } else {
            Step::Report
        },
        Step::Report => Step::Finished,
        _ => if !(how is Done) {
            Step::Failed
        } else {
            match step {
                Step::Prep => Step::CreateDir,
                Step::CreateDir => Step::LinkLatest,
                Step::LinkLatest => Step::FreePort,
                Step::SpawnServer => Step::AwaitServer,
                Step::AwaitServer => Step::RunBench,
                _ => Step::StopServer,
            }
        },
    }
}

/// How many steps are left at most.
pub open spec fn steps_left(step: Step) -> nat {
    match step {
        Step::Prep => 13,
        Step::CreateDir => 12,
        Step::LinkLatest => 11,
        Step::FreePort => 10,
        Step::SpawnServer => 9,
        Step::AwaitServer => 8,
        Step::RunBench => 7,
        Step::StopServer => 6,
        Step::FindBaseline => 5,
        Step::Compare => 4,
        Step::SkipCompare => 4,
        Step::CaptureBaseline => 2,
        Step::Report => 1,
        Step::Finished => 0,
        Step::Failed => 0,
    }
}

/// The task comes to an end: every step but the last two leads closer to it.
pub proof fn law_bench_ends(step: Step, how: StepOutcome, noreg: bool, set_baseline: bool)
    ensures
        !(step is Finished) && !(step is Failed) ==> steps_left(
            step_after(step, how, noreg, set_baseline),
        ) < steps_left(step),
{
}

impl BenchArgs {
    /// The first step of the task.
    pub fn start(&self) -> (r: Step)
        ensures
            r == first_step(self.prep),
    {
        if self.prep {
            Step::Prep
        } else {
            Step::CreateDir
        }
    }

    /// The step behind `step`, which went as `how` says.
    pub fn run_bench(&self, step: Step, how: StepOutcome) -> (r: Step)
        ensures
            r == step_after(step, how, self.noreg, self.set_baseline),
    {
        let tail = if self.set_baseline {
            Step::CaptureBaseline
        } else {
            Step::Report
        };
        let done = match how {
            StepOutcome::Done => true,
            _ => false,
        };
        let broken = match how {
            StepOutcome::Error => true,
            _ => false,
        };
        match step {
            Step::Finished => Step::Finished,
            Step::Failed => Step::Failed,
            Step::FreePort => if broken {
                Step::Failed
            } else {
                Step::SpawnServer
            },
            Step::StopServer => if self.noreg {
                tail
            } else {
                Step::FindBaseline
            },
            Step::FindBaseline => if done {
                Step::Compare
            } else {
                Step::SkipCompare
            },
            Step::Compare => if broken {
                Step::Failed
            } else {
                tail
            },
            Step::SkipCompare => tail,
            Step::CaptureBaseline => if broken {
                Step::Failed
            } else {
                Step::Report
            },
            Step::Report => Step::Finished,
            _ => if !done {
                Step::Failed
            } else {
                match step {
                    Step::Prep => Step::CreateDir,
                    Step::CreateDir => Step::LinkLatest,
                    Step::LinkLatest => Step::FreePort,
                    Step::SpawnServer => Step::AwaitServer,
                    Step::AwaitServer => Step::RunBench,
                    _ => Step::StopServer,
                }
            },
        }
    }
}

/// A command of cargo, what is told before it, and what is told if it fails.
#[derive(Debug)]
pub struct CargoStep {
    pub note: &'static str,
    pub args: Vec<String>,
    pub failure: &'static str,
}

/// What a command of cargo says.
pub struct CargoModel {
    pub note: Seq<char>,
    pub args: Seq<Seq<char>>,
    pub failure: Seq<char>,
}

impl View for CargoStep {
    type V = CargoModel;

    open spec fn view(&self) -> CargoModel {
        CargoModel { note: self.note@, args: texts(self.args@), failure: self.failure@ }
    }
}

/// The commands that prepare the project: build, lint and format.
pub fn prep_steps() -> (v: Vec<CargoStep>)
    ensures
        v@.len() == 3,
        v@[0]@ == (CargoModel {
            note: "building..."@,
            args: seq!["build"@, "--color"@, "always"@],
            failure: "cargo build failed"@,
        }),
        v@[1]@ == (CargoModel {
            note: "linting..."@,
            args: seq!["clippy"@, "--color"@, "always"@, "--"@, "-D"@, "warnings"@],
            failure: "cargo clippy failed"@,
        }),
        v@[2]@ == (CargoModel {
            note: "formatting..."@,
            args: seq!["fmt"@, "--color"@, "always"@],
            failure: "cargo fmt failed"@,
        }),
{
    let build = vec![text("build"), text("--color"), text("always")];
    let lint = vec![
        text("clippy"),
        text("--color"),
        text("always"),
        text("--"),
        text("-D"),
        text("warnings"),
    ];
    let fmt = vec![text("fmt"), text("--color"), text("always")];
    assert(texts(build@) =~= seq!["build"@, "--color"@, "always"@]);
    assert(texts(lint@) =~= seq![
        "clippy"@,
        "--color"@,
        "always"@,
        "--"@,
        "-D"@,
        "warnings"@,
    ]);
    assert(texts(fmt@) =~= seq!["fmt"@, "--color"@, "always"@]);
    vec![
        CargoStep { note: "building...", args: build, failure: "cargo build failed" },
        CargoStep { note: "linting...", args: lint, failure: "cargo clippy failed" },
        CargoStep { note: "formatting...", args: fmt, failure: "cargo fmt failed" },
    ]
}

/// What leads to each step of a benchmark. The server is stopped after a benchmark that went
/// through. The results are compared only where that is wanted and a baseline was found, and
/// become the baseline only where that is wanted. A step that must succeed and does not ends
/// the benchmark as failed; that there is no baseline does not.
pub proof fn law_steps_reached(step: Step, how: StepOutcome, noreg: bool, set_baseline: bool)
    ensures
        ({
            let next = step_after(step, how, noreg, set_baseline);
            &&& next is CreateDir <==> step is Prep && how is Done
            &&& next is LinkLatest <==> step is CreateDir && how is Done
            &&& next is FreePort <==> step is LinkLatest && how is Done
            &&& next is SpawnServer <==> step is FreePort && !(how is Error)
            &&& next is AwaitServer <==> step is SpawnServer && how is Done
            &&& next is RunBench <==> step is AwaitServer && how is Done
            &&& next is StopServer <==> step is RunBench && how is Done
            &&& next is FindBaseline <==> step is StopServer && !noreg
            &&& next is Compare <==> step is FindBaseline && how is Done
            &&& next is SkipCompare <==> step is FindBaseline && !(how is Done)
            &&& next is CaptureBaseline <==> set_baseline && (step is StopServer && noreg || step
                is SkipCompare || step is Compare && !(how is Error))
            &&& next is Report <==> step is CaptureBaseline && !(how is Error) || !set_baseline && (
            step is StopServer && noreg || step is SkipCompare || step is Compare && !(how
                is Error))
            &&& next is Finished <==> step is Report || step is Finished
            &&& next is Failed && how is Done ==> step is Failed
            &&& how is Error && (step is Prep || step is CreateDir || step is LinkLatest || step
                is FreePort || step is SpawnServer || step is AwaitServer || step is RunBench
                || step is Compare || step is CaptureBaseline) ==> next is Failed
            &&& !(next is Prep)
        }),
{
}

/// A benchmark begins with the preparation where that is wanted, and else without.
pub proof fn law_first_step(prep: bool)
    ensures
        first_step(prep) is Prep <==> prep,
        first_step(prep) is CreateDir <==> !prep,
{
}

/// Whether the value stands behind its flag.
pub open spec fn given_as(args: Seq<Seq<char>>, flag: Seq<char>, value: Seq<char>) -> bool {
    exists|i: int|
        0 <= i && i + 1 < args.len() && #[trigger] args[i] == flag && args[i + 1] == value
}

/// The server is started on the address that the benchmark goes to, with the data in the
/// directory of the run and with the memory tables of the size that is wanted. What else is to
/// be handed to it comes last.
pub proof fn law_server_command(a: BenchArgs, dir: Seq<char>)
    ensures
        given_as(server_command(a, dir), "--addr"@, a.addr@),
        given_as(server_command(a, dir), "--data-dir"@, join_path(dir, "server_data"@)),
        given_as(server_command(a, dir), "--memtable-mb"@, decimal(a.memtable_mb as nat)),
        given_as(server_command(a, dir), "--batch-size"@, "8192"@),
        given_as(server_command(a, dir), "--bin"@, "server"@),
        server_command(a, dir).skip(server_command(a, dir).len() - a.server_args@.len()) == texts(
            a.server_args@,
        ),
{
    let c = server_command(a, dir);
    assert(c[3] == "--bin"@ && c[4] == "server"@);
    assert(c[6] == "--addr"@ && c[7] == a.addr@);
    assert(c[8] == "--data-dir"@ && c[9] == join_path(dir, "server_data"@));
    assert(c[10] == "--memtable-mb"@ && c[11] == decimal(a.memtable_mb as nat));
    assert(c[12] == "--batch-size"@ && c[13] == "8192"@);
    assert(c.skip(c.len() - a.server_args@.len()) =~= texts(a.server_args@));
}

/// The benchmark is started with what was asked for, each value behind its flag. What else is to
/// be handed to it comes last.
pub proof fn law_bench_command(a: BenchArgs, dir: Seq<char>)
    ensures
        given_as(bench_command(a, dir), "--bin"@, "bench"@),
        given_as(bench_command(a, dir), "--tag"@, a.tag@),
        given_as(bench_command(a, dir), "--duration"@, decimal(a.duration as nat)),
        given_as(bench_command(a, dir), "--workloads"@, joined(texts(a.workloads@), ","@)),
        given_as(bench_command(a, dir), "--concurrency-min"@, decimal(a.concurrency_min as nat)),
        given_as(bench_command(a, dir), "--concurrency-max"@, decimal(a.concurrency_max as nat)),
        given_as(bench_command(a, dir), "--concurrency-step"@, decimal(a.concurrency_step as nat)),
        given_as(bench_command(a, dir), "--addr"@, a.addr@),
        given_as(bench_command(a, dir), "--out-dir"@, dir),
        bench_command(a, dir).skip(bench_command(a, dir).len() - a.bench_args@.len()) == texts(
            a.bench_args@,
        ),
{
    let c = bench_command(a, dir);
    assert(c[3] == "--bin"@ && c[4] == "bench"@);
    assert(c[6] == "--tag"@ && c[7] == a.tag@);
    assert(c[8] == "--duration"@ && c[9] == decimal(a.duration as nat));
    assert(c[10] == "--workloads"@ && c[11] == joined(texts(a.workloads@), ","@));
    assert(c[12] == "--concurrency-min"@ && c[13] == decimal(a.concurrency_min as nat));
    assert(c[14] == "--concurrency-max"@ && c[15] == decimal(a.concurrency_max as nat));
    assert(c[16] == "--concurrency-step"@ && c[17] == decimal(a.concurrency_step as nat));
    assert(c[18] == "--addr"@ && c[19] == a.addr@);
    assert(c[20] == "--out-dir"@ && c[21] == dir);
    assert(c.skip(c.len() - a.bench_args@.len()) =~= texts(a.bench_args@));
}

/// A run is compared with the baseline: the baseline is handed over as such, and the result of
/// the run as the target.
pub proof fn law_regression_command(baseline: Seq<char>, dir: Seq<char>, tag: Seq<char>)
    ensures
        given_as(regression_command(baseline, dir), "--bin"@, "cmp"@),
        given_as(regression_command(baseline, dir), "-b"@, baseline),
        given_as(
            regression_command(baseline, dir),
            "-t"@,
            join_path(dir, "benchmark_result.json"@),
        ),
        given_as(regression_command(baseline, dir), "--out-file"@, join_path(dir, "reg.json"@)),
        regression_command(baseline, dir).contains("--reg"@),
        given_as(baseline_command(dir, tag), "--bin"@, "baseline"@),
        given_as(baseline_command(dir, tag), "current"@, dir),
        given_as(baseline_command(dir, tag), "--tag"@, tag),
{
    let c = regression_command(baseline, dir);
    assert(c[3] == "--bin"@ && c[4] == "cmp"@);
    assert(c[6] == "-b"@ && c[7] == baseline);
    assert(c[8] == "-t"@ && c[9] == join_path(dir, "benchmark_result.json"@));
    assert(c[10] == "--out-file"@ && c[11] == join_path(dir, "reg.json"@));
    assert(c[12] == "--reg"@);
    let d = baseline_command(dir, tag);
    assert(d[3] == "--bin"@ && d[4] == "baseline"@);
    assert(d[6] == "current"@ && d[7] == dir);
    assert(d[8] == "--tag"@ && d[9] == tag);
}

/// Two results are compared with what was asked for, the baseline as such and the target as
/// such, and nothing is handed over that was not given.
pub proof fn law_compare_command(a: CompareArgs)
    ensures
        given_as(compare_command(a), "--bin"@, "cmp"@),
        given_as(compare_command(a), "-b"@, a.baseline@),
        given_as(compare_command(a), "-t"@, a.target@),
        a.goal matches Some(g) ==> given_as(compare_command(a), "--goals"@, g@),
        a.reg ==> compare_command(a).contains("--reg"@),
        a.verbose ==> compare_command(a).contains("--verbose"@),
        a.out_file matches Some(f) ==> given_as(compare_command(a), "--out-file"@, f@),
        compare_command(a).len() == 10 + (if a.goal is Some {
            2int
        } else {
            0
        }) + (if a.reg {
            1int
        } else {
            0
        }) + (if a.verbose {
            1int
        } else {
            0
        }) + (if a.out_file is Some {
            2int
        } else {
            0
        }),
{
    let c = compare_command(a);
    let head = 10int;
    let goals = option_args("--goals"@, option_view(a.goal));
    let reg = flag_args("--reg"@, a.reg);
    let verbose = flag_args("--verbose"@, a.verbose);
    let out = option_args("--out-file"@, option_view(a.out_file));
    assert(c[3] == "--bin"@ && c[4] == "cmp"@);
    assert(c[6] == "-b"@ && c[7] == a.baseline@);
    assert(c[8] == "-t"@ && c[9] == a.target@);
    if a.goal is Some {
        assert(c[head] == goals[0] && c[head + 1] == goals[1]);
    }
    let at = head + goals.len();
    if a.reg {
        assert(c[at] == reg[0]);
    }
    if a.verbose {
        assert(c[at + reg.len()] == verbose[0]);
    }
    if a.out_file is Some {
        let k = at + reg.len() + verbose.len();
        assert(c[k] == out[0] && c[k + 1] == out[1]);
    }
}

/// A baseline that is given is taken; else the one that is noted, and without either none.
pub proof fn law_baseline_chosen(given: Option<String>, pointer: Option<String>, r: String)
    requires
        call_ensures(chosen_baseline, (&given, &pointer), r),
    ensures
        given matches Some(s) ==> r@ == s@,
        given is None ==> (pointer matches Some(s) ==> r@ == s@),
        given is None && pointer is None ==> r@.len() == 0,
{
}

/// What is noted of a baseline is read from the field of that name, and only where none is given.
pub proof fn law_baseline_read(given: Option<String>, contents: &str, r: String)
    requires
        call_ensures(baseline_dir, (&given, contents), r),
    ensures
        given matches Some(s) ==> r@ == s@,
        given is None ==> r@ == (match text_field(contents@, "baseline"@) {
            Some(s) => s,
            None => Seq::empty(),
        }),
{
}

/// It is waited as long as the limit is not reached, each time for the pause, and then no more.
pub proof fn law_waiting(elapsed_ms: u64, limit_ms: u64, pause_ms: u64, r: Wait)
    requires
        call_ensures(wait_step, (elapsed_ms, limit_ms, pause_ms), r),
    ensures
        r is GiveUp <==> elapsed_ms >= limit_ms,
        r matches Wait::Retry(ms) ==> ms == pause_ms,
{
}

/// The tasks that are there: benchmarks, smoke tests, preparation and comparison.
pub proof fn law_tasks(t: TaskKind, r: bool)
    requires
        call_ensures(TaskKind::is_implemented, (&t,), r),
    ensures
        r <==> !(t is Profile || t is History || t is Trend),
{
}

/// The preparation builds, then lints with warnings as errors, then formats.
pub proof fn law_preparation(v: Vec<CargoStep>)
    requires
        call_ensures(prep_steps, (), v),
    ensures
        v@.len() == 3,
        v@[0]@.args[0] == "build"@,
        v@[1]@.args[0] == "clippy"@,
        v@[1]@.args.contains("warnings"@),
        v@[2]@.args[0] == "fmt"@,
{
    assert(v@[1]@.args[5] == "warnings"@);
}

/// What is run is what is stated of each command, and a benchmark goes from step to step as
/// stated.
pub proof fn law_commands_run(
    a: BenchArgs,
    dir: &str,
    server: Vec<String>,
    bench: Vec<String>,
    baseline: &str,
    reg: Vec<String>,
    tag: &str,
    base: Vec<String>,
    c: CompareArgs,
    other: Vec<String>,
    step: Step,
    how: StepOutcome,
    first: Step,
    next: Step,
)
    requires
        call_ensures(server_args, (&a, dir), server),
        call_ensures(bench_args, (&a, dir), bench),
        call_ensures(regression_args, (baseline, dir), reg),
        call_ensures(baseline_args, (dir, tag), base),
        call_ensures(compare_args, (&c,), other),
        call_ensures(BenchArgs::start, (&a,), first),
        call_ensures(BenchArgs::run_bench, (&a, step, how), next),
    ensures
        texts(server@) == server_command(a, dir@),
        texts(bench@) == bench_command(a, dir@),
        texts(reg@) == regression_command(baseline@, dir@),
        texts(base@) == baseline_command(dir@, tag@),
        texts(other@) == compare_command(c),
        first == first_step(a.prep),
        next == step_after(step, how, a.noreg, a.set_baseline),
{
}

/// What is noted: a note is green, a warning yellow and an error red, and the words stand behind.
pub proof fn law_notes(label: Seq<char>, msg: Seq<char>)
    ensures
        info_line(label, msg) == in_color("32"@, "=> INFO"@) + ": "@ + in_bold(label) + ": "@
            + in_bold(msg),
        warn_line(msg) == in_bold(in_color("33"@, "=> WARN"@)) + ": "@ + in_bold(msg),
        error_line(msg) == in_bold(in_color("31"@, "=> ERRO"@)) + ": "@ + in_bold(msg),
{
    reveal_with_fuel(cat, 6);
    let none = Seq::<char>::empty();
    let a = seq![in_color("32"@, "=> INFO"@), ": "@, in_bold(label), ": "@, in_bold(msg)];
    let b = seq![in_bold(in_color("33"@, "=> WARN"@)), ": "@, in_bold(msg)];
    let c = seq![in_bold(in_color("31"@, "=> ERRO"@)), ": "@, in_bold(msg)];
    assert(cat(a) =~= a[0] + a[1] + a[2] + a[3] + a[4]);
    assert(cat(b) =~= b[0] + b[1] + b[2]);
    assert(cat(c) =~= c[0] + c[1] + c[2]);
}

/// The directory of a run is named by its time and its tag.
pub proof fn law_run_dir(ts: Seq<char>, tag: Seq<char>)
    ensures
        run_dir_path(ts, tag) == "bench/runs/"@ + ts + "__"@ + tag,
{
    reveal_with_fuel(cat, 6);
    let a = seq!["bench/runs/"@, ts, "__"@, tag];
    assert(cat(a) =~= a[0] + a[1] + a[2] + a[3]);
}

/// Each task is named by its own word behind that of the project's tasks.
pub proof fn law_tasks_named(a: TaskKind, b: TaskKind, s: &'static str, t: &'static str)
    requires
        call_ensures(TaskKind::name, (&a,), s),
        call_ensures(TaskKind::name, (&b,), t),
    ensures
        s@ == t@ <==> a == b,
        s@.len() > 6 && s@.take(6) == "xtask "@,
        a is Bench ==> s@.skip(6) == "bench"@,
        a is Smoke ==> s@.skip(6) == "smoke"@,
        a is Prep ==> s@.skip(6) == "prep"@,
        a is Profile ==> s@.skip(6) == "profile"@,
        a is History ==> s@.skip(6) == "history"@,
        a is Compare ==> s@.skip(6) == "cmp"@,
        a is Trend ==> s@.skip(6) == "trend"@,
{
    lemma_task_name(a);
    lemma_task_name(b);
    reveal_strlit("bench");
    reveal_strlit("smoke");
    reveal_strlit("prep");
    reveal_strlit("profile");
    reveal_strlit("history");
    reveal_strlit("cmp");
    reveal_strlit("trend");
    let (x, y) = (task_word(a), task_word(b));
    assert(s@.skip(6) == x && t@.skip(6) == y);
    if s@ == t@ {
        assert(x.len() == y.len() && x[0] == y[0]);
    }
}

/// The word for a task.
pub open spec fn task_word(t: TaskKind) -> Seq<char> {
    match t {
        TaskKind::Bench => "bench"@,
        TaskKind::Smoke => "smoke"@,
        TaskKind::Prep => "prep"@,
        TaskKind::Profile => "profile"@,
        TaskKind::History => "history"@,
        TaskKind::Compare => "cmp"@,
        TaskKind::Trend => "trend"@,
    }
}

proof fn lemma_task_name(t: TaskKind)
    ensures
        task_name(t).len() > 6,
        task_name(t).take(6) == "xtask "@,
        task_name(t).skip(6) == task_word(t),
{
    reveal_strlit("xtask ");
    match t {
        TaskKind::Bench => {
            reveal_strlit("xtask bench");
            reveal_strlit("bench");
        },
        TaskKind::Smoke => {
            reveal_strlit("xtask smoke");
            reveal_strlit("smoke");
        },
        TaskKind::Prep => {
            reveal_strlit("xtask prep");
            reveal_strlit("prep");
        },
        TaskKind::Profile => {
            reveal_strlit("xtask profile");
            reveal_strlit("profile");
        },
        TaskKind::History => {
            reveal_strlit("xtask history");
            reveal_strlit("history");
        },
        TaskKind::Compare => {
            reveal_strlit("xtask cmp");
            reveal_strlit("cmp");
        },
        TaskKind::Trend => {
            reveal_strlit("xtask trend");
            reveal_strlit("trend");
        },
    }
    assert(task_name(t).take(6) =~= "xtask "@);
    assert(task_name(t).skip(6) =~= task_word(t));
}

} // verus!
