//! The summary of a benchmark as text. What is computed with fractions comes in as text.
use vstd::prelude::*;
use vstd::string::StringExecFns;

use crate::bench::{
    join_workloads, workload_capitals, workload_list, workload_name, workload_title, WorkloadKind,
};
use crate::style::{cyan, in_color};
use crate::text::{
    cat, cat_text, decimal, decimal_text, filled, left_text, line, padded, push_line, right_text,
    signed_decimal, signed_text, text, texts, zero_padded,
};

verus! {

/// What is told of latencies.
#[derive(Debug)]
pub struct LatencyText {
    pub samples: usize,
    pub min: String,
    pub p50: String,
    pub p90: String,
    pub p95: String,
    pub p99: String,
    pub max: String,
    pub mean: String,
}

/// What is told of the settings of a benchmark.
#[derive(Debug)]
pub struct SettingsText {
    pub workloads: Vec<WorkloadKind>,
    pub duration_secs: u32,
    pub concurrency_min: u32,
    pub concurrency_max: u32,
    pub concurrency_step: u32,
    pub batch_size: usize,
    pub keys: u32,
    pub sources: u32,
    pub value: String,
    pub channel: String,
    pub fraction: String,
    /// Whether the fraction of queries is the usual one.
    pub usual_fraction: bool,
    pub range_window: u32,
}

/// What is told of a run.
#[derive(Debug)]
pub struct RunText {
    pub run_id: usize,
    pub workload: WorkloadKind,
    pub concurrency: u32,
    pub inserts: String,
    pub insert_rate: String,
    pub ranges: String,
    pub range_rate: String,
    pub failed_inserts: u64,
    pub failed_ranges: u64,
    pub ssts: usize,
    pub batch_size: usize,
    pub insert_latency: LatencyText,
    pub range_latency: LatencyText,
    /// How many records a query gave on average, if it gave any.
    pub records_per_range: Option<String>,
}

/// A step to more clients at which the throughput fell.
#[derive(Debug)]
pub struct DropText {
    pub from_rate: String,
    pub to_rate: String,
    pub from: u32,
    pub to: u32,
}

/// What is told of the throughput of a workload over the numbers of clients.
#[derive(Debug)]
pub struct SaturationText {
    pub workload: WorkloadKind,
    pub concurrencies: Vec<u32>,
    pub peak: String,
    pub peak_at: u32,
    pub detected: bool,
    pub drops: Vec<DropText>,
}

/// What is told of the server after the runs.
#[derive(Debug)]
pub struct ServerText {
    pub accepted: u64,
    pub active: i64,
    pub frames_read: u64,
    pub wal_writes: String,
    pub wal_bytes: String,
    pub syncs: u64,
    pub sync_p50: Option<String>,
    pub records: String,
    pub batches: u64,
    pub flushes: u64,
    pub compactions: u64,
    pub ssts: i64,
    pub memtable: String,
    pub memtable_limit: String,
    pub sync_latency: Option<LatencyText>,
    pub batch_latency: Option<LatencyText>,
}

/// What is told of the memory that was used.
#[derive(Debug)]
pub struct MemoryText {
    pub start: String,
    pub peak: String,
    pub end: String,
    pub growth: String,
    pub samples: u64,
}

/// What is told of a benchmark.
#[derive(Debug)]
pub struct Summary {
    pub settings: SettingsText,
    pub runs: Vec<RunText>,
    pub saturations: Vec<SaturationText>,
    pub server: ServerText,
    pub memory: Option<MemoryText>,
}

/// What stands behind a number of clients: nothing if it is one.
pub open spec fn plural(n: u32, s: Seq<char>) -> Seq<char> {
    if n != 1 {
        s
    } else {
        Seq::empty()
    }
}

fn plural_text(n: u32, s: &str) -> (r: String)
    ensures
        r@ == plural(n, s@),
{
    if n != 1 {
        text(s)
    } else {
        String::new()
    }
}

/// The failures of a run.
pub open spec fn run_errors(r: RunText) -> nat {
    r.failed_inserts as nat + r.failed_ranges as nat
}

/// An empty line.
pub open spec fn blank() -> Seq<char> {
    seq!['\n']
}

fn push_blank(out: &mut String)
    ensures
        final(out)@ == old(out)@ + blank(),
{
    out.append("\n");
    proof {
        reveal_strlit("\n");
        assert("\n"@ =~= blank());
    }
}

/// A title in color.
pub open spec fn title(s: Seq<char>) -> Seq<char> {
    in_color("36"@, s).push('\n')
}

fn push_title(out: &mut String, s: &str)
    ensures
        final(out)@ == old(out)@ + title(s@),
{
    let t = cyan(s);
    out.append(t.as_str());
    out.append("\n");
    proof {
        reveal_strlit("\n");
    }
    assert(out@ =~= old(out)@ + title(s@));
}

/// What is told of latencies in one line.
pub open spec fn latency_line(l: LatencyText) -> Seq<char> {
    cat(
        seq![
            "min="@,
            l.min@,
            "  p50="@,
            l.p50@,
            "  p90="@,
            l.p90@,
            "  p95="@,
            l.p95@,
            "  p99="@,
            l.p99@,
            "  max="@,
            l.max@,
            "  mean="@,
            l.mean@,
            "  count="@,
            decimal(l.samples as nat),
        ],
    )
}

/// What is told of latencies in one line.
pub fn fmt_latency_line(l: &LatencyText) -> (r: String)
    ensures
        r@ == latency_line(*l),
{
    let parts = vec![
        text("min="),
        text(l.min.as_str()),
        text("  p50="),
        text(l.p50.as_str()),
        text("  p90="),
        text(l.p90.as_str()),
        text("  p95="),
        text(l.p95.as_str()),
        text("  p99="),
        text(l.p99.as_str()),
        text("  max="),
        text(l.max.as_str()),
        text("  mean="),
        text(l.mean.as_str()),
        text("  count="),
        decimal_text(l.samples as u64),
    ];
    assert(texts(parts@) =~= seq![
        "min="@,
        l.min@,
        "  p50="@,
        l.p50@,
        "  p90="@,
        l.p90@,
        "  p95="@,
        l.p95@,
        "  p99="@,
        l.p99@,
        "  max="@,
        l.max@,
        "  mean="@,
        l.mean@,
        "  count="@,
        decimal(l.samples as nat),
    ]);
    cat_text(&parts)
}

/// The line on the latencies of a run behind a label: all that is told, or the main points.
/// There is none if there are no latencies.
pub open spec fn color_latency(label: Seq<char>, l: LatencyText, verbose: bool) -> Seq<char> {
    if l.samples == 0 {
        Seq::empty()
    } else if verbose {
        line(seq![label, latency_line(l)])
    } else {
        line(
            seq![
                label,
                "MIN="@,
                l.min@,
                "  P50="@,
                l.p50@,
                "  P90="@,
                l.p90@,
                "  P99="@,
                l.p99@,
                "  MAX="@,
                l.max@,
            ],
        )
    }
}

fn push_color_latency(out: &mut String, label: &str, l: &LatencyText, verbose: bool)
    ensures
        final(out)@ == old(out)@ + color_latency(label@, *l, verbose),
{
    if l.samples == 0 {
        assert(out@ + Seq::<char>::empty() =~= out@);
    } else if verbose {
        let parts = vec![text(label), fmt_latency_line(l)];
        assert(texts(parts@) =~= seq![label@, latency_line(*l)]);
        push_line(out, &parts);
    } else {
        let parts = vec![
            text(label),
            text("MIN="),
            text(l.min.as_str()),
            text("  P50="),
            text(l.p50.as_str()),
            text("  P90="),
            text(l.p90.as_str()),
            text("  P99="),
            text(l.p99.as_str()),
            text("  MAX="),
            text(l.max.as_str()),
        ];
        assert(texts(parts@) =~= seq![
            label@,
            "MIN="@,
            l.min@,
            "  P50="@,
            l.p50@,
            "  P90="@,
            l.p90@,
            "  P99="@,
            l.p99@,
            "  MAX="@,
            l.max@,
        ]);
        push_line(out, &parts);
    }
}

/// The line on the latencies of a run behind a label: all that is told, or the main points.
/// There is none if there are no latencies.
pub open spec fn plain_latency(label: Seq<char>, l: LatencyText, verbose: bool) -> Seq<char> {
    if l.samples == 0 {
        Seq::empty()
    } else if verbose {
        line(seq![label, latency_line(l)])
    } else {
        line(
            seq![
                label,
                "min="@,
                l.min@,
                "  p50="@,
                l.p50@,
                "  p90="@,
                l.p90@,
                "  p99="@,
                l.p99@,
                "  max="@,
                l.max@,
            ],
        )
    }
}

fn push_plain_latency(out: &mut String, label: &str, l: &LatencyText, verbose: bool)
    ensures
        final(out)@ == old(out)@ + plain_latency(label@, *l, verbose),
{
    if l.samples == 0 {
        assert(out@ + Seq::<char>::empty() =~= out@);
    } else if verbose {
        let parts = vec![text(label), fmt_latency_line(l)];
        assert(texts(parts@) =~= seq![label@, latency_line(*l)]);
        push_line(out, &parts);
    } else {
        let parts = vec![
            text(label),
            text("min="),
            text(l.min.as_str()),
            text("  p50="),
            text(l.p50.as_str()),
            text("  p90="),
            text(l.p90.as_str()),
            text("  p99="),
            text(l.p99.as_str()),
            text("  max="),
            text(l.max.as_str()),
        ];
        assert(texts(parts@) =~= seq![
            label@,
            "min="@,
            l.min@,
            "  p50="@,
            l.p50@,
            "  p90="@,
            l.p90@,
            "  p99="@,
            l.p99@,
            "  max="@,
            l.max@,
        ]);
        push_line(out, &parts);
    }
}

/// The line on the workloads, the duration and the numbers of clients.
pub open spec fn color_load(a: SettingsText) -> Seq<char> {
    line(
        seq![
            "  "@,
            filled("WORKLOADS:"@, 12, ' '),
            " "@,
            workload_list(a.workloads@, ", "@),
            "  |  "@,
            filled("DURATION:"@, 12, ' '),
            " "@,
            decimal(a.duration_secs as nat),
            "s  |  "@,
            filled("CONCURRENCY:"@, 12, ' '),
            " "@,
            decimal(a.concurrency_min as nat),
            ".."@,
            decimal(a.concurrency_max as nat),
            " (step "@,
            decimal(a.concurrency_step as nat),
            ")"@,
        ],
    )
}

fn push_color_load(out: &mut String, a: &SettingsText)
    ensures
        final(out)@ == old(out)@ + color_load(*a),
{
    let parts = vec![
        text("  "),
        left_text("WORKLOADS:", 12),
        text(" "),
        join_workloads(&a.workloads, ", "),
        text("  |  "),
        left_text("DURATION:", 12),
        text(" "),
        decimal_text(a.duration_secs as u64),
        text("s  |  "),
        left_text("CONCURRENCY:", 12),
        text(" "),
        decimal_text(a.concurrency_min as u64),
        text(".."),
        decimal_text(a.concurrency_max as u64),
        text(" (step "),
        decimal_text(a.concurrency_step as u64),
        text(")"),
    ];
    assert(texts(parts@) =~= seq![
        "  "@,
        filled("WORKLOADS:"@, 12, ' '),
        " "@,
        workload_list(a.workloads@, ", "@),
        "  |  "@,
        filled("DURATION:"@, 12, ' '),
        " "@,
        decimal(a.duration_secs as nat),
        "s  |  "@,
        filled("CONCURRENCY:"@, 12, ' '),
        " "@,
        decimal(a.concurrency_min as nat),
        ".."@,
        decimal(a.concurrency_max as nat),
        " (step "@,
        decimal(a.concurrency_step as nat),
        ")"@,
    ]);
    push_line(out, &parts);
}

/// The line on the sizes.
pub open spec fn color_sizes(a: SettingsText) -> Seq<char> {
    line(
        seq![
            "  "@,
            filled("BATCH:"@, 12, ' '),
            " "@,
            decimal(a.batch_size as nat),
            "  |  "@,
            filled("KEYS:"@, 12, ' '),
            " "@,
            decimal(a.keys as nat),
            "  |  "@,
            filled("SOURCES:"@, 12, ' '),
            " "@,
            decimal(a.sources as nat),
            "  |  "@,
            filled("VALUE:"@, 12, ' '),
            " "@,
            a.value@,
            "  |  "@,
            filled("CHANNEL:"@, 12, ' '),
            " "@,
            a.channel@,
        ],
    )
}

fn push_color_sizes(out: &mut String, a: &SettingsText)
    ensures
        final(out)@ == old(out)@ + color_sizes(*a),
{
    let parts = vec![
        text("  "),
        left_text("BATCH:", 12),
        text(" "),
        decimal_text(a.batch_size as u64),
        text("  |  "),
        left_text("KEYS:", 12),
        text(" "),
        decimal_text(a.keys as u64),
        text("  |  "),
        left_text("SOURCES:", 12),
        text(" "),
        decimal_text(a.sources as u64),
        text("  |  "),
        left_text("VALUE:", 12),
        text(" "),
        text(a.value.as_str()),
        text("  |  "),
        left_text("CHANNEL:", 12),
        text(" "),
        text(a.channel.as_str()),
    ];
    assert(texts(parts@) =~= seq![
        "  "@,
        filled("BATCH:"@, 12, ' '),
        " "@,
        decimal(a.batch_size as nat),
        "  |  "@,
        filled("KEYS:"@, 12, ' '),
        " "@,
        decimal(a.keys as nat),
        "  |  "@,
        filled("SOURCES:"@, 12, ' '),
        " "@,
        decimal(a.sources as nat),
        "  |  "@,
        filled("VALUE:"@, 12, ' '),
        " "@,
        a.value@,
        "  |  "@,
        filled("CHANNEL:"@, 12, ' '),
        " "@,
        a.channel@,
    ]);
    push_line(out, &parts);
}

/// The line on the queries.
pub open spec fn color_ranges(a: SettingsText) -> Seq<char> {
    line(
        seq![
            "  "@,
            filled("RANGE FRAC:"@, 12, ' '),
            " "@,
            a.fraction@,
            "  |  "@,
            filled("RANGE WINDOW:"@, 12, ' '),
            " "@,
            decimal(a.range_window as nat),
            "s"@,
        ],
    )
}

fn push_color_ranges(out: &mut String, a: &SettingsText)
    ensures
        final(out)@ == old(out)@ + color_ranges(*a),
{
    let parts = vec![
        text("  "),
        left_text("RANGE FRAC:", 12),
        text(" "),
        text(a.fraction.as_str()),
        text("  |  "),
        left_text("RANGE WINDOW:", 12),
        text(" "),
        decimal_text(a.range_window as u64),
        text("s"),
    ];
    assert(texts(parts@) =~= seq![
        "  "@,
        filled("RANGE FRAC:"@, 12, ' '),
        " "@,
        a.fraction@,
        "  |  "@,
        filled("RANGE WINDOW:"@, 12, ' '),
        " "@,
        decimal(a.range_window as nat),
        "s"@,
    ]);
    push_line(out, &parts);
}

/// The part on the settings. The line on the queries stands there if they are unusual.
pub open spec fn color_settings(a: SettingsText) -> Seq<char> {
    title("--- BENCHMARK ---"@) + color_load(a) + color_sizes(a) + (if !a.usual_fraction || a.range_window != 60 {
        color_ranges(a)
    } else {
        Seq::empty()
    }) + blank()
}

fn push_color_settings(out: &mut String, a: &SettingsText)
    ensures
        final(out)@ == old(out)@ + color_settings(*a),
{
    push_title(out, "--- BENCHMARK ---");
    push_color_load(out, a);
    push_color_sizes(out, a);
    if !a.usual_fraction || a.range_window != 60 {
        push_color_ranges(out, a);
    }
    push_blank(out);
    assert(out@ =~= old(out)@ + color_settings(*a));
}

/// The line on the workloads, the duration and the numbers of clients.
pub open spec fn plain_load(a: SettingsText) -> Seq<char> {
    line(
        seq![
            "  Workloads: "@,
            workload_list(a.workloads@, ", "@),
            "  |  Duration: "@,
            decimal(a.duration_secs as nat),
            "s  |  Concurrency: "@,
            decimal(a.concurrency_min as nat),
            ".."@,
            decimal(a.concurrency_max as nat),
            " (step "@,
            decimal(a.concurrency_step as nat),
            ")"@,
        ],
    )
}

fn push_plain_load(out: &mut String, a: &SettingsText)
    ensures
        final(out)@ == old(out)@ + plain_load(*a),
{
    let parts = vec![
        text("  Workloads: "),
        join_workloads(&a.workloads, ", "),
        text("  |  Duration: "),
        decimal_text(a.duration_secs as u64),
        text("s  |  Concurrency: "),
        decimal_text(a.concurrency_min as u64),
        text(".."),
        decimal_text(a.concurrency_max as u64),
        text(" (step "),
        decimal_text(a.concurrency_step as u64),
        text(")"),
    ];
    assert(texts(parts@) =~= seq![
        "  Workloads: "@,
        workload_list(a.workloads@, ", "@),
        "  |  Duration: "@,
        decimal(a.duration_secs as nat),
        "s  |  Concurrency: "@,
        decimal(a.concurrency_min as nat),
        ".."@,
        decimal(a.concurrency_max as nat),
        " (step "@,
        decimal(a.concurrency_step as nat),
        ")"@,
    ]);
    push_line(out, &parts);
}

/// The line on the sizes.
pub open spec fn plain_sizes(a: SettingsText) -> Seq<char> {
    line(
        seq![
            "  Batch: "@,
            decimal(a.batch_size as nat),
            "  |  Keys: "@,
            decimal(a.keys as nat),
            "  |  Sources: "@,
            decimal(a.sources as nat),
            "  |  Value: "@,
            a.value@,
            "  |  Channel: "@,
            a.channel@,
        ],
    )
}

fn push_plain_sizes(out: &mut String, a: &SettingsText)
    ensures
        final(out)@ == old(out)@ + plain_sizes(*a),
{
    let parts = vec![
        text("  Batch: "),
        decimal_text(a.batch_size as u64),
        text("  |  Keys: "),
        decimal_text(a.keys as u64),
        text("  |  Sources: "),
        decimal_text(a.sources as u64),
        text("  |  Value: "),
        text(a.value.as_str()),
        text("  |  Channel: "),
        text(a.channel.as_str()),
    ];
    assert(texts(parts@) =~= seq![
        "  Batch: "@,
        decimal(a.batch_size as nat),
        "  |  Keys: "@,
        decimal(a.keys as nat),
        "  |  Sources: "@,
        decimal(a.sources as nat),
        "  |  Value: "@,
        a.value@,
        "  |  Channel: "@,
        a.channel@,
    ]);
    push_line(out, &parts);
}

/// The line on the queries.
pub open spec fn plain_ranges(a: SettingsText) -> Seq<char> {
    line(
        seq![
            "  Range fraction: "@,
            a.fraction@,
            "  |  Range window: "@,
            decimal(a.range_window as nat),
            "s"@,
        ],
    )
}

fn push_plain_ranges(out: &mut String, a: &SettingsText)
    ensures
        final(out)@ == old(out)@ + plain_ranges(*a),
{
    let parts = vec![
        text("  Range fraction: "),
        text(a.fraction.as_str()),
        text("  |  Range window: "),
        decimal_text(a.range_window as u64),
        text("s"),
    ];
    assert(texts(parts@) =~= seq![
        "  Range fraction: "@,
        a.fraction@,
        "  |  Range window: "@,
        decimal(a.range_window as nat),
        "s"@,
    ]);
    push_line(out, &parts);
}

/// The part on the settings. The line on the queries stands there if they are unusual.
pub open spec fn plain_settings(a: SettingsText) -> Seq<char> {
    line(seq!["=> BENCHMARK <="@]) + plain_load(a) + plain_sizes(a) + (if !a.usual_fraction || a.range_window != 60 {
        plain_ranges(a)
    } else {
        Seq::empty()
    }) + blank()
}

fn push_plain_settings(out: &mut String, a: &SettingsText)
    ensures
        final(out)@ == old(out)@ + plain_settings(*a),
{
    let head = vec![text("=> BENCHMARK <=")];
    assert(texts(head@) =~= seq!["=> BENCHMARK <="@]);
    push_line(out, &head);
    push_plain_load(out, a);
    push_plain_sizes(out, a);
    if !a.usual_fraction || a.range_window != 60 {
        push_plain_ranges(out, a);
    }
    push_blank(out);
    assert(out@ =~= old(out)@ + plain_settings(*a));
}

/// The title of a run.
pub open spec fn run_title(r: RunText) -> Seq<char> {
    cat(
        seq![
            "--- RUN "@,
            padded(decimal(r.run_id as nat), 2, '0'),
            " | "@,
            workload_capitals(r.workload),
            " | "@,
            decimal(r.concurrency as nat),
            " CLIENT"@,
            plural(r.concurrency, "S"@),
            " ---"@,
        ],
    )
}

/// The heads of the table of a run.
pub open spec fn run_heads() -> Seq<char> {
    line(
        seq![
            "  "@,
            padded("INSERTS"@, 12, ' '),
            " "@,
            padded("INSERTS/S"@, 12, ' '),
            " "@,
            padded("RANGES"@, 12, ' '),
            " "@,
            padded("RANGES/S"@, 12, ' '),
            " "@,
            padded("ERRORS"@, 8, ' '),
            " "@,
            padded("SSTS"@, 8, ' '),
            " "@,
            padded("BATCH"@, 8, ' '),
        ],
    )
}

fn push_run_heads(out: &mut String)
    ensures
        final(out)@ == old(out)@ + run_heads(),
{
    let parts = vec![
        text("  "),
        right_text("INSERTS", 12),
        text(" "),
        right_text("INSERTS/S", 12),
        text(" "),
        right_text("RANGES", 12),
        text(" "),
        right_text("RANGES/S", 12),
        text(" "),
        right_text("ERRORS", 8),
        text(" "),
        right_text("SSTS", 8),
        text(" "),
        right_text("BATCH", 8),
    ];
    assert(texts(parts@) =~= seq![
        "  "@,
        padded("INSERTS"@, 12, ' '),
        " "@,
        padded("INSERTS/S"@, 12, ' '),
        " "@,
        padded("RANGES"@, 12, ' '),
        " "@,
        padded("RANGES/S"@, 12, ' '),
        " "@,
        padded("ERRORS"@, 8, ' '),
        " "@,
        padded("SSTS"@, 8, ' '),
        " "@,
        padded("BATCH"@, 8, ' '),
    ]);
    push_line(out, &parts);
}

/// The numbers of a run.
pub open spec fn run_numbers(r: RunText) -> Seq<char> {
    line(
        seq![
            "  "@,
            padded(r.inserts@, 12, ' '),
            " "@,
            padded(r.insert_rate@, 12, ' '),
            " "@,
            padded(r.ranges@, 12, ' '),
            " "@,
            padded(r.range_rate@, 12, ' '),
            " "@,
            padded(decimal(run_errors(r)), 8, ' '),
            " "@,
            padded(decimal(r.ssts as nat), 8, ' '),
            " "@,
            padded(decimal(r.batch_size as nat), 8, ' '),
        ],
    )
}

fn push_run_numbers(out: &mut String, r: &RunText)
    requires
        run_errors(*r) <= u64::MAX,
    ensures
        final(out)@ == old(out)@ + run_numbers(*r),
{
    let errors: u64 = r.failed_inserts + r.failed_ranges;
    let parts = vec![
        text("  "),
        right_text(r.inserts.as_str(), 12),
        text(" "),
        right_text(r.insert_rate.as_str(), 12),
        text(" "),
        right_text(r.ranges.as_str(), 12),
        text(" "),
        right_text(r.range_rate.as_str(), 12),
        text(" "),
        right_text(decimal_text(errors).as_str(), 8),
        text(" "),
        right_text(decimal_text(r.ssts as u64).as_str(), 8),
        text(" "),
        right_text(decimal_text(r.batch_size as u64).as_str(), 8),
    ];
    assert(texts(parts@) =~= seq![
        "  "@,
        padded(r.inserts@, 12, ' '),
        " "@,
        padded(r.insert_rate@, 12, ' '),
        " "@,
        padded(r.ranges@, 12, ' '),
        " "@,
        padded(r.range_rate@, 12, ' '),
        " "@,
        padded(decimal(run_errors(*r)), 8, ' '),
        " "@,
        padded(decimal(r.ssts as nat), 8, ' '),
        " "@,
        padded(decimal(r.batch_size as nat), 8, ' '),
    ]);
    push_line(out, &parts);
}

/// The title of a run.
pub open spec fn plain_run_title(r: RunText) -> Seq<char> {
    line(
        seq![
            "--> Run "@,
            decimal(r.run_id as nat),
            " | "@,
            workload_name(r.workload),
            " | "@,
            decimal(r.concurrency as nat),
            " client"@,
            plural(r.concurrency, "s"@),
            " <--"@,
        ],
    )
}

fn push_plain_run_title(out: &mut String, r: &RunText)
    ensures
        final(out)@ == old(out)@ + plain_run_title(*r),
{
    let parts = vec![
        text("--> Run "),
        decimal_text(r.run_id as u64),
        text(" | "),
        text(r.workload.name()),
        text(" | "),
        decimal_text(r.concurrency as u64),
        text(" client"),
        plural_text(r.concurrency, "s"),
        text(" <--"),
    ];
    assert(texts(parts@) =~= seq![
        "--> Run "@,
        decimal(r.run_id as nat),
        " | "@,
        workload_name(r.workload),
        " | "@,
        decimal(r.concurrency as nat),
        " client"@,
        plural(r.concurrency, "s"@),
        " <--"@,
    ]);
    push_line(out, &parts);
}

/// The numbers of a run.
pub open spec fn plain_run_numbers(r: RunText) -> Seq<char> {
    line(
        seq![
            "  Inserts: "@,
            r.inserts@,
            " ("@,
            r.insert_rate@,
            ")  |  Ranges: "@,
            r.ranges@,
            " ("@,
            r.range_rate@,
            ")  |  Errors: "@,
            decimal(run_errors(r)),
            "  |  SSTs: "@,
            decimal(r.ssts as nat),
            "  |  Batch: "@,
            decimal(r.batch_size as nat),
        ],
    )
}

fn push_plain_run_numbers(out: &mut String, r: &RunText)
    requires
        run_errors(*r) <= u64::MAX,
    ensures
        final(out)@ == old(out)@ + plain_run_numbers(*r),
{
    let errors: u64 = r.failed_inserts + r.failed_ranges;
    let parts = vec![
        text("  Inserts: "),
        text(r.inserts.as_str()),
        text(" ("),
        text(r.insert_rate.as_str()),
        text(")  |  Ranges: "),
        text(r.ranges.as_str()),
        text(" ("),
        text(r.range_rate.as_str()),
        text(")  |  Errors: "),
        decimal_text(errors),
        text("  |  SSTs: "),
        decimal_text(r.ssts as u64),
        text("  |  Batch: "),
        decimal_text(r.batch_size as u64),
    ];
    assert(texts(parts@) =~= seq![
        "  Inserts: "@,
        r.inserts@,
        " ("@,
        r.insert_rate@,
        ")  |  Ranges: "@,
        r.ranges@,
        " ("@,
        r.range_rate@,
        ")  |  Errors: "@,
        decimal(run_errors(*r)),
        "  |  SSTs: "@,
        decimal(r.ssts as nat),
        "  |  Batch: "@,
        decimal(r.batch_size as nat),
    ]);
    push_line(out, &parts);
}

/// The part on a run.
pub open spec fn color_run(r: RunText, verbose: bool) -> Seq<char> {
    title(run_title(r)) + run_heads() + run_numbers(r) + color_latency("  INSERT LAT (MS):  "@, r.insert_latency, verbose)
        + color_latency("  RANGE LAT (MS):  "@, r.range_latency, verbose) + (match r.records_per_range {
        Some(n) => line(
            seq![
                "  "@,
                padded("REC/RANGE:"@, 12, ' '),
                "  "@,
                n@,
            ],
        ),
        None => Seq::empty(),
    })
}

fn push_color_run(out: &mut String, r: &RunText, verbose: bool)
    requires
        run_errors(*r) <= u64::MAX,
    ensures
        final(out)@ == old(out)@ + color_run(*r, verbose),
{
    let parts = vec![
        text("--- RUN "),
        zero_padded(r.run_id as u64, 2),
        text(" | "),
        text(r.workload.capitals()),
        text(" | "),
        decimal_text(r.concurrency as u64),
        text(" CLIENT"),
        plural_text(r.concurrency, "S"),
        text(" ---"),
    ];
    assert(texts(parts@) =~= seq![
        "--- RUN "@,
        padded(decimal(r.run_id as nat), 2, '0'),
        " | "@,
        workload_capitals(r.workload),
        " | "@,
        decimal(r.concurrency as nat),
        " CLIENT"@,
        plural(r.concurrency, "S"@),
        " ---"@,
    ]);
    let head = cat_text(&parts);
    push_title(out, head.as_str());
    push_run_heads(out);
    push_run_numbers(out, r);
    push_color_latency(out, "  INSERT LAT (MS):  ", &r.insert_latency, verbose);
    push_color_latency(out, "  RANGE LAT (MS):  ", &r.range_latency, verbose);
    if let Some(n) = &r.records_per_range {
        let parts = vec![
            text("  "),
            right_text("REC/RANGE:", 12),
            text("  "),
            text(n.as_str()),
        ];
        assert(texts(parts@) =~= seq![
            "  "@,
            padded("REC/RANGE:"@, 12, ' '),
            "  "@,
            n@,
        ]);
        push_line(out, &parts);
    }
    assert(out@ =~= old(out)@ + color_run(*r, verbose));
}

/// The parts on the runs.
pub open spec fn color_runs(runs: Seq<RunText>, verbose: bool) -> Seq<char>
    decreases runs.len(),
{
    if runs.len() == 0 {
        Seq::empty()
    } else {
        color_runs(runs.drop_last(), verbose) + color_run(runs.last(), verbose)
    }
}

fn push_color_runs(out: &mut String, runs: &Vec<RunText>, verbose: bool)
    requires
        forall|i: int| 0 <= i < runs@.len() ==> run_errors(#[trigger] runs@[i]) <= u64::MAX,
    ensures
        final(out)@ == old(out)@ + color_runs(runs@, verbose),
{
    let ghost start = out@;
    let mut i: usize = 0;
    assert(runs@.take(0) =~= Seq::<RunText>::empty());
    assert(start + color_runs(runs@.take(0), verbose) =~= start);
    while i < runs.len()
        invariant
            i <= runs@.len(),
            forall|k: int| 0 <= k < runs@.len() ==> run_errors(#[trigger] runs@[k]) <= u64::MAX,
            out@ == start + color_runs(runs@.take(i as int), verbose),
        decreases runs@.len() - i,
    {
        assert(run_errors(runs@[i as int]) <= u64::MAX);
        push_color_run(out, &runs[i], verbose);
        assert(runs@.take(i + 1).drop_last() =~= runs@.take(i as int));
        assert(out@ =~= start + color_runs(runs@.take(i + 1), verbose));
        i += 1;
    }
    assert(runs@.take(runs@.len() as int) =~= runs@);
}

/// The part on a run.
pub open spec fn plain_run(r: RunText, verbose: bool) -> Seq<char> {
    plain_run_title(r) + plain_run_numbers(r) + plain_latency("  Insert lat:  "@, r.insert_latency, verbose)
        + plain_latency("  Range lat:   "@, r.range_latency, verbose) + (match r.records_per_range {
        Some(n) => line(
            seq![
                "  Records/range: "@,
                n@,
            ],
        ),
        None => Seq::empty(),
    })
}

fn push_plain_run(out: &mut String, r: &RunText, verbose: bool)
    requires
        run_errors(*r) <= u64::MAX,
    ensures
        final(out)@ == old(out)@ + plain_run(*r, verbose),
{
    push_plain_run_title(out, r);
    push_plain_run_numbers(out, r);
    push_plain_latency(out, "  Insert lat:  ", &r.insert_latency, verbose);
    push_plain_latency(out, "  Range lat:   ", &r.range_latency, verbose);
    if let Some(n) = &r.records_per_range {
        let parts = vec![
            text("  Records/range: "),
            text(n.as_str()),
        ];
        assert(texts(parts@) =~= seq![
            "  Records/range: "@,
            n@,
        ]);
        push_line(out, &parts);
    }
    assert(out@ =~= old(out)@ + plain_run(*r, verbose));
}

/// The parts on the runs.
pub open spec fn plain_runs(runs: Seq<RunText>, verbose: bool) -> Seq<char>
    decreases runs.len(),
{
    if runs.len() == 0 {
        Seq::empty()
    } else {
        plain_runs(runs.drop_last(), verbose) + plain_run(runs.last(), verbose)
    }
}

fn push_plain_runs(out: &mut String, runs: &Vec<RunText>, verbose: bool)
    requires
        forall|i: int| 0 <= i < runs@.len() ==> run_errors(#[trigger] runs@[i]) <= u64::MAX,
    ensures
        final(out)@ == old(out)@ + plain_runs(runs@, verbose),
{
    let ghost start = out@;
    let mut i: usize = 0;
    assert(runs@.take(0) =~= Seq::<RunText>::empty());
    assert(start + plain_runs(runs@.take(0), verbose) =~= start);
    while i < runs.len()
        invariant
            i <= runs@.len(),
            forall|k: int| 0 <= k < runs@.len() ==> run_errors(#[trigger] runs@[k]) <= u64::MAX,
            out@ == start + plain_runs(runs@.take(i as int), verbose),
        decreases runs@.len() - i,
    {
        assert(run_errors(runs@[i as int]) <= u64::MAX);
        push_plain_run(out, &runs[i], verbose);
        assert(runs@.take(i + 1).drop_last() =~= runs@.take(i as int));
        assert(out@ =~= start + plain_runs(runs@.take(i + 1), verbose));
        i += 1;
    }
    assert(runs@.take(runs@.len() as int) =~= runs@);
}

/// The first and the last number of clients, or zero if there is none.
pub open spec fn ends(c: Seq<u32>) -> (u32, u32) {
    if c.len() == 0 {
        (0, 0)
    } else {
        (c[0], c.last())
    }
}

/// The line on a step to more clients at which the throughput fell.
pub open spec fn color_drop(d: DropText) -> Seq<char> {
    line(
        seq![
            "  "@,
            padded("DROP:"@, 12, ' '),
            "  "@,
            d.from_rate@,
            " -> "@,
            d.to_rate@,
            " from "@,
            decimal(d.from as nat),
            " -> "@,
            decimal(d.to as nat),
            " clients"@,
        ],
    )
}

/// The lines on the steps at which the throughput fell.
pub open spec fn color_drops(ds: Seq<DropText>) -> Seq<char>
    decreases ds.len(),
{
    if ds.len() == 0 {
        Seq::empty()
    } else {
        color_drops(ds.drop_last()) + color_drop(ds.last())
    }
}

fn push_color_drops(out: &mut String, ds: &Vec<DropText>)
    ensures
        final(out)@ == old(out)@ + color_drops(ds@),
{
    let ghost start = out@;
    let mut i: usize = 0;
    assert(ds@.take(0) =~= Seq::<DropText>::empty());
    assert(start + color_drops(ds@.take(0)) =~= start);
    while i < ds.len()
        invariant
            i <= ds@.len(),
            out@ == start + color_drops(ds@.take(i as int)),
        decreases ds@.len() - i,
    {
        let d = &ds[i];
        let parts = vec![
            text("  "),
            right_text("DROP:", 12),
            text("  "),
            text(d.from_rate.as_str()),
            text(" -> "),
            text(d.to_rate.as_str()),
            text(" from "),
            decimal_text(d.from as u64),
            text(" -> "),
            decimal_text(d.to as u64),
            text(" clients"),
        ];
        assert(texts(parts@) =~= seq![
            "  "@,
            padded("DROP:"@, 12, ' '),
            "  "@,
            d.from_rate@,
            " -> "@,
            d.to_rate@,
            " from "@,
            decimal(d.from as nat),
            " -> "@,
            decimal(d.to as nat),
            " clients"@,
        ]);
        push_line(out, &parts);
        assert(ds@.take(i + 1).drop_last() =~= ds@.take(i as int));
        assert(out@ =~= start + color_drops(ds@.take(i + 1)));
        i += 1;
    }
    assert(ds@.take(ds@.len() as int) =~= ds@);
}

/// The part on the throughput of a workload.
pub open spec fn color_saturation(s: SaturationText) -> Seq<char> {
    blank() + title(
        cat(
            seq![
                "--- SATURATION ("@,
                workload_title(s.workload),
                ") ---"@,
            ],
        ),
    ) + line(
        seq![
            "  "@,
            padded("PEAK THRPUT:"@, 12, ' '),
            "  "@,
            s.peak@,
            " at "@,
            decimal(s.peak_at as nat),
            " clients"@,
        ],
    ) + (if s.detected {
        color_drops(s.drops@)
    } else {
        line(
            seq![
                "  "@,
                padded("NONE:"@, 12, ' '),
                "  "@,
                decimal(ends(s.concurrencies@).0 as nat),
                ".."@,
                decimal(ends(s.concurrencies@).1 as nat),
                " clients"@,
            ],
        )
    })
}

fn push_color_saturation(out: &mut String, s: &SaturationText)
    ensures
        final(out)@ == old(out)@ + color_saturation(*s),
{
    push_blank(out);
    let parts = vec![
        text("--- SATURATION ("),
        text(s.workload.title()),
        text(") ---"),
    ];
    assert(texts(parts@) =~= seq![
        "--- SATURATION ("@,
        workload_title(s.workload),
        ") ---"@,
    ]);
    let head = cat_text(&parts);
    push_title(out, head.as_str());
    let parts = vec![
        text("  "),
        right_text("PEAK THRPUT:", 12),
        text("  "),
        text(s.peak.as_str()),
        text(" at "),
        decimal_text(s.peak_at as u64),
        text(" clients"),
    ];
    assert(texts(parts@) =~= seq![
        "  "@,
        padded("PEAK THRPUT:"@, 12, ' '),
        "  "@,
        s.peak@,
        " at "@,
        decimal(s.peak_at as nat),
        " clients"@,
    ]);
    push_line(out, &parts);
    if s.detected {
        push_color_drops(out, &s.drops);
    } else {
        let n: usize = s.concurrencies.len();
        let (first, last): (u32, u32) = if n == 0 {
            (0, 0)
        } else {
            (s.concurrencies[0], s.concurrencies[n - 1])
        };
        let parts = vec![
            text("  "),
            right_text("NONE:", 12),
            text("  "),
            decimal_text(first as u64),
            text(".."),
            decimal_text(last as u64),
            text(" clients"),
        ];
        assert(texts(parts@) =~= seq![
            "  "@,
            padded("NONE:"@, 12, ' '),
            "  "@,
            decimal(ends(s.concurrencies@).0 as nat),
            ".."@,
            decimal(ends(s.concurrencies@).1 as nat),
            " clients"@,
        ]);
        push_line(out, &parts);
    }
    assert(out@ =~= old(out)@ + color_saturation(*s));
}

/// The parts on the throughputs of the workloads.
pub open spec fn color_saturations(ss: Seq<SaturationText>) -> Seq<char>
    decreases ss.len(),
{
    if ss.len() == 0 {
        Seq::empty()
    } else {
        color_saturations(ss.drop_last()) + color_saturation(ss.last())
    }
}

fn push_color_saturations(out: &mut String, ss: &Vec<SaturationText>)
    ensures
        final(out)@ == old(out)@ + color_saturations(ss@),
{
    let ghost start = out@;
    let mut i: usize = 0;
    assert(ss@.take(0) =~= Seq::<SaturationText>::empty());
    assert(start + color_saturations(ss@.take(0)) =~= start);
    while i < ss.len()
        invariant
            i <= ss@.len(),
            out@ == start + color_saturations(ss@.take(i as int)),
        decreases ss@.len() - i,
    {
        push_color_saturation(out, &ss[i]);
        assert(ss@.take(i + 1).drop_last() =~= ss@.take(i as int));
        assert(out@ =~= start + color_saturations(ss@.take(i + 1)));
        i += 1;
    }
    assert(ss@.take(ss@.len() as int) =~= ss@);
}

/// The line on a step to more clients at which the throughput fell.
pub open spec fn plain_drop(d: DropText) -> Seq<char> {
    line(
        seq![
            "  Drop: "@,
            d.from_rate@,
            " \u{2192} "@,
            d.to_rate@,
            " going from "@,
            decimal(d.from as nat),
            " \u{2192} "@,
            decimal(d.to as nat),
            " clients"@,
        ],
    )
}

/// The lines on the steps at which the throughput fell.
pub open spec fn plain_drops(ds: Seq<DropText>) -> Seq<char>
    decreases ds.len(),
{
    if ds.len() == 0 {
        Seq::empty()
    } else {
        plain_drops(ds.drop_last()) + plain_drop(ds.last())
    }
}

fn push_plain_drops(out: &mut String, ds: &Vec<DropText>)
    ensures
        final(out)@ == old(out)@ + plain_drops(ds@),
{
    let ghost start = out@;
    let mut i: usize = 0;
    assert(ds@.take(0) =~= Seq::<DropText>::empty());
    assert(start + plain_drops(ds@.take(0)) =~= start);
    while i < ds.len()
        invariant
            i <= ds@.len(),
            out@ == start + plain_drops(ds@.take(i as int)),
        decreases ds@.len() - i,
    {
        let d = &ds[i];
        let parts = vec![
            text("  Drop: "),
            text(d.from_rate.as_str()),
            text(" \u{2192} "),
            text(d.to_rate.as_str()),
            text(" going from "),
            decimal_text(d.from as u64),
            text(" \u{2192} "),
            decimal_text(d.to as u64),
            text(" clients"),
        ];
        assert(texts(parts@) =~= seq![
            "  Drop: "@,
            d.from_rate@,
            " \u{2192} "@,
            d.to_rate@,
            " going from "@,
            decimal(d.from as nat),
            " \u{2192} "@,
            decimal(d.to as nat),
            " clients"@,
        ]);
        push_line(out, &parts);
        assert(ds@.take(i + 1).drop_last() =~= ds@.take(i as int));
        assert(out@ =~= start + plain_drops(ds@.take(i + 1)));
        i += 1;
    }
    assert(ds@.take(ds@.len() as int) =~= ds@);
}

/// The part on the throughput of a workload.
pub open spec fn plain_saturation(s: SaturationText) -> Seq<char> {
    blank() + line(
        seq![
            "--> Saturation ("@,
            workload_title(s.workload),
            ") <--"@,
        ],
    ) + line(
        seq![
            "  Max throughput: "@,
            s.peak@,
            " at "@,
            decimal(s.peak_at as nat),
            " clients"@,
        ],
    ) + (if s.detected {
        plain_drops(s.drops@)
    } else {
        line(
            seq![
                "  No saturation detected ("@,
                decimal(ends(s.concurrencies@).0 as nat),
                ".."@,
                decimal(ends(s.concurrencies@).1 as nat),
                " clients)"@,
            ],
        )
    })
}

fn push_plain_saturation(out: &mut String, s: &SaturationText)
    ensures
        final(out)@ == old(out)@ + plain_saturation(*s),
{
    push_blank(out);
    let parts = vec![
        text("--> Saturation ("),
        text(s.workload.title()),
        text(") <--"),
    ];
    assert(texts(parts@) =~= seq![
        "--> Saturation ("@,
        workload_title(s.workload),
        ") <--"@,
    ]);
    push_line(out, &parts);
    let parts = vec![
        text("  Max throughput: "),
        text(s.peak.as_str()),
        text(" at "),
        decimal_text(s.peak_at as u64),
        text(" clients"),
    ];
    assert(texts(parts@) =~= seq![
        "  Max throughput: "@,
        s.peak@,
        " at "@,
        decimal(s.peak_at as nat),
        " clients"@,
    ]);
    push_line(out, &parts);
    if s.detected {
        push_plain_drops(out, &s.drops);
    } else {
        let n: usize = s.concurrencies.len();
        let (first, last): (u32, u32) = if n == 0 {
            (0, 0)
        } else {
            (s.concurrencies[0], s.concurrencies[n - 1])
        };
        let parts = vec![
            text("  No saturation detected ("),
            decimal_text(first as u64),
            text(".."),
            decimal_text(last as u64),
            text(" clients)"),
        ];
        assert(texts(parts@) =~= seq![
            "  No saturation detected ("@,
            decimal(ends(s.concurrencies@).0 as nat),
            ".."@,
            decimal(ends(s.concurrencies@).1 as nat),
            " clients)"@,
        ]);
        push_line(out, &parts);
    }
    assert(out@ =~= old(out)@ + plain_saturation(*s));
}

/// The parts on the throughputs of the workloads.
pub open spec fn plain_saturations(ss: Seq<SaturationText>) -> Seq<char>
    decreases ss.len(),
{
    if ss.len() == 0 {
        Seq::empty()
    } else {
        plain_saturations(ss.drop_last()) + plain_saturation(ss.last())
    }
}

fn push_plain_saturations(out: &mut String, ss: &Vec<SaturationText>)
    ensures
        final(out)@ == old(out)@ + plain_saturations(ss@),
{
    let ghost start = out@;
    let mut i: usize = 0;
    assert(ss@.take(0) =~= Seq::<SaturationText>::empty());
    assert(start + plain_saturations(ss@.take(0)) =~= start);
    while i < ss.len()
        invariant
            i <= ss@.len(),
            out@ == start + plain_saturations(ss@.take(i as int)),
        decreases ss@.len() - i,
    {
        push_plain_saturation(out, &ss[i]);
        assert(ss@.take(i + 1).drop_last() =~= ss@.take(i as int));
        assert(out@ =~= start + plain_saturations(ss@.take(i + 1)));
        i += 1;
    }
    assert(ss@.take(ss@.len() as int) =~= ss@);
}

/// The middle of the latencies of syncs, if there were any.
pub open spec fn sync_text(p50: Option<String>) -> Seq<char> {
    match p50 {
        Some(s) => s@,
        None => "N/A"@,
    }
}

fn push_labeled(out: &mut String, label: &str, l: &LatencyText)
    ensures
        final(out)@ == old(out)@ + line(seq![label@, latency_line(*l)]),
{
    let parts = vec![text(label), fmt_latency_line(l)];
    assert(texts(parts@) =~= seq![label@, latency_line(*l)]);
    push_line(out, &parts);
}

/// The line on the connections.
pub open spec fn color_connections(s: ServerText) -> Seq<char> {
    line(
        seq![
            "  "@,
            padded("CONNECTIONS:"@, 12, ' '),
            "  accepted="@,
            decimal(s.accepted as nat),
            "  active="@,
            signed_decimal(s.active as int),
            "  frames="@,
            decimal(s.frames_read as nat),
        ],
    )
}

fn push_color_connections(out: &mut String, s: &ServerText)
    ensures
        final(out)@ == old(out)@ + color_connections(*s),
{
    let parts = vec![
        text("  "),
        right_text("CONNECTIONS:", 12),
        text("  accepted="),
        decimal_text(s.accepted as u64),
        text("  active="),
        signed_text(s.active),
        text("  frames="),
        decimal_text(s.frames_read as u64),
    ];
    assert(texts(parts@) =~= seq![
        "  "@,
        padded("CONNECTIONS:"@, 12, ' '),
        "  accepted="@,
        decimal(s.accepted as nat),
        "  active="@,
        signed_decimal(s.active as int),
        "  frames="@,
        decimal(s.frames_read as nat),
    ]);
    push_line(out, &parts);
}

/// The line on the log.
pub open spec fn color_wal(s: ServerText) -> Seq<char> {
    line(
        seq![
            "  "@,
            padded("WAL:"@, 12, ' '),
            "  "@,
            s.wal_writes@,
            " writes ("@,
            s.wal_bytes@,
            "), "@,
            decimal(s.syncs as nat),
            " syncs (p50="@,
            sync_text(s.sync_p50),
            ")"@,
        ],
    )
}

fn push_color_wal(out: &mut String, s: &ServerText)
    ensures
        final(out)@ == old(out)@ + color_wal(*s),
{
    let parts = vec![
        text("  "),
        right_text("WAL:", 12),
        text("  "),
        text(s.wal_writes.as_str()),
        text(" writes ("),
        text(s.wal_bytes.as_str()),
        text("), "),
        decimal_text(s.syncs as u64),
        text(" syncs (p50="),
        match &s.sync_p50 {
            Some(p) => text(p.as_str()),
            None => text("N/A"),
        },
        text(")"),
    ];
    assert(texts(parts@) =~= seq![
        "  "@,
        padded("WAL:"@, 12, ' '),
        "  "@,
        s.wal_writes@,
        " writes ("@,
        s.wal_bytes@,
        "), "@,
        decimal(s.syncs as nat),
        " syncs (p50="@,
        sync_text(s.sync_p50),
        ")"@,
    ]);
    push_line(out, &parts);
}

/// The line on the engine.
pub open spec fn color_engine(s: ServerText) -> Seq<char> {
    line(
        seq![
            "  "@,
            padded("ENGINE:"@, 12, ' '),
            "  "@,
            s.records@,
            " records ("@,
            decimal(s.batches as nat),
            " cmds), "@,
            decimal(s.flushes as nat),
            " flushes, "@,
            decimal(s.compactions as nat),
            " compactions, "@,
            signed_decimal(s.ssts as int),
            " SSTs"@,
        ],
    )
}

fn push_color_engine(out: &mut String, s: &ServerText)
    ensures
        final(out)@ == old(out)@ + color_engine(*s),
{
    let parts = vec![
        text("  "),
        right_text("ENGINE:", 12),
        text("  "),
        text(s.records.as_str()),
        text(" records ("),
        decimal_text(s.batches as u64),
        text(" cmds), "),
        decimal_text(s.flushes as u64),
        text(" flushes, "),
        decimal_text(s.compactions as u64),
        text(" compactions, "),
        signed_text(s.ssts),
        text(" SSTs"),
    ];
    assert(texts(parts@) =~= seq![
        "  "@,
        padded("ENGINE:"@, 12, ' '),
        "  "@,
        s.records@,
        " records ("@,
        decimal(s.batches as nat),
        " cmds), "@,
        decimal(s.flushes as nat),
        " flushes, "@,
        decimal(s.compactions as nat),
        " compactions, "@,
        signed_decimal(s.ssts as int),
        " SSTs"@,
    ]);
    push_line(out, &parts);
}

/// The line on the memory table.
pub open spec fn color_memtable(s: ServerText) -> Seq<char> {
    line(
        seq![
            "  "@,
            padded("MEMTABLE:"@, 12, ' '),
            "  "@,
            s.memtable@,
            " / "@,
            s.memtable_limit@,
        ],
    )
}

fn push_color_memtable(out: &mut String, s: &ServerText)
    ensures
        final(out)@ == old(out)@ + color_memtable(*s),
{
    let parts = vec![
        text("  "),
        right_text("MEMTABLE:", 12),
        text("  "),
        text(s.memtable.as_str()),
        text(" / "),
        text(s.memtable_limit.as_str()),
    ];
    assert(texts(parts@) =~= seq![
        "  "@,
        padded("MEMTABLE:"@, 12, ' '),
        "  "@,
        s.memtable@,
        " / "@,
        s.memtable_limit@,
    ]);
    push_line(out, &parts);
}

/// The part on the server. The latencies stand there if all is to be told.
pub open spec fn color_server(s: ServerText, verbose: bool) -> Seq<char> {
    blank() + title("--- SERVER METRICS ---"@) + color_connections(s) + color_wal(s) + color_engine(s)
        + color_memtable(s) + (if verbose && s.sync_latency is Some {
        blank() + line(seq!["  WAL SYNC LAT (MS):  "@, latency_line(s.sync_latency->0)])
    } else {
        Seq::empty()
    }) + (if verbose && s.batch_latency is Some {
        line(seq!["  BATCH INSERT LAT (MS):  "@, latency_line(s.batch_latency->0)])
    } else {
        Seq::empty()
    })
}

fn push_color_server(out: &mut String, s: &ServerText, verbose: bool)
    ensures
        final(out)@ == old(out)@ + color_server(*s, verbose),
{
    push_blank(out);
    push_title(out, "--- SERVER METRICS ---");
    push_color_connections(out, s);
    push_color_wal(out, s);
    push_color_engine(out, s);
    push_color_memtable(out, s);
    if verbose {
        if let Some(l) = &s.sync_latency {
            push_blank(out);
            push_labeled(out, "  WAL SYNC LAT (MS):  ", l);
        }
        if let Some(l) = &s.batch_latency {
            push_labeled(out, "  BATCH INSERT LAT (MS):  ", l);
        }
    }
    assert(out@ =~= old(out)@ + color_server(*s, verbose));
}

/// The line on the connections.
pub open spec fn plain_connections(s: ServerText) -> Seq<char> {
    line(
        seq![
            "  Connections: accepted="@,
            decimal(s.accepted as nat),
            "  active="@,
            signed_decimal(s.active as int),
            "  frames="@,
            decimal(s.frames_read as nat),
        ],
    )
}

fn push_plain_connections(out: &mut String, s: &ServerText)
    ensures
        final(out)@ == old(out)@ + plain_connections(*s),
{
    let parts = vec![
        text("  Connections: accepted="),
        decimal_text(s.accepted as u64),
        text("  active="),
        signed_text(s.active),
        text("  frames="),
        decimal_text(s.frames_read as u64),
    ];
    assert(texts(parts@) =~= seq![
        "  Connections: accepted="@,
        decimal(s.accepted as nat),
        "  active="@,
        signed_decimal(s.active as int),
        "  frames="@,
        decimal(s.frames_read as nat),
    ]);
    push_line(out, &parts);
}

/// The line on the log.
pub open spec fn plain_wal(s: ServerText) -> Seq<char> {
    line(
        seq![
            "  WAL: "@,
            s.wal_writes@,
            " writes ("@,
            s.wal_bytes@,
            "), "@,
            decimal(s.syncs as nat),
            " syncs (p50="@,
            sync_text(s.sync_p50),
            ")"@,
        ],
    )
}

fn push_plain_wal(out: &mut String, s: &ServerText)
    ensures
        final(out)@ == old(out)@ + plain_wal(*s),
{
    let parts = vec![
        text("  WAL: "),
        text(s.wal_writes.as_str()),
        text(" writes ("),
        text(s.wal_bytes.as_str()),
        text("), "),
        decimal_text(s.syncs as u64),
        text(" syncs (p50="),
        match &s.sync_p50 {
            Some(p) => text(p.as_str()),
            None => text("N/A"),
        },
        text(")"),
    ];
    assert(texts(parts@) =~= seq![
        "  WAL: "@,
        s.wal_writes@,
        " writes ("@,
        s.wal_bytes@,
        "), "@,
        decimal(s.syncs as nat),
        " syncs (p50="@,
        sync_text(s.sync_p50),
        ")"@,
    ]);
    push_line(out, &parts);
}

/// The line on the engine.
pub open spec fn plain_engine(s: ServerText) -> Seq<char> {
    line(
        seq![
            "  Engine: "@,
            s.records@,
            " records ("@,
            decimal(s.batches as nat),
            " insert cmds), "@,
            decimal(s.flushes as nat),
            " flushes, "@,
            decimal(s.compactions as nat),
            " compactions, "@,
            signed_decimal(s.ssts as int),
            " SSTs"@,
        ],
    )
}

fn push_plain_engine(out: &mut String, s: &ServerText)
    ensures
        final(out)@ == old(out)@ + plain_engine(*s),
{
    let parts = vec![
        text("  Engine: "),
        text(s.records.as_str()),
        text(" records ("),
        decimal_text(s.batches as u64),
        text(" insert cmds), "),
        decimal_text(s.flushes as u64),
        text(" flushes, "),
        decimal_text(s.compactions as u64),
        text(" compactions, "),
        signed_text(s.ssts),
        text(" SSTs"),
    ];
    assert(texts(parts@) =~= seq![
        "  Engine: "@,
        s.records@,
        " records ("@,
        decimal(s.batches as nat),
        " insert cmds), "@,
        decimal(s.flushes as nat),
        " flushes, "@,
        decimal(s.compactions as nat),
        " compactions, "@,
        signed_decimal(s.ssts as int),
        " SSTs"@,
    ]);
    push_line(out, &parts);
}

/// The line on the memory table.
pub open spec fn plain_memtable(s: ServerText) -> Seq<char> {
    line(
        seq![
            "  Memtable: "@,
            s.memtable@,
            " / "@,
            s.memtable_limit@,
        ],
    )
}

fn push_plain_memtable(out: &mut String, s: &ServerText)
    ensures
        final(out)@ == old(out)@ + plain_memtable(*s),
{
    let parts = vec![
        text("  Memtable: "),
        text(s.memtable.as_str()),
        text(" / "),
        text(s.memtable_limit.as_str()),
    ];
    assert(texts(parts@) =~= seq![
        "  Memtable: "@,
        s.memtable@,
        " / "@,
        s.memtable_limit@,
    ]);
    push_line(out, &parts);
}

/// The part on the server. The latencies stand there if all is to be told.
pub open spec fn plain_server(s: ServerText, verbose: bool) -> Seq<char> {
    blank() + line(seq!["--> Server Metrics (post-run) <--"@]) + plain_connections(s) + plain_wal(s) + plain_engine(s)
        + plain_memtable(s) + (if verbose && s.sync_latency is Some {
        blank() + line(seq!["  WAL sync lat:  "@, latency_line(s.sync_latency->0)])
    } else {
        Seq::empty()
    }) + (if verbose && s.batch_latency is Some {
        line(seq!["  Batch insert lat (server):  "@, latency_line(s.batch_latency->0)])
    } else {
        Seq::empty()
    })
}

fn push_plain_server(out: &mut String, s: &ServerText, verbose: bool)
    ensures
        final(out)@ == old(out)@ + plain_server(*s, verbose),
{
    push_blank(out);
    let head = vec![text("--> Server Metrics (post-run) <--")];
    assert(texts(head@) =~= seq!["--> Server Metrics (post-run) <--"@]);
    push_line(out, &head);
    push_plain_connections(out, s);
    push_plain_wal(out, s);
    push_plain_engine(out, s);
    push_plain_memtable(out, s);
    if verbose {
        if let Some(l) = &s.sync_latency {
            push_blank(out);
            push_labeled(out, "  WAL sync lat:  ", l);
        }
        if let Some(l) = &s.batch_latency {
            push_labeled(out, "  Batch insert lat (server):  ", l);
        }
    }
    assert(out@ =~= old(out)@ + plain_server(*s, verbose));
}

/// The part on the memory.
pub open spec fn color_memory(m: MemoryText) -> Seq<char> {
    blank() + title("--- MEMORY PROFILE ---"@) + line(
        seq![
            "  "@,
            padded("RSS:"@, 12, ' '),
            "  "@,
            m.start@,
            " (start) -> "@,
            m.peak@,
            " (peak) -> "@,
            m.end@,
            " (end)"@,
        ],
    ) + line(
        seq![
            "  "@,
            padded("GROWTH:"@, 12, ' '),
            "  "@,
            m.growth@,
            "KB/s"@,
        ],
    ) + line(
        seq![
            "  "@,
            padded("SAMPLES:"@, 12, ' '),
            "  "@,
            decimal(m.samples as nat),
        ],
    )
}

fn push_color_memory(out: &mut String, m: &MemoryText)
    ensures
        final(out)@ == old(out)@ + color_memory(*m),
{
    push_blank(out);
    push_title(out, "--- MEMORY PROFILE ---");
    let parts = vec![
        text("  "),
        right_text("RSS:", 12),
        text("  "),
        text(m.start.as_str()),
        text(" (start) -> "),
        text(m.peak.as_str()),
        text(" (peak) -> "),
        text(m.end.as_str()),
        text(" (end)"),
    ];
    assert(texts(parts@) =~= seq![
        "  "@,
        padded("RSS:"@, 12, ' '),
        "  "@,
        m.start@,
        " (start) -> "@,
        m.peak@,
        " (peak) -> "@,
        m.end@,
        " (end)"@,
    ]);
    push_line(out, &parts);
    let parts = vec![
        text("  "),
        right_text("GROWTH:", 12),
        text("  "),
        text(m.growth.as_str()),
        text("KB/s"),
    ];
    assert(texts(parts@) =~= seq![
        "  "@,
        padded("GROWTH:"@, 12, ' '),
        "  "@,
        m.growth@,
        "KB/s"@,
    ]);
    push_line(out, &parts);
    let parts = vec![
        text("  "),
        right_text("SAMPLES:", 12),
        text("  "),
        decimal_text(m.samples as u64),
    ];
    assert(texts(parts@) =~= seq![
        "  "@,
        padded("SAMPLES:"@, 12, ' '),
        "  "@,
        decimal(m.samples as nat),
    ]);
    push_line(out, &parts);
    assert(out@ =~= old(out)@ + color_memory(*m));
}

/// The part on the memory.
pub open spec fn plain_memory(m: MemoryText) -> Seq<char> {
    blank() + line(seq!["--> Memory Profile <--"@]) + line(
        seq![
            "  RSS: "@,
            m.start@,
            " (start) \u{2192} "@,
            m.peak@,
            " (peak) \u{2192} "@,
            m.end@,
            " (end)  |  Grow: "@,
            m.growth@,
            "KB/s  |  Samples: "@,
            decimal(m.samples as nat),
        ],
    )
}

fn push_plain_memory(out: &mut String, m: &MemoryText)
    ensures
        final(out)@ == old(out)@ + plain_memory(*m),
{
    push_blank(out);
    let head = vec![text("--> Memory Profile <--")];
    assert(texts(head@) =~= seq!["--> Memory Profile <--"@]);
    push_line(out, &head);
    let parts = vec![
        text("  RSS: "),
        text(m.start.as_str()),
        text(" (start) \u{2192} "),
        text(m.peak.as_str()),
        text(" (peak) \u{2192} "),
        text(m.end.as_str()),
        text(" (end)  |  Grow: "),
        text(m.growth.as_str()),
        text("KB/s  |  Samples: "),
        decimal_text(m.samples as u64),
    ];
    assert(texts(parts@) =~= seq![
        "  RSS: "@,
        m.start@,
        " (start) \u{2192} "@,
        m.peak@,
        " (peak) \u{2192} "@,
        m.end@,
        " (end)  |  Grow: "@,
        m.growth@,
        "KB/s  |  Samples: "@,
        decimal(m.samples as nat),
    ]);
    push_line(out, &parts);
    assert(out@ =~= old(out)@ + plain_memory(*m));
}

/// The summary of a benchmark, with its titles in color.
pub open spec fn color_summary(b: Summary, verbose: bool) -> Seq<char> {
    color_settings(b.settings) + color_runs(b.runs@, verbose) + color_saturations(
        b.saturations@,
    ) + color_server(b.server, verbose) + (match b.memory {
        Some(m) => color_memory(m),
        None => Seq::empty(),
    }) + blank()
}

/// The summary of a benchmark, with its titles in color.
pub fn write_summary(b: &Summary, verbose: bool) -> (out: String)
    requires
        forall|i: int| 0 <= i < b.runs@.len() ==> run_errors(#[trigger] b.runs@[i]) <= u64::MAX,
    ensures
        out@ == color_summary(*b, verbose),
{
    let mut out = String::new();
    push_color_settings(&mut out, &b.settings);
    push_color_runs(&mut out, &b.runs, verbose);
    push_color_saturations(&mut out, &b.saturations);
    push_color_server(&mut out, &b.server, verbose);
    if let Some(m) = &b.memory {
        push_color_memory(&mut out, m);
    }
    push_blank(&mut out);
    assert(out@ =~= color_summary(*b, verbose));
    out
}

/// The summary of a benchmark, without colors.
pub open spec fn plain_summary(b: Summary, verbose: bool) -> Seq<char> {
    plain_settings(b.settings) + plain_runs(b.runs@, verbose) + plain_saturations(
        b.saturations@,
    ) + plain_server(b.server, verbose) + (match b.memory {
        Some(m) => plain_memory(m),
        None => Seq::empty(),
    }) + blank()
}

/// The summary of a benchmark, without colors.
pub fn write_summary_to_stderr(b: &Summary, verbose: bool) -> (out: String)
    requires
        forall|i: int| 0 <= i < b.runs@.len() ==> run_errors(#[trigger] b.runs@[i]) <= u64::MAX,
    ensures
        out@ == plain_summary(*b, verbose),
{
    let mut out = String::new();
    push_plain_settings(&mut out, &b.settings);
    push_plain_runs(&mut out, &b.runs, verbose);
    push_plain_saturations(&mut out, &b.saturations);
    push_plain_server(&mut out, &b.server, verbose);
    if let Some(m) = &b.memory {
        push_plain_memory(&mut out, m);
    }
    push_blank(&mut out);
    assert(out@ =~= plain_summary(*b, verbose));
    out
}

} // verus!
