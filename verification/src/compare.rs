//! The comparison of benchmark results with a baseline. What is computed with fractions comes
//! in as text.
use vstd::prelude::*;
use vstd::string::StringExecFns;

use crate::bench::{rank, workload_name, WorkloadKind};
use crate::metrics::{
    EngineSnapshot, MetricsSnapshot, ServerSnapshot, Snapshot, WalSnapshot,
};
use crate::style::{cyan, green, in_color, red, yellow};
use crate::text::{
    decimal, decimal_text, filled, left_text, line, padded, push_line, right_text, text, texts,
};

verus! {

/// In which direction a value gets better.
#[derive(Debug, Clone, Copy, PartialEq, Eq, Structural)]
pub enum ChangeDirection {
    HigherBetter,
    LowerBetter,
    Neutral,
}

/// A value of a baseline and of a target.
#[derive(Debug)]
pub struct FieldCmp<V> {
    pub key: String,
    pub prev: V,
    pub new: V,
    pub is_latency: bool,
    pub direction: ChangeDirection,
}

/// What a comparison of two values says.
pub struct FieldModel<V> {
    pub key: Seq<char>,
    pub prev: V,
    pub new: V,
    pub is_latency: bool,
    pub direction: ChangeDirection,
}

impl<V> View for FieldCmp<V> {
    type V = FieldModel<V>;

    open spec fn view(&self) -> FieldModel<V> {
        FieldModel {
            key: self.key@,
            prev: self.prev,
            new: self.new,
            is_latency: self.is_latency,
            direction: self.direction,
        }
    }
}

/// What each comparison of two values says.
pub open spec fn field_views<V>(v: Seq<FieldCmp<V>>) -> Seq<FieldModel<V>> {
    Seq::new(v.len(), |i: int| v[i]@)
}

/// A comparison of two values.
pub open spec fn field<V>(
    prev: V,
    new: V,
    key: Seq<char>,
    is_latency: bool,
    direction: ChangeDirection,
) -> FieldModel<V> {
    FieldModel { key, prev, new, is_latency, direction }
}

/// A comparison of two values.
fn to_field<V>(prev: V, new: V, key: &str, is_latency: bool, direction: ChangeDirection) -> (r:
    FieldCmp<V>)
    ensures
        r@ == field(prev, new, key@, is_latency, direction),
{
    FieldCmp { key: text(key), prev, new, is_latency, direction }
}

/// The latencies of a run that are compared.
#[derive(Debug)]
pub struct LatencyValues<V> {
    pub min: V,
    pub p50: V,
    pub p90: V,
    pub p99: V,
    pub max: V,
}

/// A run: its workload and number of clients, and the values that are compared.
#[derive(Debug)]
pub struct RunValues<V> {
    pub cw: ConcWorkload,
    pub insert_ops: V,
    pub range_ops: V,
    pub records_per_range: V,
    pub ssts: V,
    pub insert_latency: LatencyValues<V>,
    pub range_latency: LatencyValues<V>,
}

/// What is compared of two runs of a workload with the same number of clients.
#[derive(Debug)]
pub struct RunFields<V> {
    pub cw: ConcWorkload,
    pub fields: Vec<FieldCmp<V>>,
}

/// The values on memory that are compared.
#[derive(Debug)]
pub struct MemValues<V> {
    pub rss_min: V,
    pub rss_max: V,
    pub rss_avg: V,
    pub rss_sum: V,
    pub rss_last: V,
    pub growth_rate_kb: V,
    pub growth_rate_mb: V,
    pub sample_size: V,
}

/// The highest throughput of a workload, and with how many clients it was reached.
#[derive(Debug)]
pub struct PeakValues<V> {
    pub workload: WorkloadKind,
    pub throughput: V,
    pub clients: V,
}

/// The values of a run that are compared, in their order.
pub open spec fn run_fields<V>(b: RunValues<V>, t: RunValues<V>) -> Seq<FieldModel<V>> {
    seq![
        field(b.insert_ops, t.insert_ops, "inserts/s"@, false, ChangeDirection::HigherBetter),
        field(b.range_ops, t.range_ops, "ranges/s"@, false, ChangeDirection::HigherBetter),
        field(
            b.records_per_range,
            t.records_per_range,
            "records/range"@,
            false,
            ChangeDirection::HigherBetter,
        ),
        field(b.ssts, t.ssts, "SSTs"@, false, ChangeDirection::Neutral),
        field(
            b.insert_latency.min,
            t.insert_latency.min,
            "insert_latency min"@,
            true,
            ChangeDirection::LowerBetter,
        ),
        field(
            b.insert_latency.p50,
            t.insert_latency.p50,
            "insert_latency p50"@,
            true,
            ChangeDirection::LowerBetter,
        ),
        field(
            b.insert_latency.p90,
            t.insert_latency.p90,
            "insert_latency p90"@,
            true,
            ChangeDirection::LowerBetter,
        ),
        field(
            b.insert_latency.p99,
            t.insert_latency.p99,
            "insert_latency p99"@,
            true,
            ChangeDirection::LowerBetter,
        ),
        field(
            b.insert_latency.max,
            t.insert_latency.max,
            "insert_latency max"@,
            true,
            ChangeDirection::LowerBetter,
        ),
        field(
            b.range_latency.min,
            t.range_latency.min,
            "range_latency min"@,
            true,
            ChangeDirection::LowerBetter,
        ),
        field(
            b.range_latency.p50,
            t.range_latency.p50,
            "range_latency p50"@,
            true,
            ChangeDirection::LowerBetter,
        ),
        field(
            b.range_latency.p90,
            t.range_latency.p90,
            "range_latency p90"@,
            true,
            ChangeDirection::LowerBetter,
        ),
        field(
            b.range_latency.p99,
            t.range_latency.p99,
            "range_latency p99"@,
            true,
            ChangeDirection::LowerBetter,
        ),
        field(
            b.range_latency.max,
            t.range_latency.max,
            "range_latency max"@,
            true,
            ChangeDirection::LowerBetter,
        ),
    ]
}

/// What is compared of two runs: the workload and the number of clients of the baseline's run,
/// and the values, in their order.
pub fn cmp_runs<V: Copy>(b: &RunValues<V>, t: &RunValues<V>) -> (r: RunFields<V>)
    ensures
        r.cw == b.cw,
        field_views(r.fields@) == run_fields(*b, *t),
{
    let mut v: Vec<FieldCmp<V>> = Vec::new();
    v.push(to_field(b.insert_ops, t.insert_ops, "inserts/s", false, ChangeDirection::HigherBetter));
    v.push(to_field(b.range_ops, t.range_ops, "ranges/s", false, ChangeDirection::HigherBetter));
    v.push(
        to_field(
            b.records_per_range,
            t.records_per_range,
            "records/range",
            false,
            ChangeDirection::HigherBetter,
        ),
    );
    v.push(to_field(b.ssts, t.ssts, "SSTs", false, ChangeDirection::Neutral));
    v.push(
        to_field(
            b.insert_latency.min,
            t.insert_latency.min,
            "insert_latency min",
            true,
            ChangeDirection::LowerBetter,
        ),
    );
    v.push(
        to_field(
            b.insert_latency.p50,
            t.insert_latency.p50,
            "insert_latency p50",
            true,
            ChangeDirection::LowerBetter,
        ),
    );
    v.push(
        to_field(
            b.insert_latency.p90,
            t.insert_latency.p90,
            "insert_latency p90",
            true,
            ChangeDirection::LowerBetter,
        ),
    );
    v.push(
        to_field(
            b.insert_latency.p99,
            t.insert_latency.p99,
            "insert_latency p99",
            true,
            ChangeDirection::LowerBetter,
        ),
    );
    v.push(
        to_field(
            b.insert_latency.max,
            t.insert_latency.max,
            "insert_latency max",
            true,
            ChangeDirection::LowerBetter,
        ),
    );
    v.push(
        to_field(
            b.range_latency.min,
            t.range_latency.min,
            "range_latency min",
            true,
            ChangeDirection::LowerBetter,
        ),
    );
    v.push(
        to_field(
            b.range_latency.p50,
            t.range_latency.p50,
            "range_latency p50",
            true,
            ChangeDirection::LowerBetter,
        ),
    );
    v.push(
        to_field(
            b.range_latency.p90,
            t.range_latency.p90,
            "range_latency p90",
            true,
            ChangeDirection::LowerBetter,
        ),
    );
    v.push(
        to_field(
            b.range_latency.p99,
            t.range_latency.p99,
            "range_latency p99",
            true,
            ChangeDirection::LowerBetter,
        ),
    );
    v.push(
        to_field(
            b.range_latency.max,
            t.range_latency.max,
            "range_latency max",
            true,
            ChangeDirection::LowerBetter,
        ),
    );
    assert(field_views(v@) =~= run_fields(*b, *t));
    RunFields { cw: b.cw, fields: v }
}

/// The values on memory that are compared, in their order.
pub open spec fn mem_fields<V>(b: MemValues<V>, t: MemValues<V>) -> Seq<FieldModel<V>> {
    seq![
        field(b.rss_min, t.rss_min, "mem_rss_min_kb"@, false, ChangeDirection::LowerBetter),
        field(b.rss_max, t.rss_max, "mem_rss_max_kb"@, false, ChangeDirection::LowerBetter),
        field(b.rss_avg, t.rss_avg, "mem_rss_avg_kb"@, false, ChangeDirection::LowerBetter),
        field(b.rss_sum, t.rss_sum, "mem_rss_sum_kb"@, false, ChangeDirection::LowerBetter),
        field(b.rss_last, t.rss_last, "mem_rss_end_kb"@, false, ChangeDirection::LowerBetter),
        field(
            b.growth_rate_kb,
            t.growth_rate_kb,
            "mem_growth_kbs"@,
            false,
            ChangeDirection::LowerBetter,
        ),
        field(
            b.growth_rate_mb,
            t.growth_rate_mb,
            "mem_growth_mbs"@,
            false,
            ChangeDirection::LowerBetter,
        ),
        field(b.sample_size, t.sample_size, "mem_sample_size"@, false, ChangeDirection::Neutral),
    ]
}

/// The values on memory that are compared, in their order.
pub fn cmp_mem<V: Copy>(b: &MemValues<V>, t: &MemValues<V>) -> (v: Vec<FieldCmp<V>>)
    ensures
        field_views(v@) == mem_fields(*b, *t),
{
    let mut v: Vec<FieldCmp<V>> = Vec::new();
    v.push(to_field(b.rss_min, t.rss_min, "mem_rss_min_kb", false, ChangeDirection::LowerBetter));
    v.push(to_field(b.rss_max, t.rss_max, "mem_rss_max_kb", false, ChangeDirection::LowerBetter));
    v.push(to_field(b.rss_avg, t.rss_avg, "mem_rss_avg_kb", false, ChangeDirection::LowerBetter));
    v.push(to_field(b.rss_sum, t.rss_sum, "mem_rss_sum_kb", false, ChangeDirection::LowerBetter));
    v.push(to_field(b.rss_last, t.rss_last, "mem_rss_end_kb", false, ChangeDirection::LowerBetter));
    v.push(
        to_field(
            b.growth_rate_kb,
            t.growth_rate_kb,
            "mem_growth_kbs",
            false,
            ChangeDirection::LowerBetter,
        ),
    );
    v.push(
        to_field(
            b.growth_rate_mb,
            t.growth_rate_mb,
            "mem_growth_mbs",
            false,
            ChangeDirection::LowerBetter,
        ),
    );
    v.push(
        to_field(
            b.sample_size,
            t.sample_size,
            "mem_sample_size",
            false,
            ChangeDirection::Neutral,
        ),
    );
    assert(field_views(v@) =~= mem_fields(*b, *t));
    v
}

/// The middle of the latencies, or zero if nothing is told of them.
pub open spec fn p50_of(s: Option<Snapshot>) -> int {
    match s {
        Some(s) => s.p50 as int,
        None => 0,
    }
}

fn middle(s: &Option<Snapshot>) -> (n: i128)
    ensures
        n == p50_of(*s),
{
    match s {
        Some(s) => s.p50 as i128,
        None => 0,
    }
}

fn wide(n: u64) -> (r: i128)
    ensures
        r == n,
{
    n as i128
}

fn wide_signed(n: i64) -> (r: i128)
    ensures
        r == n,
{
    n as i128
}

/// The metrics that are compared, in their order.
pub open spec fn metric_fields(b: MetricsSnapshot, t: MetricsSnapshot) -> Seq<FieldModel<i128>> {
    seq![
        field(
            p50_of(b.wal.sync_latency) as i128,
            p50_of(t.wal.sync_latency) as i128,
            "wal_sync p50 (us)"@,
            true,
            ChangeDirection::LowerBetter,
        ),
        field(
            b.wal.write_count as i128,
            t.wal.write_count as i128,
            "wal_write_count"@,
            false,
            ChangeDirection::Neutral,
        ),
        field(
            b.wal.write_bytes as i128,
            t.wal.write_bytes as i128,
            "wal_write_bytes"@,
            false,
            ChangeDirection::Neutral,
        ),
        field(
            b.wal.sync_count as i128,
            t.wal.sync_count as i128,
            "wal_sync_count"@,
            false,
            ChangeDirection::Neutral,
        ),
        field(
            b.engine.flush_count as i128,
            t.engine.flush_count as i128,
            "engine_flush_count"@,
            false,
            ChangeDirection::LowerBetter,
        ),
        field(
            b.engine.compaction_count as i128,
            t.engine.compaction_count as i128,
            "engine_compactions"@,
            false,
            ChangeDirection::LowerBetter,
        ),
        field(
            b.engine.records_inserted as i128,
            t.engine.records_inserted as i128,
            "engine_records"@,
            false,
            ChangeDirection::Neutral,
        ),
        field(
            b.engine.memtable_bytes as i128,
            t.engine.memtable_bytes as i128,
            "engine_memtable_bytes"@,
            false,
            ChangeDirection::LowerBetter,
        ),
        field(
            b.engine.sstable_count as i128,
            t.engine.sstable_count as i128,
            "engine_sst_count"@,
            false,
            ChangeDirection::Neutral,
        ),
        field(
            b.server.connections_accepted as i128,
            t.server.connections_accepted as i128,
            "server_conns_accepted"@,
            false,
            ChangeDirection::Neutral,
        ),
        field(
            b.server.frames_read as i128,
            t.server.frames_read as i128,
            "server_frames_read"@,
            false,
            ChangeDirection::Neutral,
        ),
        field(
            b.server.frames_written as i128,
            t.server.frames_written as i128,
            "server_frames_written"@,
            false,
            ChangeDirection::Neutral,
        ),
    ]
}

/// The metrics that are compared, in their order.
pub fn cmp_metrics(b: &MetricsSnapshot, t: &MetricsSnapshot) -> (v: Vec<FieldCmp<i128>>)
    ensures
        field_views(v@) == metric_fields(*b, *t),
{
    let mut v: Vec<FieldCmp<i128>> = Vec::new();
    v.push(
        to_field(
            middle(&b.wal.sync_latency),
            middle(&t.wal.sync_latency),
            "wal_sync p50 (us)",
            true,
            ChangeDirection::LowerBetter,
        ),
    );
    v.push(
        to_field(
            wide(b.wal.write_count),
            wide(t.wal.write_count),
            "wal_write_count",
            false,
            ChangeDirection::Neutral,
        ),
    );
    v.push(
        to_field(
            wide(b.wal.write_bytes),
            wide(t.wal.write_bytes),
            "wal_write_bytes",
            false,
            ChangeDirection::Neutral,
        ),
    );
    v.push(
        to_field(
            wide(b.wal.sync_count),
            wide(t.wal.sync_count),
            "wal_sync_count",
            false,
            ChangeDirection::Neutral,
        ),
    );
    v.push(
        to_field(
            wide(b.engine.flush_count),
            wide(t.engine.flush_count),
            "engine_flush_count",
            false,
            ChangeDirection::LowerBetter,
        ),
    );
    v.push(
        to_field(
            wide(b.engine.compaction_count),
            wide(t.engine.compaction_count),
            "engine_compactions",
            false,
            ChangeDirection::LowerBetter,
        ),
    );
    v.push(
        to_field(
            wide(b.engine.records_inserted),
            wide(t.engine.records_inserted),
            "engine_records",
            false,
            ChangeDirection::Neutral,
        ),
    );
    v.push(
        to_field(
            wide_signed(b.engine.memtable_bytes),
            wide_signed(t.engine.memtable_bytes),
            "engine_memtable_bytes",
            false,
            ChangeDirection::LowerBetter,
        ),
    );
    v.push(
        to_field(
            wide_signed(b.engine.sstable_count),
            wide_signed(t.engine.sstable_count),
            "engine_sst_count",
            false,
            ChangeDirection::Neutral,
        ),
    );
    v.push(
        to_field(
            wide(b.server.connections_accepted),
            wide(t.server.connections_accepted),
            "server_conns_accepted",
            false,
            ChangeDirection::Neutral,
        ),
    );
    v.push(
        to_field(
            wide(b.server.frames_read),
            wide(t.server.frames_read),
            "server_frames_read",
            false,
            ChangeDirection::Neutral,
        ),
    );
    v.push(
        to_field(
            wide(b.server.frames_written),
            wide(t.server.frames_written),
            "server_frames_written",
            false,
            ChangeDirection::Neutral,
        ),
    );
    assert(field_views(v@) =~= metric_fields(*b, *t));
    v
}

/// The first of the peaks that is of the workload.
pub open spec fn peak_of<V>(t: Seq<PeakValues<V>>, w: WorkloadKind) -> Option<int>
    decreases t.len(),
{
    if t.len() == 0 {
        None
    } else if peak_of(t.drop_last(), w) is Some {
        peak_of(t.drop_last(), w)
    } else if t.last().workload == w {
        Some(t.len() - 1)
    } else {
        None
    }
}

/// The two values of a workload that are compared.
pub open spec fn peak_pair<V>(b: PeakValues<V>, t: PeakValues<V>) -> Seq<FieldModel<V>> {
    seq![
        field(
            b.throughput,
            t.throughput,
            "sat_"@ + workload_name(b.workload) + "_throughput"@,
            false,
            ChangeDirection::HigherBetter,
        ),
        field(
            b.clients,
            t.clients,
            "sat_"@ + workload_name(b.workload) + "_conc_peak"@,
            false,
            ChangeDirection::HigherBetter,
        ),
    ]
}

/// The peaks that are compared, in the order of the baseline: those of workloads that the
/// target has too.
pub open spec fn peak_fields<V>(b: Seq<PeakValues<V>>, t: Seq<PeakValues<V>>) -> Seq<FieldModel<V>>
    decreases b.len(),
{
    if b.len() == 0 {
        Seq::empty()
    } else {
        let front = peak_fields(b.drop_last(), t);
        match peak_of(t, b.last().workload) {
            Some(i) => front + peak_pair(b.last(), t[i]),
            None => front,
        }
    }
}

fn find_peak<V>(t: &[PeakValues<V>], w: WorkloadKind) -> (r: Option<usize>)
    ensures
        r is Some <==> peak_of(t@, w) is Some,
        r matches Some(i) ==> peak_of(t@, w) == Some(i as int) && i < t@.len(),
{
    let mut i: usize = 0;
    assert(t@.take(0) =~= Seq::<PeakValues<V>>::empty());
    while i < t.len()
        invariant
            i <= t@.len(),
            peak_of(t@.take(i as int), w) is None,
        decreases t@.len() - i,
    {
        assert(t@.take(i + 1).drop_last() =~= t@.take(i as int));
        if t[i].workload == w {
            proof {
                lemma_peak_first(t@, w, i + 1);
            }
            return Some(i);
        }
        i += 1;
    }
    assert(t@.take(t@.len() as int) =~= t@);
    None
}

proof fn lemma_peak_first<V>(t: Seq<PeakValues<V>>, w: WorkloadKind, i: int)
    requires
        0 <= i <= t.len(),
        peak_of(t.take(i), w) is Some,
    ensures
        peak_of(t, w) == peak_of(t.take(i), w),
    decreases t.len() - i,
{
    if i < t.len() {
        assert(t.take(i + 1).drop_last() =~= t.take(i));
        lemma_peak_first(t, w, i + 1);
    } else {
        assert(t.take(i) =~= t);
    }
}

fn peak_key(w: WorkloadKind, suffix: &str) -> (r: String)
    ensures
        r@ == "sat_"@ + workload_name(w) + suffix@,
{
    let mut r = text("sat_");
    r.append(w.name());
    r.append(suffix);
    r
}

/// The peaks that are compared, in the order of the baseline.
pub fn cmp_saturations<V: Copy>(b: &[PeakValues<V>], t: &[PeakValues<V>]) -> (v: Vec<FieldCmp<V>>)
    ensures
        field_views(v@) == peak_fields(b@, t@),
{
    let mut v: Vec<FieldCmp<V>> = Vec::new();
    let n: usize = b.len();
    let mut i: usize = 0;
    proof {
        lemma_peaks_start(b@, t@, v@);
    }
    while i < n
        invariant
            i <= n == b@.len(),
            field_views(v@) == peak_prefix(b@, t@, i),
        decreases n - i,
    {
        let ghost before = field_views(v@);
        let x = &b[i];
        let found = find_peak(t, x.workload);
        if let Some(k) = found {
            let y = &t[k];
            let one = peak_key(x.workload, "_throughput");
            let two = peak_key(x.workload, "_conc_peak");
            v.push(
                FieldCmp {
                    key: one,
                    prev: x.throughput,
                    new: y.throughput,
                    is_latency: false,
                    direction: ChangeDirection::HigherBetter,
                },
            );
            v.push(
                FieldCmp {
                    key: two,
                    prev: x.clients,
                    new: y.clients,
                    is_latency: false,
                    direction: ChangeDirection::HigherBetter,
                },
            );
            assert(field_views(v@) =~= before + peak_pair(*x, *y));
        }
        proof {
            lemma_peaks_step(b@, t@, i);
        }
        i += 1;
    }
    proof {
        lemma_peaks_end(b@, t@);
    }
    v
}

/// The peaks that are compared among the first `i` of the baseline.
spec fn peak_prefix<V>(b: Seq<PeakValues<V>>, t: Seq<PeakValues<V>>, i: usize) -> Seq<
    FieldModel<V>,
> {
    peak_fields(b.take(i as int), t)
}

proof fn lemma_peaks_start<V>(b: Seq<PeakValues<V>>, t: Seq<PeakValues<V>>, v: Seq<FieldCmp<V>>)
    requires
        v.len() == 0,
    ensures
        field_views(v) == peak_prefix(b, t, 0),
{
    assert(b.take(0) =~= Seq::<PeakValues<V>>::empty());
    assert(field_views(v) =~= peak_prefix(b, t, 0));
}

proof fn lemma_peaks_step<V>(b: Seq<PeakValues<V>>, t: Seq<PeakValues<V>>, i: usize)
    requires
        i < b.len() <= usize::MAX,
    ensures
        peak_prefix(b, t, (i + 1) as usize) == (match peak_of(t, b[i as int].workload) {
            Some(k) => peak_prefix(b, t, i) + peak_pair(b[i as int], t[k]),
            None => peak_prefix(b, t, i),
        }),
{
    assert(b.take(i + 1).drop_last() =~= b.take(i as int));
}

proof fn lemma_peaks_end<V>(b: Seq<PeakValues<V>>, t: Seq<PeakValues<V>>)
    requires
        b.len() <= usize::MAX,
    ensures
        peak_prefix(b, t, b.len() as usize) == peak_fields(b, t),
{
    assert(b.take(b.len() as int) =~= b);
}

/// Whether a value fell, stayed or rose.
#[derive(Debug, Clone, Copy, PartialEq, Eq, Structural)]
pub enum Trend {
    Fell,
    Same,
    Rose,
}

/// What is told of a comparison of two values.
#[derive(Debug)]
pub struct FieldText {
    pub key: String,
    pub prev: String,
    pub new: String,
    pub delta: String,
    pub pct: String,
    pub trend: Trend,
    /// Whether both values are zero.
    pub absent: bool,
    pub direction: ChangeDirection,
}

/// What is told of a comparison of two runs.
#[derive(Debug)]
pub struct RunCmp {
    pub workload: WorkloadKind,
    pub concurrency: u32,
    pub fields: Vec<FieldText>,
}

/// What is told of a comparison.
#[derive(Debug)]
pub struct CmpResult {
    pub files: Vec<String>,
    pub comparisons: Vec<RunCmp>,
    pub saturations: Vec<FieldText>,
    pub metrics: Vec<FieldText>,
    pub mem: Vec<FieldText>,
}

/// Whether a value got better, or there is no better.
pub open spec fn improved(direction: ChangeDirection, trend: Trend) -> bool {
    match direction {
        ChangeDirection::HigherBetter => trend is Rose,
        ChangeDirection::LowerBetter => trend is Fell,
        ChangeDirection::Neutral => true,
    }
}

/// Whether a value got better, or there is no better.
pub fn has_improved_or_neutral(direction: ChangeDirection, trend: Trend) -> (r: bool)
    ensures
        r == improved(direction, trend),
{
    match direction {
        ChangeDirection::HigherBetter => match trend {
            Trend::Rose => true,
            _ => false,
        },
        ChangeDirection::LowerBetter => match trend {
            Trend::Fell => true,
            _ => false,
        },
        ChangeDirection::Neutral => true,
    }
}

/// A text, right-aligned: green if it tells of a change for the better, red if of one for the
/// worse.
pub open spec fn judged(s: Seq<char>, width: nat, f: FieldText) -> Seq<char> {
    let p = padded(s, width, ' ');
    if f.trend is Same {
        p
    } else if improved(f.direction, f.trend) {
        in_color("32"@, p)
    } else {
        in_color("31"@, p)
    }
}

fn padded_color(s: &str, width: usize, f: &FieldText) -> (r: String)
    ensures
        r@ == judged(s@, width as nat, *f),
{
    let p = right_text(s, width);
    let changed = match f.trend {
        Trend::Same => false,
        _ => true,
    };
    if !changed {
        p
    } else if has_improved_or_neutral(f.direction, f.trend) {
        green(p.as_str())
    } else {
        red(p.as_str())
    }
}

/// The line on a comparison of two values: that of the baseline in cyan and that of the target in
/// yellow.
pub open spec fn field_line(f: FieldText) -> Seq<char> {
    line(
        seq![
            "  "@,
            filled(f.key@, 22, ' '),
            " "@,
            in_color("36"@, padded(f.prev@, 12, ' ')),
            " "@,
            in_color("33"@, padded(f.new@, 12, ' ')),
            " "@,
            padded(judged(f.delta@, 12, f), 12, ' '),
            " "@,
            padded(judged(f.pct@, 10, f), 10, ' '),
        ],
    )
}

fn push_field_line(out: &mut String, f: &FieldText)
    ensures
        final(out)@ == old(out)@ + field_line(*f),
{
    let parts = vec![
        text("  "),
        left_text(f.key.as_str(), 22),
        text(" "),
        cyan(right_text(f.prev.as_str(), 12).as_str()),
        text(" "),
        yellow(right_text(f.new.as_str(), 12).as_str()),
        text(" "),
        right_text(padded_color(f.delta.as_str(), 12, f).as_str(), 12),
        text(" "),
        right_text(padded_color(f.pct.as_str(), 10, f).as_str(), 10),
    ];
    assert(texts(parts@) =~= seq![
        "  "@,
        filled(f.key@, 22, ' '),
        " "@,
        in_color("36"@, padded(f.prev@, 12, ' ')),
        " "@,
        in_color("33"@, padded(f.new@, 12, ' ')),
        " "@,
        padded(judged(f.delta@, 12, *f), 12, ' '),
        " "@,
        padded(judged(f.pct@, 10, *f), 10, ' '),
    ]);
    push_line(out, &parts);
}

/// The heads of a table of comparisons.
pub open spec fn heads_line() -> Seq<char> {
    line(
        seq![
            "  "@,
            filled(""@, 22, ' '),
            " "@,
            padded("BASELINE"@, 12, ' '),
            " "@,
            padded("TARGET"@, 12, ' '),
            " "@,
            padded("DELTA"@, 12, ' '),
            " "@,
            padded("DELTA_PCT"@, 10, ' '),
        ],
    )
}

fn push_heads_line(out: &mut String)
    ensures
        final(out)@ == old(out)@ + heads_line(),
{
    let parts = vec![
        text("  "),
        left_text("", 22),
        text(" "),
        right_text("BASELINE", 12),
        text(" "),
        right_text("TARGET", 12),
        text(" "),
        right_text("DELTA", 12),
        text(" "),
        right_text("DELTA_PCT", 10),
    ];
    assert(texts(parts@) =~= seq![
        "  "@,
        filled(""@, 22, ' '),
        " "@,
        padded("BASELINE"@, 12, ' '),
        " "@,
        padded("TARGET"@, 12, ' '),
        " "@,
        padded("DELTA"@, 12, ' '),
        " "@,
        padded("DELTA_PCT"@, 10, ' '),
    ]);
    push_line(out, &parts);
}

/// The title of a comparison of two runs.
pub open spec fn run_line(c: RunCmp) -> Seq<char> {
    line(
        seq![
            "--- "@,
            workload_name(c.workload),
            " | "@,
            decimal(c.concurrency as nat),
            (if c.concurrency != 1 {
                " clients"@
            } else {
                " client"@
            }),
            " ---"@,
        ],
    )
}

fn push_run_line(out: &mut String, c: &RunCmp)
    ensures
        final(out)@ == old(out)@ + run_line(*c),
{
    let parts = vec![
        text("--- "),
        text(c.workload.name()),
        text(" | "),
        decimal_text(c.concurrency as u64),
        if c.concurrency != 1 {
            text(" clients")
        } else {
            text(" client")
        },
        text(" ---"),
    ];
    assert(texts(parts@) =~= seq![
        "--- "@,
        workload_name(c.workload),
        " | "@,
        decimal(c.concurrency as nat),
        (if c.concurrency != 1 {
                " clients"@
            } else {
                " client"@
            }),
        " ---"@,
    ]);
    push_line(out, &parts);
}

/// The lines on comparisons of values. Those of which both values are zero are left out if
/// `sparse`.
pub open spec fn fields_text(fs: Seq<FieldText>, sparse: bool) -> Seq<char>
    decreases fs.len(),
{
    if fs.len() == 0 {
        Seq::empty()
    } else {
        let front = fields_text(fs.drop_last(), sparse);
        if sparse && fs.last().absent {
            front
        } else {
            front + field_line(fs.last())
        }
    }
}

fn push_fields(out: &mut String, fs: &Vec<FieldText>, sparse: bool)
    ensures
        final(out)@ == old(out)@ + fields_text(fs@, sparse),
{
    let ghost start = out@;
    let mut i: usize = 0;
    assert(fs@.take(0) =~= Seq::<FieldText>::empty());
    assert(start + fields_text(fs@.take(0), sparse) =~= start);
    while i < fs.len()
        invariant
            i <= fs@.len(),
            out@ == start + fields_text(fs@.take(i as int), sparse),
        decreases fs@.len() - i,
    {
        assert(fs@.take(i + 1).drop_last() =~= fs@.take(i as int));
        if !(sparse && fs[i].absent) {
            push_field_line(out, &fs[i]);
        }
        assert(out@ =~= start + fields_text(fs@.take(i + 1), sparse));
        i += 1;
    }
    assert(fs@.take(fs@.len() as int) =~= fs@);
}

/// A part of the comparison behind its title. There is none if there is nothing to compare.
pub open spec fn part(head: Seq<char>, fs: Seq<FieldText>, sparse: bool) -> Seq<char> {
    if fs.len() == 0 {
        Seq::empty()
    } else {
        head + heads_line() + fields_text(fs, sparse)
    }
}

fn push_part(out: &mut String, head: &str, fs: &Vec<FieldText>, sparse: bool)
    ensures
        final(out)@ == old(out)@ + part(head@, fs@, sparse),
{
    if fs.len() == 0 {
        assert(out@ + Seq::<char>::empty() =~= out@);
    } else {
        out.append(head);
        push_heads_line(out);
        push_fields(out, fs, sparse);
        assert(out@ =~= old(out)@ + part(head@, fs@, sparse));
    }
}

/// The parts on the comparisons of runs.
pub open spec fn comparisons_text(cs: Seq<RunCmp>) -> Seq<char>
    decreases cs.len(),
{
    if cs.len() == 0 {
        Seq::empty()
    } else {
        comparisons_text(cs.drop_last()) + run_line(cs.last()) + heads_line() + fields_text(
            cs.last().fields@,
            true,
        )
    }
}

fn push_comparisons(out: &mut String, cs: &Vec<RunCmp>)
    ensures
        final(out)@ == old(out)@ + comparisons_text(cs@),
{
    let ghost start = out@;
    let mut i: usize = 0;
    assert(cs@.take(0) =~= Seq::<RunCmp>::empty());
    assert(start + comparisons_text(cs@.take(0)) =~= start);
    while i < cs.len()
        invariant
            i <= cs@.len(),
            out@ == start + comparisons_text(cs@.take(i as int)),
        decreases cs@.len() - i,
    {
        assert(cs@.take(i + 1).drop_last() =~= cs@.take(i as int));
        push_run_line(out, &cs[i]);
        push_heads_line(out);
        push_fields(out, &cs[i].fields, true);
        assert(out@ =~= start + comparisons_text(cs@.take(i + 1)));
        i += 1;
    }
    assert(cs@.take(cs@.len() as int) =~= cs@);
}

/// The comparison of a baseline with targets.
pub open spec fn comparison(r: CmpResult) -> Seq<char> {
    line(
        seq![
            "=> cmp: "@,
            r.files@[0]@,
            " vs "@,
            decimal((r.files@.len() - 1) as nat),
            " target(s) <="@,
        ],
    ) + comparisons_text(r.comparisons@) + part(
        "\n--- Aggregate Metrics ---\n"@,
        r.metrics@,
        true,
    ) + part("\n--- Saturations ---\n"@, r.saturations@, true) + part(
        "\n--- Memory Profile ---\n"@,
        r.mem@,
        false,
    )
}

impl CmpResult {
    /// The comparison of a baseline with targets. The first file is the baseline.
    pub fn write_to(&self) -> (out: String)
        requires
            self.files@.len() > 0,
        ensures
            out@ == comparison(*self),
    {
        let mut out = String::new();
        let parts = vec![
            text("=> cmp: "),
            text(self.files[0].as_str()),
            text(" vs "),
            decimal_text((self.files.len() - 1) as u64),
            text(" target(s) <="),
        ];
        assert(texts(parts@) =~= seq![
            "=> cmp: "@,
            self.files@[0]@,
            " vs "@,
            decimal((self.files@.len() - 1) as nat),
            " target(s) <="@,
        ]);
        push_line(&mut out, &parts);
        push_comparisons(&mut out, &self.comparisons);
        push_part(&mut out, "\n--- Aggregate Metrics ---\n", &self.metrics, true);
        push_part(&mut out, "\n--- Saturations ---\n", &self.saturations, true);
        push_part(&mut out, "\n--- Memory Profile ---\n", &self.mem, false);
        assert(out@ =~= comparison(*self));
        out
    }
}

/// By what runs are compared with each other.
#[derive(Debug, Clone, Copy, PartialEq, Eq, Structural)]
pub struct ConcWorkload {
    pub concurrency: u32,
    pub workload: WorkloadKind,
}

/// A run of the baseline and one of a target: the number of the first, the number of the
/// target, and the number of the second.
#[derive(Debug, Clone, Copy, PartialEq, Eq, Structural)]
pub struct RunPair {
    pub base: usize,
    pub target: usize,
    pub run: usize,
}

/// Whether run `i` is the last of its workload and number of clients.
pub open spec fn counts(runs: Seq<ConcWorkload>, i: int) -> bool {
    0 <= i < runs.len() && forall|j: int| i < j < runs.len() ==> #[trigger] runs[j] != runs[i]
}

/// The runs of each target.
pub open spec fn run_lists(targets: Seq<Vec<ConcWorkload>>) -> Seq<Seq<ConcWorkload>> {
    Seq::new(targets.len(), |i: int| targets[i]@)
}

/// Whether the two runs are compared: they are of the same workload and number of clients, and
/// each is the last such run.
pub open spec fn paired(
    base: Seq<ConcWorkload>,
    targets: Seq<Seq<ConcWorkload>>,
    p: RunPair,
) -> bool {
    &&& counts(base, p.base as int)
    &&& p.target < targets.len()
    &&& counts(targets[p.target as int], p.run as int)
    &&& targets[p.target as int][p.run as int] == base[p.base as int]
}

/// The order of comparisons: by workload, number of clients and target.
pub open spec fn pair_lt(base: Seq<ConcWorkload>, a: RunPair, b: RunPair) -> bool {
    let (x, y) = (base[a.base as int], base[b.base as int]);
    ||| rank(x.workload) < rank(y.workload)
    ||| rank(x.workload) == rank(y.workload) && x.concurrency < y.concurrency
    ||| rank(x.workload) == rank(y.workload) && x.concurrency == y.concurrency && a.target
        < b.target
}

/// Whether the pairs are in the order of comparisons.
pub open spec fn pairs_sorted(base: Seq<ConcWorkload>, v: Seq<RunPair>) -> bool {
    forall|i: int, j: int|
        0 <= i < j < v.len() ==> pair_lt(base, #[trigger] v[i], #[trigger] v[j])
}

fn run_counts(runs: &Vec<ConcWorkload>, i: usize) -> (r: bool)
    requires
        i < runs@.len(),
    ensures
        r == counts(runs@, i as int),
{
    let total: usize = runs.len();
    assert(i < total);
    let mut j: usize = i + 1;
    while j < runs.len()
        invariant
            i < j <= runs@.len() == total,
            forall|k: int| i < k < j ==> #[trigger] runs@[k] != runs@[i as int],
        decreases runs@.len() - j,
    {
        if runs[j] == runs[i] {
            return false;
        }
        j += 1;
    }
    true
}

fn find_run(runs: &Vec<ConcWorkload>, key: ConcWorkload) -> (r: Option<usize>)
    ensures
        r matches Some(i) ==> counts(runs@, i as int) && runs@[i as int] == key,
        r is None ==> forall|i: int| 0 <= i < runs@.len() ==> #[trigger] runs@[i] != key,
{
    let mut i: usize = runs.len();
    while i > 0
        invariant
            i <= runs@.len(),
            forall|k: int| i <= k < runs@.len() ==> #[trigger] runs@[k] != key,
        decreases i,
    {
        i -= 1;
        if runs[i] == key {
            return Some(i);
        }
    }
    None
}

fn pair_before(base: &Vec<ConcWorkload>, a: RunPair, b: RunPair) -> (r: bool)
    requires
        a.base < base@.len(),
        b.base < base@.len(),
    ensures
        r == pair_lt(base@, a, b),
{
    let (x, y) = (base[a.base], base[b.base]);
    let (rx, ry): (u8, u8) = (x.workload.rank(), y.workload.rank());
    if rx != ry {
        rx < ry
    } else if x.concurrency != y.concurrency {
        x.concurrency < y.concurrency
    } else {
        a.target < b.target
    }
}

/// Puts a pair in at its place.
fn insert_pair(base: &Vec<ConcWorkload>, v: &mut Vec<RunPair>, p: RunPair)
    requires
        p.base < base@.len(),
        forall|i: int| 0 <= i < old(v)@.len() ==> (#[trigger] old(v)@[i]).base < base@.len(),
        forall|i: int|
            0 <= i < old(v)@.len() ==> pair_lt(base@, #[trigger] old(v)@[i], p) || pair_lt(
                base@,
                p,
                old(v)@[i],
            ),
        pairs_sorted(base@, old(v)@),
    ensures
        pairs_sorted(base@, final(v)@),
        forall|x: RunPair| #[trigger] final(v)@.contains(x) <==> old(v)@.contains(x) || x == p,
{
    let ghost s = v@;
    let mut i: usize = 0;
    while i < v.len() && pair_before(base, v[i], p)
        invariant
            i <= v@.len(),
            v@ == s,
            p.base < base@.len(),
            forall|k: int| 0 <= k < s.len() ==> (#[trigger] s[k]).base < base@.len(),
            forall|k: int| 0 <= k < i ==> pair_lt(base@, #[trigger] s[k], p),
        decreases v@.len() - i,
    {
        i += 1;
    }
    v.insert(i, p);
    proof {
        let t = v@;
        assert(t =~= s.insert(i as int, p));
        assert forall|a: int, b: int| 0 <= a < b < t.len() implies pair_lt(
            base@,
            #[trigger] t[a],
            #[trigger] t[b],
        ) by {
            let x = if a < i {
                a
            } else {
                a - 1
            };
            let y = if b < i {
                b
            } else {
                b - 1
            };
            if a != i && b != i {
                assert(t[a] == s[x] && t[b] == s[y]);
                assert(pair_lt(base@, s[x], s[y]));
            } else if b == i {
                assert(t[a] == s[a]);
            } else {
                assert(t[b] == s[b - 1]);
                assert(pair_lt(base@, s[i as int], p) || pair_lt(base@, p, s[i as int]));
                if b - 1 > i {
                    assert(pair_lt(base@, s[i as int], s[b - 1]));
                }
            }
        }
        assert forall|x: RunPair| #[trigger] t.contains(x) <==> s.contains(x) || x == p by {
            if t.contains(x) {
                let k = choose|k: int| 0 <= k < t.len() && t[k] == x;
                if k < i {
                    assert(s[k] == x);
                } else if k > i {
                    assert(s[k - 1] == x);
                }
            }
            if s.contains(x) {
                let k = choose|k: int| 0 <= k < s.len() && s[k] == x;
                if k < i {
                    assert(t[k] == x);
                } else {
                    assert(t[k + 1] == x);
                }
            }
            if x == p {
                assert(t[i as int] == x);
            }
        }
    }
}

proof fn lemma_rank_injective(a: WorkloadKind, b: WorkloadKind)
    requires
        rank(a) == rank(b),
    ensures
        a == b,
{
}

/// The runs that are compared, in the order of comparisons: each run of the baseline with the
/// run of each target that is of the same workload and number of clients. Of several such runs
/// of one file the last counts.
pub fn pair_runs(base: &Vec<ConcWorkload>, targets: &Vec<Vec<ConcWorkload>>) -> (v: Vec<RunPair>)
    ensures
        pairs_sorted(base@, v@),
        forall|p: RunPair| #[trigger]
            v@.contains(p) <==> paired(base@, run_lists(targets@), p),
{
    let ghost lists = run_lists(targets@);
    let mut v: Vec<RunPair> = Vec::new();
    let mut i: usize = 0;
    while i < base.len()
        invariant
            i <= base@.len(),
            lists == run_lists(targets@),
            pairs_sorted(base@, v@),
            forall|p: RunPair| #[trigger]
                v@.contains(p) <==> paired(base@, lists, p) && p.base < i,
        decreases base@.len() - i,
    {
        if run_counts(base, i) {
            let mut n: usize = 0;
            while n < targets.len()
                invariant
                    i < base@.len(),
                    counts(base@, i as int),
                    n <= targets@.len(),
                    lists == run_lists(targets@),
                    pairs_sorted(base@, v@),
                    forall|p: RunPair| #[trigger]
                        v@.contains(p) <==> paired(base@, lists, p) && (p.base < i || (p.base == i
                            && p.target < n)),
                decreases targets@.len() - n,
            {
                let ghost before = v@;
                match find_run(&targets[n], base[i]) {
                    Some(run) => {
                        let p = RunPair { base: i, target: n, run };
                        proof {
                            assert(lists[n as int] == targets@[n as int]@);
                            assert(paired(base@, lists, p));
                            assert forall|k: int| 0 <= k < v@.len() implies (#[trigger]
                            v@[k]).base < base@.len() by {
                                assert(v@.contains(v@[k]));
                            }
                            assert forall|k: int| 0 <= k < v@.len() implies pair_lt(
                                base@,
                                #[trigger] v@[k],
                                p,
                            ) || pair_lt(base@, p, v@[k]) by {
                                let x = v@[k];
                                assert(v@.contains(x));
                                if rank(base@[x.base as int].workload) == rank(
                                    base@[i as int].workload,
                                ) && base@[x.base as int].concurrency
                                    == base@[i as int].concurrency && x.base < i {
                                    lemma_rank_injective(
                                        base@[x.base as int].workload,
                                        base@[i as int].workload,
                                    );
                                    assert(counts(base@, x.base as int));
                                    assert(base@[i as int] != base@[x.base as int]);
                                }
                            }
                        }
                        insert_pair(base, &mut v, p);
                        proof {
                            assert forall|q: RunPair| #[trigger]
                                v@.contains(q) <==> paired(base@, lists, q) && (q.base < i || (q.base
                                    == i && q.target < n + 1)) by {
                                assert(before.contains(q) <==> paired(base@, lists, q) && (q.base
                                    < i || (q.base == i && q.target < n)));
                                if paired(base@, lists, q) && q.base == i && q.target == n {
                                    let l = lists[n as int];
                                    if q.run < run {
                                        assert(counts(l, q.run as int));
                                        assert(l[run as int] != l[q.run as int]);
                                    }
                                    if run < q.run {
                                        assert(l[q.run as int] != l[run as int]);
                                    }
                                }
                            }
                        }
                    },
                    None => {
                        proof {
                            assert forall|q: RunPair| #[trigger]
                                v@.contains(q) <==> paired(base@, lists, q) && (q.base < i || (q.base
                                    == i && q.target < n + 1)) by {
                                if paired(base@, lists, q) && q.base == i && q.target == n {
                                    let l = lists[n as int];
                                    assert(l == targets@[n as int]@);
                                    assert(l[q.run as int] != base@[i as int]);
                                }
                            }
                        }
                    },
                }
                n += 1;
            }
            proof {
                assert forall|q: RunPair| #[trigger] v@.contains(q) <==> paired(base@, lists, q)
                    && q.base < i + 1 by {}
            }
        } else {
            proof {
                assert forall|q: RunPair| #[trigger] v@.contains(q) <==> paired(base@, lists, q)
                    && q.base < i + 1 by {}
            }
        }
        i += 1;
    }
    v
}

/// Whether only the value called `key` differs in `g` from `f`: there the value of the baseline
/// is `x`, and it is told as a latency or not and as better in one direction as said.
pub open spec fn only_told_as<V>(
    f: Seq<FieldModel<V>>,
    g: Seq<FieldModel<V>>,
    key: Seq<char>,
    x: V,
    is_latency: bool,
    direction: ChangeDirection,
) -> bool {
    &&& f.len() == g.len()
    &&& forall|i: int|
        0 <= i < g.len() ==> #[trigger] g[i] == f[i] || g[i] == (FieldModel {
            key,
            prev: x,
            new: f[i].new,
            is_latency,
            direction,
        })
    &&& exists|i: int| 0 <= i < g.len() && (#[trigger] g[i]).key == key && g[i].prev == x
}

proof fn lemma_only_told<V>(
    f: Seq<FieldModel<V>>,
    g: Seq<FieldModel<V>>,
    at: int,
    key: Seq<char>,
    x: V,
    is_latency: bool,
    direction: ChangeDirection,
)
    requires
        f.len() == g.len(),
        0 <= at < g.len(),
        forall|i: int| 0 <= i < g.len() && i != at ==> #[trigger] g[i] == f[i],
        g[at] == (FieldModel { key, prev: x, new: f[at].new, is_latency, direction }),
    ensures
        only_told_as(f, g, key, x, is_latency, direction),
{
    assert(g[at].key == key);
}

/// The first of two values is that of the baseline and the second that of the target, in every
/// field: exchanging the runs exchanges them, and neither depends on the other run. A run is
/// compared with itself as the same. What a field is called does not depend on the runs.
pub proof fn law_runs_compared<V>(b: RunValues<V>, b2: RunValues<V>, t: RunValues<V>, t2: RunValues<V>)
    ensures
        run_fields(b2, t2).len() == run_fields(b, t).len(),
        forall|i: int|
            0 <= i < run_fields(b, t).len() ==> {
                let f = #[trigger] run_fields(b, t)[i];
                &&& run_fields(b, t2)[i].prev == f.prev
                &&& run_fields(b2, t)[i].new == f.new
                &&& run_fields(t, b)[i].prev == f.new
                &&& run_fields(t, b)[i].new == f.prev
                &&& run_fields(b2, t2)[i].key == f.key
                &&& run_fields(b2, t2)[i].is_latency == f.is_latency
                &&& run_fields(b2, t2)[i].direction == f.direction
            },
        forall|i: int|
            0 <= i < run_fields(b, b).len() ==> (#[trigger] run_fields(b, b)[i]).prev == run_fields(b, b)[i].new,
{
}

/// Each value of a run is told in just the field of its name, and as better where it is: more
/// operations and records are better, and so are shorter times.
pub proof fn law_run_values_told<V>(b: RunValues<V>, t: RunValues<V>, x: V)
    ensures
        only_told_as(
            run_fields(b, t),
            run_fields(RunValues { insert_ops: x, ..b }, t),
            "inserts/s"@,
            x,
            false,
            ChangeDirection::HigherBetter,
        ),
        only_told_as(
            run_fields(b, t),
            run_fields(RunValues { range_ops: x, ..b }, t),
            "ranges/s"@,
            x,
            false,
            ChangeDirection::HigherBetter,
        ),
        only_told_as(
            run_fields(b, t),
            run_fields(RunValues { records_per_range: x, ..b }, t),
            "records/range"@,
            x,
            false,
            ChangeDirection::HigherBetter,
        ),
        only_told_as(
            run_fields(b, t),
            run_fields(RunValues { ssts: x, ..b }, t),
            "SSTs"@,
            x,
            false,
            ChangeDirection::Neutral,
        ),
        only_told_as(
            run_fields(b, t),
            run_fields(RunValues { insert_latency: LatencyValues { min: x, ..b.insert_latency }, ..b }, t),
            "insert_latency min"@,
            x,
            true,
            ChangeDirection::LowerBetter,
        ),
        only_told_as(
            run_fields(b, t),
            run_fields(RunValues { insert_latency: LatencyValues { p50: x, ..b.insert_latency }, ..b }, t),
            "insert_latency p50"@,
            x,
            true,
            ChangeDirection::LowerBetter,
        ),
        only_told_as(
            run_fields(b, t),
            run_fields(RunValues { insert_latency: LatencyValues { p90: x, ..b.insert_latency }, ..b }, t),
            "insert_latency p90"@,
            x,
            true,
            ChangeDirection::LowerBetter,
        ),
        only_told_as(
            run_fields(b, t),
            run_fields(RunValues { insert_latency: LatencyValues { p99: x, ..b.insert_latency }, ..b }, t),
            "insert_latency p99"@,
            x,
            true,
            ChangeDirection::LowerBetter,
        ),
        only_told_as(
            run_fields(b, t),
            run_fields(RunValues { insert_latency: LatencyValues { max: x, ..b.insert_latency }, ..b }, t),
            "insert_latency max"@,
            x,
            true,
            ChangeDirection::LowerBetter,
        ),
        only_told_as(
            run_fields(b, t),
            run_fields(RunValues { range_latency: LatencyValues { min: x, ..b.range_latency }, ..b }, t),
            "range_latency min"@,
            x,
            true,
            ChangeDirection::LowerBetter,
        ),
        only_told_as(
            run_fields(b, t),
            run_fields(RunValues { range_latency: LatencyValues { p50: x, ..b.range_latency }, ..b }, t),
            "range_latency p50"@,
            x,
            true,
            ChangeDirection::LowerBetter,
        ),
        only_told_as(
            run_fields(b, t),
            run_fields(RunValues { range_latency: LatencyValues { p90: x, ..b.range_latency }, ..b }, t),
            "range_latency p90"@,
            x,
            true,
            ChangeDirection::LowerBetter,
        ),
        only_told_as(
            run_fields(b, t),
            run_fields(RunValues { range_latency: LatencyValues { p99: x, ..b.range_latency }, ..b }, t),
            "range_latency p99"@,
            x,
            true,
            ChangeDirection::LowerBetter,
        ),
        only_told_as(
            run_fields(b, t),
            run_fields(RunValues { range_latency: LatencyValues { max: x, ..b.range_latency }, ..b }, t),
            "range_latency max"@,
            x,
            true,
            ChangeDirection::LowerBetter,
        ),
{
    lemma_only_told(
        run_fields(b, t),
        run_fields(RunValues { insert_ops: x, ..b }, t),
        0,
        "inserts/s"@,
        x,
        false,
        ChangeDirection::HigherBetter,
    );
    lemma_only_told(
        run_fields(b, t),
        run_fields(RunValues { range_ops: x, ..b }, t),
        1,
        "ranges/s"@,
        x,
        false,
        ChangeDirection::HigherBetter,
    );
    lemma_only_told(
        run_fields(b, t),
        run_fields(RunValues { records_per_range: x, ..b }, t),
        2,
        "records/range"@,
        x,
        false,
        ChangeDirection::HigherBetter,
    );
    lemma_only_told(
        run_fields(b, t),
        run_fields(RunValues { ssts: x, ..b }, t),
        3,
        "SSTs"@,
        x,
        false,
        ChangeDirection::Neutral,
    );
    lemma_only_told(
        run_fields(b, t),
        run_fields(RunValues { insert_latency: LatencyValues { min: x, ..b.insert_latency }, ..b }, t),
        4,
        "insert_latency min"@,
        x,
        true,
        ChangeDirection::LowerBetter,
    );
    lemma_only_told(
        run_fields(b, t),
        run_fields(RunValues { insert_latency: LatencyValues { p50: x, ..b.insert_latency }, ..b }, t),
        5,
        "insert_latency p50"@,
        x,
        true,
        ChangeDirection::LowerBetter,
    );
    lemma_only_told(
        run_fields(b, t),
        run_fields(RunValues { insert_latency: LatencyValues { p90: x, ..b.insert_latency }, ..b }, t),
        6,
        "insert_latency p90"@,
        x,
        true,
        ChangeDirection::LowerBetter,
    );
    lemma_only_told(
        run_fields(b, t),
        run_fields(RunValues { insert_latency: LatencyValues { p99: x, ..b.insert_latency }, ..b }, t),
        7,
        "insert_latency p99"@,
        x,
        true,
        ChangeDirection::LowerBetter,
    );
    lemma_only_told(
        run_fields(b, t),
        run_fields(RunValues { insert_latency: LatencyValues { max: x, ..b.insert_latency }, ..b }, t),
        8,
        "insert_latency max"@,
        x,
        true,
        ChangeDirection::LowerBetter,
    );
    lemma_only_told(
        run_fields(b, t),
        run_fields(RunValues { range_latency: LatencyValues { min: x, ..b.range_latency }, ..b }, t),
        9,
        "range_latency min"@,
        x,
        true,
        ChangeDirection::LowerBetter,
    );
    lemma_only_told(
        run_fields(b, t),
        run_fields(RunValues { range_latency: LatencyValues { p50: x, ..b.range_latency }, ..b }, t),
        10,
        "range_latency p50"@,
        x,
        true,
        ChangeDirection::LowerBetter,
    );
    lemma_only_told(
        run_fields(b, t),
        run_fields(RunValues { range_latency: LatencyValues { p90: x, ..b.range_latency }, ..b }, t),
        11,
        "range_latency p90"@,
        x,
        true,
        ChangeDirection::LowerBetter,
    );
    lemma_only_told(
        run_fields(b, t),
        run_fields(RunValues { range_latency: LatencyValues { p99: x, ..b.range_latency }, ..b }, t),
        12,
        "range_latency p99"@,
        x,
        true,
        ChangeDirection::LowerBetter,
    );
    lemma_only_told(
        run_fields(b, t),
        run_fields(RunValues { range_latency: LatencyValues { max: x, ..b.range_latency }, ..b }, t),
        13,
        "range_latency max"@,
        x,
        true,
        ChangeDirection::LowerBetter,
    );
}

/// The first of two values on memory is that of the baseline and the second that of the target.
pub proof fn law_mem_compared<V>(b: MemValues<V>, b2: MemValues<V>, t: MemValues<V>, t2: MemValues<V>)
    ensures
        mem_fields(b2, t2).len() == mem_fields(b, t).len(),
        forall|i: int|
            0 <= i < mem_fields(b, t).len() ==> {
                let f = #[trigger] mem_fields(b, t)[i];
                &&& mem_fields(b, t2)[i].prev == f.prev
                &&& mem_fields(b2, t)[i].new == f.new
                &&& mem_fields(t, b)[i].prev == f.new
                &&& mem_fields(t, b)[i].new == f.prev
                &&& mem_fields(b2, t2)[i].key == f.key
                &&& mem_fields(b2, t2)[i].is_latency == f.is_latency
                &&& mem_fields(b2, t2)[i].direction == f.direction
            },
        forall|i: int|
            0 <= i < mem_fields(b, b).len() ==> (#[trigger] mem_fields(b, b)[i]).prev == mem_fields(b, b)[i].new,
{
}

/// Each value on memory is told in just the field of its name: less is better, and how often it
/// was measured is neither.
pub proof fn law_mem_values_told<V>(b: MemValues<V>, t: MemValues<V>, x: V)
    ensures
        only_told_as(
            mem_fields(b, t),
            mem_fields(MemValues { rss_min: x, ..b }, t),
            "mem_rss_min_kb"@,
            x,
            false,
            ChangeDirection::LowerBetter,
        ),
        only_told_as(
            mem_fields(b, t),
            mem_fields(MemValues { rss_max: x, ..b }, t),
            "mem_rss_max_kb"@,
            x,
            false,
            ChangeDirection::LowerBetter,
        ),
        only_told_as(
            mem_fields(b, t),
            mem_fields(MemValues { rss_avg: x, ..b }, t),
            "mem_rss_avg_kb"@,
            x,
            false,
            ChangeDirection::LowerBetter,
        ),
        only_told_as(
            mem_fields(b, t),
            mem_fields(MemValues { rss_sum: x, ..b }, t),
            "mem_rss_sum_kb"@,
            x,
            false,
            ChangeDirection::LowerBetter,
        ),
        only_told_as(
            mem_fields(b, t),
            mem_fields(MemValues { rss_last: x, ..b }, t),
            "mem_rss_end_kb"@,
            x,
            false,
            ChangeDirection::LowerBetter,
        ),
        only_told_as(
            mem_fields(b, t),
            mem_fields(MemValues { growth_rate_kb: x, ..b }, t),
            "mem_growth_kbs"@,
            x,
            false,
            ChangeDirection::LowerBetter,
        ),
        only_told_as(
            mem_fields(b, t),
            mem_fields(MemValues { growth_rate_mb: x, ..b }, t),
            "mem_growth_mbs"@,
            x,
            false,
            ChangeDirection::LowerBetter,
        ),
        only_told_as(
            mem_fields(b, t),
            mem_fields(MemValues { sample_size: x, ..b }, t),
            "mem_sample_size"@,
            x,
            false,
            ChangeDirection::Neutral,
        ),
{
    lemma_only_told(
        mem_fields(b, t),
        mem_fields(MemValues { rss_min: x, ..b }, t),
        0,
        "mem_rss_min_kb"@,
        x,
        false,
        ChangeDirection::LowerBetter,
    );
    lemma_only_told(
        mem_fields(b, t),
        mem_fields(MemValues { rss_max: x, ..b }, t),
        1,
        "mem_rss_max_kb"@,
        x,
        false,
        ChangeDirection::LowerBetter,
    );
    lemma_only_told(
        mem_fields(b, t),
        mem_fields(MemValues { rss_avg: x, ..b }, t),
        2,
        "mem_rss_avg_kb"@,
        x,
        false,
        ChangeDirection::LowerBetter,
    );
    lemma_only_told(
        mem_fields(b, t),
        mem_fields(MemValues { rss_sum: x, ..b }, t),
        3,
        "mem_rss_sum_kb"@,
        x,
        false,
        ChangeDirection::LowerBetter,
    );
    lemma_only_told(
        mem_fields(b, t),
        mem_fields(MemValues { rss_last: x, ..b }, t),
        4,
        "mem_rss_end_kb"@,
        x,
        false,
        ChangeDirection::LowerBetter,
    );
    lemma_only_told(
        mem_fields(b, t),
        mem_fields(MemValues { growth_rate_kb: x, ..b }, t),
        5,
        "mem_growth_kbs"@,
        x,
        false,
        ChangeDirection::LowerBetter,
    );
    lemma_only_told(
        mem_fields(b, t),
        mem_fields(MemValues { growth_rate_mb: x, ..b }, t),
        6,
        "mem_growth_mbs"@,
        x,
        false,
        ChangeDirection::LowerBetter,
    );
    lemma_only_told(
        mem_fields(b, t),
        mem_fields(MemValues { sample_size: x, ..b }, t),
        7,
        "mem_sample_size"@,
        x,
        false,
        ChangeDirection::Neutral,
    );
}

/// The first of two metrics is that of the baseline and the second that of the target.
pub proof fn law_metrics_compared(b: MetricsSnapshot, b2: MetricsSnapshot, t: MetricsSnapshot, t2: MetricsSnapshot)
    ensures
        metric_fields(b2, t2).len() == metric_fields(b, t).len(),
        forall|i: int|
            0 <= i < metric_fields(b, t).len() ==> {
                let f = #[trigger] metric_fields(b, t)[i];
                &&& metric_fields(b, t2)[i].prev == f.prev
                &&& metric_fields(b2, t)[i].new == f.new
                &&& metric_fields(t, b)[i].prev == f.new
                &&& metric_fields(t, b)[i].new == f.prev
                &&& metric_fields(b2, t2)[i].key == f.key
                &&& metric_fields(b2, t2)[i].is_latency == f.is_latency
                &&& metric_fields(b2, t2)[i].direction == f.direction
            },
        forall|i: int|
            0 <= i < metric_fields(b, b).len() ==> (#[trigger] metric_fields(b, b)[i]).prev == metric_fields(b, b)[i].new,
{
}

/// Each of the metrics is told in just the field of its name: fewer flushes and compactions and a
/// smaller memory table are better. Of the times of the log the middle is told, or zero where
/// there are none.
pub proof fn law_metric_values_told(b: MetricsSnapshot, t: MetricsSnapshot, x: u64, y: i64)
    ensures
        forall|s: Option<Snapshot>|
            only_told_as(
                metric_fields(b, t),
                #[trigger] metric_fields(
                    MetricsSnapshot { wal: WalSnapshot { sync_latency: s, ..b.wal }, ..b },
                    t,
                ),
                "wal_sync p50 (us)"@,
                match s {
                    Some(s) => s.p50 as i128,
                    None => 0,
                },
                true,
                ChangeDirection::LowerBetter,
            ),
        only_told_as(
            metric_fields(b, t),
            metric_fields(MetricsSnapshot { wal: WalSnapshot { write_count: x, ..b.wal }, ..b }, t),
            "wal_write_count"@,
            x as i128,
            false,
            ChangeDirection::Neutral,
        ),
        only_told_as(
            metric_fields(b, t),
            metric_fields(MetricsSnapshot { wal: WalSnapshot { write_bytes: x, ..b.wal }, ..b }, t),
            "wal_write_bytes"@,
            x as i128,
            false,
            ChangeDirection::Neutral,
        ),
        only_told_as(
            metric_fields(b, t),
            metric_fields(MetricsSnapshot { wal: WalSnapshot { sync_count: x, ..b.wal }, ..b }, t),
            "wal_sync_count"@,
            x as i128,
            false,
            ChangeDirection::Neutral,
        ),
        only_told_as(
            metric_fields(b, t),
            metric_fields(MetricsSnapshot { engine: EngineSnapshot { flush_count: x, ..b.engine }, ..b }, t),
            "engine_flush_count"@,
            x as i128,
            false,
            ChangeDirection::LowerBetter,
        ),
        only_told_as(
            metric_fields(b, t),
            metric_fields(MetricsSnapshot { engine: EngineSnapshot { compaction_count: x, ..b.engine }, ..b }, t),
            "engine_compactions"@,
            x as i128,
            false,
            ChangeDirection::LowerBetter,
        ),
        only_told_as(
            metric_fields(b, t),
            metric_fields(MetricsSnapshot { engine: EngineSnapshot { records_inserted: x, ..b.engine }, ..b }, t),
            "engine_records"@,
            x as i128,
            false,
            ChangeDirection::Neutral,
        ),
        only_told_as(
            metric_fields(b, t),
            metric_fields(MetricsSnapshot { engine: EngineSnapshot { memtable_bytes: y, ..b.engine }, ..b }, t),
            "engine_memtable_bytes"@,
            y as i128,
            false,
            ChangeDirection::LowerBetter,
        ),
        only_told_as(
            metric_fields(b, t),
            metric_fields(MetricsSnapshot { engine: EngineSnapshot { sstable_count: y, ..b.engine }, ..b }, t),
            "engine_sst_count"@,
            y as i128,
            false,
            ChangeDirection::Neutral,
        ),
        only_told_as(
            metric_fields(b, t),
            metric_fields(MetricsSnapshot { server: ServerSnapshot { connections_accepted: x, ..b.server }, ..b }, t),
            "server_conns_accepted"@,
            x as i128,
            false,
            ChangeDirection::Neutral,
        ),
        only_told_as(
            metric_fields(b, t),
            metric_fields(MetricsSnapshot { server: ServerSnapshot { frames_read: x, ..b.server }, ..b }, t),
            "server_frames_read"@,
            x as i128,
            false,
            ChangeDirection::Neutral,
        ),
        only_told_as(
            metric_fields(b, t),
            metric_fields(MetricsSnapshot { server: ServerSnapshot { frames_written: x, ..b.server }, ..b }, t),
            "server_frames_written"@,
            x as i128,
            false,
            ChangeDirection::Neutral,
        ),
{
    assert forall|s: Option<Snapshot>|
        only_told_as(
            metric_fields(b, t),
            #[trigger] metric_fields(
                MetricsSnapshot { wal: WalSnapshot { sync_latency: s, ..b.wal }, ..b },
                t,
            ),
            "wal_sync p50 (us)"@,
            match s {
                Some(s) => s.p50 as i128,
                None => 0,
            },
            true,
            ChangeDirection::LowerBetter,
        ) by {
        lemma_only_told(
            metric_fields(b, t),
            metric_fields(
                MetricsSnapshot { wal: WalSnapshot { sync_latency: s, ..b.wal }, ..b },
                t,
            ),
            0,
            "wal_sync p50 (us)"@,
            match s {
                Some(s) => s.p50 as i128,
                None => 0,
            },
            true,
            ChangeDirection::LowerBetter,
        );
    }
    lemma_only_told(
        metric_fields(b, t),
        metric_fields(MetricsSnapshot { wal: WalSnapshot { write_count: x, ..b.wal }, ..b }, t),
        1,
        "wal_write_count"@,
        x as i128,
        false,
        ChangeDirection::Neutral,
    );
    lemma_only_told(
        metric_fields(b, t),
        metric_fields(MetricsSnapshot { wal: WalSnapshot { write_bytes: x, ..b.wal }, ..b }, t),
        2,
        "wal_write_bytes"@,
        x as i128,
        false,
        ChangeDirection::Neutral,
    );
    lemma_only_told(
        metric_fields(b, t),
        metric_fields(MetricsSnapshot { wal: WalSnapshot { sync_count: x, ..b.wal }, ..b }, t),
        3,
        "wal_sync_count"@,
        x as i128,
        false,
        ChangeDirection::Neutral,
    );
    lemma_only_told(
        metric_fields(b, t),
        metric_fields(MetricsSnapshot { engine: EngineSnapshot { flush_count: x, ..b.engine }, ..b }, t),
        4,
        "engine_flush_count"@,
        x as i128,
        false,
        ChangeDirection::LowerBetter,
    );
    lemma_only_told(
        metric_fields(b, t),
        metric_fields(MetricsSnapshot { engine: EngineSnapshot { compaction_count: x, ..b.engine }, ..b }, t),
        5,
        "engine_compactions"@,
        x as i128,
        false,
        ChangeDirection::LowerBetter,
    );
    lemma_only_told(
        metric_fields(b, t),
        metric_fields(MetricsSnapshot { engine: EngineSnapshot { records_inserted: x, ..b.engine }, ..b }, t),
        6,
        "engine_records"@,
        x as i128,
        false,
        ChangeDirection::Neutral,
    );
    lemma_only_told(
        metric_fields(b, t),
        metric_fields(MetricsSnapshot { engine: EngineSnapshot { memtable_bytes: y, ..b.engine }, ..b }, t),
        7,
        "engine_memtable_bytes"@,
        y as i128,
        false,
        ChangeDirection::LowerBetter,
    );
    lemma_only_told(
        metric_fields(b, t),
        metric_fields(MetricsSnapshot { engine: EngineSnapshot { sstable_count: y, ..b.engine }, ..b }, t),
        8,
        "engine_sst_count"@,
        y as i128,
        false,
        ChangeDirection::Neutral,
    );
    lemma_only_told(
        metric_fields(b, t),
        metric_fields(MetricsSnapshot { server: ServerSnapshot { connections_accepted: x, ..b.server }, ..b }, t),
        9,
        "server_conns_accepted"@,
        x as i128,
        false,
        ChangeDirection::Neutral,
    );
    lemma_only_told(
        metric_fields(b, t),
        metric_fields(MetricsSnapshot { server: ServerSnapshot { frames_read: x, ..b.server }, ..b }, t),
        10,
        "server_frames_read"@,
        x as i128,
        false,
        ChangeDirection::Neutral,
    );
    lemma_only_told(
        metric_fields(b, t),
        metric_fields(MetricsSnapshot { server: ServerSnapshot { frames_written: x, ..b.server }, ..b }, t),
        11,
        "server_frames_written"@,
        x as i128,
        false,
        ChangeDirection::Neutral,
    );
}

/// What rises is better where higher is better and worse where lower is, what falls the other
/// way round, and of what is neutral nothing is worse.
pub proof fn law_better_or_worse(s: Seq<char>, width: nat, f: FieldText)
    ensures
        improved(ChangeDirection::HigherBetter, Trend::Rose),
        !improved(ChangeDirection::HigherBetter, Trend::Fell),
        improved(ChangeDirection::LowerBetter, Trend::Fell),
        !improved(ChangeDirection::LowerBetter, Trend::Rose),
        improved(ChangeDirection::Neutral, f.trend),
        f.trend is Same ==> judged(s, width, f) == padded(s, width, ' '),
        f.trend is Rose && f.direction is HigherBetter || f.trend is Fell && f.direction
            is LowerBetter ==> judged(s, width, f) == in_color("32"@, padded(s, width, ' ')),
        f.trend is Fell && f.direction is HigherBetter || f.trend is Rose && f.direction
            is LowerBetter ==> judged(s, width, f) == in_color("31"@, padded(s, width, ' ')),
        f.trend !is Same && f.direction is Neutral ==> judged(s, width, f) == in_color(
            "32"@,
            padded(s, width, ' '),
        ),
{
}

/// The highest throughput of a workload in the baseline is compared with the first one of that
/// workload in the target, where there is one.
pub proof fn law_peaks_compared<V>(b: Seq<PeakValues<V>>, t: Seq<PeakValues<V>>, i: int, j: int)
    requires
        0 <= i < b.len(),
        0 <= j < t.len(),
        t[j].workload == b[i].workload,
        forall|k: int| 0 <= k < j ==> (#[trigger] t[k]).workload != b[i].workload,
    ensures
        exists|k: int|
            0 <= k && k + 1 < peak_fields(b, t).len() && (#[trigger] peak_fields(b, t)[k])
                == (FieldModel {
                key: "sat_"@ + workload_name(b[i].workload) + "_throughput"@,
                prev: b[i].throughput,
                new: t[j].throughput,
                is_latency: false,
                direction: ChangeDirection::HigherBetter,
            }) && peak_fields(b, t)[k + 1] == (FieldModel {
                key: "sat_"@ + workload_name(b[i].workload) + "_conc_peak"@,
                prev: b[i].clients,
                new: t[j].clients,
                is_latency: false,
                direction: ChangeDirection::HigherBetter,
            }),
    decreases b.len(),
{
    let w = b[i].workload;
    lemma_first_peak(t, w, j);
    let front = peak_fields(b.drop_last(), t);
    if i == b.len() - 1 {
        assert(peak_fields(b, t) == front + peak_pair(b[i], t[j]));
        assert(peak_fields(b, t)[front.len() as int] == peak_pair(b[i], t[j])[0]);
        assert(peak_fields(b, t)[front.len() as int + 1] == peak_pair(b[i], t[j])[1]);
    } else {
        assert(b.drop_last()[i] == b[i]);
        law_peaks_compared(b.drop_last(), t, i, j);
        let k = choose|k: int|
            0 <= k && k + 1 < front.len() && (#[trigger] front[k]) == (FieldModel {
                key: "sat_"@ + workload_name(b[i].workload) + "_throughput"@,
                prev: b[i].throughput,
                new: t[j].throughput,
                is_latency: false,
                direction: ChangeDirection::HigherBetter,
            }) && front[k + 1] == (FieldModel {
                key: "sat_"@ + workload_name(b[i].workload) + "_conc_peak"@,
                prev: b[i].clients,
                new: t[j].clients,
                is_latency: false,
                direction: ChangeDirection::HigherBetter,
            });
        assert(peak_fields(b, t)[k] == front[k]);
        assert(peak_fields(b, t)[k + 1] == front[k + 1]);
    }
}

proof fn lemma_first_peak<V>(t: Seq<PeakValues<V>>, w: WorkloadKind, j: int)
    requires
        0 <= j < t.len(),
        t[j].workload == w,
        forall|k: int| 0 <= k < j ==> (#[trigger] t[k]).workload != w,
    ensures
        peak_of(t, w) == Some(j),
    decreases t.len(),
{
    let front = t.drop_last();
    if j < t.len() - 1 {
        assert(front[j] == t[j]);
        assert forall|k: int| 0 <= k < j implies (#[trigger] front[k]).workload != w by {
            assert(front[k] == t[k]);
        }
        lemma_first_peak(front, w, j);
    } else {
        assert forall|k: int| 0 <= k < front.len() implies (#[trigger] front[k]).workload != w by {
            assert(front[k] == t[k]);
        }
        lemma_no_peak(front, w);
    }
}

proof fn lemma_no_peak<V>(t: Seq<PeakValues<V>>, w: WorkloadKind)
    requires
        forall|k: int| 0 <= k < t.len() ==> (#[trigger] t[k]).workload != w,
    ensures
        peak_of(t, w) is None,
    decreases t.len(),
{
    if t.len() > 0 {
        assert forall|k: int| 0 <= k < t.len() - 1 implies (
        #[trigger] t.drop_last()[k]).workload != w by {
            assert(t.drop_last()[k] == t[k]);
        }
        lemma_no_peak(t.drop_last(), w);
        assert(t[t.len() - 1].workload != w);
    }
}

/// A workload that only one of the two has is not compared, and no workload of the baseline is
/// compared more than once for each time that it is there.
pub proof fn law_peaks_not_compared<V>(b: Seq<PeakValues<V>>, t: Seq<PeakValues<V>>)
    ensures
        peak_fields(b, t).len() <= 2 * b.len(),
        (forall|i: int, j: int|
            0 <= i < b.len() && 0 <= j < t.len() ==> (#[trigger] b[i]).workload != (
            #[trigger] t[j]).workload) ==> peak_fields(b, t).len() == 0,
    decreases b.len(),
{
    if b.len() > 0 {
        let front = b.drop_last();
        law_peaks_not_compared(front, t);
        if forall|i: int, j: int|
            0 <= i < b.len() && 0 <= j < t.len() ==> (#[trigger] b[i]).workload != (
            #[trigger] t[j]).workload {
            assert forall|i: int, j: int| 0 <= i < front.len() && 0 <= j < t.len() implies (
            #[trigger] front[i]).workload != (#[trigger] t[j]).workload by {
                assert(front[i] == b[i]);
            }
            assert forall|k: int| 0 <= k < t.len() implies (#[trigger] t[k]).workload
                != b.last().workload by {
                assert(b[b.len() - 1].workload != t[k].workload);
            }
            lemma_no_peak(t, b.last().workload);
        }
    }
}

/// What is compared of two runs is told as compared, under the workload and the number of clients
/// of the baseline; the metrics, the memory and the highest throughputs likewise.
pub proof fn law_compared<V: Copy>(
    b: RunValues<V>,
    t: RunValues<V>,
    r: RunFields<V>,
    bm: MemValues<V>,
    tm: MemValues<V>,
    mem: Vec<FieldCmp<V>>,
    bs: MetricsSnapshot,
    ts: MetricsSnapshot,
    metrics: Vec<FieldCmp<i128>>,
    bp: &[PeakValues<V>],
    tp: &[PeakValues<V>],
    peaks: Vec<FieldCmp<V>>,
)
    requires
        call_ensures(cmp_runs::<V>, (&b, &t), r),
        call_ensures(cmp_mem::<V>, (&bm, &tm), mem),
        call_ensures(cmp_metrics, (&bs, &ts), metrics),
        call_ensures(cmp_saturations::<V>, (bp, tp), peaks),
    ensures
        r.cw == b.cw,
        field_views(r.fields@) == run_fields(b, t),
        field_views(mem@) == mem_fields(bm, tm),
        field_views(metrics@) == metric_fields(bs, ts),
        field_views(peaks@) == peak_fields(bp@, tp@),
{
}

/// A value that is compared is told as it is.
pub proof fn law_field_views<V>(v: Seq<FieldCmp<V>>, i: int)
    requires
        0 <= i < v.len(),
    ensures
        field_views(v).len() == v.len(),
        field_views(v)[i].key == v[i].key@,
        field_views(v)[i].prev == v[i].prev,
        field_views(v)[i].new == v[i].new,
        field_views(v)[i].is_latency == v[i].is_latency,
        field_views(v)[i].direction == v[i].direction,
{
}

/// What has risen has improved just where higher is not worse, and what has fallen just where
/// lower is not worse.
pub proof fn law_improvement(direction: ChangeDirection, trend: Trend, r: bool)
    requires
        call_ensures(has_improved_or_neutral, (direction, trend), r),
    ensures
        trend is Rose ==> (r <==> direction != ChangeDirection::LowerBetter),
        trend is Fell ==> (r <==> direction != ChangeDirection::HigherBetter),
        direction == ChangeDirection::Neutral ==> r,
{
}

/// Each run of the baseline is compared with the run of the same workload and number of clients
/// of each target that has one; of several alike the last one counts. The runs are told by
/// workload, then by the number of clients.
pub proof fn law_runs_paired(
    base: Vec<ConcWorkload>,
    targets: Vec<Vec<ConcWorkload>>,
    v: Vec<RunPair>,
    i: int,
    t: int,
    k: int,
)
    requires
        call_ensures(pair_runs, (&base, &targets), v),
        base@.len() <= usize::MAX,
        targets@.len() <= usize::MAX,
        0 <= i < base@.len(),
        0 <= t < targets@.len(),
        0 <= k < targets@[t]@.len() <= usize::MAX,
    ensures
        v@.contains(RunPair { base: i as usize, target: t as usize, run: k as usize })
            <==> base@[i].workload == targets@[t]@[k].workload && base@[i].concurrency
            == targets@[t]@[k].concurrency && (forall|j: int|
            i < j < base@.len() ==> #[trigger] base@[j] != base@[i]) && (forall|j: int|
            k < j < targets@[t]@.len() ==> #[trigger] targets@[t]@[j] != targets@[t]@[k]),
        forall|x: int, y: int|
            0 <= x < y < v@.len() ==> {
                let a = base@[(#[trigger] v@[x]).base as int];
                let b = base@[(#[trigger] v@[y]).base as int];
                rank(a.workload) < rank(b.workload) || rank(a.workload) == rank(b.workload) && (
                a.concurrency < b.concurrency || a.concurrency == b.concurrency && v@[x].target
                    < v@[y].target)
            },
{
    let p = RunPair { base: i as usize, target: t as usize, run: k as usize };
    let lists = run_lists(targets@);
    assert(lists[t] == targets@[t]@);
    assert(v@.contains(p) <==> paired(base@, lists, p));
}

} // verus!
