//! Counters, gauges and latencies of the store, and how they are shown.
use vstd::multiset::Multiset;
use vstd::pervasive::unreached;
use vstd::prelude::*;
use vstd::string::StringExecFns;

use crate::histogram::{
    buckets, highest, histogram_buckets, histogram_len, histogram_max, histogram_min, lowest,
    new_histogram, precision, record_value, recorded, top, Samples,
};
use crate::text::{
    decimal, decimal_text, push_row, row, run_of, signed_decimal, signed_text, texts,
};

verus! {

/// A number of events. It starts over at zero behind the largest 64-bit number.
#[derive(Debug, Clone, Copy, PartialEq, Eq, Structural)]
pub struct Counter(u64);

impl Counter {
    /// How many events were counted.
    pub closed spec fn count(&self) -> u64 {
        self.0
    }

    pub fn new() -> (r: Self)
        ensures
            r.count() == 0,
    {
        Counter(0)
    }

    /// Counts `n` events.
    pub fn inc(&mut self, n: u64)
        ensures
            final(self).count() == (old(self).count() + n) % 0x1_0000_0000_0000_0000,
    {
        self.0 = self.0.wrapping_add(n);
    }

    /// How many events were counted.
    pub fn value(&self) -> (n: u64)
        ensures
            n == self.count(),
    {
        self.0
    }
}

impl Default for Counter {
    fn default() -> (r: Self)
        ensures
            r.count() == 0,
    {
        Counter::new()
    }
}

/// A level. It goes on at the other end behind the largest and the smallest signed 64-bit
/// number.
#[derive(Debug, Clone, Copy, PartialEq, Eq, Structural)]
pub struct Gauge(i64);

/// The signed 64-bit number that differs from `n` by a multiple of 2 to the 64.
pub open spec fn wrapped(n: int) -> int {
    if n > i64::MAX {
        n - 0x1_0000_0000_0000_0000
    } else if n < i64::MIN {
        n + 0x1_0000_0000_0000_0000
    } else {
        n
    }
}

impl Gauge {
    /// The level.
    pub closed spec fn level(&self) -> i64 {
        self.0
    }

    pub fn new() -> (r: Self)
        ensures
            r.level() == 0,
    {
        Gauge(0)
    }

    /// Moves the level by `delta`.
    pub fn add(&mut self, delta: i64)
        ensures
            final(self).level() == wrapped(old(self).level() + delta),
    {
        self.0 = self.0.wrapping_add(delta);
    }

    /// Sets the level.
    pub fn set(&mut self, v: i64)
        ensures
            final(self).level() == v,
    {
        self.0 = v;
    }

    /// The level.
    pub fn value(&self) -> (n: i64)
        ensures
            n == self.level(),
    {
        self.0
    }
}

impl Default for Gauge {
    fn default() -> (r: Self)
        ensures
            r.level() == 0,
    {
        Gauge::new()
    }
}

/// The highest latency that is told from higher ones, in microseconds: an hour.
pub const MAX_LATENCY_US: u64 = 3_600_000_000;

/// Latencies in microseconds.
#[derive(Debug)]
pub struct Latency(Samples);

/// The middle and the upper end of a distribution, and how far it spreads.
#[derive(Debug, Clone, Copy)]
pub struct Tail {
    pub p50: u64,
    pub p90: u64,
    pub p95: u64,
    pub p99: u64,
    pub p99_9: u64,
    pub mean: u64,
    /// The standard deviation.
    pub stddev: u64,
}

/// What is told of a distribution.
#[derive(Debug, Clone, Copy)]
pub struct Snapshot {
    pub min: u64,
    pub p50: u64,
    pub p90: u64,
    pub p95: u64,
    pub p99: u64,
    pub p99_9: u64,
    pub max: u64,
    pub mean: u64,
    /// The standard deviation.
    pub stddev: u64,
    pub count: u64,
}

impl Latency {
    /// The histogram that holds the latencies.
    pub closed spec fn hist(&self) -> Samples {
        self.0
    }

    /// Every latency up to the highest that is told apart is tracked, to three decimal digits.
    pub open spec fn wf(&self) -> bool {
        top(self.hist()) == MAX_LATENCY_US && precision(self.hist()) == 3
    }

    /// No latencies.
    pub fn new() -> (r: Self)
        ensures
            r.wf(),
            recorded(r.hist()) == Multiset::<u64>::empty(),
    {
        match new_histogram(MAX_LATENCY_US, 3) {
            Some(h) => Latency(h),
            None => unreached(),
        }
    }

    /// Records a latency of `us` microseconds, or the highest that is told apart if it is
    /// higher.
    pub fn record_us(&mut self, us: u64)
        requires
            old(self).wf(),
        ensures
            final(self).wf(),
            recorded(final(self).hist()) == recorded(old(self).hist()).insert(clamped(us)),
    {
        let v: u64 = if us > MAX_LATENCY_US {
            MAX_LATENCY_US
        } else {
            us
        };
        let _ = record_value(&mut self.0, v);
    }

    /// Each recorded latency with the number of times it was recorded.
    pub fn buckets(&self) -> (v: Vec<(u64, u64)>)
        ensures
            v@ == buckets(self.hist()),
    {
        histogram_buckets(&self.0)
    }

    /// What is told of the latencies, whose middle and upper end are `tail`, if there are any.
    pub fn snapshot(&self, tail: Tail) -> (r: Option<Snapshot>)
        ensures
            r is None <==> recorded(self.hist()).len() == 0,
            r matches Some(s) ==> s == snapshot_of(self.hist(), tail),
    {
        let count: u64 = histogram_len(&self.0);
        if count == 0 {
            return None;
        }
        Some(
            Snapshot {
                min: histogram_min(&self.0),
                p50: tail.p50,
                p90: tail.p90,
                p95: tail.p95,
                p99: tail.p99,
                p99_9: tail.p99_9,
                max: histogram_max(&self.0),
                mean: tail.mean,
                stddev: tail.stddev,
                count,
            },
        )
    }
}

/// What is told of the values in a histogram whose middle and upper end are `tail`.
pub open spec fn snapshot_of(h: Samples, tail: Tail) -> Snapshot {
    Snapshot {
        min: lowest(h),
        p50: tail.p50,
        p90: tail.p90,
        p95: tail.p95,
        p99: tail.p99,
        p99_9: tail.p99_9,
        max: highest(h),
        mean: tail.mean,
        stddev: tail.stddev,
        count: if recorded(h).len() > u64::MAX {
            u64::MAX
        } else {
            recorded(h).len() as u64
        },
    }
}

/// What is told of the write-ahead log.
#[derive(Debug, Clone, Copy)]
pub struct WalSnapshot {
    pub write_count: u64,
    pub write_bytes: u64,
    pub sync_count: u64,
    pub sync_latency: Option<Snapshot>,
}

/// What is told of the engine.
#[derive(Debug, Clone, Copy)]
pub struct EngineSnapshot {
    pub insert_count: u64,
    pub batch_insert_count: u64,
    pub records_inserted: u64,
    pub insert_failures: u64,
    pub range_count: u64,
    pub range_failures: u64,
    pub records_scanned: u64,
    pub memtable_bytes: i64,
    pub memtable_limit: i64,
    pub sstable_count: i64,
    pub flush_count: u64,
    pub compaction_count: u64,
    pub insert_latency: Option<Snapshot>,
    pub batch_insert_latency: Option<Snapshot>,
    pub range_latency: Option<Snapshot>,
    pub flush_duration: Option<Snapshot>,
    pub compaction_duration: Option<Snapshot>,
}

/// What is told of the server.
#[derive(Debug, Clone, Copy)]
pub struct ServerSnapshot {
    pub connections_accepted: u64,
    pub connections_active: i64,
    pub frames_read: u64,
    pub frames_written: u64,
}

/// What is told of the store.
#[derive(Debug, Clone, Copy)]
pub struct MetricsSnapshot {
    pub wal: WalSnapshot,
    pub engine: EngineSnapshot,
    pub server: ServerSnapshot,
}

/// What is counted of the write-ahead log.
#[derive(Debug)]
pub struct WalMetrics {
    pub write_count: Counter,
    pub write_bytes: Counter,
    pub sync_count: Counter,
    pub sync_latency: Latency,
}

/// What is counted of the engine.
#[derive(Debug)]
pub struct EngineMetrics {
    pub insert_count: Counter,
    pub batch_insert_count: Counter,
    pub records_inserted: Counter,
    pub insert_failures: Counter,
    pub range_count: Counter,
    pub range_failures: Counter,
    pub records_scanned: Counter,
    pub memtable_bytes: Gauge,
    pub memtable_limit: Gauge,
    pub sstable_count: Gauge,
    pub flush_count: Counter,
    pub compaction_count: Counter,
    pub insert_latency: Latency,
    pub batch_insert_latency: Latency,
    pub range_latency: Latency,
    pub flush_duration: Latency,
    pub compaction_duration: Latency,
}

/// What is counted of the server.
#[derive(Debug)]
pub struct ServerMetrics {
    pub connections_accepted: Counter,
    pub connections_active: Gauge,
    pub frames_read: Counter,
    pub frames_written: Counter,
}

/// What is counted of the store.
#[derive(Debug)]
pub struct Metrics {
    pub wal: WalMetrics,
    pub engine: EngineMetrics,
    pub server: ServerMetrics,
}

/// The middle and the upper end of each distribution of latencies.
#[derive(Debug, Clone, Copy)]
pub struct Tails {
    pub insert: Tail,
    pub batch_insert: Tail,
    pub range: Tail,
    pub flush: Tail,
    pub compaction: Tail,
    pub wal_sync: Tail,
}

/// What is told of the values in a histogram, if there are any.
pub open spec fn told(h: Samples, tail: Tail) -> Option<Snapshot> {
    if recorded(h).len() == 0 {
        None
    } else {
        Some(snapshot_of(h, tail))
    }
}

impl WalMetrics {
    /// Nothing counted yet.
    pub fn new() -> (r: Self)
        ensures
            r.wf(),
            r.write_count.count() == 0,
            r.write_bytes.count() == 0,
            r.sync_count.count() == 0,
            recorded(r.sync_latency.hist()) == Multiset::<u64>::empty(),
    {
        WalMetrics {
            write_count: Counter::new(),
            write_bytes: Counter::new(),
            sync_count: Counter::new(),
            sync_latency: Latency::new(),
        }
    }

    /// What is told of the write-ahead log, given the middle and the upper end of the
    /// distribution.
    pub fn snapshot(&self, sync: Tail) -> (r: WalSnapshot)
        ensures
            r == wal_snapshot(*self, sync),
    {
        WalSnapshot {
            write_count: self.write_count.value(),
            write_bytes: self.write_bytes.value(),
            sync_count: self.sync_count.value(),
            sync_latency: self.sync_latency.snapshot(sync),
        }
    }

    pub open spec fn wf(&self) -> bool {
        self.sync_latency.wf()
    }
}

/// What is counted of the engine, as plain numbers and collections.
pub struct EngineTally {
    pub insert_count: u64,
    pub batch_insert_count: u64,
    pub records_inserted: u64,
    pub insert_failures: u64,
    pub range_count: u64,
    pub range_failures: u64,
    pub records_scanned: u64,
    pub memtable_bytes: i64,
    pub memtable_limit: i64,
    pub sstable_count: i64,
    pub flush_count: u64,
    pub compaction_count: u64,
    pub insert_latency: Multiset<u64>,
    pub batch_insert_latency: Multiset<u64>,
    pub range_latency: Multiset<u64>,
    pub flush_duration: Multiset<u64>,
    pub compaction_duration: Multiset<u64>,
}

impl View for EngineMetrics {
    type V = EngineTally;

    open spec fn view(&self) -> EngineTally {
        EngineTally {
            insert_count: self.insert_count.count(),
            batch_insert_count: self.batch_insert_count.count(),
            records_inserted: self.records_inserted.count(),
            insert_failures: self.insert_failures.count(),
            range_count: self.range_count.count(),
            range_failures: self.range_failures.count(),
            records_scanned: self.records_scanned.count(),
            memtable_bytes: self.memtable_bytes.level(),
            memtable_limit: self.memtable_limit.level(),
            sstable_count: self.sstable_count.level(),
            flush_count: self.flush_count.count(),
            compaction_count: self.compaction_count.count(),
            insert_latency: recorded(self.insert_latency.hist()),
            batch_insert_latency: recorded(self.batch_insert_latency.hist()),
            range_latency: recorded(self.range_latency.hist()),
            flush_duration: recorded(self.flush_duration.hist()),
            compaction_duration: recorded(self.compaction_duration.hist()),
        }
    }
}

/// A counter after `n` more events.
pub open spec fn counted_up(before: u64, n: nat) -> u64 {
    ((before + n) % 0x1_0000_0000_0000_0000) as u64
}

/// The latency that is recorded for one of `us` microseconds.
pub open spec fn clamped(us: u64) -> u64 {
    if us > MAX_LATENCY_US {
        MAX_LATENCY_US
    } else {
        us
    }
}

impl EngineMetrics {
    pub open spec fn wf(&self) -> bool {
        &&& self.insert_latency.wf()
        &&& self.batch_insert_latency.wf()
        &&& self.range_latency.wf()
        &&& self.flush_duration.wf()
        &&& self.compaction_duration.wf()
    }

    /// Nothing counted yet.
    pub fn new() -> (r: Self)
        ensures
            r.wf(),
            r.insert_count.count() == 0,
            r.batch_insert_count.count() == 0,
            r.records_inserted.count() == 0,
            r.insert_failures.count() == 0,
            r.range_count.count() == 0,
            r.range_failures.count() == 0,
            r.records_scanned.count() == 0,
            r.memtable_bytes.level() == 0,
            r.memtable_limit.level() == 0,
            r.sstable_count.level() == 0,
            r.flush_count.count() == 0,
            r.compaction_count.count() == 0,
            recorded(r.insert_latency.hist()) == Multiset::<u64>::empty(),
            recorded(r.batch_insert_latency.hist()) == Multiset::<u64>::empty(),
            recorded(r.range_latency.hist()) == Multiset::<u64>::empty(),
            recorded(r.flush_duration.hist()) == Multiset::<u64>::empty(),
            recorded(r.compaction_duration.hist()) == Multiset::<u64>::empty(),
    {
        EngineMetrics {
            insert_count: Counter::new(),
            batch_insert_count: Counter::new(),
            records_inserted: Counter::new(),
            insert_failures: Counter::new(),
            range_count: Counter::new(),
            range_failures: Counter::new(),
            records_scanned: Counter::new(),
            memtable_bytes: Gauge::new(),
            memtable_limit: Gauge::new(),
            sstable_count: Gauge::new(),
            flush_count: Counter::new(),
            compaction_count: Counter::new(),
            insert_latency: Latency::new(),
            batch_insert_latency: Latency::new(),
            range_latency: Latency::new(),
            flush_duration: Latency::new(),
            compaction_duration: Latency::new(),
        }
    }

    /// What is told of the engine, given the middle and the upper end of each distribution.
    pub fn snapshot(&self, tails: &Tails) -> (r: EngineSnapshot)
        ensures
            r == engine_snapshot(*self, *tails),
    {
        EngineSnapshot {
            insert_count: self.insert_count.value(),
            batch_insert_count: self.batch_insert_count.value(),
            records_inserted: self.records_inserted.value(),
            insert_failures: self.insert_failures.value(),
            range_count: self.range_count.value(),
            range_failures: self.range_failures.value(),
            records_scanned: self.records_scanned.value(),
            memtable_bytes: self.memtable_bytes.value(),
            memtable_limit: self.memtable_limit.value(),
            sstable_count: self.sstable_count.value(),
            flush_count: self.flush_count.value(),
            compaction_count: self.compaction_count.value(),
            insert_latency: self.insert_latency.snapshot(tails.insert),
            batch_insert_latency: self.batch_insert_latency.snapshot(tails.batch_insert),
            range_latency: self.range_latency.snapshot(tails.range),
            flush_duration: self.flush_duration.snapshot(tails.flush),
            compaction_duration: self.compaction_duration.snapshot(tails.compaction),
        }
    }
}

impl ServerMetrics {
    /// Nothing counted yet.
    pub fn new() -> (r: Self)
        ensures
            r.connections_accepted.count() == 0,
            r.connections_active.level() == 0,
            r.frames_read.count() == 0,
            r.frames_written.count() == 0,
    {
        ServerMetrics {
            connections_accepted: Counter::new(),
            connections_active: Gauge::new(),
            frames_read: Counter::new(),
            frames_written: Counter::new(),
        }
    }

    /// What is told of the server.
    pub fn snapshot(&self) -> (r: ServerSnapshot)
        ensures
            r == server_snapshot(*self),
    {
        ServerSnapshot {
            connections_accepted: self.connections_accepted.value(),
            connections_active: self.connections_active.value(),
            frames_read: self.frames_read.value(),
            frames_written: self.frames_written.value(),
        }
    }
}

/// What is told of the write-ahead log, given the middle and the upper end of the distribution.
pub open spec fn wal_snapshot(m: WalMetrics, sync: Tail) -> WalSnapshot {
    WalSnapshot {
        write_count: m.write_count.count(),
        write_bytes: m.write_bytes.count(),
        sync_count: m.sync_count.count(),
        sync_latency: told(m.sync_latency.hist(), sync),
    }
}

/// What is told of the engine, given the middle and the upper end of each distribution.
pub open spec fn engine_snapshot(m: EngineMetrics, tails: Tails) -> EngineSnapshot {
    EngineSnapshot {
        insert_count: m.insert_count.count(),
        batch_insert_count: m.batch_insert_count.count(),
        records_inserted: m.records_inserted.count(),
        insert_failures: m.insert_failures.count(),
        range_count: m.range_count.count(),
        range_failures: m.range_failures.count(),
        records_scanned: m.records_scanned.count(),
        memtable_bytes: m.memtable_bytes.level(),
        memtable_limit: m.memtable_limit.level(),
        sstable_count: m.sstable_count.level(),
        flush_count: m.flush_count.count(),
        compaction_count: m.compaction_count.count(),
        insert_latency: told(m.insert_latency.hist(), tails.insert),
        batch_insert_latency: told(m.batch_insert_latency.hist(), tails.batch_insert),
        range_latency: told(m.range_latency.hist(), tails.range),
        flush_duration: told(m.flush_duration.hist(), tails.flush),
        compaction_duration: told(m.compaction_duration.hist(), tails.compaction),
    }
}

/// What is told of the server.
pub open spec fn server_snapshot(m: ServerMetrics) -> ServerSnapshot {
    ServerSnapshot {
        connections_accepted: m.connections_accepted.count(),
        connections_active: m.connections_active.level(),
        frames_read: m.frames_read.count(),
        frames_written: m.frames_written.count(),
    }
}

/// The metrics as they are told, given the middle and the upper end of each distribution.
pub open spec fn metrics_snapshot(m: Metrics, tails: Tails) -> MetricsSnapshot {
    MetricsSnapshot {
        wal: wal_snapshot(m.wal, tails.wal_sync),
        engine: engine_snapshot(m.engine, tails),
        server: server_snapshot(m.server),
    }
}

/// What is told where nothing was counted and nothing measured.
pub open spec fn nothing_told() -> MetricsSnapshot {
    MetricsSnapshot {
        wal: WalSnapshot { write_count: 0, write_bytes: 0, sync_count: 0, sync_latency: None },
        engine: EngineSnapshot {
            insert_count: 0,
            batch_insert_count: 0,
            records_inserted: 0,
            insert_failures: 0,
            range_count: 0,
            range_failures: 0,
            records_scanned: 0,
            memtable_bytes: 0,
            memtable_limit: 0,
            sstable_count: 0,
            flush_count: 0,
            compaction_count: 0,
            insert_latency: None,
            batch_insert_latency: None,
            range_latency: None,
            flush_duration: None,
            compaction_duration: None,
        },
        server: ServerSnapshot {
            connections_accepted: 0,
            connections_active: 0,
            frames_read: 0,
            frames_written: 0,
        },
    }
}

/// The line for one distribution, if anything is told of it.
pub open spec fn latency_row(name: Seq<char>, snap: Option<Snapshot>) -> Seq<char> {
    match snap {
        None => Seq::empty(),
        Some(s) => row(
            seq![
                name,
                decimal(s.min as nat),
                decimal(s.p50 as nat),
                decimal(s.p90 as nat),
                decimal(s.p95 as nat),
                decimal(s.p99 as nat),
                decimal(s.p99_9 as nat),
                decimal(s.max as nat),
                decimal(s.count as nat),
            ],
            latency_widths(),
        ),
    }
}

pub open spec fn server_widths() -> Seq<usize> {
    seq![8, 8, 8, 8]
}

pub open spec fn engine_widths() -> Seq<usize> {
    seq![8, 8, 10, 8, 8, 8, 10, 10, 10, 5, 8, 8]
}

pub open spec fn wal_widths() -> Seq<usize> {
    seq![10, 12, 8]
}

pub open spec fn latency_widths() -> Seq<usize> {
    seq![16, 10, 10, 10, 10, 10, 10, 10, 10]
}

/// The part of the report on the server.
pub open spec fn server_text(s: ServerSnapshot) -> Seq<char> {
    "\n==> SERVER METRICS <==\n"@ + row(
        seq!["ACCEPTED"@, "ACTIVE"@, "FRM_RD"@, "FRM_WR"@],
        server_widths(),
    ) + row(
        seq![
            decimal(s.connections_accepted as nat),
            signed_decimal(s.connections_active as int),
            decimal(s.frames_read as nat),
            decimal(s.frames_written as nat),
        ],
        server_widths(),
    )
}

/// The part of the report on the engine.
pub open spec fn engine_text(e: EngineSnapshot) -> Seq<char> {
    "\n==> ENGINE METRICS <==\n"@ + row(
        seq![
            "INSERTS"@,
            "BATCH"@,
            "RECORDS"@,
            "FAIL"@,
            "RANGES"@,
            "R_FAIL"@,
            "SCANNED"@,
            "MT_BYTES"@,
            "MT_LIM"@,
            "SST"@,
            "FLUSHES"@,
            "COMPACT"@,
        ],
        engine_widths(),
    ) + row(
        seq![
            decimal(e.insert_count as nat),
            decimal(e.batch_insert_count as nat),
            decimal(e.records_inserted as nat),
            decimal(e.insert_failures as nat),
            decimal(e.range_count as nat),
            decimal(e.range_failures as nat),
            decimal(e.records_scanned as nat),
            signed_decimal(e.memtable_bytes as int),
            signed_decimal(e.memtable_limit as int),
            signed_decimal(e.sstable_count as int),
            decimal(e.flush_count as nat),
            decimal(e.compaction_count as nat),
        ],
        engine_widths(),
    )
}

/// The part of the report on the write-ahead log.
pub open spec fn wal_text(w: WalSnapshot) -> Seq<char> {
    "\n==> WAL METRICS <==\n"@ + row(seq!["WRITES"@, "BYTES"@, "SYNCS"@], wal_widths()) + row(
        seq![
            decimal(w.write_count as nat),
            decimal(w.write_bytes as nat),
            decimal(w.sync_count as nat),
        ],
        wal_widths(),
    )
}

/// The part of the report on the latencies.
pub open spec fn latencies_text(m: MetricsSnapshot) -> Seq<char> {
    "\n==> LATENCIES (\u{b5}s) <==\n"@ + row(
        seq![""@, "MIN"@, "P50"@, "P90"@, "P95"@, "P99"@, "P99.9"@, "MAX"@, "COUNT"@],
        latency_widths(),
    ) + run_of('-', 106).push('\n') + latency_row("insert"@, m.engine.insert_latency)
        + latency_row("batch_insert"@, m.engine.batch_insert_latency) + latency_row(
        "range"@,
        m.engine.range_latency,
    ) + latency_row("flush"@, m.engine.flush_duration) + latency_row(
        "compaction"@,
        m.engine.compaction_duration,
    ) + latency_row("wal_sync"@, m.wal.sync_latency)
}

/// The report on the metrics.
pub open spec fn dump_text(m: MetricsSnapshot) -> Seq<char> {
    server_text(m.server) + engine_text(m.engine) + wal_text(m.wal) + latencies_text(m)
}

fn push_server(out: &mut String, s: &ServerSnapshot)
    ensures
        final(out)@ == old(out)@ + server_text(*s),
{
    let widths: [usize; 4] = [8, 8, 8, 8];
    assert(widths@ =~= server_widths());
    out.append("\n==> SERVER METRICS <==\n");
    let heads = labels4("ACCEPTED", "ACTIVE", "FRM_RD", "FRM_WR");
    push_row(out, &heads, widths.as_slice());
    let mut cells: Vec<String> = Vec::new();
    cells.push(decimal_text(s.connections_accepted));
    cells.push(signed_text(s.connections_active));
    cells.push(decimal_text(s.frames_read));
    cells.push(decimal_text(s.frames_written));
    assert(texts(cells@) =~= seq![
        decimal(s.connections_accepted as nat),
        signed_decimal(s.connections_active as int),
        decimal(s.frames_read as nat),
        decimal(s.frames_written as nat),
    ]);
    push_row(out, &cells, widths.as_slice());
    assert(out@ =~= old(out)@ + server_text(*s));
}

fn labels3(a: &str, b: &str, c: &str) -> (v: Vec<String>)
    ensures
        v@.len() == 3,
        texts(v@) == seq![a@, b@, c@],
{
    let mut v: Vec<String> = Vec::new();
    v.push(String::from_str(a));
    v.push(String::from_str(b));
    v.push(String::from_str(c));
    assert(texts(v@) =~= seq![a@, b@, c@]);
    v
}

fn labels4(a: &str, b: &str, c: &str, d: &str) -> (v: Vec<String>)
    ensures
        v@.len() == 4,
        texts(v@) == seq![a@, b@, c@, d@],
{
    let mut v = labels3(a, b, c);
    v.push(String::from_str(d));
    assert(texts(v@.take(3)) =~= seq![a@, b@, c@]) by {
        assert(v@.take(3) =~= v@.drop_last());
    }
    assert(texts(v@) =~= texts(v@.take(3)).push(d@));
    assert(texts(v@) =~= seq![a@, b@, c@, d@]);
    v
}

fn join_labels(a: Vec<String>, b: Vec<String>) -> (v: Vec<String>)
    ensures
        texts(v@) == texts(a@) + texts(b@),
{
    let mut v = a;
    let mut b = b;
    let ghost (x, y) = (a@, b@);
    v.append(&mut b);
    assert(texts(v@) =~= texts(x) + texts(y));
    v
}

fn push_engine(out: &mut String, e: &EngineSnapshot)
    ensures
        final(out)@ == old(out)@ + engine_text(*e),
{
    let widths: [usize; 12] = [8, 8, 10, 8, 8, 8, 10, 10, 10, 5, 8, 8];
    assert(widths@ =~= engine_widths());
    out.append("\n==> ENGINE METRICS <==\n");
    let heads = join_labels(
        join_labels(
            labels4("INSERTS", "BATCH", "RECORDS", "FAIL"),
            labels4("RANGES", "R_FAIL", "SCANNED", "MT_BYTES"),
        ),
        labels4("MT_LIM", "SST", "FLUSHES", "COMPACT"),
    );
    assert(texts(heads@) =~= seq![
        "INSERTS"@,
        "BATCH"@,
        "RECORDS"@,
        "FAIL"@,
        "RANGES"@,
        "R_FAIL"@,
        "SCANNED"@,
        "MT_BYTES"@,
        "MT_LIM"@,
        "SST"@,
        "FLUSHES"@,
        "COMPACT"@,
    ]);
    push_row(out, &heads, widths.as_slice());
    let mut cells: Vec<String> = Vec::new();
    cells.push(decimal_text(e.insert_count));
    cells.push(decimal_text(e.batch_insert_count));
    cells.push(decimal_text(e.records_inserted));
    cells.push(decimal_text(e.insert_failures));
    cells.push(decimal_text(e.range_count));
    cells.push(decimal_text(e.range_failures));
    cells.push(decimal_text(e.records_scanned));
    cells.push(signed_text(e.memtable_bytes));
    cells.push(signed_text(e.memtable_limit));
    cells.push(signed_text(e.sstable_count));
    cells.push(decimal_text(e.flush_count));
    cells.push(decimal_text(e.compaction_count));
    assert(texts(cells@) =~= seq![
        decimal(e.insert_count as nat),
        decimal(e.batch_insert_count as nat),
        decimal(e.records_inserted as nat),
        decimal(e.insert_failures as nat),
        decimal(e.range_count as nat),
        decimal(e.range_failures as nat),
        decimal(e.records_scanned as nat),
        signed_decimal(e.memtable_bytes as int),
        signed_decimal(e.memtable_limit as int),
        signed_decimal(e.sstable_count as int),
        decimal(e.flush_count as nat),
        decimal(e.compaction_count as nat),
    ]);
    push_row(out, &cells, widths.as_slice());
    assert(out@ =~= old(out)@ + engine_text(*e));
}

fn push_wal(out: &mut String, w: &WalSnapshot)
    ensures
        final(out)@ == old(out)@ + wal_text(*w),
{
    let widths: [usize; 3] = [10, 12, 8];
    assert(widths@ =~= wal_widths());
    out.append("\n==> WAL METRICS <==\n");
    let heads = labels3("WRITES", "BYTES", "SYNCS");
    push_row(out, &heads, widths.as_slice());
    let mut cells: Vec<String> = Vec::new();
    cells.push(decimal_text(w.write_count));
    cells.push(decimal_text(w.write_bytes));
    cells.push(decimal_text(w.sync_count));
    assert(texts(cells@) =~= seq![
        decimal(w.write_count as nat),
        decimal(w.write_bytes as nat),
        decimal(w.sync_count as nat),
    ]);
    push_row(out, &cells, widths.as_slice());
    assert(out@ =~= old(out)@ + wal_text(*w));
}

fn push_latency(out: &mut String, name: &str, snap: &Option<Snapshot>)
    ensures
        final(out)@ == old(out)@ + latency_row(name@, *snap),
{
    if let Some(s) = snap {
        let widths: [usize; 9] = [16, 10, 10, 10, 10, 10, 10, 10, 10];
        assert(widths@ =~= latency_widths());
        let mut cells: Vec<String> = Vec::new();
        cells.push(String::from_str(name));
        cells.push(decimal_text(s.min));
        cells.push(decimal_text(s.p50));
        cells.push(decimal_text(s.p90));
        cells.push(decimal_text(s.p95));
        cells.push(decimal_text(s.p99));
        cells.push(decimal_text(s.p99_9));
        cells.push(decimal_text(s.max));
        cells.push(decimal_text(s.count));
        assert(texts(cells@) =~= seq![
            name@,
            decimal(s.min as nat),
            decimal(s.p50 as nat),
            decimal(s.p90 as nat),
            decimal(s.p95 as nat),
            decimal(s.p99 as nat),
            decimal(s.p99_9 as nat),
            decimal(s.max as nat),
            decimal(s.count as nat),
        ]);
        push_row(out, &cells, widths.as_slice());
    } else {
        assert(out@ =~= old(out)@ + latency_row(name@, *snap));
    }
}

fn push_rule(out: &mut String, n: usize)
    ensures
        final(out)@ == old(out)@ + run_of('-', n as nat).push('\n'),
{
    let ghost start = out@;
    proof {
        reveal_strlit("-");
        reveal_strlit("\n");
    }
    let mut i: usize = 0;
    assert(start + run_of('-', 0) =~= start);
    while i < n
        invariant
            i <= n,
            out@ == start + run_of('-', i as nat),
            "-"@ =~= seq!['-'],
        decreases n - i,
    {
        out.append("-");
        i += 1;
        assert(out@ =~= start + run_of('-', i as nat));
    }
    out.append("\n");
    assert(out@ =~= start + run_of('-', n as nat).push('\n'));
}

fn push_latencies(out: &mut String, m: &MetricsSnapshot)
    ensures
        final(out)@ == old(out)@ + latencies_text(*m),
{
    let widths: [usize; 9] = [16, 10, 10, 10, 10, 10, 10, 10, 10];
    assert(widths@ =~= latency_widths());
    out.append("\n==> LATENCIES (\u{b5}s) <==\n");
    let heads = join_labels(
        join_labels(labels3("", "MIN", "P50"), labels3("P90", "P95", "P99")),
        labels3("P99.9", "MAX", "COUNT"),
    );
    assert(texts(heads@) =~= seq![
        ""@,
        "MIN"@,
        "P50"@,
        "P90"@,
        "P95"@,
        "P99"@,
        "P99.9"@,
        "MAX"@,
        "COUNT"@,
    ]);
    push_row(out, &heads, widths.as_slice());
    push_rule(out, 106);
    push_latency(out, "insert", &m.engine.insert_latency);
    push_latency(out, "batch_insert", &m.engine.batch_insert_latency);
    push_latency(out, "range", &m.engine.range_latency);
    push_latency(out, "flush", &m.engine.flush_duration);
    push_latency(out, "compaction", &m.engine.compaction_duration);
    push_latency(out, "wal_sync", &m.wal.sync_latency);
    assert(out@ =~= old(out)@ + latencies_text(*m));
}

/// The report on the metrics as they are told.
pub fn report(m: &MetricsSnapshot) -> (out: String)
    ensures
        out@ == dump_text(*m),
{
    let mut out = String::new();
    push_server(&mut out, &m.server);
    push_engine(&mut out, &m.engine);
    push_wal(&mut out, &m.wal);
    push_latencies(&mut out, m);
    assert(out@ =~= dump_text(*m));
    out
}

impl Metrics {
    /// Nothing counted yet.
    pub fn new() -> (r: Self)
        ensures
            r.wf(),
            forall|tails: Tails| #[trigger] metrics_snapshot(r, tails) == nothing_told(),
    {
        Metrics { wal: WalMetrics::new(), engine: EngineMetrics::new(), server: ServerMetrics::new() }
    }

    pub open spec fn wf(&self) -> bool {
        self.wal.wf() && self.engine.wf()
    }

    /// The report on the metrics, given the middle and the upper end of each distribution.
    pub fn dump(&self, tails: &Tails) -> (out: String)
        ensures
            out@ == dump_text(metrics_snapshot(*self, *tails)),
    {
        report(&self.snapshot(tails))
    }

    /// The metrics as they are told, given the middle and the upper end of each distribution.
    pub fn snapshot(&self, tails: &Tails) -> (r: MetricsSnapshot)
        ensures
            r == metrics_snapshot(*self, *tails),
    {
        MetricsSnapshot {
            wal: self.wal.snapshot(tails.wal_sync),
            engine: self.engine.snapshot(tails),
            server: self.server.snapshot(),
        }
    }
}

/// Counting `n` more on one counter of the engine raises just the figure of that name by `n`,
/// and setting a gauge sets just the figure of that name.
pub proof fn law_engine_counts_told(a: EngineMetrics, b: EngineMetrics, n: nat, tails: Tails)
    ensures
        b == (EngineMetrics { insert_count: b.insert_count, ..a }) && b.insert_count.count() == a.insert_count.count() + n ==> engine_snapshot(b, tails)
            == (EngineSnapshot { insert_count: (engine_snapshot(a, tails).insert_count + n) as u64, ..engine_snapshot(a, tails) }),
        b == (EngineMetrics { batch_insert_count: b.batch_insert_count, ..a }) && b.batch_insert_count.count() == a.batch_insert_count.count() + n ==> engine_snapshot(b, tails)
            == (EngineSnapshot { batch_insert_count: (engine_snapshot(a, tails).batch_insert_count + n) as u64, ..engine_snapshot(a, tails) }),
        b == (EngineMetrics { records_inserted: b.records_inserted, ..a }) && b.records_inserted.count() == a.records_inserted.count() + n ==> engine_snapshot(b, tails)
            == (EngineSnapshot { records_inserted: (engine_snapshot(a, tails).records_inserted + n) as u64, ..engine_snapshot(a, tails) }),
        b == (EngineMetrics { insert_failures: b.insert_failures, ..a }) && b.insert_failures.count() == a.insert_failures.count() + n ==> engine_snapshot(b, tails)
            == (EngineSnapshot { insert_failures: (engine_snapshot(a, tails).insert_failures + n) as u64, ..engine_snapshot(a, tails) }),
        b == (EngineMetrics { range_count: b.range_count, ..a }) && b.range_count.count() == a.range_count.count() + n ==> engine_snapshot(b, tails)
            == (EngineSnapshot { range_count: (engine_snapshot(a, tails).range_count + n) as u64, ..engine_snapshot(a, tails) }),
        b == (EngineMetrics { range_failures: b.range_failures, ..a }) && b.range_failures.count() == a.range_failures.count() + n ==> engine_snapshot(b, tails)
            == (EngineSnapshot { range_failures: (engine_snapshot(a, tails).range_failures + n) as u64, ..engine_snapshot(a, tails) }),
        b == (EngineMetrics { records_scanned: b.records_scanned, ..a }) && b.records_scanned.count() == a.records_scanned.count() + n ==> engine_snapshot(b, tails)
            == (EngineSnapshot { records_scanned: (engine_snapshot(a, tails).records_scanned + n) as u64, ..engine_snapshot(a, tails) }),
        b == (EngineMetrics { flush_count: b.flush_count, ..a }) && b.flush_count.count() == a.flush_count.count() + n ==> engine_snapshot(b, tails)
            == (EngineSnapshot { flush_count: (engine_snapshot(a, tails).flush_count + n) as u64, ..engine_snapshot(a, tails) }),
        b == (EngineMetrics { compaction_count: b.compaction_count, ..a }) && b.compaction_count.count() == a.compaction_count.count() + n ==> engine_snapshot(b, tails)
            == (EngineSnapshot { compaction_count: (engine_snapshot(a, tails).compaction_count + n) as u64, ..engine_snapshot(a, tails) }),
        b == (EngineMetrics { memtable_bytes: b.memtable_bytes, ..a }) ==> engine_snapshot(b, tails)
            == (EngineSnapshot { memtable_bytes: b.memtable_bytes.level(), ..engine_snapshot(a, tails) }),
        b == (EngineMetrics { memtable_limit: b.memtable_limit, ..a }) ==> engine_snapshot(b, tails)
            == (EngineSnapshot { memtable_limit: b.memtable_limit.level(), ..engine_snapshot(a, tails) }),
        b == (EngineMetrics { sstable_count: b.sstable_count, ..a }) ==> engine_snapshot(b, tails)
            == (EngineSnapshot { sstable_count: b.sstable_count.level(), ..engine_snapshot(a, tails) }),
{
}

/// Times of one kind that are recorded change just what is told of that kind, and are told as
/// often as they were recorded.
pub proof fn law_engine_times_told(a: EngineMetrics, b: EngineMetrics, tails: Tails)
    ensures
        b == (EngineMetrics { insert_latency: b.insert_latency, ..a }) ==> {
            let s = engine_snapshot(b, tails);
            let many = recorded(b.insert_latency.hist()).len();
            &&& s == (EngineSnapshot { insert_latency: s.insert_latency, ..engine_snapshot(a, tails) })
            &&& many == 0 <==> s.insert_latency is None
            &&& 0 < many <= u64::MAX ==> s.insert_latency->0.count == many
            &&& many > 0 ==> tells(s.insert_latency->0, tails.insert) && s.insert_latency->0.min == lowest(
                b.insert_latency.hist(),
            ) && s.insert_latency->0.max == highest(b.insert_latency.hist())
        },
        b == (EngineMetrics { batch_insert_latency: b.batch_insert_latency, ..a }) ==> {
            let s = engine_snapshot(b, tails);
            let many = recorded(b.batch_insert_latency.hist()).len();
            &&& s == (EngineSnapshot { batch_insert_latency: s.batch_insert_latency, ..engine_snapshot(a, tails) })
            &&& many == 0 <==> s.batch_insert_latency is None
            &&& 0 < many <= u64::MAX ==> s.batch_insert_latency->0.count == many
            &&& many > 0 ==> tells(s.batch_insert_latency->0, tails.batch_insert) && s.batch_insert_latency->0.min == lowest(
                b.batch_insert_latency.hist(),
            ) && s.batch_insert_latency->0.max == highest(b.batch_insert_latency.hist())
        },
        b == (EngineMetrics { range_latency: b.range_latency, ..a }) ==> {
            let s = engine_snapshot(b, tails);
            let many = recorded(b.range_latency.hist()).len();
            &&& s == (EngineSnapshot { range_latency: s.range_latency, ..engine_snapshot(a, tails) })
            &&& many == 0 <==> s.range_latency is None
            &&& 0 < many <= u64::MAX ==> s.range_latency->0.count == many
            &&& many > 0 ==> tells(s.range_latency->0, tails.range) && s.range_latency->0.min == lowest(
                b.range_latency.hist(),
            ) && s.range_latency->0.max == highest(b.range_latency.hist())
        },
        b == (EngineMetrics { flush_duration: b.flush_duration, ..a }) ==> {
            let s = engine_snapshot(b, tails);
            let many = recorded(b.flush_duration.hist()).len();
            &&& s == (EngineSnapshot { flush_duration: s.flush_duration, ..engine_snapshot(a, tails) })
            &&& many == 0 <==> s.flush_duration is None
            &&& 0 < many <= u64::MAX ==> s.flush_duration->0.count == many
            &&& many > 0 ==> tells(s.flush_duration->0, tails.flush) && s.flush_duration->0.min == lowest(
                b.flush_duration.hist(),
            ) && s.flush_duration->0.max == highest(b.flush_duration.hist())
        },
        b == (EngineMetrics { compaction_duration: b.compaction_duration, ..a }) ==> {
            let s = engine_snapshot(b, tails);
            let many = recorded(b.compaction_duration.hist()).len();
            &&& s == (EngineSnapshot { compaction_duration: s.compaction_duration, ..engine_snapshot(a, tails) })
            &&& many == 0 <==> s.compaction_duration is None
            &&& 0 < many <= u64::MAX ==> s.compaction_duration->0.count == many
            &&& many > 0 ==> tells(s.compaction_duration->0, tails.compaction) && s.compaction_duration->0.min == lowest(
                b.compaction_duration.hist(),
            ) && s.compaction_duration->0.max == highest(b.compaction_duration.hist())
        },
{
}

/// Whether a summary gives the middle, the upper end, the mean and the deviation of `tail`.
pub open spec fn tells(s: Snapshot, tail: Tail) -> bool {
    &&& s.p50 == tail.p50
    &&& s.p90 == tail.p90
    &&& s.p95 == tail.p95
    &&& s.p99 == tail.p99
    &&& s.p99_9 == tail.p99_9
    &&& s.mean == tail.mean
    &&& s.stddev == tail.stddev
}

/// Each figure of the server and of the log follows its own counter alone.
pub proof fn law_server_and_wal_told(
    a: ServerMetrics,
    b: ServerMetrics,
    v: WalMetrics,
    w: WalMetrics,
    n: nat,
    tail: Tail,
)
    ensures
        b == (ServerMetrics { connections_accepted: b.connections_accepted, ..a }) && b.connections_accepted.count() == a.connections_accepted.count() + n ==> server_snapshot(b)
            == (ServerSnapshot { connections_accepted: (server_snapshot(a).connections_accepted + n) as u64, ..server_snapshot(a) }),
        b == (ServerMetrics { frames_read: b.frames_read, ..a }) && b.frames_read.count() == a.frames_read.count() + n ==> server_snapshot(b)
            == (ServerSnapshot { frames_read: (server_snapshot(a).frames_read + n) as u64, ..server_snapshot(a) }),
        b == (ServerMetrics { frames_written: b.frames_written, ..a }) && b.frames_written.count() == a.frames_written.count() + n ==> server_snapshot(b)
            == (ServerSnapshot { frames_written: (server_snapshot(a).frames_written + n) as u64, ..server_snapshot(a) }),
        b == (ServerMetrics { connections_active: b.connections_active, ..a }) ==> server_snapshot(b)
            == (ServerSnapshot { connections_active: b.connections_active.level(), ..server_snapshot(a) }),
        w == (WalMetrics { write_count: w.write_count, ..v }) && w.write_count.count() == v.write_count.count() + n
            ==> wal_snapshot(w, tail) == (WalSnapshot {
            write_count: (wal_snapshot(v, tail).write_count + n) as u64,
            ..wal_snapshot(v, tail)
        }),
        w == (WalMetrics { write_bytes: w.write_bytes, ..v }) && w.write_bytes.count() == v.write_bytes.count() + n
            ==> wal_snapshot(w, tail) == (WalSnapshot {
            write_bytes: (wal_snapshot(v, tail).write_bytes + n) as u64,
            ..wal_snapshot(v, tail)
        }),
        w == (WalMetrics { sync_count: w.sync_count, ..v }) && w.sync_count.count() == v.sync_count.count() + n
            ==> wal_snapshot(w, tail) == (WalSnapshot {
            sync_count: (wal_snapshot(v, tail).sync_count + n) as u64,
            ..wal_snapshot(v, tail)
        }),
        w == (WalMetrics { sync_latency: w.sync_latency, ..v }) ==> {
            let s = wal_snapshot(w, tail);
            let many = recorded(w.sync_latency.hist()).len();
            &&& s == (WalSnapshot { sync_latency: s.sync_latency, ..wal_snapshot(v, tail) })
            &&& many == 0 <==> s.sync_latency is None
            &&& 0 < many <= u64::MAX ==> s.sync_latency->0.count == many
            &&& many > 0 ==> tells(s.sync_latency->0, tail) && s.sync_latency->0.min == lowest(
                w.sync_latency.hist(),
            ) && s.sync_latency->0.max == highest(w.sync_latency.hist())
        },
{
}

/// The whole is told part by part: what is counted in one part changes nothing in the others.
pub proof fn law_parts_told(a: Metrics, b: Metrics, tails: Tails)
    ensures
        a.wal == b.wal ==> metrics_snapshot(a, tails).wal == metrics_snapshot(b, tails).wal,
        a.engine == b.engine ==> metrics_snapshot(a, tails).engine == metrics_snapshot(
            b,
            tails,
        ).engine,
        a.server == b.server ==> metrics_snapshot(a, tails).server == metrics_snapshot(
            b,
            tails,
        ).server,
        metrics_snapshot(a, tails).wal == wal_snapshot(a.wal, tails.wal_sync),
        metrics_snapshot(a, tails).engine == engine_snapshot(a.engine, tails),
        metrics_snapshot(a, tails).server == server_snapshot(a.server),
{
}

/// A time longer than an hour is recorded as an hour, any other as it is.
pub proof fn law_latency_limit(us: u64)
    ensures
        clamped(us) <= us,
        clamped(us) <= 60 * 60 * 1_000_000,
        us <= 60 * 60 * 1_000_000 ==> clamped(us) == us,
        us >= 60 * 60 * 1_000_000 ==> clamped(us) == 60 * 60 * 1_000_000,
{
}

/// A gauge that is raised and lowered by as much stands where it stood, and one that stays in
/// range goes up by just what is added.
pub proof fn law_gauge_moves(level: i64, by: i64)
    ensures
        i64::MIN <= wrapped(level + by) <= i64::MAX,
        i64::MIN <= level + by <= i64::MAX ==> wrapped(level + by) == level + by,
        by != i64::MIN ==> wrapped(wrapped(level + by) - by) == level,
{
}

/// What the metrics tell of themselves is each counter, each gauge and each summary under its own
/// name.
pub proof fn law_metrics_told(m: Metrics, tails: Tails, r: MetricsSnapshot)
    requires
        call_ensures(Metrics::snapshot, (&m, &tails), r),
    ensures
        r.wal.write_count == m.wal.write_count.count(),
        r.wal.write_bytes == m.wal.write_bytes.count(),
        r.wal.sync_count == m.wal.sync_count.count(),
        r.wal.sync_latency == told(m.wal.sync_latency.hist(), tails.wal_sync),
        r.engine.insert_count == m.engine.insert_count.count(),
        r.engine.batch_insert_count == m.engine.batch_insert_count.count(),
        r.engine.records_inserted == m.engine.records_inserted.count(),
        r.engine.insert_failures == m.engine.insert_failures.count(),
        r.engine.range_count == m.engine.range_count.count(),
        r.engine.range_failures == m.engine.range_failures.count(),
        r.engine.records_scanned == m.engine.records_scanned.count(),
        r.engine.memtable_bytes == m.engine.memtable_bytes.level(),
        r.engine.memtable_limit == m.engine.memtable_limit.level(),
        r.engine.sstable_count == m.engine.sstable_count.level(),
        r.engine.flush_count == m.engine.flush_count.count(),
        r.engine.compaction_count == m.engine.compaction_count.count(),
        r.engine.insert_latency == told(m.engine.insert_latency.hist(), tails.insert),
        r.engine.batch_insert_latency == told(
            m.engine.batch_insert_latency.hist(),
            tails.batch_insert,
        ),
        r.engine.range_latency == told(m.engine.range_latency.hist(), tails.range),
        r.engine.flush_duration == told(m.engine.flush_duration.hist(), tails.flush),
        r.engine.compaction_duration == told(
            m.engine.compaction_duration.hist(),
            tails.compaction,
        ),
        r.server.connections_accepted == m.server.connections_accepted.count(),
        r.server.connections_active == m.server.connections_active.level(),
        r.server.frames_read == m.server.frames_read.count(),
        r.server.frames_written == m.server.frames_written.count(),
{
}

/// A counter begins at zero, and counting raises it by just that much; what it tells is where it
/// stands. A gauge begins at zero, moves by what is added and stands where it is set.
pub proof fn law_counters(
    fresh: Counter,
    c: &mut Counter,
    n: u64,
    v: u64,
    empty: Gauge,
    g: &mut Gauge,
    by: i64,
    h: &mut Gauge,
    level: i64,
    w: i64,
)
    requires
        call_ensures(Counter::new, (), fresh),
        call_ensures(Counter::inc, (c, n), ()),
        call_ensures(Counter::value, (final(c),), v),
        call_ensures(Gauge::new, (), empty),
        call_ensures(Gauge::add, (g, by), ()),
        call_ensures(Gauge::set, (h, level), ()),
        call_ensures(Gauge::value, (final(h),), w),
    ensures
        fresh.count() == 0,
        old(c).count() + n <= u64::MAX ==> v == old(c).count() + n,
        old(c).count() + n > u64::MAX ==> v == old(c).count() - (u64::MAX - n) - 1,
        counted_up(old(c).count(), n as nat) == v,
        final(c).count() == v,
        empty.level() == 0,
        i64::MIN <= old(g).level() + by <= i64::MAX ==> final(g).level() == old(g).level() + by,
        w == level,
        final(h).level() == w,
{
}

/// A time that is recorded is one more among those that were, cut off at an hour; none is told
/// where none was recorded.
pub proof fn law_time_recorded(
    fresh: Latency,
    l: &mut Latency,
    us: u64,
    tail: Tail,
    none: Option<Snapshot>,
    some: Option<Snapshot>,
)
    requires
        call_ensures(Latency::new, (), fresh),
        call_ensures(Latency::record_us, (l, us), ()),
        call_ensures(Latency::snapshot, (&fresh, tail), none),
        call_ensures(Latency::snapshot, (final(l), tail), some),
    ensures
        recorded(final(l).hist()) == recorded(old(l).hist()).insert(
            if us > 3_600_000_000 {
                3_600_000_000
            } else {
                us
            },
        ),
        none is None,
        some matches Some(s) && s.min == lowest(final(l).hist()) && s.max == highest(
            final(l).hist(),
        ) && tells(s, tail) && (recorded(old(l).hist()).len() < u64::MAX
            ==> s.count == recorded(old(l).hist()).len() + 1),
{
    broadcast use vstd::multiset::group_multiset_axioms;

}

} // verus!
