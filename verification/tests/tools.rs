use logregator::bench::{
    build_run_configs, compute_saturations, concurrency_levels, default_path, end_line, fmt_bytes,
    fmt_count, format_size, needs_prefill, query_window, start_line, workload_parser,
    ClientResult, ClientWork, Draw, WorkStep, WorkloadKind,
};
use logregator::compare::{
    cmp_mem, cmp_metrics, cmp_runs, cmp_saturations, has_improved_or_neutral, pair_runs,
    ChangeDirection, CmpResult, ConcWorkload, FieldText, LatencyValues, MemValues, PeakValues,
    RunCmp, RunPair, RunValues, Trend,
};
use logregator::mem_profile::{
    is_shown, new_report_str, parse_vm_rss, rss_stats, shown_states, EngineState, ProfileText,
    RssState, RssStats,
};
use logregator::metrics::{Counter, Gauge, Latency, Metrics, Tail, Tails};
use logregator::profile::{default_flame_path, level_of, parse_level, Config, LogLevel, Profile};
use logregator::report::{
    fmt_latency_line, write_summary, write_summary_to_stderr, DropText, LatencyText, MemoryText,
    RunText, SaturationText, ServerText, SettingsText, Summary,
};
use logregator::xtask::{
    baseline_args, baseline_dir, bench_args, chosen_baseline, compare_args, error, info, prep_steps,
    regression_args, run_dir, server_args, wait_step, warn, BenchArgs, CompareArgs, Step,
    StepOutcome, TaskKind, Wait, PORT_LIMIT_MS, PORT_PAUSE_MS, READY_LIMIT_MS, READY_PAUSE_MS,
};

fn s(t: &str) -> String {
    t.to_string()
}

#[test]
fn counters_and_gauges_wrap_around() {
    let mut c = Counter::default();
    c.inc(5);
    assert_eq!(c.value(), 5);
    c.inc(u64::MAX);
    assert_eq!(c.value(), 4);
    let mut g = Gauge::default();
    g.add(-3);
    assert_eq!(g.value(), -3);
    g.set(i64::MAX);
    g.add(1);
    assert_eq!(g.value(), i64::MIN);
    g.add(-1);
    assert_eq!(g.value(), i64::MAX);
}

fn tail(n: u64) -> Tail {
    Tail { p50: n, p90: n + 1, p95: n + 2, p99: n + 3, p99_9: n + 4, mean: n + 5, stddev: n + 6 }
}

fn tails() -> Tails {
    Tails {
        insert: tail(10),
        batch_insert: tail(20),
        range: tail(30),
        flush: tail(40),
        compaction: tail(50),
        wal_sync: tail(60),
    }
}

#[test]
fn latencies_are_told_once_there_are_some() {
    let mut l = Latency::new();
    assert!(l.snapshot(tail(1)).is_none());
    l.record_us(7);
    l.record_us(1000);
    l.record_us(u64::MAX);
    let snap = l.snapshot(tail(1)).unwrap();
    assert_eq!(snap.count, 3);
    assert_eq!(snap.min, 7);
    assert!(snap.max >= 3_600_000_000 && snap.max < 3_610_000_000);
    assert_eq!((snap.p50, snap.p99_9, snap.mean, snap.stddev), (1, 5, 6, 7));
    let buckets = l.buckets();
    assert_eq!(buckets.len(), 3);
    assert_eq!(buckets[0], (7, 1));
    assert_eq!(buckets[1], (1000, 1));
}

#[test]
fn metrics_dump_is_a_table() {
    let mut m = Metrics::new();
    m.server.connections_active.add(-2);
    m.server.frames_read.inc(1234567890);
    m.engine.insert_count.inc(3);
    m.engine.memtable_limit.set(1024);
    m.wal.write_bytes.inc(99);
    m.engine.range_latency.record_us(5);
    let want = concat_lines(&[
        "",
        "==> SERVER METRICS <==",
        "ACCEPTED   ACTIVE   FRM_RD   FRM_WR",
        "       0       -2 1234567890        0",
        "",
        "==> ENGINE METRICS <==",
        " INSERTS    BATCH    RECORDS     FAIL   RANGES   R_FAIL    SCANNED   MT_BYTES     MT_LIM   SST  FLUSHES  COMPACT",
        "       3        0          0        0        0        0          0          0       1024     0        0        0",
        "",
        "==> WAL METRICS <==",
        "    WRITES        BYTES    SYNCS",
        "         0           99        0",
        "",
        "==> LATENCIES (\u{b5}s) <==",
        "                        MIN        P50        P90        P95        P99      P99.9        MAX      COUNT",
        &"-".repeat(106),
        "           range          5         30         31         32         33         34          5          1",
    ]);
    assert_eq!(m.dump(&tails()), want);
    let snap = m.snapshot(&tails());
    assert_eq!(snap.server.connections_active, -2);
    assert_eq!(snap.engine.insert_count, 3);
    assert_eq!(snap.engine.range_latency.unwrap().count, 1);
    assert!(snap.wal.sync_latency.is_none());
}

fn concat_lines(lines: &[&str]) -> String {
    lines.iter().map(|l| format!("{l}\n")).collect()
}

#[test]
fn workloads_have_names() {
    assert_eq!(workload_parser("tail"), Ok(WorkloadKind::Tail));
    assert_eq!(workload_parser("write"), Ok(WorkloadKind::Write));
    assert_eq!(workload_parser("read"), Ok(WorkloadKind::Read));
    assert_eq!(workload_parser("mixed"), Ok(WorkloadKind::Mixed));
    assert_eq!(workload_parser("bulk"), Ok(WorkloadKind::Bulk));
    assert_eq!(
        workload_parser("Bulk"),
        Err(s("unrecognised workload, expected: write, read, mixed, tail, or bulk"))
    );
    assert!(!needs_prefill(WorkloadKind::Write));
    assert!(needs_prefill(WorkloadKind::Read));
}

#[test]
fn runs_are_planned_from_one_to_many_clients() {
    assert_eq!(concurrency_levels(1, 8, 2), vec![1, 2, 4, 6, 8]);
    assert_eq!(concurrency_levels(3, 8, 2), vec![3, 5, 7]);
    assert_eq!(concurrency_levels(1, 1, 0), vec![1]);
    assert_eq!(concurrency_levels(5, 4, 0), Vec::<u32>::new());
    assert_eq!(concurrency_levels(u32::MAX, u32::MAX, 7), vec![u32::MAX]);
    let plan = build_run_configs(&vec![WorkloadKind::Bulk, WorkloadKind::Read], 1, 4, 2);
    let got: Vec<(usize, WorkloadKind, u32)> =
        plan.iter().map(|p| (p.run_id, p.workload, p.concurrency)).collect();
    assert_eq!(
        got,
        vec![
            (0, WorkloadKind::Bulk, 1),
            (1, WorkloadKind::Bulk, 2),
            (2, WorkloadKind::Bulk, 4),
            (3, WorkloadKind::Read, 1),
            (4, WorkloadKind::Read, 2),
            (5, WorkloadKind::Read, 4),
        ]
    );
}

#[test]
fn results_go_to_a_named_file() {
    let w = vec![WorkloadKind::Write, WorkloadKind::Bulk];
    assert_eq!(default_path(17, &w, None), "prof/json/17_write_bulk.json");
    assert_eq!(default_path(17, &w, Some("x")), "prof/json/17_write_bulk__x.json");
}

#[test]
fn client_results_add_up() {
    let mut a = ClientResult::new();
    a.batch_done(10, Some(100));
    a.batch_done(5, None);
    a.range_done(Some((7, 50)));
    let mut b = ClientResult::new();
    b.batch_done(1, Some(200));
    b.range_done(None);
    a.merge(b);
    assert_eq!((a.inserts_completed, a.inserts_failed), (11, 5));
    assert_eq!((a.range_queries_completed, a.ranges_failed, a.records_scanned), (1, 1, 7));
}

#[test]
fn clients_gather_records_and_query_windows() {
    let draw = |coin| Draw { coin, source: 2, key: 3, filtered: false };
    let mut w = ClientWork::new(WorkloadKind::Mixed, 2, 4, 60);
    assert!(matches!(w.step(draw(false), 100), WorkStep::Gather));
    let WorkStep::Query(q) = w.step(draw(true), 70_000) else {
        panic!("a query");
    };
    assert_eq!((q.source_id, q.key.as_str(), q.start_ts, q.end_ts), (2, "key_3", 10_000, 70_000));
    assert_eq!(q.filter, "");
    let WorkStep::Flush(v) = w.step(draw(false), 100) else {
        panic!("a batch");
    };
    assert_eq!(v.len(), 2);
    assert_eq!((v[0].ts, v[1].ts), (100, 101));
    assert_eq!((v[1].key.as_str(), v[1].value.as_str()), ("key_3", "aaaa"));
    assert!(w.take_pending().is_empty());
    let mut r = ClientWork::new(WorkloadKind::Read, 2, 4, 60);
    let step = r.step(Draw { coin: false, source: 0, key: 0, filtered: true }, 5);
    assert!(matches!(step, WorkStep::Query(q) if q.start_ts == 0 && q.filter == "a"));
    assert_eq!(query_window(500, 0), (500, 500));
}

#[test]
fn numbers_are_shown_in_units() {
    let b = fmt_bytes(999);
    assert_eq!((b.divisor, b.decimals, b.unit), (1, 0, "B"));
    let b = fmt_bytes(1_000);
    assert_eq!((b.divisor, b.decimals, b.unit), (1_000, 1, "KB"));
    let b = fmt_bytes(1_000_000);
    assert_eq!((b.divisor, b.decimals, b.unit), (1_000_000, 2, "MB"));
    let b = fmt_bytes(1_000_000_000);
    assert_eq!((b.divisor, b.decimals, b.unit), (1_000_000_000, 2, "GB"));
    let c = fmt_count(10_000);
    assert_eq!((c.divisor, c.decimals, c.unit), (1_000, 0, "K"));
    let c = fmt_count(9_999);
    assert_eq!((c.divisor, c.decimals, c.unit), (1_000, 1, "K"));
    let c = fmt_count(999);
    assert_eq!((c.divisor, c.decimals, c.unit), (1, 0, ""));
    let c = fmt_count(5_000_000_000);
    assert_eq!((c.divisor, c.decimals, c.unit), (1_000_000_000, 2, "B"));
    let k = format_size(1023);
    assert_eq!((k.divisor, k.unit), (1, "KB"));
    let k = format_size(1024);
    assert_eq!((k.divisor, k.decimals, k.unit), (1024, 1, "MB"));
    let k = format_size(1_048_576);
    assert_eq!((k.divisor, k.unit), (1_048_576, "GB"));
}

#[test]
fn runs_are_grouped_by_workload() {
    let k = [
        WorkloadKind::Bulk,
        WorkloadKind::Write,
        WorkloadKind::Bulk,
        WorkloadKind::Read,
        WorkloadKind::Write,
    ];
    assert_eq!(
        compute_saturations(&k),
        vec![(WorkloadKind::Write, vec![1, 4]), (WorkloadKind::Bulk, vec![0, 2])]
    );
    assert!(compute_saturations(&[]).is_empty());
}

fn latency(samples: usize) -> LatencyText {
    LatencyText {
        samples,
        min: s("1ms"),
        p50: s("2ms"),
        p90: s("3ms"),
        p95: s("4ms"),
        p99: s("5ms"),
        max: s("6ms"),
        mean: s("7ms"),
    }
}

fn summary() -> Summary {
    Summary {
        settings: SettingsText {
            workloads: vec![WorkloadKind::Write, WorkloadKind::Tail],
            duration_secs: 10,
            concurrency_min: 1,
            concurrency_max: 16,
            concurrency_step: 2,
            batch_size: 512,
            keys: 4,
            sources: 5,
            value: s("128B"),
            channel: s("8.2K"),
            fraction: s("0.7"),
            usual_fraction: false,
            range_window: 60,
        },
        runs: vec![RunText {
            run_id: 3,
            workload: WorkloadKind::Tail,
            concurrency: 1,
            inserts: s("12K"),
            insert_rate: s("1.2K/s"),
            ranges: s("40"),
            range_rate: s("4/s"),
            failed_inserts: 2,
            failed_ranges: 1,
            ssts: 6,
            batch_size: 512,
            insert_latency: latency(9),
            range_latency: latency(0),
            records_per_range: Some(s("3.5")),
        }],
        saturations: vec![
            SaturationText {
                workload: WorkloadKind::Write,
                concurrencies: vec![1, 2, 4],
                peak: s("9K/s"),
                peak_at: 2,
                detected: true,
                drops: vec![DropText { from_rate: s("9K/s"), to_rate: s("8K/s"), from: 2, to: 4 }],
            },
            SaturationText {
                workload: WorkloadKind::Bulk,
                concurrencies: vec![1, 8],
                peak: s("1K/s"),
                peak_at: 8,
                detected: false,
                drops: vec![],
            },
        ],
        server: ServerText {
            accepted: 3,
            active: -1,
            frames_read: 70,
            wal_writes: s("12K"),
            wal_bytes: s("2.00MB"),
            syncs: 8,
            sync_p50: None,
            records: s("12K"),
            batches: 24,
            flushes: 2,
            compactions: 1,
            ssts: 6,
            memtable: s("1KB"),
            memtable_limit: s("32MB"),
            sync_latency: None,
            batch_latency: Some(latency(1)),
        },
        memory: Some(MemoryText {
            start: s("1MB"),
            peak: s("3MB"),
            end: s("2MB"),
            growth: s("4.5"),
            samples: 20,
        }),
    }
}

#[test]
fn summary_in_color() {
    let cyan = |t: &str| format!("\u{1b}[36m{t}\u{1b}[39m");
    let want = concat_lines(&[
        &cyan("--- BENCHMARK ---"),
        "  WORKLOADS:   write, tail  |  DURATION:    10s  |  CONCURRENCY: 1..16 (step 2)",
        "  BATCH:       512  |  KEYS:        4  |  SOURCES:     5  |  VALUE:       128B  |  CHANNEL:     8.2K",
        "  RANGE FRAC:  0.7  |  RANGE WINDOW: 60s",
        "",
        &cyan("--- RUN 03 | TAIL | 1 CLIENT ---"),
        "       INSERTS    INSERTS/S       RANGES     RANGES/S   ERRORS     SSTS    BATCH",
        "           12K       1.2K/s           40          4/s        3        6      512",
        "  INSERT LAT (MS):  MIN=1ms  P50=2ms  P90=3ms  P99=5ms  MAX=6ms",
        "    REC/RANGE:  3.5",
        "",
        &cyan("--- SATURATION (Write) ---"),
        "  PEAK THRPUT:  9K/s at 2 clients",
        "         DROP:  9K/s -> 8K/s from 2 -> 4 clients",
        "",
        &cyan("--- SATURATION (Bulk) ---"),
        "  PEAK THRPUT:  1K/s at 8 clients",
        "         NONE:  1..8 clients",
        "",
        &cyan("--- SERVER METRICS ---"),
        "  CONNECTIONS:  accepted=3  active=-1  frames=70",
        "          WAL:  12K writes (2.00MB), 8 syncs (p50=N/A)",
        "       ENGINE:  12K records (24 cmds), 2 flushes, 1 compactions, 6 SSTs",
        "     MEMTABLE:  1KB / 32MB",
        "",
        &cyan("--- MEMORY PROFILE ---"),
        "          RSS:  1MB (start) -> 3MB (peak) -> 2MB (end)",
        "       GROWTH:  4.5KB/s",
        "      SAMPLES:  20",
        "",
    ]);
    assert_eq!(write_summary(&summary(), false), want);
    let verbose = write_summary(&summary(), true);
    assert!(verbose.contains(
        "  INSERT LAT (MS):  min=1ms  p50=2ms  p90=3ms  p95=4ms  p99=5ms  max=6ms  mean=7ms  count=9\n"
    ));
    assert!(verbose.contains("  BATCH INSERT LAT (MS):  min=1ms"));
    assert!(!verbose.contains("WAL SYNC LAT"));
}

#[test]
fn summary_without_colors() {
    let mut b = summary();
    b.settings.usual_fraction = true;
    b.server.sync_p50 = Some(s("2ms"));
    b.server.sync_latency = Some(latency(2));
    b.runs[0].concurrency = 4;
    let want = concat_lines(&[
        "=> BENCHMARK <=",
        "  Workloads: write, tail  |  Duration: 10s  |  Concurrency: 1..16 (step 2)",
        "  Batch: 512  |  Keys: 4  |  Sources: 5  |  Value: 128B  |  Channel: 8.2K",
        "",
        "--> Run 3 | tail | 4 clients <--",
        "  Inserts: 12K (1.2K/s)  |  Ranges: 40 (4/s)  |  Errors: 3  |  SSTs: 6  |  Batch: 512",
        &format!("  Insert lat:  {}", fmt_latency_line(&latency(9))),
        "  Records/range: 3.5",
        "",
        "--> Saturation (Write) <--",
        "  Max throughput: 9K/s at 2 clients",
        "  Drop: 9K/s \u{2192} 8K/s going from 2 \u{2192} 4 clients",
        "",
        "--> Saturation (Bulk) <--",
        "  Max throughput: 1K/s at 8 clients",
        "  No saturation detected (1..8 clients)",
        "",
        "--> Server Metrics (post-run) <--",
        "  Connections: accepted=3  active=-1  frames=70",
        "  WAL: 12K writes (2.00MB), 8 syncs (p50=2ms)",
        "  Engine: 12K records (24 insert cmds), 2 flushes, 1 compactions, 6 SSTs",
        "  Memtable: 1KB / 32MB",
        "",
        &format!("  WAL sync lat:  {}", fmt_latency_line(&latency(2))),
        &format!("  Batch insert lat (server):  {}", fmt_latency_line(&latency(1))),
        "",
        "--> Memory Profile <--",
        "  RSS: 1MB (start) \u{2192} 3MB (peak) \u{2192} 2MB (end)  |  Grow: 4.5KB/s  |  Samples: 20",
        "",
    ]);
    assert_eq!(write_summary_to_stderr(&b, true), want);
}

fn field(key: &str, trend: Trend, direction: ChangeDirection, absent: bool) -> FieldText {
    FieldText {
        key: s(key),
        prev: s("1"),
        new: s("2"),
        delta: s("+1"),
        pct: s("+5%"),
        trend,
        absent,
        direction,
    }
}

#[test]
fn comparison_is_a_colored_table() {
    let r = CmpResult {
        files: vec![s("base.json"), s("a.json"), s("b.json")],
        comparisons: vec![RunCmp {
            workload: WorkloadKind::Read,
            concurrency: 1,
            fields: vec![
                field("up", Trend::Rose, ChangeDirection::HigherBetter, false),
                field("gone", Trend::Same, ChangeDirection::Neutral, true),
                field("worse", Trend::Rose, ChangeDirection::LowerBetter, false),
            ],
        }],
        saturations: vec![],
        metrics: vec![field("same", Trend::Same, ChangeDirection::LowerBetter, false)],
        mem: vec![field("zero", Trend::Same, ChangeDirection::Neutral, true)],
    };
    let head = "                             BASELINE       TARGET        DELTA  DELTA_PCT";
    let color = |n: u8, t: &str| format!("\u{1b}[{n}m{t}\u{1b}[39m");
    let row = |key: &str, judge: &dyn Fn(&str) -> String| {
        format!(
            "  {key:<22} {} {} {} {}",
            color(36, "           1"),
            color(33, "           2"),
            judge("          +1"),
            judge("       +5%"),
        )
    };
    let plain = |t: &str| t.to_string();
    let want = concat_lines(&[
        "=> cmp: base.json vs 2 target(s) <=",
        "--- read | 1 client ---",
        head,
        &row("up", &|t| color(32, t)),
        &row("worse", &|t| color(31, t)),
        "",
        "--- Aggregate Metrics ---",
        head,
        &row("same", &plain),
        "",
        "--- Memory Profile ---",
        head,
        &row("zero", &plain),
    ]);
    assert_eq!(r.write_to(), want);
    assert!(has_improved_or_neutral(ChangeDirection::Neutral, Trend::Fell));
    assert!(!has_improved_or_neutral(ChangeDirection::HigherBetter, Trend::Same));
    assert!(has_improved_or_neutral(ChangeDirection::LowerBetter, Trend::Fell));
}

#[test]
fn runs_are_compared_with_runs_of_the_same_kind() {
    let k = |workload, concurrency| ConcWorkload { concurrency, workload };
    let w = WorkloadKind::Write;
    let b = WorkloadKind::Bulk;
    let base = vec![k(b, 1), k(w, 4), k(w, 2), k(b, 1)];
    let targets = vec![vec![k(w, 2), k(b, 1), k(w, 2)], vec![k(w, 4), k(w, 2)]];
    let p = |base, target, run| RunPair { base, target, run };
    assert_eq!(
        pair_runs(&base, &targets),
        vec![p(2, 0, 2), p(2, 1, 1), p(1, 1, 0), p(3, 0, 1)]
    );
    assert!(pair_runs(&base, &vec![]).is_empty());
}

#[test]
fn compared_values_have_keys_and_directions() {
    let l = |n: f64| LatencyValues { min: n, p50: n + 1.0, p90: n + 2.0, p99: n + 3.0, max: n + 4.0 };
    let r = |n: f64, concurrency: u32| RunValues {
        cw: ConcWorkload { concurrency, workload: WorkloadKind::Mixed },
        insert_ops: n,
        range_ops: n + 1.0,
        records_per_range: n + 2.0,
        ssts: n + 3.0,
        insert_latency: l(n + 10.0),
        range_latency: l(n + 20.0),
    };
    let compared = cmp_runs(&r(0.0, 4), &r(100.0, 5));
    assert_eq!(
        compared.cw,
        ConcWorkload { concurrency: 4, workload: WorkloadKind::Mixed }
    );
    let fields = compared.fields;
    assert_eq!(fields.len(), 14);
    assert_eq!(fields[0].key, "inserts/s");
    assert_eq!((fields[3].key.as_str(), fields[3].direction), ("SSTs", ChangeDirection::Neutral));
    assert_eq!((fields[7].key.as_str(), fields[7].prev, fields[7].new), ("insert_latency p99", 13.0, 113.0));
    assert!(fields[13].is_latency);
    assert_eq!((fields[13].key.as_str(), fields[13].new), ("range_latency max", 124.0));
    let mut m = Metrics::new();
    let before = m.snapshot(&tails());
    m.wal.sync_latency.record_us(5);
    m.engine.memtable_bytes.set(-4);
    m.server.frames_written.inc(9);
    let after = m.snapshot(&tails());
    let fields = cmp_metrics(&before, &after);
    assert_eq!(fields.len(), 12);
    assert_eq!((fields[0].key.as_str(), fields[0].prev, fields[0].new), ("wal_sync p50 (us)", 0, 60));
    assert_eq!((fields[7].key.as_str(), fields[7].new), ("engine_memtable_bytes", -4));
    assert_eq!((fields[11].key.as_str(), fields[11].new), ("server_frames_written", 9));
    let p = |workload, throughput, clients| PeakValues { workload, throughput, clients };
    let sats = cmp_saturations(
        &[p(WorkloadKind::Read, 1, 2), p(WorkloadKind::Bulk, 3, 4)],
        &[p(WorkloadKind::Bulk, 5, 6), p(WorkloadKind::Bulk, 7, 8)],
    );
    assert_eq!(sats.len(), 2);
    assert_eq!((sats[0].key.as_str(), sats[0].prev, sats[0].new), ("sat_bulk_throughput", 3, 5));
    assert_eq!((sats[1].key.as_str(), sats[1].prev, sats[1].new), ("sat_bulk_conc_peak", 4, 6));
    let v = |n: u64| MemValues {
        rss_min: n,
        rss_max: n + 1,
        rss_avg: n + 2,
        rss_sum: n + 3,
        rss_last: n + 4,
        growth_rate_kb: n + 5,
        growth_rate_mb: n + 6,
        sample_size: n + 7,
    };
    let mem = cmp_mem(&v(0), &v(10));
    assert_eq!(mem.len(), 8);
    assert_eq!((mem[4].key.as_str(), mem[4].prev, mem[4].new), ("mem_rss_end_kb", 4, 14));
}

#[test]
fn process_status_is_read() {
    let status = b"Name:\tserver\nVmSize:\t  2048 kB\nVmRSS:   512 kB\nVmRSS:\t700 kB\nVmData: x\n";
    assert_eq!(parse_vm_rss(status), (700, 2048, 0));
    assert_eq!(parse_vm_rss(b""), (0, 0, 0));
    // Words are set apart by white space of any kind.
    let status = "VmRSS:\u{a0}\u{2003}5\u{3000}kB\r\nVmSize:\u{85}6\u{1680}\nVmData:7\u{200b}8\n";
    assert_eq!(parse_vm_rss(status.as_bytes()), (5, 6, 0));
    assert_eq!(parse_vm_rss(b"VmData:\t9"), (0, 0, 9));
}

#[test]
fn memory_statistics() {
    assert_eq!(rss_stats(&vec![]), None);
    assert_eq!(
        rss_stats(&vec![5, 2, 9, 4]),
        Some(RssStats { min: 2, max: 9, avg: 5, sum: 20, last: 4 })
    );
    let picked: Vec<usize> = (0..45).filter(|i| is_shown(*i, 45)).collect();
    assert_eq!(picked.len(), 23);
    assert_eq!(&picked[..3], &[0, 2, 4]);
    assert!(is_shown(44, 45) && is_shown(3, 7));
    assert!((0..40).filter(|i| is_shown(*i, 40)).count() == 21);
}

#[test]
fn memory_report_is_a_table() {
    let profile = ProfileText {
        min: s("1KB"),
        avg: s("2KB"),
        max: s("3KB"),
        last: s("2KB"),
        duration: s("2.5"),
        growth: s("0.4"),
        growth_mb: 0,
        whole_duration: s("2"),
    };
    let state = |e: &str, mt, sst, rss| EngineState {
        elapsed: s(e),
        memtable_bytes: mt,
        sst_count: sst,
        rss_kb: rss,
    };
    let rss = |e: &str, rss_kb, bar| RssState { elapsed: s(e), rss_kb, bar };
    let samples = vec![rss("0s", 100, 0), rss("1s", 160, 60), rss("2s", 130, 30)];
    let states = vec![state("0.50", 4096, 1, 100), state("1.50", 8192, 2, 160)];
    let want = concat_lines(&[
        "==> MEMORY PROFILE <==",
        "",
        "   RSS_MIN    RSS_AVG    RSS_MAX    RSS_END  SAMPLES    DUR_S",
        "       1KB        2KB        3KB        2KB        3      2.5",
        "Growth rate: 0.4 KB/s (0 MB over 2s)",
        "",
        "==> ENGINE STATE SAMPLES (2 total) <==",
        "   ELAPSED    MEMTBL_KB      SST_CNT       RSS_KB     DELTA_KB",
        "      0.50            4            1          100            0",
        "      1.50            8            2          160          156",
        "",
        "==> RSS OVER TIME <==",
        &format!("    0s |{}|       100 KB", "-".repeat(60)),
        &format!("    1s |{}| +60K      160 KB", "\u{2588}".repeat(60)),
        &format!("    2s |{}{}| -30K      130 KB", "\u{2588}".repeat(30), "-".repeat(30)),
    ]);
    assert_eq!(new_report_str(&samples, &states, &profile), want);
    assert_eq!(new_report_str(&vec![], &states, &profile), "No memory samples collected.\n");
    assert_eq!(shown_states(&states)[1].delta, 156);
}

#[test]
fn levels_and_profiles_have_names() {
    assert_eq!(parse_level("WARN"), LogLevel::Warn);
    assert_eq!(parse_level("tRaCe"), LogLevel::Trace);
    assert_eq!(parse_level("nonsense"), LogLevel::Info);
    assert_eq!(parse_level("off"), LogLevel::Off);
    assert_eq!(level_of("error"), LogLevel::Error);
    assert_eq!(level_of("debug"), LogLevel::Debug);
    assert_eq!(level_of("WARN"), LogLevel::Info);
    assert_eq!(Profile::from_str("both").as_str(), "both");
    assert_eq!(Profile::from_str("Flame"), Profile::Off);
    assert_eq!(Profile::default().as_str(), "none");
    let c = Config::from_cli("console", Some(s("x")), "ERROR");
    assert_eq!((c.profile, c.log_level), (Profile::Console, LogLevel::Error));
    assert_eq!(c.flame_output, Some(s("x")));
    assert_eq!(Config::default().log_level, LogLevel::Info);
    assert_eq!(default_flame_path(5), "prof/tracing/5.folded");
}

fn bench_settings() -> BenchArgs {
    BenchArgs {
        tag: s("t"),
        duration: 30,
        workloads: vec![s("write"), s("read")],
        concurrency_min: 1,
        concurrency_max: 16,
        concurrency_step: 2,
        memtable_mb: 32,
        addr: s("127.0.0.1:4321"),
        noreg: false,
        set_baseline: false,
        baseline: None,
        server_args: vec![s("--x")],
        bench_args: vec![],
        prep: false,
    }
}

#[test]
fn task_commands() {
    let a = bench_settings();
    let dir = run_dir("99", "t");
    assert_eq!(dir, "bench/runs/99__t");
    assert_eq!(
        server_args(&a, &dir).join(" "),
        "run -p logregatord --bin server -- --addr 127.0.0.1:4321 --data-dir \
         bench/runs/99__t/server_data --memtable-mb 32 --batch-size 8192 --x"
    );
    assert_eq!(
        bench_args(&a, &dir).join(" "),
        "run -p logregator-tools --bin bench -- --tag t --duration 30 --workloads write,read \
         --concurrency-min 1 --concurrency-max 16 --concurrency-step 2 --addr 127.0.0.1:4321 \
         --out-dir bench/runs/99__t"
    );
    assert_eq!(
        regression_args("b.json", &dir).join(" "),
        "run -p logregator-tools --bin cmp -- -b b.json -t bench/runs/99__t/benchmark_result.json \
         --out-file bench/runs/99__t/reg.json --reg"
    );
    assert_eq!(
        baseline_args(&dir, "t").join(" "),
        "run -p logregator-tools --bin baseline -- current bench/runs/99__t --tag t"
    );
    let c = CompareArgs {
        target: s("t.json"),
        baseline: s("b.json"),
        goal: Some(s("g")),
        reg: true,
        out_file: None,
        verbose: true,
    };
    assert_eq!(
        compare_args(&c).join(" "),
        "run -p logregator-tools --bin cmp -- -b b.json -t t.json --goals g --reg --verbose"
    );
    assert_eq!(chosen_baseline(&None, &Some(s("p"))), "p");
    assert_eq!(chosen_baseline(&Some(s("g")), &Some(s("p"))), "g");
    assert_eq!(chosen_baseline(&None, &None), "");
    let pointer = "{\"other\": 1, \"baseline\": \"bench/runs/5__x\"}";
    assert_eq!(baseline_dir(&None, pointer), "bench/runs/5__x");
    assert_eq!(baseline_dir(&Some(s("g")), pointer), "g");
    assert_eq!(baseline_dir(&None, "{\"baseline\": 5}"), "");
    assert_eq!(baseline_dir(&None, "[\"baseline\"]"), "");
    assert_eq!(baseline_dir(&None, "{}"), "");
    assert_eq!(baseline_dir(&None, ""), "");
    let steps = prep_steps();
    assert_eq!(steps[1].args.join(" "), "clippy --color always -- -D warnings");
    assert_eq!((steps[0].note, steps[2].failure), ("building...", "cargo fmt failed"));
    assert_eq!(TaskKind::Compare.name(), "xtask cmp");
    assert!(!TaskKind::Trend.is_implemented());
}

#[test]
fn task_messages_are_colored() {
    assert_eq!(
        info("bench", "go"),
        "\u{1b}[32m=> INFO\u{1b}[39m: \u{1b}[1mbench\u{1b}[0m: \u{1b}[1mgo\u{1b}[0m"
    );
    assert_eq!(
        warn("hm"),
        "\u{1b}[1m\u{1b}[33m=> WARN\u{1b}[39m\u{1b}[0m: \u{1b}[1mhm\u{1b}[0m"
    );
    assert_eq!(
        error("no"),
        "\u{1b}[1m\u{1b}[31m=> ERRO\u{1b}[39m\u{1b}[0m: \u{1b}[1mno\u{1b}[0m"
    );
}

#[test]
fn benchmark_task_goes_step_by_step() {
    let run = |a: &BenchArgs, how: &dyn Fn(Step) -> StepOutcome| {
        let mut step = a.start();
        let mut seen = vec![];
        while step != Step::Finished && step != Step::Failed {
            seen.push(step);
            step = a.run_bench(step, how(step));
        }
        (seen, step)
    };
    let mut a = bench_settings();
    let (seen, end) = run(&a, &|_| StepOutcome::Done);
    assert_eq!(end, Step::Finished);
    assert_eq!(
        seen,
        vec![
            Step::CreateDir,
            Step::LinkLatest,
            Step::FreePort,
            Step::SpawnServer,
            Step::AwaitServer,
            Step::RunBench,
            Step::StopServer,
            Step::FindBaseline,
            Step::Compare,
            Step::Report,
        ]
    );
    a.prep = true;
    a.noreg = true;
    a.set_baseline = true;
    let (seen, end) = run(&a, &|_| StepOutcome::Done);
    assert_eq!((seen[0], seen[8], end), (Step::Prep, Step::CaptureBaseline, Step::Finished));
    let a = bench_settings();
    let (seen, end) = run(&a, &|s| {
        if s == Step::AwaitServer { StepOutcome::Negative } else { StepOutcome::Done }
    });
    assert_eq!((seen.last(), end), (Some(&Step::AwaitServer), Step::Failed));
    let (seen, end) = run(&a, &|s| {
        if s == Step::FindBaseline || s == Step::FreePort {
            StepOutcome::Negative
        } else {
            StepOutcome::Done
        }
    });
    assert!(seen.contains(&Step::SkipCompare));
    assert_eq!(end, Step::Finished);
}

#[test]
fn runs_are_announced() {
    let plan = build_run_configs(&vec![WorkloadKind::Tail], 1, 3, 2);
    assert_eq!(start_line(&plan[0], 2, 10), "[1/2] tail | 1-client (10s) ...\n");
    assert_eq!(start_line(&plan[1], 2, 10), "[2/2] tail | 2-clients (10s) ...\n");
    assert_eq!(end_line("12K", "7", "10.1"), "  \u{2713} 12K inserts, 7 ranges (10.1s)\n");
}

#[test]
fn latencies_of_clients_can_be_taken_out() {
    let mut c = ClientResult::new();
    c.batch_done(3, Some(20));
    c.batch_done(3, Some(20));
    c.range_done(Some((1, 9)));
    c.batch_done(3, Some(120_000_000));
    assert_eq!(c.inserts_completed, 9);
    let (inserts, ranges) = c.latency_buckets();
    assert_eq!(inserts, vec![(20, 2)]);
    assert_eq!(ranges, vec![(9, 1)]);
}

#[test]
fn waiting_ends_at_its_limit() {
    assert_eq!(wait_step(0, PORT_LIMIT_MS, PORT_PAUSE_MS), Wait::Retry(1000));
    assert_eq!(wait_step(9_999, PORT_LIMIT_MS, PORT_PAUSE_MS), Wait::Retry(1000));
    assert_eq!(wait_step(10_000, PORT_LIMIT_MS, PORT_PAUSE_MS), Wait::GiveUp);
    assert_eq!(wait_step(29_999, READY_LIMIT_MS, READY_PAUSE_MS), Wait::Retry(500));
    assert_eq!(wait_step(30_000, READY_LIMIT_MS, READY_PAUSE_MS), Wait::GiveUp);
}

#[test]
fn changes_of_memory_are_told_in_double_precision() {
    let text = || ProfileText {
        min: s("a"),
        avg: s("b"),
        max: s("c"),
        last: s("d"),
        duration: s("1"),
        growth: s("2"),
        growth_mb: 3,
        whole_duration: s("4"),
    };
    let values = [
        0,
        1,
        (1 << 53) + 1,
        (1 << 53) + 3,
        u64::MAX,
        7,
        u64::MAX - 1023,
        u64::MAX - 1025,
        (1 << 60) + 129,
    ];
    for a in values {
        for b in values {
            let sample = |rss_kb| RssState { elapsed: s("0s"), rss_kb, bar: 0 };
            let out = new_report_str(&vec![sample(a), sample(b)], &vec![], &text());
            let want = format!("| {:+.0}K ", b as f64 - a as f64);
            assert!(out.lines().last().unwrap().contains(&want));
        }
    }
}
