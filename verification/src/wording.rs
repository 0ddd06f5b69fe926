//! What holds of the summary of a benchmark: each figure stands behind its name, and nothing that
//! was measured is left out.
use vstd::prelude::*;

use crate::bench::{workload_capitals, workload_list, workload_name, workload_title};
use crate::compare::{
    comparison, comparisons_text, field_line, fields_text, heads_line, judged, part, run_line,
    CmpResult, FieldText, RunCmp,
};
use crate::mem_profile::{
    bar, change, engine_rows, last_shown, new_report_str, profile_part, profile_report, rss_line,
    rss_lines, shown, state_row, state_rows, states_part, EngineRow, EngineState, ProfileText, RssState,
};
use crate::metrics::{
    dump_text, engine_text, latencies_text, latency_row, report, server_text, wal_text, MetricsSnapshot,
    Snapshot,
};
use crate::report::{
    blank, color_connections, color_drop, color_drops, color_engine, color_latency, color_load,
    color_memory, color_memtable, color_ranges, color_run, color_runs, color_saturation,
    color_saturations, color_server, color_settings, color_sizes, color_summary, color_wal, ends,
    latency_line, plain_connections, plain_drop, plain_drops, plain_engine, plain_latency,
    plain_load, plain_memory, plain_memtable, plain_ranges, plain_run, plain_run_numbers,
    plain_run_title, plain_runs, plain_saturation, plain_saturations, plain_server, plain_settings,
    plain_sizes, plain_summary, plain_wal, plural, run_heads, run_numbers, run_title, sync_text,
    title, write_summary, write_summary_to_stderr, DropText, LatencyText, MemoryText, RunText,
    SaturationText, ServerText, SettingsText, Summary,
};
use crate::style::in_color;
use crate::text::{
    cat, decimal, filled, law_cat, line, padded, row, run_of, signed_decimal,
};

verus! {

/// Whether the piece stands somewhere in the text.
pub open spec fn says(text: Seq<char>, piece: Seq<char>) -> bool {
    exists|a: Seq<char>, c: Seq<char>| text == #[trigger] (a + piece + c)
}

/// What a part of a text says, the text says.
pub proof fn law_says_within(before: Seq<char>, part: Seq<char>, behind: Seq<char>, piece: Seq<char>)
    requires
        says(part, piece),
    ensures
        says(before + part + behind, piece),
        says(before + part, piece),
        says(part + behind, piece),
        says(part, part),
{
    let (a, c) = choose|a: Seq<char>, c: Seq<char>| part == #[trigger] (a + piece + c);
    let none = Seq::<char>::empty();
    assert(before + part + behind =~= (before + a) + piece + (c + behind));
    assert(before + part =~= (before + a) + piece + c);
    assert(part + behind =~= a + piece + (c + behind));
    assert(part =~= none + part + none);
}

proof fn lemma_says_slice(parts: Seq<Seq<char>>, i: int, j: int)
    requires
        0 <= i <= j <= parts.len(),
    ensures
        says(cat(parts), cat(parts.subrange(i, j))),
        says(line(parts), cat(parts.subrange(i, j))),
{
    let (a, m, c) = (parts.take(i), parts.subrange(i, j), parts.skip(j));
    let none = Seq::<char>::empty();
    assert(parts =~= a + m + c);
    law_cat(a + m, c, none);
    law_cat(a, m, none);
    assert(cat(parts) =~= cat(a) + cat(m) + cat(c));
    assert(line(parts) =~= cat(a) + cat(m) + cat(c).push('\n'));
}

proof fn lemma_says_1(parts: Seq<Seq<char>>, i: int)
    requires
        0 <= i < parts.len(),
    ensures
        says(cat(parts), parts[i]),
        says(line(parts), parts[i]),
{
    lemma_says_slice(parts, i, i + 1);
    law_cat(parts, parts, parts[i]);
    assert(parts.subrange(i, i + 1) =~= seq![parts[i]]);
}

proof fn lemma_says_2(parts: Seq<Seq<char>>, i: int)
    requires
        0 <= i && i + 1 < parts.len(),
    ensures
        says(cat(parts), parts[i] + parts[i + 1]),
        says(line(parts), parts[i] + parts[i + 1]),
{
    lemma_says_slice(parts, i, i + 2);
    let m = parts.subrange(i, i + 2);
    assert(m =~= seq![parts[i]] + seq![parts[i + 1]]);
    law_cat(seq![parts[i]], seq![parts[i + 1]], parts[i]);
    law_cat(seq![parts[i]], seq![parts[i + 1]], parts[i + 1]);
}

proof fn lemma_says_3(parts: Seq<Seq<char>>, i: int)
    requires
        0 <= i && i + 2 < parts.len(),
    ensures
        says(cat(parts), parts[i] + parts[i + 1] + parts[i + 2]),
        says(line(parts), parts[i] + parts[i + 1] + parts[i + 2]),
{
    lemma_says_slice(parts, i, i + 3);
    let m = parts.subrange(i, i + 3);
    let none = Seq::<char>::empty();
    assert(m =~= seq![parts[i]] + seq![parts[i + 1]] + seq![parts[i + 2]]);
    law_cat(seq![parts[i]] + seq![parts[i + 1]], seq![parts[i + 2]], parts[i + 2]);
    law_cat(seq![parts[i]], seq![parts[i + 1]], parts[i + 1]);
    law_cat(seq![parts[i]], seq![parts[i + 1]], parts[i]);
}

proof fn lemma_says_4(parts: Seq<Seq<char>>, i: int)
    requires
        0 <= i && i + 3 < parts.len(),
    ensures
        says(cat(parts), parts[i] + parts[i + 1] + parts[i + 2] + parts[i + 3]),
        says(line(parts), parts[i] + parts[i + 1] + parts[i + 2] + parts[i + 3]),
{
    lemma_says_slice(parts, i, i + 4);
    let m = parts.subrange(i, i + 4);
    let front = seq![parts[i]] + seq![parts[i + 1]] + seq![parts[i + 2]];
    assert(m =~= front + seq![parts[i + 3]]);
    law_cat(front, seq![parts[i + 3]], parts[i + 3]);
    law_cat(seq![parts[i]] + seq![parts[i + 1]], seq![parts[i + 2]], parts[i + 2]);
    law_cat(seq![parts[i]], seq![parts[i + 1]], parts[i + 1]);
    law_cat(seq![parts[i]], seq![parts[i + 1]], parts[i]);
}

/// Only of one there is no plural.
pub proof fn law_plural(n: u32, s: Seq<char>)
    ensures
        plural(1, s).len() == 0,
        n != 1 ==> plural(n, s) == s,
{
}

/// What is told of times: each figure behind its name.
pub proof fn law_latency_line(l: LatencyText)
    ensures
        says(latency_line(l), "min="@ + l.min@ + "  p50="@),
        says(latency_line(l), "  p50="@ + l.p50@ + "  p90="@),
        says(latency_line(l), "  p90="@ + l.p90@ + "  p95="@),
        says(latency_line(l), "  p95="@ + l.p95@ + "  p99="@),
        says(latency_line(l), "  p99="@ + l.p99@ + "  max="@),
        says(latency_line(l), "  max="@ + l.max@ + "  mean="@),
        says(latency_line(l), "  mean="@ + l.mean@ + "  count="@),
        says(latency_line(l), "  count="@ + decimal(l.samples as nat)),
{
    let parts = seq![
        "min="@,
        l.min@,
        "  p50="@,
        l.p50@,
        "  p90="@,
        l.p90@,
        "  p95="@,
        l.p95@,
        "  p99="@,
        l.p99@,
        "  max="@,
        l.max@,
        "  mean="@,
        l.mean@,
        "  count="@,
        decimal(l.samples as nat),
    ];
    lemma_says_3(parts, 0);
    lemma_says_3(parts, 2);
    lemma_says_3(parts, 4);
    lemma_says_3(parts, 6);
    lemma_says_3(parts, 8);
    lemma_says_3(parts, 10);
    lemma_says_3(parts, 12);
    lemma_says_2(parts, 14);
}

/// What is told in color of the load that was asked for.
pub proof fn law_color_load(a: SettingsText)
    ensures
        says(
            color_load(a),
            filled("WORKLOADS:"@, 12, ' ') + " "@ + workload_list(a.workloads@, ", "@) + "  |  "@,
        ),
        says(
            color_load(a),
            filled("DURATION:"@, 12, ' ') + " "@ + decimal(a.duration_secs as nat) + "s  |  "@,
        ),
        says(
            color_load(a),
            filled("CONCURRENCY:"@, 12, ' ') + " "@ + decimal(a.concurrency_min as nat) + ".."@,
        ),
        says(
            color_load(a),
            decimal(a.concurrency_min as nat) + ".."@ + decimal(a.concurrency_max as nat) + " (step "@,
        ),
        says(color_load(a), " (step "@ + decimal(a.concurrency_step as nat) + ")"@),
{
    let parts = seq![
        "  "@,
        filled("WORKLOADS:"@, 12, ' '),
        " "@,
        workload_list(a.workloads@, ", "@),
        "  |  "@,
        filled("DURATION:"@, 12, ' '),
        " "@,
        decimal(a.duration_secs as nat),
        "s  |  "@,
        filled("CONCURRENCY:"@, 12, ' '),
        " "@,
        decimal(a.concurrency_min as nat),
        ".."@,
        decimal(a.concurrency_max as nat),
        " (step "@,
        decimal(a.concurrency_step as nat),
        ")"@,
    ];
    lemma_says_4(parts, 1);
    lemma_says_4(parts, 5);
    lemma_says_4(parts, 9);
    lemma_says_4(parts, 11);
    lemma_says_3(parts, 14);
}

/// What is told in color of the sizes that were asked for.
pub proof fn law_color_sizes(a: SettingsText)
    ensures
        says(
            color_sizes(a),
            filled("BATCH:"@, 12, ' ') + " "@ + decimal(a.batch_size as nat) + "  |  "@,
        ),
        says(color_sizes(a), filled("KEYS:"@, 12, ' ') + " "@ + decimal(a.keys as nat) + "  |  "@),
        says(
            color_sizes(a),
            filled("SOURCES:"@, 12, ' ') + " "@ + decimal(a.sources as nat) + "  |  "@,
        ),
        says(color_sizes(a), filled("VALUE:"@, 12, ' ') + " "@ + a.value@ + "  |  "@),
        says(color_sizes(a), filled("CHANNEL:"@, 12, ' ') + " "@ + a.channel@),
{
    let parts = seq![
        "  "@,
        filled("BATCH:"@, 12, ' '),
        " "@,
        decimal(a.batch_size as nat),
        "  |  "@,
        filled("KEYS:"@, 12, ' '),
        " "@,
        decimal(a.keys as nat),
        "  |  "@,
        filled("SOURCES:"@, 12, ' '),
        " "@,
        decimal(a.sources as nat),
        "  |  "@,
        filled("VALUE:"@, 12, ' '),
        " "@,
        a.value@,
        "  |  "@,
        filled("CHANNEL:"@, 12, ' '),
        " "@,
        a.channel@,
    ];
    lemma_says_4(parts, 1);
    lemma_says_4(parts, 5);
    lemma_says_4(parts, 9);
    lemma_says_4(parts, 13);
    lemma_says_3(parts, 17);
}

/// What is told in color of the queries that were asked for.
pub proof fn law_color_ranges(a: SettingsText)
    ensures
        says(color_ranges(a), filled("RANGE FRAC:"@, 12, ' ') + " "@ + a.fraction@ + "  |  "@),
        says(
            color_ranges(a),
            filled("RANGE WINDOW:"@, 12, ' ') + " "@ + decimal(a.range_window as nat) + "s"@,
        ),
{
    let parts = seq![
        "  "@,
        filled("RANGE FRAC:"@, 12, ' '),
        " "@,
        a.fraction@,
        "  |  "@,
        filled("RANGE WINDOW:"@, 12, ' '),
        " "@,
        decimal(a.range_window as nat),
        "s"@,
    ];
    lemma_says_4(parts, 1);
    lemma_says_4(parts, 5);
}

/// What is told of the load that was asked for.
pub proof fn law_plain_load(a: SettingsText)
    ensures
        says(
            plain_load(a),
            "  Workloads: "@ + workload_list(a.workloads@, ", "@) + "  |  Duration: "@,
        ),
        says(
            plain_load(a),
            "  |  Duration: "@ + decimal(a.duration_secs as nat) + "s  |  Concurrency: "@,
        ),
        says(plain_load(a), "s  |  Concurrency: "@ + decimal(a.concurrency_min as nat) + ".."@),
        says(
            plain_load(a),
            decimal(a.concurrency_min as nat) + ".."@ + decimal(a.concurrency_max as nat) + " (step "@,
        ),
        says(plain_load(a), " (step "@ + decimal(a.concurrency_step as nat) + ")"@),
{
    let parts = seq![
        "  Workloads: "@,
        workload_list(a.workloads@, ", "@),
        "  |  Duration: "@,
        decimal(a.duration_secs as nat),
        "s  |  Concurrency: "@,
        decimal(a.concurrency_min as nat),
        ".."@,
        decimal(a.concurrency_max as nat),
        " (step "@,
        decimal(a.concurrency_step as nat),
        ")"@,
    ];
    lemma_says_3(parts, 0);
    lemma_says_3(parts, 2);
    lemma_says_3(parts, 4);
    lemma_says_4(parts, 5);
    lemma_says_3(parts, 8);
}

/// What is told of the sizes that were asked for.
pub proof fn law_plain_sizes(a: SettingsText)
    ensures
        says(plain_sizes(a), "  Batch: "@ + decimal(a.batch_size as nat) + "  |  Keys: "@),
        says(plain_sizes(a), "  |  Keys: "@ + decimal(a.keys as nat) + "  |  Sources: "@),
        says(plain_sizes(a), "  |  Sources: "@ + decimal(a.sources as nat) + "  |  Value: "@),
        says(plain_sizes(a), "  |  Value: "@ + a.value@ + "  |  Channel: "@),
        says(plain_sizes(a), "  |  Channel: "@ + a.channel@),
{
    let parts = seq![
        "  Batch: "@,
        decimal(a.batch_size as nat),
        "  |  Keys: "@,
        decimal(a.keys as nat),
        "  |  Sources: "@,
        decimal(a.sources as nat),
        "  |  Value: "@,
        a.value@,
        "  |  Channel: "@,
        a.channel@,
    ];
    lemma_says_3(parts, 0);
    lemma_says_3(parts, 2);
    lemma_says_3(parts, 4);
    lemma_says_3(parts, 6);
    lemma_says_2(parts, 8);
}

/// What is told of the queries that were asked for.
pub proof fn law_plain_ranges(a: SettingsText)
    ensures
        says(plain_ranges(a), "  Range fraction: "@ + a.fraction@ + "  |  Range window: "@),
        says(plain_ranges(a), "  |  Range window: "@ + decimal(a.range_window as nat) + "s"@),
{
    let parts = seq![
        "  Range fraction: "@,
        a.fraction@,
        "  |  Range window: "@,
        decimal(a.range_window as nat),
        "s"@,
    ];
    lemma_says_3(parts, 0);
    lemma_says_3(parts, 2);
}

/// What a run is called in color.
pub proof fn law_run_title(r: RunText)
    ensures
        says(run_title(r), "--- RUN "@ + padded(decimal(r.run_id as nat), 2, '0') + " | "@),
        says(
            run_title(r),
            padded(decimal(r.run_id as nat), 2, '0') + " | "@ + workload_capitals(r.workload) + " | "@,
        ),
        says(
            run_title(r),
            workload_capitals(r.workload) + " | "@ + decimal(r.concurrency as nat) + " CLIENT"@,
        ),
        says(run_title(r), " CLIENT"@ + plural(r.concurrency, "S"@) + " ---"@),
{
    let parts = seq![
        "--- RUN "@,
        padded(decimal(r.run_id as nat), 2, '0'),
        " | "@,
        workload_capitals(r.workload),
        " | "@,
        decimal(r.concurrency as nat),
        " CLIENT"@,
        plural(r.concurrency, "S"@),
        " ---"@,
    ];
    lemma_says_3(parts, 0);
    lemma_says_4(parts, 1);
    lemma_says_4(parts, 3);
    lemma_says_3(parts, 6);
}

/// The heads of the figures of a run, in their order.
pub proof fn law_run_heads()
    ensures
        says(run_heads(), padded("INSERTS"@, 12, ' ') + " "@ + padded("INSERTS/S"@, 12, ' ')),
        says(run_heads(), padded("INSERTS/S"@, 12, ' ') + " "@ + padded("RANGES"@, 12, ' ')),
        says(run_heads(), padded("RANGES"@, 12, ' ') + " "@ + padded("RANGES/S"@, 12, ' ')),
        says(run_heads(), padded("RANGES/S"@, 12, ' ') + " "@ + padded("ERRORS"@, 8, ' ')),
        says(run_heads(), padded("ERRORS"@, 8, ' ') + " "@ + padded("SSTS"@, 8, ' ')),
        says(run_heads(), padded("SSTS"@, 8, ' ') + " "@ + padded("BATCH"@, 8, ' ')),
{
    let parts = seq![
        "  "@,
        padded("INSERTS"@, 12, ' '),
        " "@,
        padded("INSERTS/S"@, 12, ' '),
        " "@,
        padded("RANGES"@, 12, ' '),
        " "@,
        padded("RANGES/S"@, 12, ' '),
        " "@,
        padded("ERRORS"@, 8, ' '),
        " "@,
        padded("SSTS"@, 8, ' '),
        " "@,
        padded("BATCH"@, 8, ' '),
    ];
    lemma_says_3(parts, 1);
    lemma_says_3(parts, 3);
    lemma_says_3(parts, 5);
    lemma_says_3(parts, 7);
    lemma_says_3(parts, 9);
    lemma_says_3(parts, 11);
}

/// The figures of a run, in the order of their heads.
pub proof fn law_run_numbers(r: RunText)
    ensures
        says(run_numbers(r), padded(r.inserts@, 12, ' ') + " "@ + padded(r.insert_rate@, 12, ' ')),
        says(run_numbers(r), padded(r.insert_rate@, 12, ' ') + " "@ + padded(r.ranges@, 12, ' ')),
        says(run_numbers(r), padded(r.ranges@, 12, ' ') + " "@ + padded(r.range_rate@, 12, ' ')),
        says(
            run_numbers(r),
            padded(r.range_rate@, 12, ' ') + " "@ + padded(decimal((r.failed_inserts as nat + r.failed_ranges as nat)), 8, ' '),
        ),
        says(
            run_numbers(r),
            padded(decimal((r.failed_inserts as nat + r.failed_ranges as nat)), 8, ' ') + " "@ + padded(decimal(r.ssts as nat), 8, ' '),
        ),
        says(
            run_numbers(r),
            padded(decimal(r.ssts as nat), 8, ' ') + " "@ + padded(decimal(r.batch_size as nat), 8, ' '),
        ),
{
    let parts = seq![
        "  "@,
        padded(r.inserts@, 12, ' '),
        " "@,
        padded(r.insert_rate@, 12, ' '),
        " "@,
        padded(r.ranges@, 12, ' '),
        " "@,
        padded(r.range_rate@, 12, ' '),
        " "@,
        padded(decimal((r.failed_inserts as nat + r.failed_ranges as nat)), 8, ' '),
        " "@,
        padded(decimal(r.ssts as nat), 8, ' '),
        " "@,
        padded(decimal(r.batch_size as nat), 8, ' '),
    ];
    lemma_says_3(parts, 1);
    lemma_says_3(parts, 3);
    lemma_says_3(parts, 5);
    lemma_says_3(parts, 7);
    lemma_says_3(parts, 9);
    lemma_says_3(parts, 11);
}

/// What a run is called.
pub proof fn law_plain_run_title(r: RunText)
    ensures
        says(plain_run_title(r), "--> Run "@ + decimal(r.run_id as nat) + " | "@),
        says(
            plain_run_title(r),
            decimal(r.run_id as nat) + " | "@ + workload_name(r.workload) + " | "@,
        ),
        says(
            plain_run_title(r),
            workload_name(r.workload) + " | "@ + decimal(r.concurrency as nat) + " client"@,
        ),
        says(plain_run_title(r), " client"@ + plural(r.concurrency, "s"@) + " <--"@),
{
    let parts = seq![
        "--> Run "@,
        decimal(r.run_id as nat),
        " | "@,
        workload_name(r.workload),
        " | "@,
        decimal(r.concurrency as nat),
        " client"@,
        plural(r.concurrency, "s"@),
        " <--"@,
    ];
    lemma_says_3(parts, 0);
    lemma_says_4(parts, 1);
    lemma_says_4(parts, 3);
    lemma_says_3(parts, 6);
}

/// The figures of a run, each behind its name.
pub proof fn law_plain_run_numbers(r: RunText)
    ensures
        says(plain_run_numbers(r), "  Inserts: "@ + r.inserts@ + " ("@),
        says(plain_run_numbers(r), r.inserts@ + " ("@ + r.insert_rate@ + ")  |  Ranges: "@),
        says(plain_run_numbers(r), ")  |  Ranges: "@ + r.ranges@ + " ("@),
        says(plain_run_numbers(r), r.ranges@ + " ("@ + r.range_rate@ + ")  |  Errors: "@),
        says(
            plain_run_numbers(r),
            ")  |  Errors: "@ + decimal((r.failed_inserts as nat + r.failed_ranges as nat)) + "  |  SSTs: "@,
        ),
        says(plain_run_numbers(r), "  |  SSTs: "@ + decimal(r.ssts as nat) + "  |  Batch: "@),
        says(plain_run_numbers(r), "  |  Batch: "@ + decimal(r.batch_size as nat)),
{
    let parts = seq![
        "  Inserts: "@,
        r.inserts@,
        " ("@,
        r.insert_rate@,
        ")  |  Ranges: "@,
        r.ranges@,
        " ("@,
        r.range_rate@,
        ")  |  Errors: "@,
        decimal((r.failed_inserts as nat + r.failed_ranges as nat)),
        "  |  SSTs: "@,
        decimal(r.ssts as nat),
        "  |  Batch: "@,
        decimal(r.batch_size as nat),
    ];
    lemma_says_3(parts, 0);
    lemma_says_4(parts, 1);
    lemma_says_3(parts, 4);
    lemma_says_4(parts, 5);
    lemma_says_3(parts, 8);
    lemma_says_3(parts, 10);
    lemma_says_2(parts, 12);
}

/// What is told in color of a drop: the rates and the numbers of clients, before and after.
pub proof fn law_color_drop(d: DropText)
    ensures
        says(color_drop(d), padded("DROP:"@, 12, ' ') + "  "@ + d.from_rate@ + " -> "@),
        says(color_drop(d), d.from_rate@ + " -> "@ + d.to_rate@ + " from "@),
        says(color_drop(d), " from "@ + decimal(d.from as nat) + " -> "@),
        says(color_drop(d), decimal(d.from as nat) + " -> "@ + decimal(d.to as nat) + " clients"@),
{
    let parts = seq![
        "  "@,
        padded("DROP:"@, 12, ' '),
        "  "@,
        d.from_rate@,
        " -> "@,
        d.to_rate@,
        " from "@,
        decimal(d.from as nat),
        " -> "@,
        decimal(d.to as nat),
        " clients"@,
    ];
    lemma_says_4(parts, 1);
    lemma_says_4(parts, 3);
    lemma_says_3(parts, 6);
    lemma_says_4(parts, 7);
}

/// What is told of a drop: the rates and the numbers of clients, before and after.
pub proof fn law_plain_drop(d: DropText)
    ensures
        says(plain_drop(d), "  Drop: "@ + d.from_rate@ + " \u{2192} "@),
        says(plain_drop(d), " \u{2192} "@ + d.to_rate@ + " going from "@),
        says(plain_drop(d), " going from "@ + decimal(d.from as nat) + " \u{2192} "@),
        says(plain_drop(d), " \u{2192} "@ + decimal(d.to as nat) + " clients"@),
{
    let parts = seq![
        "  Drop: "@,
        d.from_rate@,
        " \u{2192} "@,
        d.to_rate@,
        " going from "@,
        decimal(d.from as nat),
        " \u{2192} "@,
        decimal(d.to as nat),
        " clients"@,
    ];
    lemma_says_3(parts, 0);
    lemma_says_3(parts, 2);
    lemma_says_3(parts, 4);
    lemma_says_3(parts, 6);
}

/// What is told in color of the connections.
pub proof fn law_color_connections(s: ServerText)
    ensures
        says(color_connections(s), "  accepted="@ + decimal(s.accepted as nat) + "  active="@),
        says(color_connections(s), "  active="@ + signed_decimal(s.active as int) + "  frames="@),
        says(color_connections(s), "  frames="@ + decimal(s.frames_read as nat)),
{
    let parts = seq![
        "  "@,
        padded("CONNECTIONS:"@, 12, ' '),
        "  accepted="@,
        decimal(s.accepted as nat),
        "  active="@,
        signed_decimal(s.active as int),
        "  frames="@,
        decimal(s.frames_read as nat),
    ];
    lemma_says_3(parts, 2);
    lemma_says_3(parts, 4);
    lemma_says_2(parts, 6);
}

/// What is told in color of the log.
pub proof fn law_color_wal(s: ServerText)
    ensures
        says(color_wal(s), padded("WAL:"@, 12, ' ') + "  "@ + s.wal_writes@ + " writes ("@),
        says(color_wal(s), " writes ("@ + s.wal_bytes@ + "), "@),
        says(color_wal(s), s.wal_bytes@ + "), "@ + decimal(s.syncs as nat) + " syncs (p50="@),
        says(color_wal(s), " syncs (p50="@ + sync_text(s.sync_p50) + ")"@),
{
    let parts = seq![
        "  "@,
        padded("WAL:"@, 12, ' '),
        "  "@,
        s.wal_writes@,
        " writes ("@,
        s.wal_bytes@,
        "), "@,
        decimal(s.syncs as nat),
        " syncs (p50="@,
        sync_text(s.sync_p50),
        ")"@,
    ];
    lemma_says_4(parts, 1);
    lemma_says_3(parts, 4);
    lemma_says_4(parts, 5);
    lemma_says_3(parts, 8);
}

/// What is told in color of the engine.
pub proof fn law_color_engine(s: ServerText)
    ensures
        says(color_engine(s), padded("ENGINE:"@, 12, ' ') + "  "@ + s.records@ + " records ("@),
        says(color_engine(s), " records ("@ + decimal(s.batches as nat) + " cmds), "@),
        says(color_engine(s), " cmds), "@ + decimal(s.flushes as nat) + " flushes, "@),
        says(color_engine(s), " flushes, "@ + decimal(s.compactions as nat) + " compactions, "@),
        says(color_engine(s), " compactions, "@ + signed_decimal(s.ssts as int) + " SSTs"@),
{
    let parts = seq![
        "  "@,
        padded("ENGINE:"@, 12, ' '),
        "  "@,
        s.records@,
        " records ("@,
        decimal(s.batches as nat),
        " cmds), "@,
        decimal(s.flushes as nat),
        " flushes, "@,
        decimal(s.compactions as nat),
        " compactions, "@,
        signed_decimal(s.ssts as int),
        " SSTs"@,
    ];
    lemma_says_4(parts, 1);
    lemma_says_3(parts, 4);
    lemma_says_3(parts, 6);
    lemma_says_3(parts, 8);
    lemma_says_3(parts, 10);
}

/// What is told in color of the memory table.
pub proof fn law_color_memtable(s: ServerText)
    ensures
        says(color_memtable(s), padded("MEMTABLE:"@, 12, ' ') + "  "@ + s.memtable@ + " / "@),
        says(color_memtable(s), s.memtable@ + " / "@ + s.memtable_limit@),
{
    let parts = seq![
        "  "@,
        padded("MEMTABLE:"@, 12, ' '),
        "  "@,
        s.memtable@,
        " / "@,
        s.memtable_limit@,
    ];
    lemma_says_4(parts, 1);
    lemma_says_3(parts, 3);
}

/// What is told of the connections.
pub proof fn law_plain_connections(s: ServerText)
    ensures
        says(
            plain_connections(s),
            "  Connections: accepted="@ + decimal(s.accepted as nat) + "  active="@,
        ),
        says(plain_connections(s), "  active="@ + signed_decimal(s.active as int) + "  frames="@),
        says(plain_connections(s), "  frames="@ + decimal(s.frames_read as nat)),
{
    let parts = seq![
        "  Connections: accepted="@,
        decimal(s.accepted as nat),
        "  active="@,
        signed_decimal(s.active as int),
        "  frames="@,
        decimal(s.frames_read as nat),
    ];
    lemma_says_3(parts, 0);
    lemma_says_3(parts, 2);
    lemma_says_2(parts, 4);
}

/// What is told of the log.
pub proof fn law_plain_wal(s: ServerText)
    ensures
        says(plain_wal(s), "  WAL: "@ + s.wal_writes@ + " writes ("@),
        says(plain_wal(s), " writes ("@ + s.wal_bytes@ + "), "@),
        says(plain_wal(s), s.wal_bytes@ + "), "@ + decimal(s.syncs as nat) + " syncs (p50="@),
        says(plain_wal(s), " syncs (p50="@ + sync_text(s.sync_p50) + ")"@),
{
    let parts = seq![
        "  WAL: "@,
        s.wal_writes@,
        " writes ("@,
        s.wal_bytes@,
        "), "@,
        decimal(s.syncs as nat),
        " syncs (p50="@,
        sync_text(s.sync_p50),
        ")"@,
    ];
    lemma_says_3(parts, 0);
    lemma_says_3(parts, 2);
    lemma_says_4(parts, 3);
    lemma_says_3(parts, 6);
}

/// What is told of the engine.
pub proof fn law_plain_engine(s: ServerText)
    ensures
        says(plain_engine(s), "  Engine: "@ + s.records@ + " records ("@),
        says(plain_engine(s), " records ("@ + decimal(s.batches as nat) + " insert cmds), "@),
        says(plain_engine(s), " insert cmds), "@ + decimal(s.flushes as nat) + " flushes, "@),
        says(plain_engine(s), " flushes, "@ + decimal(s.compactions as nat) + " compactions, "@),
        says(plain_engine(s), " compactions, "@ + signed_decimal(s.ssts as int) + " SSTs"@),
{
    let parts = seq![
        "  Engine: "@,
        s.records@,
        " records ("@,
        decimal(s.batches as nat),
        " insert cmds), "@,
        decimal(s.flushes as nat),
        " flushes, "@,
        decimal(s.compactions as nat),
        " compactions, "@,
        signed_decimal(s.ssts as int),
        " SSTs"@,
    ];
    lemma_says_3(parts, 0);
    lemma_says_3(parts, 2);
    lemma_says_3(parts, 4);
    lemma_says_3(parts, 6);
    lemma_says_3(parts, 8);
}

/// What is told of the memory table.
pub proof fn law_plain_memtable(s: ServerText)
    ensures
        says(plain_memtable(s), "  Memtable: "@ + s.memtable@ + " / "@),
        says(plain_memtable(s), s.memtable@ + " / "@ + s.memtable_limit@),
{
    let parts = seq![
        "  Memtable: "@,
        s.memtable@,
        " / "@,
        s.memtable_limit@,
    ];
    lemma_says_3(parts, 0);
    lemma_says_3(parts, 1);
}

/// Every run is told in color.
pub proof fn law_color_runs(runs: Seq<RunText>, verbose: bool, i: int)
    requires
        0 <= i < runs.len(),
    ensures
        says(color_runs(runs, verbose), color_run(runs[i], verbose)),
    decreases runs.len(),
{
    let front = color_runs(runs.drop_last(), verbose);
    let last = color_run(runs.last(), verbose);
    let none = Seq::<char>::empty();
    assert(last =~= none + last + none);
    assert(says(last, last));
    if i < runs.len() - 1 {
        assert(runs.drop_last()[i] == runs[i]);
        law_color_runs(runs.drop_last(), verbose, i);
        law_says_within(front, front, last, color_run(runs[i], verbose));
    } else {
        law_says_within(front, last, none, last);
    }
}

/// Every run is told.
pub proof fn law_plain_runs(runs: Seq<RunText>, verbose: bool, i: int)
    requires
        0 <= i < runs.len(),
    ensures
        says(plain_runs(runs, verbose), plain_run(runs[i], verbose)),
    decreases runs.len(),
{
    let front = plain_runs(runs.drop_last(), verbose);
    let last = plain_run(runs.last(), verbose);
    let none = Seq::<char>::empty();
    assert(last =~= none + last + none);
    assert(says(last, last));
    if i < runs.len() - 1 {
        assert(runs.drop_last()[i] == runs[i]);
        law_plain_runs(runs.drop_last(), verbose, i);
        law_says_within(front, front, last, plain_run(runs[i], verbose));
    } else {
        law_says_within(front, last, none, last);
    }
}

/// Every drop is told in color.
pub proof fn law_color_drops(ds: Seq<DropText>, i: int)
    requires
        0 <= i < ds.len(),
    ensures
        says(color_drops(ds), color_drop(ds[i])),
    decreases ds.len(),
{
    let front = color_drops(ds.drop_last());
    let last = color_drop(ds.last());
    let none = Seq::<char>::empty();
    assert(last =~= none + last + none);
    assert(says(last, last));
    if i < ds.len() - 1 {
        assert(ds.drop_last()[i] == ds[i]);
        law_color_drops(ds.drop_last(), i);
        law_says_within(front, front, last, color_drop(ds[i]));
    } else {
        law_says_within(front, last, none, last);
    }
}

/// Every drop is told.
pub proof fn law_plain_drops(ds: Seq<DropText>, i: int)
    requires
        0 <= i < ds.len(),
    ensures
        says(plain_drops(ds), plain_drop(ds[i])),
    decreases ds.len(),
{
    let front = plain_drops(ds.drop_last());
    let last = plain_drop(ds.last());
    let none = Seq::<char>::empty();
    assert(last =~= none + last + none);
    assert(says(last, last));
    if i < ds.len() - 1 {
        assert(ds.drop_last()[i] == ds[i]);
        law_plain_drops(ds.drop_last(), i);
        law_says_within(front, front, last, plain_drop(ds[i]));
    } else {
        law_says_within(front, last, none, last);
    }
}

/// Every workload that was looked at for its saturation is told in color.
pub proof fn law_color_saturations(ss: Seq<SaturationText>, i: int)
    requires
        0 <= i < ss.len(),
    ensures
        says(color_saturations(ss), color_saturation(ss[i])),
    decreases ss.len(),
{
    let front = color_saturations(ss.drop_last());
    let last = color_saturation(ss.last());
    let none = Seq::<char>::empty();
    assert(last =~= none + last + none);
    assert(says(last, last));
    if i < ss.len() - 1 {
        assert(ss.drop_last()[i] == ss[i]);
        law_color_saturations(ss.drop_last(), i);
        law_says_within(front, front, last, color_saturation(ss[i]));
    } else {
        law_says_within(front, last, none, last);
    }
}

/// Every workload that was looked at for its saturation is told.
pub proof fn law_plain_saturations(ss: Seq<SaturationText>, i: int)
    requires
        0 <= i < ss.len(),
    ensures
        says(plain_saturations(ss), plain_saturation(ss[i])),
    decreases ss.len(),
{
    let front = plain_saturations(ss.drop_last());
    let last = plain_saturation(ss.last());
    let none = Seq::<char>::empty();
    assert(last =~= none + last + none);
    assert(says(last, last));
    if i < ss.len() - 1 {
        assert(ss.drop_last()[i] == ss[i]);
        law_plain_saturations(ss.drop_last(), i);
        law_says_within(front, front, last, plain_saturation(ss[i]));
    } else {
        law_says_within(front, last, none, last);
    }
}

/// Times are told only where there are some: all figures where much is to be told, and else the
/// lowest, the highest and three between them.
pub proof fn law_latency_told(label: Seq<char>, l: LatencyText, verbose: bool)
    ensures
        l.samples == 0 ==> plain_latency(label, l, verbose).len() == 0 && color_latency(
            label,
            l,
            verbose,
        ).len() == 0,
        l.samples > 0 && verbose ==> says(plain_latency(label, l, verbose), label + latency_line(l))
            && says(color_latency(label, l, verbose), label + latency_line(l)),
        l.samples > 0 && !verbose ==> {
            let p = plain_latency(label, l, verbose);
            let c = color_latency(label, l, verbose);
            &&& says(p, label + "min="@ + l.min@ + "  p50="@)
            &&& says(p, "  p50="@ + l.p50@ + "  p90="@)
            &&& says(p, "  p90="@ + l.p90@ + "  p99="@)
            &&& says(p, "  p99="@ + l.p99@ + "  max="@)
            &&& says(p, "  max="@ + l.max@)
            &&& says(c, label + "MIN="@ + l.min@ + "  P50="@)
            &&& says(c, "  P50="@ + l.p50@ + "  P90="@)
            &&& says(c, "  P90="@ + l.p90@ + "  P99="@)
            &&& says(c, "  P99="@ + l.p99@ + "  MAX="@)
            &&& says(c, "  MAX="@ + l.max@)
        },
{
    if l.samples > 0 && verbose {
        lemma_says_2(seq![label, latency_line(l)], 0);
    }
    if l.samples > 0 && !verbose {
        let p = seq![
            label,
            "min="@,
            l.min@,
            "  p50="@,
            l.p50@,
            "  p90="@,
            l.p90@,
            "  p99="@,
            l.p99@,
            "  max="@,
            l.max@,
        ];
        let c = seq![
            label,
            "MIN="@,
            l.min@,
            "  P50="@,
            l.p50@,
            "  P90="@,
            l.p90@,
            "  P99="@,
            l.p99@,
            "  MAX="@,
            l.max@,
        ];
        lemma_says_4(p, 0);
        lemma_says_3(p, 3);
        lemma_says_3(p, 5);
        lemma_says_3(p, 7);
        lemma_says_2(p, 9);
        lemma_says_4(c, 0);
        lemma_says_3(c, 3);
        lemma_says_3(c, 5);
        lemma_says_3(c, 7);
        lemma_says_2(c, 9);
    }
}

/// Of a run its name, its figures, the times of its inserts and of its queries and the records of
/// a query are told.
pub proof fn law_run_told(r: RunText, verbose: bool)
    ensures
        says(plain_run(r, verbose), plain_run_title(r)),
        says(plain_run(r, verbose), plain_run_numbers(r)),
        says(plain_run(r, verbose), plain_latency("  Insert lat:  "@, r.insert_latency, verbose)),
        says(plain_run(r, verbose), plain_latency("  Range lat:   "@, r.range_latency, verbose)),
        r.records_per_range matches Some(n) ==> says(
            plain_run(r, verbose),
            "  Records/range: "@ + n@,
        ),
        says(color_run(r, verbose), title(run_title(r))),
        says(color_run(r, verbose), run_heads() + run_numbers(r)),
        says(
            color_run(r, verbose),
            color_latency("  INSERT LAT (MS):  "@, r.insert_latency, verbose),
        ),
        says(
            color_run(r, verbose),
            color_latency("  RANGE LAT (MS):  "@, r.range_latency, verbose),
        ),
        r.records_per_range matches Some(n) ==> says(
            color_run(r, verbose),
            padded("REC/RANGE:"@, 12, ' ') + "  "@ + n@,
        ),
{
    let (a, b) = (plain_run_title(r), plain_run_numbers(r));
    let c = plain_latency("  Insert lat:  "@, r.insert_latency, verbose);
    let d = plain_latency("  Range lat:   "@, r.range_latency, verbose);
    let e = match r.records_per_range {
        Some(n) => line(seq!["  Records/range: "@, n@]),
        None => Seq::empty(),
    };
    let none = Seq::<char>::empty();
    let t = plain_run(r, verbose);
    assert(t =~= none + a + (b + c + d + e));
    assert(t =~= a + b + (c + d + e));
    assert(t =~= (a + b) + c + (d + e));
    assert(t =~= (a + b + c) + d + e);
    if let Some(n) = r.records_per_range {
        lemma_says_2(seq!["  Records/range: "@, n@], 0);
        law_says_within(a + b + c + d, e, none, "  Records/range: "@ + n@);
    }
    let (a, h, b) = (title(run_title(r)), run_heads(), run_numbers(r));
    let c = color_latency("  INSERT LAT (MS):  "@, r.insert_latency, verbose);
    let d = color_latency("  RANGE LAT (MS):  "@, r.range_latency, verbose);
    let e = match r.records_per_range {
        Some(n) => line(seq!["  "@, padded("REC/RANGE:"@, 12, ' '), "  "@, n@]),
        None => Seq::empty(),
    };
    let t = color_run(r, verbose);
    assert(t =~= none + a + (h + b + c + d + e));
    assert(t =~= a + (h + b) + (c + d + e));
    assert(t =~= (a + h + b) + c + (d + e));
    assert(t =~= (a + h + b + c) + d + e);
    if let Some(n) = r.records_per_range {
        lemma_says_3(seq!["  "@, padded("REC/RANGE:"@, 12, ' '), "  "@, n@], 1);
        law_says_within(a + h + b + c + d, e, none, padded("REC/RANGE:"@, 12, ' ') + "  "@ + n@);
    }
}

/// Of a workload that was looked at for its saturation its highest throughput and the number of
/// clients at that are told, and then every drop, where there was one, or else between how many
/// clients there was none.
pub proof fn law_saturation_told(s: SaturationText, i: int)
    ensures
        says(
            plain_saturation(s),
            "  Max throughput: "@ + s.peak@ + " at "@ + decimal(s.peak_at as nat),
        ),
        says(plain_saturation(s), "--> Saturation ("@ + workload_title(s.workload) + ") <--"@),
        s.detected && 0 <= i < s.drops@.len() ==> says(plain_saturation(s), plain_drop(s.drops@[i])),
        !s.detected && s.concurrencies@.len() > 0 ==> says(
            plain_saturation(s),
            "  No saturation detected ("@ + decimal(s.concurrencies@.first() as nat) + ".."@
                + decimal(s.concurrencies@.last() as nat),
        ),
        says(
            color_saturation(s),
            "  "@ + s.peak@ + " at "@ + decimal(s.peak_at as nat),
        ),
        says(color_saturation(s), "--- SATURATION ("@ + workload_title(s.workload) + ") ---"@),
        s.detected && 0 <= i < s.drops@.len() ==> says(color_saturation(s), color_drop(s.drops@[i])),
        !s.detected && s.concurrencies@.len() > 0 ==> says(
            color_saturation(s),
            "  "@ + decimal(s.concurrencies@.first() as nat) + ".."@ + decimal(
                s.concurrencies@.last() as nat,
            ),
        ),
{
    let none = Seq::<char>::empty();
    let head = seq!["--> Saturation ("@, workload_title(s.workload), ") <--"@];
    let peak = seq!["  Max throughput: "@, s.peak@, " at "@, decimal(s.peak_at as nat), " clients"@];
    let no = seq![
        "  No saturation detected ("@,
        decimal(ends(s.concurrencies@).0 as nat),
        ".."@,
        decimal(ends(s.concurrencies@).1 as nat),
        " clients)"@,
    ];
    let tail = if s.detected {
        plain_drops(s.drops@)
    } else {
        line(no)
    };
    let t = plain_saturation(s);
    assert(t =~= blank() + line(head) + (line(peak) + tail));
    assert(t =~= (blank() + line(head)) + line(peak) + tail);
    assert(t =~= (blank() + line(head) + line(peak)) + tail + none);
    lemma_says_3(head, 0);
    lemma_says_4(peak, 0);
    lemma_says_4(no, 0);
    law_says_within(blank(), line(head), line(peak) + tail, head[0] + head[1] + head[2]);
    law_says_within(
        blank() + line(head),
        line(peak),
        tail,
        peak[0] + peak[1] + peak[2] + peak[3],
    );
    if s.detected && 0 <= i < s.drops@.len() {
        law_plain_drops(s.drops@, i);
        law_says_within(blank() + line(head) + line(peak), tail, none, plain_drop(s.drops@[i]));
    }
    if !s.detected && s.concurrencies@.len() > 0 {
        law_says_within(
            blank() + line(head) + line(peak),
            tail,
            none,
            no[0] + no[1] + no[2] + no[3],
        );
    }
    lemma_color_saturation(s, i);
}

proof fn lemma_color_saturation(s: SaturationText, i: int)
    ensures
        says(
            color_saturation(s),
            "  "@ + s.peak@ + " at "@ + decimal(s.peak_at as nat),
        ),
        says(color_saturation(s), "--- SATURATION ("@ + workload_title(s.workload) + ") ---"@),
        s.detected && 0 <= i < s.drops@.len() ==> says(color_saturation(s), color_drop(s.drops@[i])),
        !s.detected && s.concurrencies@.len() > 0 ==> says(
            color_saturation(s),
            "  "@ + decimal(s.concurrencies@.first() as nat) + ".."@ + decimal(
                s.concurrencies@.last() as nat,
            ),
        ),
{
    let none = Seq::<char>::empty();
    let name = seq!["--- SATURATION ("@, workload_title(s.workload), ") ---"@];
    let head = title(cat(name));
    let peak = seq![
        "  "@,
        padded("PEAK THRPUT:"@, 12, ' '),
        "  "@,
        s.peak@,
        " at "@,
        decimal(s.peak_at as nat),
        " clients"@,
    ];
    let no = seq![
        "  "@,
        padded("NONE:"@, 12, ' '),
        "  "@,
        decimal(ends(s.concurrencies@).0 as nat),
        ".."@,
        decimal(ends(s.concurrencies@).1 as nat),
        " clients"@,
    ];
    let tail = if s.detected {
        color_drops(s.drops@)
    } else {
        line(no)
    };
    let t = color_saturation(s);
    assert(t =~= blank() + head + (line(peak) + tail));
    assert(t =~= (blank() + head) + line(peak) + tail);
    assert(t =~= (blank() + head + line(peak)) + tail + none);
    lemma_says_3(name, 0);
    lemma_says_4(peak, 2);
    lemma_says_4(no, 2);
    let (on, off) = ("\u{1b}["@ + "36"@ + "m"@, "\u{1b}[39m"@.push('\n'));
    assert(head =~= on + cat(name) + off);
    law_says_within(on, cat(name), off, name[0] + name[1] + name[2]);
    law_says_within(blank(), head, line(peak) + tail, name[0] + name[1] + name[2]);
    law_says_within(blank() + head, line(peak), tail, peak[2] + peak[3] + peak[4] + peak[5]);
    if s.detected && 0 <= i < s.drops@.len() {
        law_color_drops(s.drops@, i);
        law_says_within(blank() + head + line(peak), tail, none, color_drop(s.drops@[i]));
    }
    if !s.detected && s.concurrencies@.len() > 0 {
        law_says_within(blank() + head + line(peak), tail, none, no[2] + no[3] + no[4] + no[5]);
    }
}

/// Of the server its connections, its log, its engine and its memory table are told; the times of
/// the log and of batches only where much is to be told.
pub proof fn law_server_told(s: ServerText, verbose: bool)
    ensures
        says(
            plain_server(s, verbose),
            plain_connections(s) + plain_wal(s) + plain_engine(s) + plain_memtable(s),
        ),
        says(
            color_server(s, verbose),
            color_connections(s) + color_wal(s) + color_engine(s) + color_memtable(s),
        ),
        verbose && s.sync_latency is Some ==> says(
            plain_server(s, verbose),
            "  WAL sync lat:  "@ + latency_line(s.sync_latency->0),
        ) && says(
            color_server(s, verbose),
            "  WAL SYNC LAT (MS):  "@ + latency_line(s.sync_latency->0),
        ),
        verbose && s.batch_latency is Some ==> says(
            plain_server(s, verbose),
            "  Batch insert lat (server):  "@ + latency_line(s.batch_latency->0),
        ) && says(
            color_server(s, verbose),
            "  BATCH INSERT LAT (MS):  "@ + latency_line(s.batch_latency->0),
        ),
        sync_text(s.sync_p50) == (match s.sync_p50 {
            Some(p) => p@,
            None => "N/A"@,
        }),
{
    lemma_server_told(
        blank() + line(seq!["--> Server Metrics (post-run) <--"@]),
        plain_connections(s),
        plain_wal(s),
        plain_engine(s),
        plain_memtable(s),
        "  WAL sync lat:  "@,
        "  Batch insert lat (server):  "@,
        s,
        verbose,
    );
    lemma_server_told(
        blank() + title("--- SERVER METRICS ---"@),
        color_connections(s),
        color_wal(s),
        color_engine(s),
        color_memtable(s),
        "  WAL SYNC LAT (MS):  "@,
        "  BATCH INSERT LAT (MS):  "@,
        s,
        verbose,
    );
}

proof fn lemma_server_told(
    head: Seq<char>,
    a: Seq<char>,
    b: Seq<char>,
    c: Seq<char>,
    d: Seq<char>,
    sync: Seq<char>,
    batch: Seq<char>,
    s: ServerText,
    verbose: bool,
)
    ensures
        ({
            let x = if verbose && s.sync_latency is Some {
                blank() + line(seq![sync, latency_line(s.sync_latency->0)])
            } else {
                Seq::empty()
            };
            let y = if verbose && s.batch_latency is Some {
                line(seq![batch, latency_line(s.batch_latency->0)])
            } else {
                Seq::empty()
            };
            let t = head + a + b + c + d + x + y;
            &&& says(t, a + b + c + d)
            &&& verbose && s.sync_latency is Some ==> says(
                t,
                sync + latency_line(s.sync_latency->0),
            )
            &&& verbose && s.batch_latency is Some ==> says(
                t,
                batch + latency_line(s.batch_latency->0),
            )
        }),
{
    let none = Seq::<char>::empty();
    let x = if verbose && s.sync_latency is Some {
        blank() + line(seq![sync, latency_line(s.sync_latency->0)])
    } else {
        Seq::empty()
    };
    let y = if verbose && s.batch_latency is Some {
        line(seq![batch, latency_line(s.batch_latency->0)])
    } else {
        Seq::empty()
    };
    let t = head + a + b + c + d + x + y;
    assert(t =~= head + (a + b + c + d) + (x + y));
    if verbose && s.sync_latency is Some {
        let parts = seq![sync, latency_line(s.sync_latency->0)];
        lemma_says_2(parts, 0);
        law_says_within(blank(), line(parts), none, parts[0] + parts[1]);
        law_says_within(head + a + b + c + d, x, y, parts[0] + parts[1]);
    }
    if verbose && s.batch_latency is Some {
        let parts = seq![batch, latency_line(s.batch_latency->0)];
        lemma_says_2(parts, 0);
        law_says_within(head + a + b + c + d + x, y, none, parts[0] + parts[1]);
    }
}

/// Of the memory it is told how much there was at the start, at most and at the end, how it grew
/// and how often it was measured.
pub proof fn law_memory_told(m: MemoryText)
    ensures
        says(plain_memory(m), "  RSS: "@ + m.start@ + " (start) \u{2192} "@ + m.peak@),
        says(plain_memory(m), m.peak@ + " (peak) \u{2192} "@ + m.end@ + " (end)  |  Grow: "@),
        says(plain_memory(m), " (end)  |  Grow: "@ + m.growth@ + "KB/s  |  Samples: "@),
        says(plain_memory(m), "KB/s  |  Samples: "@ + decimal(m.samples as nat)),
        says(color_memory(m), "  "@ + m.start@ + " (start) -> "@ + m.peak@),
        says(color_memory(m), m.peak@ + " (peak) -> "@ + m.end@ + " (end)"@),
        says(color_memory(m), padded("GROWTH:"@, 12, ' ') + "  "@ + m.growth@ + "KB/s"@),
        says(color_memory(m), padded("SAMPLES:"@, 12, ' ') + "  "@ + decimal(m.samples as nat)),
{
    let none = Seq::<char>::empty();
    let parts = seq![
        "  RSS: "@,
        m.start@,
        " (start) \u{2192} "@,
        m.peak@,
        " (peak) \u{2192} "@,
        m.end@,
        " (end)  |  Grow: "@,
        m.growth@,
        "KB/s  |  Samples: "@,
        decimal(m.samples as nat),
    ];
    let head = blank() + line(seq!["--> Memory Profile <--"@]);
    lemma_says_4(parts, 0);
    lemma_says_4(parts, 3);
    lemma_says_3(parts, 6);
    lemma_says_2(parts, 8);
    law_says_within(head, line(parts), none, parts[0] + parts[1] + parts[2] + parts[3]);
    law_says_within(head, line(parts), none, parts[3] + parts[4] + parts[5] + parts[6]);
    law_says_within(head, line(parts), none, parts[6] + parts[7] + parts[8]);
    law_says_within(head, line(parts), none, parts[8] + parts[9]);
    let a = seq![
        "  "@,
        padded("RSS:"@, 12, ' '),
        "  "@,
        m.start@,
        " (start) -> "@,
        m.peak@,
        " (peak) -> "@,
        m.end@,
        " (end)"@,
    ];
    let b = seq!["  "@, padded("GROWTH:"@, 12, ' '), "  "@, m.growth@, "KB/s"@];
    let c = seq!["  "@, padded("SAMPLES:"@, 12, ' '), "  "@, decimal(m.samples as nat)];
    let head = blank() + title("--- MEMORY PROFILE ---"@);
    let t = color_memory(m);
    assert(t =~= head + line(a) + (line(b) + line(c)));
    assert(t =~= (head + line(a)) + line(b) + line(c));
    assert(t =~= (head + line(a) + line(b)) + line(c) + none);
    lemma_says_4(a, 2);
    lemma_says_4(a, 5);
    lemma_says_4(b, 1);
    lemma_says_3(c, 1);
    law_says_within(head, line(a), line(b) + line(c), a[2] + a[3] + a[4] + a[5]);
    law_says_within(head, line(a), line(b) + line(c), a[5] + a[6] + a[7] + a[8]);
    law_says_within(head + line(a), line(b), line(c), b[1] + b[2] + b[3] + b[4]);
    law_says_within(head + line(a) + line(b), line(c), none, c[1] + c[2] + c[3]);
}

/// The settings are told: the load, the sizes, and the queries where they are not the usual ones.
pub proof fn law_settings_told(a: SettingsText)
    ensures
        says(plain_settings(a), plain_load(a) + plain_sizes(a)),
        says(color_settings(a), color_load(a) + color_sizes(a)),
        !a.usual_fraction || a.range_window != 60 ==> says(plain_settings(a), plain_ranges(a))
            && says(color_settings(a), color_ranges(a)),
{
    let head = line(seq!["=> BENCHMARK <="@]);
    let (x, y) = (plain_load(a), plain_sizes(a));
    let z = if !a.usual_fraction || a.range_window != 60 {
        plain_ranges(a)
    } else {
        Seq::empty()
    };
    assert(plain_settings(a) =~= head + (x + y) + (z + blank()));
    assert(plain_settings(a) =~= (head + x + y) + z + blank());
    let head = title("--- BENCHMARK ---"@);
    let (x, y) = (color_load(a), color_sizes(a));
    let z = if !a.usual_fraction || a.range_window != 60 {
        color_ranges(a)
    } else {
        Seq::empty()
    };
    assert(color_settings(a) =~= head + (x + y) + (z + blank()));
    assert(color_settings(a) =~= (head + x + y) + z + blank());
}

/// A summary tells the settings, the runs, the saturations, the server and, where it was
/// measured, the memory.
pub proof fn law_summary_told(b: Summary, verbose: bool)
    ensures
        says(plain_summary(b, verbose), plain_settings(b.settings)),
        says(plain_summary(b, verbose), plain_runs(b.runs@, verbose)),
        says(plain_summary(b, verbose), plain_saturations(b.saturations@)),
        says(plain_summary(b, verbose), plain_server(b.server, verbose)),
        b.memory matches Some(m) ==> says(plain_summary(b, verbose), plain_memory(m)),
        says(color_summary(b, verbose), color_settings(b.settings)),
        says(color_summary(b, verbose), color_runs(b.runs@, verbose)),
        says(color_summary(b, verbose), color_saturations(b.saturations@)),
        says(color_summary(b, verbose), color_server(b.server, verbose)),
        b.memory matches Some(m) ==> says(color_summary(b, verbose), color_memory(m)),
{
    lemma_five_parts(
        plain_settings(b.settings),
        plain_runs(b.runs@, verbose),
        plain_saturations(b.saturations@),
        plain_server(b.server, verbose),
        match b.memory {
            Some(m) => plain_memory(m),
            None => Seq::empty(),
        },
        blank(),
    );
    lemma_five_parts(
        color_settings(b.settings),
        color_runs(b.runs@, verbose),
        color_saturations(b.saturations@),
        color_server(b.server, verbose),
        match b.memory {
            Some(m) => color_memory(m),
            None => Seq::empty(),
        },
        blank(),
    );
}

proof fn lemma_five_parts(
    a: Seq<char>,
    b: Seq<char>,
    c: Seq<char>,
    d: Seq<char>,
    e: Seq<char>,
    end: Seq<char>,
)
    ensures
        says(a + b + c + d + e + end, a),
        says(a + b + c + d + e + end, b),
        says(a + b + c + d + e + end, c),
        says(a + b + c + d + e + end, d),
        says(a + b + c + d + e + end, e),
{
    let t = a + b + c + d + e + end;
    let none = Seq::<char>::empty();
    assert(t =~= none + a + (b + c + d + e + end));
    assert(t =~= a + b + (c + d + e + end));
    assert(t =~= (a + b) + c + (d + e + end));
    assert(t =~= (a + b + c) + d + (e + end));
    assert(t =~= (a + b + c + d) + e + end);
}

/// The figures of the server, of the engine and of the log stand under their heads.
pub proof fn law_dump_told(m: MetricsSnapshot)
    ensures
        ({
            let w = seq![8usize, 8, 8, 8];
            says(
                dump_text(m),
                row(seq!["ACCEPTED"@, "ACTIVE"@, "FRM_RD"@, "FRM_WR"@], w) + row(
                    seq![
                        decimal(m.server.connections_accepted as nat),
                        signed_decimal(m.server.connections_active as int),
                        decimal(m.server.frames_read as nat),
                        decimal(m.server.frames_written as nat),
                    ],
                    w,
                ),
            )
        }),
        ({
            let w = seq![8usize, 8, 10, 8, 8, 8, 10, 10, 10, 5, 8, 8];
            let e = m.engine;
            says(
                dump_text(m),
                row(
                    seq![
                        "INSERTS"@,
                        "BATCH"@,
                        "RECORDS"@,
                        "FAIL"@,
                        "RANGES"@,
                        "R_FAIL"@,
                        "SCANNED"@,
                        "MT_BYTES"@,
                        "MT_LIM"@,
                        "SST"@,
                        "FLUSHES"@,
                        "COMPACT"@,
                    ],
                    w,
                ) + row(
                    seq![
                        decimal(e.insert_count as nat),
                        decimal(e.batch_insert_count as nat),
                        decimal(e.records_inserted as nat),
                        decimal(e.insert_failures as nat),
                        decimal(e.range_count as nat),
                        decimal(e.range_failures as nat),
                        decimal(e.records_scanned as nat),
                        signed_decimal(e.memtable_bytes as int),
                        signed_decimal(e.memtable_limit as int),
                        signed_decimal(e.sstable_count as int),
                        decimal(e.flush_count as nat),
                        decimal(e.compaction_count as nat),
                    ],
                    w,
                ),
            )
        }),
        ({
            let w = seq![10usize, 12, 8];
            says(
                dump_text(m),
                row(seq!["WRITES"@, "BYTES"@, "SYNCS"@], w) + row(
                    seq![
                        decimal(m.wal.write_count as nat),
                        decimal(m.wal.write_bytes as nat),
                        decimal(m.wal.sync_count as nat),
                    ],
                    w,
                ),
            )
        }),
{
    let none = Seq::<char>::empty();
    let (a, b, c, d) = (
        server_text(m.server),
        engine_text(m.engine),
        wal_text(m.wal),
        latencies_text(m),
    );
    let w = seq![8usize, 8, 8, 8];
    let (h, v) = (
        row(seq!["ACCEPTED"@, "ACTIVE"@, "FRM_RD"@, "FRM_WR"@], w),
        row(
            seq![
                decimal(m.server.connections_accepted as nat),
                signed_decimal(m.server.connections_active as int),
                decimal(m.server.frames_read as nat),
                decimal(m.server.frames_written as nat),
            ],
            w,
        ),
    );
    assert(a =~= "\n==> SERVER METRICS <==\n"@ + (h + v) + none);
    law_says_within(none, a, b + c + d, h + v);
    assert(dump_text(m) =~= none + a + (b + c + d));
    let w = seq![8usize, 8, 10, 8, 8, 8, 10, 10, 10, 5, 8, 8];
    let e = m.engine;
    let (h, v) = (
        row(
            seq![
                "INSERTS"@,
                "BATCH"@,
                "RECORDS"@,
                "FAIL"@,
                "RANGES"@,
                "R_FAIL"@,
                "SCANNED"@,
                "MT_BYTES"@,
                "MT_LIM"@,
                "SST"@,
                "FLUSHES"@,
                "COMPACT"@,
            ],
            w,
        ),
        row(
            seq![
                decimal(e.insert_count as nat),
                decimal(e.batch_insert_count as nat),
                decimal(e.records_inserted as nat),
                decimal(e.insert_failures as nat),
                decimal(e.range_count as nat),
                decimal(e.range_failures as nat),
                decimal(e.records_scanned as nat),
                signed_decimal(e.memtable_bytes as int),
                signed_decimal(e.memtable_limit as int),
                signed_decimal(e.sstable_count as int),
                decimal(e.flush_count as nat),
                decimal(e.compaction_count as nat),
            ],
            w,
        ),
    );
    assert(b =~= "\n==> ENGINE METRICS <==\n"@ + (h + v) + none);
    law_says_within(a, b, c + d, h + v);
    assert(dump_text(m) =~= a + b + (c + d));
    let w = seq![10usize, 12, 8];
    let (h, v) = (
        row(seq!["WRITES"@, "BYTES"@, "SYNCS"@], w),
        row(
            seq![
                decimal(m.wal.write_count as nat),
                decimal(m.wal.write_bytes as nat),
                decimal(m.wal.sync_count as nat),
            ],
            w,
        ),
    );
    assert(c =~= "\n==> WAL METRICS <==\n"@ + (h + v) + none);
    law_says_within(a + b, c, d, h + v);
}

/// The times of each kind are told under their name, where there are some, in the order of the
/// heads.
pub proof fn law_times_dumped(m: MetricsSnapshot, s: Snapshot)
    ensures
        says(
            dump_text(m),
            row(
                seq![""@, "MIN"@, "P50"@, "P90"@, "P95"@, "P99"@, "P99.9"@, "MAX"@, "COUNT"@],
                seq![16usize, 10, 10, 10, 10, 10, 10, 10, 10],
            ),
        ),
        m.engine.insert_latency == Some(s) ==> says(dump_text(m), times_row("insert"@, s)),
        m.engine.batch_insert_latency == Some(s) ==> says(
            dump_text(m),
            times_row("batch_insert"@, s),
        ),
        m.engine.range_latency == Some(s) ==> says(dump_text(m), times_row("range"@, s)),
        m.engine.flush_duration == Some(s) ==> says(dump_text(m), times_row("flush"@, s)),
        m.engine.compaction_duration == Some(s) ==> says(dump_text(m), times_row("compaction"@, s)),
        m.wal.sync_latency == Some(s) ==> says(dump_text(m), times_row("wal_sync"@, s)),
{
    lemma_rows_said(
        server_text(m.server) + engine_text(m.engine) + wal_text(m.wal),
        "\n==> LATENCIES (\u{b5}s) <==\n"@,
        row(
            seq![""@, "MIN"@, "P50"@, "P90"@, "P95"@, "P99"@, "P99.9"@, "MAX"@, "COUNT"@],
            seq![16usize, 10, 10, 10, 10, 10, 10, 10, 10],
        ),
        run_of('-', 106).push('\n'),
        latency_row("insert"@, m.engine.insert_latency),
        latency_row("batch_insert"@, m.engine.batch_insert_latency),
        latency_row("range"@, m.engine.range_latency),
        latency_row("flush"@, m.engine.flush_duration),
        latency_row("compaction"@, m.engine.compaction_duration),
        latency_row("wal_sync"@, m.wal.sync_latency),
    );
}

proof fn lemma_rows_said(
    front: Seq<char>,
    head: Seq<char>,
    heads: Seq<char>,
    rule: Seq<char>,
    a: Seq<char>,
    b: Seq<char>,
    c: Seq<char>,
    d: Seq<char>,
    e: Seq<char>,
    f: Seq<char>,
)
    ensures
        ({
            let t = front + (head + heads + rule + a + b + c + d + e + f);
            &&& says(t, heads)
            &&& says(t, a)
            &&& says(t, b)
            &&& says(t, c)
            &&& says(t, d)
            &&& says(t, e)
            &&& says(t, f)
        }),
{
    let none = Seq::<char>::empty();
    let t = front + (head + heads + rule + a + b + c + d + e + f);
    assert(t =~= (front + head) + heads + (rule + a + b + c + d + e + f));
    let h = front + head + heads + rule;
    assert(t =~= h + a + (b + c + d + e + f));
    assert(t =~= (h + a) + b + (c + d + e + f));
    assert(t =~= (h + a + b) + c + (d + e + f));
    assert(t =~= (h + a + b + c) + d + (e + f));
    assert(t =~= (h + a + b + c + d) + e + f);
    assert(t =~= (h + a + b + c + d + e) + f + none);
}

/// A row of times: the lowest, the middle, the upper end, the highest, and how many there are.
pub open spec fn times_row(name: Seq<char>, s: Snapshot) -> Seq<char> {
    row(
        seq![
            name,
            decimal(s.min as nat),
            decimal(s.p50 as nat),
            decimal(s.p90 as nat),
            decimal(s.p95 as nat),
            decimal(s.p99 as nat),
            decimal(s.p99_9 as nat),
            decimal(s.max as nat),
            decimal(s.count as nat),
        ],
        seq![16usize, 10, 10, 10, 10, 10, 10, 10, 10],
    )
}

/// A comparison of two values tells the name, the value of the baseline, that of the target, by
/// how much it changed and by which part, in this order.
pub proof fn law_field_told(f: FieldText)
    ensures
        says(field_line(f), "  "@ + filled(f.key@, 22, ' ') + " "@ + in_color(
            "36"@,
            padded(f.prev@, 12, ' '),
        )),
        says(field_line(f), in_color("36"@, padded(f.prev@, 12, ' ')) + " "@ + in_color(
            "33"@,
            padded(f.new@, 12, ' '),
        ) + " "@),
        says(field_line(f), " "@ + padded(judged(f.delta@, 12, f), 12, ' ') + " "@ + padded(
            judged(f.pct@, 10, f),
            10,
            ' ',
        )),
        says(heads_line(), padded("BASELINE"@, 12, ' ') + " "@ + padded("TARGET"@, 12, ' ') + " "@),
        says(heads_line(), padded("DELTA"@, 12, ' ') + " "@ + padded("DELTA_PCT"@, 10, ' ')),
{
    let parts = seq![
        "  "@,
        filled(f.key@, 22, ' '),
        " "@,
        in_color("36"@, padded(f.prev@, 12, ' ')),
        " "@,
        in_color("33"@, padded(f.new@, 12, ' ')),
        " "@,
        padded(judged(f.delta@, 12, f), 12, ' '),
        " "@,
        padded(judged(f.pct@, 10, f), 10, ' '),
    ];
    lemma_says_4(parts, 0);
    lemma_says_4(parts, 3);
    lemma_says_4(parts, 6);
    let heads = seq![
        "  "@,
        filled(""@, 22, ' '),
        " "@,
        padded("BASELINE"@, 12, ' '),
        " "@,
        padded("TARGET"@, 12, ' '),
        " "@,
        padded("DELTA"@, 12, ' '),
        " "@,
        padded("DELTA_PCT"@, 10, ' '),
    ];
    lemma_says_4(heads, 3);
    lemma_says_3(heads, 7);
}

/// Every value is told, but for one that neither side has where those are left out.
pub proof fn law_fields_told(fs: Seq<FieldText>, sparse: bool, i: int)
    requires
        0 <= i < fs.len(),
    ensures
        !(sparse && fs[i].absent) ==> says(fields_text(fs, sparse), field_line(fs[i])),
        sparse && (forall|j: int| 0 <= j < fs.len() ==> (#[trigger] fs[j]).absent) ==> fields_text(
            fs,
            sparse,
        ).len() == 0,
    decreases fs.len(),
{
    let front = fs.drop_last();
    let none = Seq::<char>::empty();
    let last = field_line(fs.last());
    assert(last =~= none + last + none);
    assert(says(last, last));
    if sparse && (forall|j: int| 0 <= j < fs.len() ==> (#[trigger] fs[j]).absent) {
        assert(fs[fs.len() - 1].absent);
        assert forall|j: int| 0 <= j < front.len() implies (#[trigger] front[j]).absent by {
            assert(front[j] == fs[j]);
        }
        if front.len() > 0 {
            law_fields_told(front, sparse, 0);
        }
    }
    if i < front.len() {
        assert(front[i] == fs[i]);
        law_fields_told(front, sparse, i);
        if !(sparse && fs[i].absent) {
            law_says_within(none, fields_text(front, sparse), last, field_line(fs[i]));
        }
    } else if !(sparse && fs[i].absent) {
        law_says_within(fields_text(front, sparse), last, none, last);
    }
}

/// Every run that was compared is told, with its workload and its number of clients.
pub proof fn law_comparisons_told(cs: Seq<RunCmp>, i: int)
    requires
        0 <= i < cs.len(),
    ensures
        says(
            comparisons_text(cs),
            run_line(cs[i]) + heads_line() + fields_text(cs[i].fields@, true),
        ),
        says(
            run_line(cs[i]),
            "--- "@ + workload_name(cs[i].workload) + " | "@ + decimal(cs[i].concurrency as nat),
        ),
        says(
            run_line(cs[i]),
            decimal(cs[i].concurrency as nat) + (if cs[i].concurrency == 1 {
                " client"@
            } else {
                " clients"@
            }) + " ---"@,
        ),
    decreases cs.len(),
{
    let c = cs[i];
    let parts = seq![
        "--- "@,
        workload_name(c.workload),
        " | "@,
        decimal(c.concurrency as nat),
        (if c.concurrency != 1 {
            " clients"@
        } else {
            " client"@
        }),
        " ---"@,
    ];
    lemma_says_4(parts, 0);
    lemma_says_3(parts, 3);
    let none = Seq::<char>::empty();
    let front = comparisons_text(cs.drop_last());
    let last = run_line(cs.last()) + heads_line() + fields_text(cs.last().fields@, true);
    assert(comparisons_text(cs) =~= front + last + none);
    if i < cs.len() - 1 {
        assert(cs.drop_last()[i] == cs[i]);
        law_comparisons_told(cs.drop_last(), i);
        law_says_within(
            none,
            front,
            last,
            run_line(c) + heads_line() + fields_text(c.fields@, true),
        );
        assert(comparisons_text(cs) =~= front + last);
    }
}

/// Of the memory profile the figures stand under their heads.
pub proof fn law_profile_told(p: ProfileText, n: nat)
    ensures
        ({
            let w = seq![10usize, 10, 10, 10, 8, 8];
            says(
                profile_part(p, n),
                row(seq!["RSS_MIN"@, "RSS_AVG"@, "RSS_MAX"@, "RSS_END"@, "SAMPLES"@, "DUR_S"@], w)
                    + row(seq![p.min@, p.avg@, p.max@, p.last@, decimal(n), p.duration@], w),
            )
        }),
        says(profile_part(p, n), "Growth rate: "@ + p.growth@ + " KB/s ("@),
        says(profile_part(p, n), " KB/s ("@ + decimal(p.growth_mb as nat) + " MB over "@),
        says(profile_part(p, n), " MB over "@ + p.whole_duration@ + "s)"@),
{
    let w = seq![10usize, 10, 10, 10, 8, 8];
    let none = Seq::<char>::empty();
    let head = "==> MEMORY PROFILE <==\n\n"@;
    let (h, v) = (
        row(seq!["RSS_MIN"@, "RSS_AVG"@, "RSS_MAX"@, "RSS_END"@, "SAMPLES"@, "DUR_S"@], w),
        row(seq![p.min@, p.avg@, p.max@, p.last@, decimal(n), p.duration@], w),
    );
    let parts = seq![
        "Growth rate: "@,
        p.growth@,
        " KB/s ("@,
        decimal(p.growth_mb as nat),
        " MB over "@,
        p.whole_duration@,
        "s)"@,
    ];
    assert(profile_part(p, n) =~= head + (h + v) + line(parts));
    assert(profile_part(p, n) =~= (head + h + v) + line(parts));
    lemma_says_3(parts, 0);
    lemma_says_3(parts, 2);
    lemma_says_3(parts, 4);
    law_says_within(head + h + v, line(parts), none, parts[0] + parts[1] + parts[2]);
    law_says_within(head + h + v, line(parts), none, parts[2] + parts[3] + parts[4]);
    law_says_within(head + h + v, line(parts), none, parts[4] + parts[5] + parts[6]);
}

/// Every sample of the memory that is shown has a line, with the change from the one shown
/// before it.
pub proof fn law_samples_told(samples: Seq<RssState>, n: int, i: int)
    requires
        0 <= i < n <= samples.len(),
        shown(i, samples.len() as int),
    ensures
        says(rss_lines(samples, n), rss_line(samples[i], last_shown(samples, i))),
    decreases n,
{
    let none = Seq::<char>::empty();
    let front = rss_lines(samples, n - 1);
    let piece = rss_line(samples[i], last_shown(samples, i));
    assert(piece =~= none + piece + none);
    assert(says(piece, piece));
    if i == n - 1 {
        law_says_within(front, piece, none, piece);
    } else {
        law_samples_told(samples, n - 1, i);
        let last = rss_line(samples[n - 1], last_shown(samples, n - 1));
        law_says_within(none, front, last, piece);
    }
}

/// The sample that was shown last before another is the nearest one before it that is shown.
pub proof fn law_last_shown(samples: Seq<RssState>, i: int, j: int)
    requires
        0 <= j < i <= samples.len(),
        shown(j, samples.len() as int),
        forall|k: int| j < k < i ==> !#[trigger] shown(k, samples.len() as int),
    ensures
        last_shown(samples, i) == Some(samples[j].rss_kb),
    decreases i,
{
    if j < i - 1 {
        assert(!shown(i - 1, samples.len() as int));
        law_last_shown(samples, i - 1, j);
    }
}

/// A line of a sample tells when it was taken, a bar, the change and how much memory it was.
pub proof fn law_sample_told(s: RssState, prev: Option<u64>)
    ensures
        says(rss_line(s, prev), padded(s.elapsed@, 6, ' ') + " |"@),
        says(rss_line(s, prev), " |"@ + filled(run_of('\u{2588}', s.bar as nat), 60, '-') + "| "@),
        says(rss_line(s, prev), "| "@ + change(prev, s.rss_kb) + " "@),
        says(rss_line(s, prev), padded(decimal(s.rss_kb as nat), 8, ' ') + " KB"@),
{
    let parts = seq![
        padded(s.elapsed@, 6, ' '),
        " |"@,
        filled(bar(s.bar as nat), 60, '-'),
        "| "@,
        change(prev, s.rss_kb),
        " "@,
        padded(decimal(s.rss_kb as nat), 8, ' '),
        " KB"@,
    ];
    lemma_says_2(parts, 0);
    lemma_says_3(parts, 1);
    lemma_says_3(parts, 3);
    lemma_says_2(parts, 6);
}

/// A comparison tells what was compared with how many others, the runs, the metrics, the highest
/// throughputs and the memory. Of the memory all values are told; of the others those that one
/// side has.
pub proof fn law_comparison_told(r: CmpResult)
    requires
        r.files@.len() > 0,
    ensures
        says(
            comparison(r),
            "=> cmp: "@ + r.files@[0]@ + " vs "@ + decimal((r.files@.len() - 1) as nat),
        ),
        says(comparison(r), comparisons_text(r.comparisons@)),
        r.metrics@.len() > 0 ==> says(
            comparison(r),
            "\n--- Aggregate Metrics ---\n"@ + heads_line() + fields_text(r.metrics@, true),
        ),
        r.saturations@.len() > 0 ==> says(
            comparison(r),
            "\n--- Saturations ---\n"@ + heads_line() + fields_text(r.saturations@, true),
        ),
        r.mem@.len() > 0 ==> says(
            comparison(r),
            "\n--- Memory Profile ---\n"@ + heads_line() + fields_text(r.mem@, false),
        ),
{
    let parts = seq![
        "=> cmp: "@,
        r.files@[0]@,
        " vs "@,
        decimal((r.files@.len() - 1) as nat),
        " target(s) <="@,
    ];
    let none = Seq::<char>::empty();
    let a = line(parts);
    let b = comparisons_text(r.comparisons@);
    let c = part("\n--- Aggregate Metrics ---\n"@, r.metrics@, true);
    let d = part("\n--- Saturations ---\n"@, r.saturations@, true);
    let e = part("\n--- Memory Profile ---\n"@, r.mem@, false);
    lemma_says_4(parts, 0);
    lemma_five_parts(a, b, c, d, e, none);
    assert(comparison(r) =~= a + b + c + d + e + none);
    assert(comparison(r) =~= none + a + (b + c + d + e));
    law_says_within(none, a, b + c + d + e, parts[0] + parts[1] + parts[2] + parts[3]);
}

/// The states of the engine are told under their heads: when, how large the memory table was, how
/// many tables there were, how much memory it was, and the change.
pub proof fn law_state_told(samples: Seq<EngineState>, rs: Seq<EngineRow>, i: int)
    requires
        0 <= i < rs.len(),
    ensures
        says(
            state_rows(samples, rs),
            row(
                seq![
                    samples[rs[i].index as int].elapsed@,
                    decimal(rs[i].memtable_kb as nat),
                    decimal(rs[i].sst_count as nat),
                    decimal(rs[i].rss_kb as nat),
                    signed_decimal(rs[i].delta as int),
                ],
                seq![10usize, 12, 12, 12, 12],
            ),
        ),
    decreases rs.len(),
{
    let none = Seq::<char>::empty();
    let front = state_rows(samples, rs.drop_last());
    let last = state_row(samples, rs.last());
    assert(last =~= none + last + none);
    assert(says(last, last));
    if i < rs.len() - 1 {
        assert(rs.drop_last()[i] == rs[i]);
        law_state_told(samples, rs.drop_last(), i);
        law_says_within(none, front, last, state_row(samples, rs[i]));
    } else {
        law_says_within(front, last, none, last);
    }
}

/// The report on memory tells the profile, the states of the engine where there are some, and
/// the samples; without samples it says that there are none.
pub proof fn law_memory_report(samples: Seq<RssState>, states: Seq<EngineState>, p: ProfileText)
    ensures
        samples.len() == 0 ==> profile_report(samples, states, p)
            == "No memory samples collected.\n"@,
        samples.len() > 0 ==> says(
            profile_report(samples, states, p),
            profile_part(p, samples.len()),
        ) && says(
            profile_report(samples, states, p),
            "\n==> RSS OVER TIME <==\n"@ + rss_lines(samples, samples.len() as int),
        ) && says(profile_report(samples, states, p), states_part(states)),
        states.len() > 0 ==> says(
            states_part(states),
            row(
                seq!["ELAPSED"@, "MEMTBL_KB"@, "SST_CNT"@, "RSS_KB"@, "DELTA_KB"@],
                seq![10usize, 12, 12, 12, 12],
            ) + state_rows(states, engine_rows(states, states.len() as int)),
        ) && says(
            states_part(states),
            "\n==> ENGINE STATE SAMPLES ("@ + decimal(states.len()) + " total) <=="@,
        ),
        states.len() == 0 ==> states_part(states).len() == 0,
{
    let none = Seq::<char>::empty();
    if samples.len() > 0 {
        let (a, b) = (profile_part(p, samples.len()), states_part(states));
        let c = "\n==> RSS OVER TIME <==\n"@;
        let d = rss_lines(samples, samples.len() as int);
        let t = profile_report(samples, states, p);
        assert(t =~= none + a + (b + c + d));
        assert(t =~= a + b + (c + d));
        assert(t =~= (a + b) + (c + d) + none);
    }
    if states.len() > 0 {
        let parts = seq![
            "\n==> ENGINE STATE SAMPLES ("@,
            decimal(states.len()),
            " total) <=="@,
        ];
        let heads = row(
            seq!["ELAPSED"@, "MEMTBL_KB"@, "SST_CNT"@, "RSS_KB"@, "DELTA_KB"@],
            seq![10usize, 12, 12, 12, 12],
        );
        let rows = state_rows(states, engine_rows(states, states.len() as int));
        assert(states_part(states) =~= line(parts) + (heads + rows) + none);
        lemma_says_3(parts, 0);
        law_says_within(none, line(parts), heads + rows, parts[0] + parts[1] + parts[2]);
        assert(states_part(states) =~= line(parts) + (heads + rows));
    }
}

/// What is written is what is stated of each report.
pub proof fn law_reports_written(
    b: Summary,
    verbose: bool,
    color: String,
    plain: String,
    m: MetricsSnapshot,
    dumped: String,
    c: CmpResult,
    compared: String,
    samples: Vec<RssState>,
    states: Vec<EngineState>,
    p: ProfileText,
    profile: String,
)
    requires
        call_ensures(write_summary, (&b, verbose), color),
        call_ensures(write_summary_to_stderr, (&b, verbose), plain),
        call_ensures(report, (&m,), dumped),
        call_ensures(CmpResult::write_to, (&c,), compared),
        call_ensures(new_report_str, (&samples, &states, &p), profile),
    ensures
        plain@ == plain_summary(b, verbose),
        color@ == color_summary(b, verbose),
        dumped@ == dump_text(m),
        compared@ == comparison(c),
        profile@ == profile_report(samples@, states@, p),
{
}

} // verus!
