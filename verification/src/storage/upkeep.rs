//! What holds of the upkeep of the store: when tables are merged and which, and what is counted.
use vstd::arithmetic::div_mod::lemma_small_mod;
use vstd::prelude::*;
use vstd::utf8::encode_utf8;

use crate::codec::lemma_le_bytes_len;
use crate::metrics::{counted_up, engine_snapshot, EngineMetrics, EngineSnapshot, Snapshot, Tails};
use crate::proto::{record_model, Command, Insert};
use crate::storage::backend::{
    batch_done, compaction_applied, compaction_planned, flush_applied, flush_planned, has_grown,
    insert_done, insert_fits, models, picked, range_started, result_applied, sendable,
    tally_gauges, tally_latency, tally_range, tally_range_failure, upkeep_done, Backend,
    BackendModel, FlushPlan, IoCommand, IoResult, Operation, Reply, Upkeep,
};
use crate::storage::compaction::ids_of;
use crate::storage::engine::{
    batch_records, bytes_total, lemma_size_total_split, oldest, size_total, Engine, EngineModel,
};
use crate::storage::frames::framed;
use crate::storage::idmap::{ascending, has_id, id_place, lemma_id_place, with_entry, IdMap};
use crate::storage::record::{
    all_fields_error, has_value, key_of, law_record_round_trip, lemma_record_len, record_bytes,
    seq_of, source_of, time_of, value_of,
};
use crate::storage::sstable::SSTableMeta;
use crate::storage::wal::{counted_after, Wal, WalError};

verus! {

/// How many bytes the files of the tables have together: the size of each, added up.
pub open spec fn bytes_of_files(tables: Seq<(u64, SSTableMeta)>) -> int {
    tables.fold_left(0, |sum: int, t: (u64, SSTableMeta)| sum + t.1.file_size)
}

proof fn lemma_bytes_of_files(tables: Seq<(u64, SSTableMeta)>)
    ensures
        bytes_of_files(tables) == size_total(tables),
    decreases tables.len(),
{
    reveal_with_fuel(Seq::fold_left, 2);
    if tables.len() > 0 {
        lemma_bytes_of_files(tables.drop_last());
    }
}

proof fn lemma_oldest(tables: Seq<(u64, SSTableMeta)>, busy: Set<u64>, n: nat)
    ensures
        oldest(tables, busy, n).len() <= n,
        forall|k: int|
            0 <= k < oldest(tables, busy, n).len() ==> 0 <= #[trigger] oldest(tables, busy, n)[k]
                < tables.len() && !busy.contains(tables[oldest(tables, busy, n)[k]].1.id),
        forall|k: int, l: int|
            0 <= k < l < oldest(tables, busy, n).len() ==> #[trigger] oldest(tables, busy, n)[k]
                < #[trigger] oldest(tables, busy, n)[l],
        forall|i: int|
            0 <= i < tables.len() && !busy.contains((#[trigger] tables[i]).1.id) ==> oldest(
                tables,
                busy,
                n,
            ).contains(i) || (oldest(tables, busy, n).len() == n && forall|k: int|
                0 <= k < n ==> #[trigger] oldest(tables, busy, n)[k] < i),
    decreases tables.len(),
{
    if tables.len() > 0 {
        let front = tables.drop_last();
        lemma_oldest(front, busy, n);
        let g = oldest(front, busy, n);
        let o = oldest(tables, busy, n);
        assert forall|i: int|
            0 <= i < tables.len() && !busy.contains((#[trigger] tables[i]).1.id) implies o.contains(
            i,
        ) || (o.len() == n && forall|k: int| 0 <= k < n ==> #[trigger] o[k] < i) by {
            if i < front.len() {
                assert(front[i] == tables[i]);
                if g.contains(i) {
                    let k = choose|k: int| 0 <= k < g.len() && g[k] == i;
                    assert(o[k] == i);
                }
            } else if g.len() < n {
                assert(o[o.len() - 1] == i);
            }
        }
    }
}

/// Which tables are being compacted once a result is taken up: those that were before, but for
/// those that a compaction has put together.
pub open spec fn still_busy(before: BackendModel, result: IoResult) -> Set<u64> {
    match result {
        IoResult::Flush { .. } => before.engine.compacting,
        IoResult::Compaction { ids_to_remove, .. } => before.engine.compacting.difference(
            ids_to_remove@.to_set(),
        ),
    }
}

/// When the files of the tables have eight times as many bytes as a memory table may have, or
/// more, and two tables are not being compacted, taking up a result asks for a compaction,
/// however many tables there are.
pub proof fn law_compaction_due(
    before: BackendModel,
    result: IoResult,
    upkeep: Upkeep,
    after: BackendModel,
    i: int,
    j: int,
)
    requires
        upkeep_done(before, result, upkeep, after),
        bytes_of_files(after.engine.tables) >= 8 * after.engine.limit,
        0 <= i < j < after.engine.tables.len(),
        !still_busy(before, result).contains(after.engine.tables[i].1.id),
        !still_busy(before, result).contains(after.engine.tables[j].1.id),
    ensures
        upkeep.command matches Some(IoCommand::CompactSSTables { tables, .. })
            && tables@.len() >= 2,
{
    let mid = choose|mid: BackendModel| #[trigger]
        result_applied(before, result, upkeep.stale@, mid) && compaction_planned(
            mid,
            upkeep.command,
            after,
        );
    let m = mid.engine;
    lemma_bytes_of_files(m.tables);
    lemma_oldest(m.tables, m.compacting, 4);
    let o = oldest(m.tables, m.compacting, 4);
    assert(m.tables == after.engine.tables);
    assert(o.contains(i) || o.len() == 4);
    assert(o.contains(j) || o.len() == 4);
    if o.len() < 4 {
        let k = choose|k: int| 0 <= k < o.len() && o[k] == i;
        let l = choose|l: int| 0 <= l < o.len() && o[l] == j;
        assert(k != l);
    }
    assert(picked(m).len() == o.len());
}

/// As long as the files have fewer bytes than that, or fewer than two tables are not being
/// compacted, none is asked for, and nothing changes but what the result brings.
pub proof fn law_compaction_not_due(before: BackendModel, cmd: Option<IoCommand>, after: BackendModel)
    requires
        compaction_planned(before, cmd, after),
        bytes_of_files(before.engine.tables) < 8 * before.engine.limit || forall|i: int, j: int|
            0 <= i < before.engine.tables.len() && 0 <= j < before.engine.tables.len()
                && !before.engine.compacting.contains((#[trigger] before.engine.tables[i]).1.id)
                && !before.engine.compacting.contains((#[trigger] before.engine.tables[j]).1.id)
                ==> i == j,
    ensures
        cmd is None,
        after == before,
{
    let m = before.engine;
    lemma_bytes_of_files(m.tables);
    lemma_oldest(m.tables, m.compacting, 4);
    let o = oldest(m.tables, m.compacting, 4);
    if o.len() >= 2 && bytes_of_files(m.tables) >= 8 * m.limit {
        let (i, j) = (o[0], o[1]);
        assert(!m.compacting.contains(m.tables[i].1.id));
        assert(!m.compacting.contains(m.tables[j].1.id));
        assert(false);
    }
    assert(picked(m).len() == o.len());
}

/// A compaction is of two to four tables, none of which is being compacted, and they are the
/// oldest ones: no table that is free and left out is older than one of them, and none is left
/// out while there are fewer than four. From then on they are being compacted, and the id that
/// the new table gets is not used again.
pub proof fn law_compaction_of_oldest(
    before: BackendModel,
    tables: Vec<SSTableMeta>,
    base_path: String,
    file_id: u64,
    after: BackendModel,
)
    requires
        ascending(before.engine.tables),
        forall|i: int|
            0 <= i < before.engine.tables.len() ==> (#[trigger] before.engine.tables[i]).0
                == before.engine.tables[i].1.id,
        before.engine.next_table < u64::MAX,
        compaction_planned(
            before,
            Some(IoCommand::CompactSSTables { tables, base_path, file_id }),
            after,
        ),
    ensures
        2 <= tables@.len() <= 4,
        forall|k: int|
            0 <= k < tables@.len() ==> !before.engine.compacting.contains(
                (#[trigger] tables@[k]).id,
            ) && after.engine.compacting.contains(tables@[k].id),
        forall|k: int|
            0 <= k < tables@.len() ==> exists|i: int|
                0 <= i < before.engine.tables.len() && (#[trigger] before.engine.tables[i]).0
                    == (#[trigger] tables@[k]).id && tables@[k].same(&before.engine.tables[i].1),
        forall|k: int, l: int|
            0 <= k < l < tables@.len() ==> (#[trigger] tables@[k]).id < (#[trigger] tables@[l]).id,
        forall|i: int, k: int|
            0 <= i < before.engine.tables.len() && 0 <= k < tables@.len()
                && !before.engine.compacting.contains((#[trigger] before.engine.tables[i]).0)
                && !after.engine.compacting.contains(before.engine.tables[i].0)
                ==> (#[trigger] tables@[k]).id < before.engine.tables[i].0,
        forall|i: int|
            0 <= i < before.engine.tables.len() && !before.engine.compacting.contains(
                (#[trigger] before.engine.tables[i]).0,
            ) && !after.engine.compacting.contains(before.engine.tables[i].0) ==> tables@.len()
                == 4,
        forall|id: u64|
            before.engine.compacting.contains(id) ==> #[trigger] after.engine.compacting.contains(
                id,
            ),
        forall|id: u64| #[trigger]
            after.engine.compacting.contains(id) && !before.engine.compacting.contains(id)
                ==> exists|k: int| 0 <= k < tables@.len() && (#[trigger] tables@[k]).id == id,
        file_id == before.engine.next_table,
        after.engine.next_table == file_id + 1,
        after.engine.tables == before.engine.tables,
        after.engine.mem == before.engine.mem,
        after.engine.frozen == before.engine.frozen,
        base_path@ == before.engine.base_dir,
{
    let m = before.engine;
    let t = m.tables;
    let o = oldest(t, m.compacting, 4);
    let ids = picked(m);
    lemma_oldest(t, m.compacting, 4);
    assert(ids.len() == o.len());
    assert(ids_of(tables@).len() == tables@.len());
    assert forall|k: int| 0 <= k < tables@.len() implies (#[trigger] tables@[k]).id == ids[k]
        && tables@[k].id == t[o[k]].0 && ids.to_set().contains(tables@[k].id) by {
        assert(ids_of(tables@)[k] == ids[k]);
        assert(t[o[k]].0 == t[o[k]].1.id);
        assert(ids.contains(ids[k]));
    }
    assert forall|k: int| 0 <= k < tables@.len() implies !m.compacting.contains(
        (#[trigger] tables@[k]).id,
    ) && after.engine.compacting.contains(tables@[k].id) by {
        assert(!m.compacting.contains(t[o[k]].1.id));
    }
    assert forall|k: int| 0 <= k < tables@.len() implies exists|i: int|
        0 <= i < t.len() && (#[trigger] t[i]).0 == (#[trigger] tables@[k]).id && tables@[k].same(
            &t[i].1,
        ) by {
        assert(t[o[k]].0 == tables@[k].id);
    }
    assert forall|k: int, l: int| 0 <= k < l < tables@.len() implies (#[trigger] tables@[k]).id < (
    #[trigger] tables@[l]).id by {
        assert(o[k] < o[l]);
        assert(t[o[k]].0 < t[o[l]].0);
    }
    assert forall|i: int|
        0 <= i < t.len() && !m.compacting.contains((#[trigger] t[i]).0)
            && !after.engine.compacting.contains(t[i].0) implies !o.contains(i) && tables@.len()
        == 4 by {
        assert(!m.compacting.contains(t[i].1.id));
        if o.contains(i) {
            let l = choose|l: int| 0 <= l < o.len() && o[l] == i;
            assert(ids[l] == t[i].0);
            assert(ids.contains(ids[l]));
        }
    }
    assert forall|i: int, k: int|
        0 <= i < t.len() && 0 <= k < tables@.len() && !m.compacting.contains((#[trigger] t[i]).0)
            && !after.engine.compacting.contains(t[i].0) implies (#[trigger] tables@[k]).id
        < t[i].0 by {
        assert(!m.compacting.contains(t[i].1.id));
        assert(!o.contains(i));
        assert(o[k] < i);
        assert(t[o[k]].0 < t[i].0);
    }
    assert forall|id: u64| #[trigger]
        after.engine.compacting.contains(id) && !m.compacting.contains(id) implies exists|k: int|
        0 <= k < tables@.len() && (#[trigger] tables@[k]).id == id by {
        assert(ids.contains(id));
        let k = choose|k: int| 0 <= k < ids.len() && ids[k] == id;
        assert(tables@[k].id == id);
    }
}

/// A table that is taken up adds the bytes of its file, so it never does away with the need for
/// a compaction.
pub proof fn law_flush_keeps_need(
    before: BackendModel,
    new_meta: SSTableMeta,
    paths: Seq<String>,
    after: BackendModel,
)
    requires
        ascending(before.engine.tables),
        !has_id(before.engine.tables, new_meta.id),
        flush_applied(before, new_meta, paths, after),
    ensures
        bytes_of_files(after.engine.tables) == bytes_of_files(before.engine.tables)
            + new_meta.file_size,
        has_grown(before.engine) ==> has_grown(after.engine),
        has_grown(after.engine) <==> bytes_of_files(after.engine.tables) >= 8
            * before.engine.limit,
{
    let t = before.engine.tables;
    let u = with_entry(t, new_meta.id, new_meta);
    let p = id_place(t, new_meta.id);
    lemma_id_place(t, new_meta.id);
    lemma_size_total_split(u, p);
    assert(u.remove(p) =~= t);
    lemma_bytes_of_files(t);
    lemma_bytes_of_files(u);
}

/// `s` with the times that `t` tells.
pub open spec fn with_times(s: EngineSnapshot, t: EngineSnapshot) -> EngineSnapshot {
    EngineSnapshot {
        insert_latency: t.insert_latency,
        batch_insert_latency: t.batch_insert_latency,
        range_latency: t.range_latency,
        flush_duration: t.flush_duration,
        compaction_duration: t.compaction_duration,
        ..s
    }
}

/// How many times were recorded, as a snapshot tells it.
pub open spec fn times(s: Option<Snapshot>) -> u64 {
    match s {
        Some(s) => s.count,
        None => 0,
    }
}

/// Whether as many times of each kind are told.
pub open spec fn as_many_times(s: EngineSnapshot, t: EngineSnapshot) -> bool {
    &&& times(s.insert_latency) == times(t.insert_latency)
    &&& times(s.batch_insert_latency) == times(t.batch_insert_latency)
    &&& times(s.range_latency) == times(t.range_latency)
    &&& times(s.flush_duration) == times(t.flush_duration)
    &&& times(s.compaction_duration) == times(t.compaction_duration)
}

/// A record that was stored is told as one insert and one record more, and as nothing else. One
/// that was not is told as one failure more.
pub proof fn law_insert_told(
    before: BackendModel,
    i: Insert,
    reply: Result<(), WalError>,
    needs_flush: bool,
    after: BackendModel,
    a: EngineMetrics,
    b: EngineMetrics,
    tails: Tails,
)
    requires
        insert_done(before, i, reply, needs_flush, after),
        before.tally == Some(a@),
        after.tally == Some(b@),
    ensures
        ({
            let s = engine_snapshot(a, tails);
            let t = engine_snapshot(b, tails);
            &&& as_many_times(s, t)
            &&& reply is Ok <==> before.engine.wal_open
            &&& reply is Ok && s.insert_count < u64::MAX && s.records_inserted < u64::MAX ==> t
                == with_times(
                EngineSnapshot {
                    insert_count: (s.insert_count + 1) as u64,
                    records_inserted: (s.records_inserted + 1) as u64,
                    ..s
                },
                t,
            )
            &&& reply is Err && s.insert_failures < u64::MAX ==> t == with_times(
                EngineSnapshot { insert_failures: (s.insert_failures + 1) as u64, ..s },
                t,
            )
        }),
{
}

/// A batch that was stored is told as one batch more and as many records more as it has. One
/// that was not is told as that many failures.
pub proof fn law_batch_told(
    before: BackendModel,
    inserts: Seq<Insert>,
    reply: Result<(), WalError>,
    needs_flush: bool,
    after: BackendModel,
    a: EngineMetrics,
    b: EngineMetrics,
    tails: Tails,
)
    requires
        batch_done(before, inserts, reply, needs_flush, after),
        before.tally == Some(a@),
        after.tally == Some(b@),
    ensures
        ({
            let s = engine_snapshot(a, tails);
            let t = engine_snapshot(b, tails);
            &&& as_many_times(s, t)
            &&& reply is Ok && s.batch_insert_count < u64::MAX && s.records_inserted + inserts.len()
                <= u64::MAX ==> t == with_times(
                EngineSnapshot {
                    batch_insert_count: (s.batch_insert_count + 1) as u64,
                    records_inserted: (s.records_inserted + inserts.len()) as u64,
                    ..s
                },
                t,
            )
            &&& reply is Err && s.insert_failures + inserts.len() <= u64::MAX ==> t == with_times(
                EngineSnapshot {
                    insert_failures: (s.insert_failures + inserts.len()) as u64,
                    ..s
                },
                t,
            )
        }),
{
}

/// A query that is through is told as one query more and as many scanned records more as it
/// went through; a query that failed as one failure more.
pub proof fn law_range_told(
    a: EngineMetrics,
    b: EngineMetrics,
    c: EngineMetrics,
    scanned: nat,
    tails: Tails,
)
    requires
        tally_range(Some(a@), scanned) == Some(b@),
        tally_range_failure(Some(a@)) == Some(c@),
    ensures
        ({
            let s = engine_snapshot(a, tails);
            let t = engine_snapshot(b, tails);
            let u = engine_snapshot(c, tails);
            &&& as_many_times(s, t) && as_many_times(s, u)
            &&& s.range_count < u64::MAX && s.records_scanned + scanned <= u64::MAX ==> t
                == with_times(
                EngineSnapshot {
                    range_count: (s.range_count + 1) as u64,
                    records_scanned: (s.records_scanned + scanned) as u64,
                    ..s
                },
                t,
            )
            &&& s.range_failures < u64::MAX ==> u == with_times(
                EngineSnapshot { range_failures: (s.range_failures + 1) as u64, ..s },
                u,
            )
        }),
{
}

/// A memory table that was written to a file is told as one flush more, and as nothing else.
pub proof fn law_flush_told(
    before: BackendModel,
    new_meta: SSTableMeta,
    paths: Seq<String>,
    after: BackendModel,
    a: EngineMetrics,
    b: EngineMetrics,
    tails: Tails,
)
    requires
        flush_applied(before, new_meta, paths, after),
        before.tally == Some(a@),
        after.tally == Some(b@),
    ensures
        ({
            let s = engine_snapshot(a, tails);
            let t = engine_snapshot(b, tails);
            &&& as_many_times(s, t)
            &&& s.flush_count < u64::MAX ==> t == with_times(
                EngineSnapshot { flush_count: (s.flush_count + 1) as u64, ..s },
                t,
            )
        }),
{
}

/// Tables that were merged are told as one compaction more, and as nothing else.
pub proof fn law_compaction_told(
    before: BackendModel,
    new_meta: SSTableMeta,
    ids_to_remove: Seq<u64>,
    paths: Seq<String>,
    after: BackendModel,
    a: EngineMetrics,
    b: EngineMetrics,
    tails: Tails,
)
    requires
        compaction_applied(before, new_meta, ids_to_remove, paths, after),
        before.tally == Some(a@),
        after.tally == Some(b@),
    ensures
        ({
            let s = engine_snapshot(a, tails);
            let t = engine_snapshot(b, tails);
            &&& as_many_times(s, t)
            &&& s.compaction_count < u64::MAX ==> t == with_times(
                EngineSnapshot { compaction_count: (s.compaction_count + 1) as u64, ..s },
                t,
            )
        }),
{
}

/// The gauges of the memory table and of the tables are told as they were last set.
pub proof fn law_gauges_told(
    a: EngineMetrics,
    b: EngineMetrics,
    size: usize,
    count: usize,
    tails: Tails,
)
    requires
        tally_gauges(Some(a@), size, count) == Some(b@),
        size <= i64::MAX,
        count <= i64::MAX,
    ensures
        ({
            let s = engine_snapshot(a, tails);
            let t = engine_snapshot(b, tails);
            &&& as_many_times(s, t)
            &&& t == with_times(
                EngineSnapshot { memtable_bytes: size as i64, sstable_count: count as i64, ..s },
                t,
            )
        }),
{
}

/// A time that is recorded is told as one more of just its kind, and no count changes.
pub proof fn law_latency_told(
    a: EngineMetrics,
    b: EngineMetrics,
    op: Operation,
    us: u64,
    tails: Tails,
)
    requires
        tally_latency(Some(a@), op, us) == Some(b@),
    ensures
        ({
            let s = engine_snapshot(a, tails);
            let t = engine_snapshot(b, tails);
            let more = |x: Option<Snapshot>, y: Option<Snapshot>|
                times(x) < u64::MAX ==> times(y) == times(x) + 1;
            &&& t == with_times(s, t)
            &&& if op is Insert {
                more(s.insert_latency, t.insert_latency)
            } else {
                times(s.insert_latency) == times(t.insert_latency)
            }
            &&& if op is BatchInsert {
                more(s.batch_insert_latency, t.batch_insert_latency)
            } else {
                times(s.batch_insert_latency) == times(t.batch_insert_latency)
            }
            &&& if op is Range {
                more(s.range_latency, t.range_latency)
            } else {
                times(s.range_latency) == times(t.range_latency)
            }
            &&& if op is Flush {
                more(s.flush_duration, t.flush_duration)
            } else {
                times(s.flush_duration) == times(t.flush_duration)
            }
            &&& if op is Compaction {
                more(s.compaction_duration, t.compaction_duration)
            } else {
                times(s.compaction_duration) == times(t.compaction_duration)
            }
        }),
{
}

/// A memory table is to be written to a file as soon as the bytes of its records are more than
/// its limit. Each record counts with its key, its value and forty bytes.
pub proof fn law_insert_flush_due(
    before: BackendModel,
    i: Insert,
    reply: Result<(), WalError>,
    needs_flush: bool,
    after: BackendModel,
)
    requires
        insert_done(before, i, reply, needs_flush, after),
        before.engine.wal_open,
    ensures
        after.engine.mem_size == before.engine.mem_size + 40 + encode_utf8(i.key@).len()
            + encode_utf8(i.value@).len(),
        after.engine.limit == before.engine.limit,
        needs_flush <==> before.engine.mem_size + 40 + encode_utf8(i.key@).len() + encode_utf8(
            i.value@,
        ).len() > before.engine.limit,
        before.engine.next_seq < u64::MAX ==> after.engine.next_seq == before.engine.next_seq + 1,
        after.engine.frozen == before.engine.frozen,
        after.engine.tables == before.engine.tables,
{
    lemma_record_len(
        i.source_id,
        i.ts,
        before.engine.next_seq,
        encode_utf8(i.key@),
        encode_utf8(i.value@),
    );
}

/// Without a log nothing is stored: the client hears of it, and the store stays as it is.
pub proof fn law_insert_refused(
    before: BackendModel,
    i: Insert,
    reply: Result<(), WalError>,
    needs_flush: bool,
    after: BackendModel,
)
    requires
        insert_done(before, i, reply, needs_flush, after),
        !before.engine.wal_open,
    ensures
        reply == Err::<(), WalError>(WalError::Unavailable),
        after.engine == before.engine,
        !needs_flush,
{
}

/// The records of a batch are stored as they were asked for, with their sources, times, keys and
/// values, and get sequence numbers one after the other in the order of the batch.
pub proof fn law_batch_numbered(inserts: Seq<Insert>, seq: u64, i: int)
    requires
        0 <= i < inserts.len(),
        seq + inserts.len() <= u64::MAX,
        encode_utf8(inserts[i].key@).len() <= usize::MAX,
        encode_utf8(inserts[i].value@).len() <= usize::MAX,
    ensures
        batch_records(inserts, seq).len() == inserts.len(),
        ({
            let b = batch_records(inserts, seq)[i];
            &&& source_of(b) == inserts[i].source_id
            &&& time_of(b) == inserts[i].ts
            &&& seq_of(b) == seq + i
            &&& key_of(b) == encode_utf8(inserts[i].key@)
            &&& value_of(b) == encode_utf8(inserts[i].value@)
            &&& has_value(b)
        }),
{
    law_record_round_trip(
        inserts[i].source_id,
        inserts[i].ts,
        (seq + i) as u64,
        encode_utf8(inserts[i].key@),
        encode_utf8(inserts[i].value@),
    );
}

/// A batch is stored as a whole or not at all. A memory table is to be written to a file as soon
/// as the bytes of its records are more than its limit. Every record uses up a sequence number.
pub proof fn law_batch_flush_due(
    before: BackendModel,
    inserts: Seq<Insert>,
    reply: Result<(), WalError>,
    needs_flush: bool,
    after: BackendModel,
)
    requires
        batch_done(before, inserts, reply, needs_flush, after),
        before.engine.next_seq + inserts.len() <= u64::MAX,
    ensures
        reply is Ok <==> before.engine.wal_open || inserts.len() == 0,
        reply is Err ==> after.engine.mem == before.engine.mem && after.engine.wal_pending
            == before.engine.wal_pending && !needs_flush,
        after.engine.next_seq == before.engine.next_seq + inserts.len(),
        after.engine.limit == before.engine.limit,
        reply is Ok ==> after.engine.mem_size == before.engine.mem_size + inserts.fold_left(
            0,
            |sum: int, i: Insert|
                sum + 40 + encode_utf8(i.key@).len() + encode_utf8(i.value@).len(),
        ),
        reply is Ok && inserts.len() > 0 ==> (needs_flush <==> after.engine.mem_size
            > before.engine.limit),
        inserts.len() == 0 ==> !needs_flush,
{
    lemma_batch_bytes(inserts, before.engine.next_seq);
}

proof fn lemma_batch_bytes(inserts: Seq<Insert>, seq: u64)
    ensures
        bytes_total(batch_records(inserts, seq)) == inserts.fold_left(
            0,
            |sum: int, i: Insert|
                sum + 40 + encode_utf8(i.key@).len() + encode_utf8(i.value@).len(),
        ),
    decreases inserts.len(),
{
    reveal_with_fuel(Seq::fold_left, 2);
    if inserts.len() > 0 {
        let front = inserts.drop_last();
        let last = inserts.last();
        lemma_batch_bytes(front, seq);
        assert(batch_records(inserts, seq).drop_last() =~= batch_records(front, seq));
        lemma_record_len(
            last.source_id,
            last.ts,
            (seq + inserts.len() - 1) as u64,
            encode_utf8(last.key@),
            encode_utf8(last.value@),
        );
    }
}

/// What is sent on of a query at once: the records in their order, up to 1024 of them, up to the
/// end of the query, or up to the first of which a field cannot be read.
pub proof fn law_portion_of_query(s: Seq<Seq<u8>>)
    ensures
        ({
            let n = sendable(s, Backend::RANGE_BATCH_SIZE as nat);
            &&& n <= s.len()
            &&& n <= 1024
            &&& forall|i: int| 0 <= i < n ==> all_fields_error(#[trigger] s[i]) is None
            &&& n < 1024 && n < s.len() ==> all_fields_error(s[n as int]) is Some
            &&& models(s, n).len() == n
            &&& forall|i: int| 0 <= i < n ==> #[trigger] models(s, n)[i] == record_model(s[i])
        }),
{
    lemma_portion(s, 1024);
}

proof fn lemma_portion(s: Seq<Seq<u8>>, limit: nat)
    ensures
        sendable(s, limit) <= s.len(),
        sendable(s, limit) <= limit,
        forall|i: int| 0 <= i < sendable(s, limit) ==> all_fields_error(#[trigger] s[i]) is None,
        sendable(s, limit) < limit && sendable(s, limit) < s.len() ==> all_fields_error(
            s[sendable(s, limit) as int],
        ) is Some,
    decreases limit,
{
    if !(limit == 0 || s.len() == 0 || all_fields_error(s[0]) is Some) {
        let t = s.drop_first();
        lemma_portion(t, (limit - 1) as nat);
        assert forall|i: int| 0 <= i < sendable(s, limit) implies all_fields_error(
            #[trigger] s[i],
        ) is None by {
            if i > 0 {
                assert(t[i - 1] == s[i]);
            }
        }
    }
}

/// A record can be taken in as long as there is a sequence number for it and room for its bytes.
pub proof fn law_room_for_insert(m: EngineModel, i: Insert)
    ensures
        insert_fits(m, i) <==> m.next_seq < u64::MAX && m.mem_size + record_bytes(
            i.source_id,
            i.ts,
            m.next_seq,
            encode_utf8(i.key@),
            encode_utf8(i.value@),
        ).len() <= usize::MAX,
{
    lemma_record_len(
        i.source_id,
        i.ts,
        m.next_seq,
        encode_utf8(i.key@),
        encode_utf8(i.value@),
    );
}

/// The files that are deleted after a compaction are just those of the tables that were merged.
pub proof fn law_merged_files_deleted(
    before: BackendModel,
    new_meta: SSTableMeta,
    ids: Seq<u64>,
    paths: Seq<String>,
    after: BackendModel,
    base: &str,
    i: int,
    path: String,
)
    requires
        compaction_applied(before, new_meta, ids, paths, after),
        base@ == before.engine.base_dir,
        0 <= i < ids.len(),
        call_ensures(SSTableMeta::format_file_path, (base, ids[i]), path),
    ensures
        paths.len() == ids.len(),
        paths[i]@ == path@,
        !after.engine.compacting.contains(ids[i]),
        after.engine.mem == before.engine.mem,
        after.engine.next_seq == before.engine.next_seq,
{
    assert(ids.to_set().contains(ids[i]));
}

/// The log of a memory table that is flushed is closed under the number of its table, and a new
/// one is begun in its place.
pub proof fn law_log_closed(
    before: BackendModel,
    plan: FlushPlan,
    after: BackendModel,
    base: &str,
    closed: String,
    active: String,
)
    requires
        flush_planned(before, Some(plan), after),
        base@ == before.engine.base_dir,
        call_ensures(Wal::format_inactive_wal_path, (base, plan.sst_id), closed),
        call_ensures(Wal::format_active_wal_path, (base,), active),
    ensures
        plan.stale_wal@ == closed@,
        after.engine.wal_path == active@,
        after.engine.wal_pending.len() == 0,
        plan.wal_bytes@ == before.engine.wal_pending,
        plan.memtable.records() == before.engine.mem,
{
}

/// What is counted of the log where it is counted: a record with its bytes, and a batch with its
/// records and with all bytes that go to the file, which are eight more for each.
#[verifier::spinoff_prover]
pub proof fn law_log_counts(m: EngineModel, b: Seq<u8>, recs: Seq<Seq<u8>>, n: u64, bytes: u64)
    requires
        m.wal_counts == Some((n, bytes)),
        n < u64::MAX,
        bytes + b.len() <= u64::MAX,
        n + recs.len() <= u64::MAX,
        bytes + recs.fold_left(0, |sum: int, r: Seq<u8>| sum + 8 + r.len()) <= u64::MAX,
    ensures
        m.with_insert(b).wal_counts == Some(((n + 1) as u64, (bytes + b.len()) as u64)),
        m.with_batch(recs).wal_counts == Some(
            (
                (n + recs.len()) as u64,
                (bytes + recs.fold_left(0, |sum: int, r: Seq<u8>| sum + 8 + r.len())) as u64,
            ),
        ),
{
    lemma_framed_bytes(recs);
    lemma_small_mod((n + 1) as nat, 0x1_0000_0000_0000_0000);
    lemma_small_mod((bytes + b.len()) as nat, 0x1_0000_0000_0000_0000);
    lemma_small_mod((n + recs.len()) as nat, 0x1_0000_0000_0000_0000);
    lemma_small_mod((bytes + framed(recs).len()) as nat, 0x1_0000_0000_0000_0000);
}

proof fn lemma_framed_bytes(recs: Seq<Seq<u8>>)
    ensures
        framed(recs).len() == recs.fold_left(0, |sum: int, r: Seq<u8>| sum + 8 + r.len()),
    decreases recs.len(),
{
    reveal_with_fuel(Seq::fold_left, 2);
    if recs.len() > 0 {
        lemma_framed_bytes(recs.drop_last());
        lemma_le_bytes_len(recs.last().len(), 8);
    }
}

/// What an engine tells of itself is what it holds: how many tables and the bytes of their files,
/// and how full the memory table is of what it takes.
pub proof fn law_store_figures(
    e: Engine,
    count: usize,
    bytes: u64,
    capacity: usize,
    empty: bool,
    size: usize,
    stats: (usize, usize),
)
    requires
        call_ensures(Engine::sstable_count, (&e,), count),
        call_ensures(Engine::total_sstable_size, (&e,), bytes),
        call_ensures(Engine::memtable_capacity, (&e,), capacity),
        call_ensures(Engine::is_memtable_empty, (&e,), empty),
        call_ensures(Engine::memtable_size, (&e,), size),
        call_ensures(Engine::send_stats, (&e,), stats),
    ensures
        count == e@.tables.len(),
        bytes == bytes_of_files(e@.tables),
        capacity == e@.limit,
        empty <==> e@.mem == Seq::<Seq<u8>>::empty(),
        size == e@.mem_size,
        stats == (size, count),
{
    lemma_bytes_of_files(e@.tables);
    if empty {
        assert(e@.mem =~= Seq::<Seq<u8>>::empty());
    }
}

/// Tables that are marked as being merged are so marked, besides those that were, and nothing
/// else of the store changes; once the mark is taken off again, the store is as it was.
pub proof fn law_tables_marked(e: &mut Engine, f: &mut Engine, ids: &[u64], id: u64)
    requires
        call_ensures(Engine::mark_compacting, (e, ids), ()),
        call_ensures(Engine::unmark_compacting, (f, ids), ()),
    ensures
        final(e)@.compacting.contains(id) <==> old(e)@.compacting.contains(id) || ids@.contains(
            id,
        ),
        final(e)@.tables == old(e)@.tables,
        final(e)@.mem == old(e)@.mem,
        final(f)@.compacting.contains(id) <==> old(f)@.compacting.contains(id) && !ids@.contains(
            id,
        ),
        old(f)@ == final(e)@ && (forall|x: u64|
            #[trigger] ids@.contains(x) ==> !old(e)@.compacting.contains(x)) ==> final(f)@ == old(
            e,
        )@,
{
    assert(ids@.to_set().contains(id) <==> ids@.contains(id));
    if old(f)@ == final(e)@ && (forall|x: u64|
        #[trigger] ids@.contains(x) ==> !old(e)@.compacting.contains(x)) {
        assert forall|x: u64| final(f)@.compacting.contains(x) <==> old(
            e,
        )@.compacting.contains(x) by {
            assert(ids@.to_set().contains(x) <==> ids@.contains(x));
        }
        assert(final(f)@.compacting =~= old(e)@.compacting);
    }
}

/// Each command is answered in its own kind. To ask for the metrics changes nothing, and only an
/// insert decides anew whether the memory table is to be flushed.
pub proof fn law_commands_answered(
    b: &mut Backend,
    cmd: Command,
    files: &IdMap<Vec<u8>>,
    flush: bool,
    r: (Reply, bool),
)
    requires
        call_ensures(Backend::handle_command, (b, cmd, files, flush), r),
    ensures
        r.0 is Insert <==> cmd is Insert || cmd is BatchInsert,
        r.0 is Range <==> cmd is Range,
        r.0 is Metrics <==> cmd is Metrics,
        cmd is Metrics ==> final(b)@ == old(b)@,
        cmd is Metrics || cmd is Range ==> r.1 == flush,
        cmd matches Command::Insert(i) ==> (r.0 matches Reply::Insert(res) && insert_done(
            old(b)@,
            i,
            res,
            r.1,
            final(b)@,
        )),
        cmd matches Command::BatchInsert(c) ==> (r.0 matches Reply::Insert(res) && batch_done(
            old(b)@,
            c.records@,
            res,
            r.1,
            final(b)@,
        )),
        cmd matches Command::Range(q) ==> (r.0 matches Reply::Range(res) && range_started(
            old(b)@,
            q,
            files@,
            res,
            final(b)@,
        )),
{
}

/// What is counted of the log goes up as any counter does, also over the highest number.
pub proof fn law_log_counts_on(n: u64, m: u64, records: nat, bytes: nat)
    ensures
        counted_after(Some((n, m)), records, bytes) == Some(
            (counted_up(n, records), counted_up(m, bytes)),
        ),
        counted_after(None, records, bytes) is None,
{
}

} // verus!
