//! What every operation on the store keeps: no record is lost, none comes from nowhere, and a
//! query can rely on what the memory tables, the tables and their files hold.
use vstd::prelude::*;
use vstd::utf8::encode_utf8;

use crate::proto::Insert;
use crate::storage::backend::{
    compaction_applied, flush_applied, flush_planned, BackendModel, FlushPlan,
};
use crate::storage::bloom::law_bloom_bounds;
use crate::storage::compactor::{law_without_entries, without_entries};
use crate::storage::engine::{
    batch_records, engine_opened, file_error, file_id, file_seq, files_error, files_max_id,
    files_max_seq, lemma_files_in_order, lemma_files_max, lemma_last_of_id, names_id, opened_from,
    range_ready, range_sources, EngineModel, NamedFile,
};
use crate::storage::frames::frames_to_end;
use crate::storage::idmap::{
    ascending, has_id, law_with_entry, law_without_entry, lemma_has_id, value_at, with_entry,
};
use crate::storage::index::index_storable;
use crate::storage::iter::{asked_for, table_orderable};
use crate::storage::laws::{
    engine_sorted, held_by, in_memory, in_tables, law_compaction_stored, law_flush_stored,
    law_insert_stored, law_prepare_flush_stored, law_range_exact, law_table_orderable, seqs_used,
    stored, table_holds, tables_hold, unambiguous,
};
use crate::storage::merge::merged;
use crate::storage::record::{has_key, law_record_order_total, rec_eq, rec_lt, record_bytes, seq_of};
use crate::storage::sorted::{law_with_records, strictly_sorted, with_records};
use crate::storage::sstable::{
    index_of, is_table_name, law_table_opens, max_seq, open_table_error, table_records,
    SSTableMeta,
};
use crate::storage::wal::{law_recovers_all, logged_in, recoverable, recovered};

verus! {

/// Whether the ids of the tables and of the memory tables that are being flushed were given out,
/// each to one of them.
pub open spec fn ids_used(m: EngineModel) -> bool {
    &&& forall|id: u64| #[trigger] has_id(m.tables, id) ==> id < m.next_table
    &&& forall|id: u64| #[trigger]
        has_id(m.frozen, id) ==> id < m.next_table && !has_id(m.tables, id)
}

/// Whether the store is as every operation leaves it: all is sorted, the files `files` of its
/// tables hold the records `held`, records with the same place are the same record, and the
/// numbers that were given out are not given out again.
pub open spec fn whole(
    m: EngineModel,
    files: Seq<(u64, Vec<u8>)>,
    held: Map<u64, Seq<Seq<u8>>>,
) -> bool {
    &&& engine_sorted(m)
    &&& ascending(files)
    &&& tables_hold(m.tables, files, held)
    &&& unambiguous(m, held)
    &&& seqs_used(m, held)
    &&& ids_used(m)
}

/// Whether the two stores hold the same records.
pub open spec fn same_records(
    m: EngineModel,
    held: Map<u64, Seq<Seq<u8>>>,
    n: EngineModel,
    held_after: Map<u64, Seq<Seq<u8>>>,
) -> bool {
    forall|x: Seq<u8>| #[trigger] stored(n, held_after, x) <==> stored(m, held, x)
}

proof fn lemma_max_seq(s: Seq<Seq<u8>>, i: int)
    requires
        0 <= i < s.len(),
        s[i].len() >= 24,
    ensures
        seq_of(s[i]) <= max_seq(s),
    decreases s.len(),
{
    if i < s.len() - 1 {
        assert(s.drop_last()[i] == s[i]);
        lemma_max_seq(s.drop_last(), i);
    }
}

/// Whether the files `named` are those of the tables: each that is named like a table holds what
/// `files` holds under its id, and each table has one.
pub open spec fn names_tables(
    named: Seq<NamedFile>,
    tables: Seq<(u64, SSTableMeta)>,
    files: Seq<(u64, Vec<u8>)>,
) -> bool {
    &&& forall|i: int|
        0 <= i < named.len() && is_table_name(encode_utf8((#[trigger] named[i]).name@)) ==> (
        file_id(named[i]) matches Some(id) && has_id(tables, id) && named[i].bytes@ == value_at(
            files,
            id,
        )@)
    &&& forall|id: u64| #[trigger] has_id(tables, id) ==> names_id(named, id)
}

/// Whether the log files hold every record of the memory tables, and no record that the store
/// does not hold.
pub open spec fn logs_cover(
    m: EngineModel,
    held: Map<u64, Seq<Seq<u8>>>,
    logs: Seq<Seq<u8>>,
) -> bool {
    &&& forall|i: int| 0 <= i < logs.len() ==> recoverable(#[trigger] logs[i])
    &&& forall|x: Seq<u8>| #[trigger] in_memory(m.mem, m.frozen, x) ==> logged_in(logs, x)
    &&& forall|x: Seq<u8>| #[trigger] logged_in(logs, x) ==> stored(m, held, x)
}

/// Whether the indexes of the tables can be read back.
pub open spec fn indexes_storable(
    tables: Seq<(u64, SSTableMeta)>,
    held: Map<u64, Seq<Seq<u8>>>,
) -> bool {
    forall|id: u64| #[trigger] has_id(tables, id) ==> index_storable(index_of(held[id]))
}

proof fn lemma_table_reopens(
    m: EngineModel,
    files: Seq<(u64, Vec<u8>)>,
    held: Map<u64, Seq<Seq<u8>>>,
    id: u64,
)
    requires
        whole(m, files, held),
        indexes_storable(m.tables, held),
        has_id(m.tables, id),
    ensures
        ({
            let file = value_at(files, id)@;
            &&& open_table_error(file) is None
            &&& table_records(file) == held[id]
            &&& forall|meta: SSTableMeta, path: Seq<char>| #[trigger]
                meta.opened(id, path, file) ==> table_holds(&meta, file, held[id]) && meta.bloom@
                    == value_at(m.tables, id).bloom@
        }),
{
    let meta = value_at(m.tables, id);
    let file = value_at(files, id)@;
    let s = held[id];
    assert(table_holds(&meta, file, s));
    law_bloom_bounds(&meta.bloom);
    law_table_opens(s, meta.bloom@);
    assert forall|n: SSTableMeta, path: Seq<char>| #[trigger]
        n.opened(id, path, file) implies table_holds(&n, file, s) && n.bloom@ == meta.bloom@ by {
        assert(n.describes(s) && n.bloom@ == meta.bloom@);
    }
}

proof fn lemma_max_seq_below(s: Seq<Seq<u8>>, bound: nat)
    requires
        bound > 0,
        forall|i: int| 0 <= i < s.len() ==> seq_of(#[trigger] s[i]) < bound,
    ensures
        max_seq(s) < bound,
    decreases s.len(),
{
    if s.len() > 0 {
        let front = s.drop_last();
        assert forall|i: int| 0 <= i < front.len() implies seq_of(#[trigger] front[i]) < bound by {
            assert(front[i] == s[i]);
        }
        lemma_max_seq_below(front, bound);
        assert(s[s.len() - 1] == s.last());
    }
}

proof fn lemma_files_max_below(named: Seq<NamedFile>)
    requires
        forall|i: int|
            0 <= i < named.len() ==> file_seq(#[trigger] named[i]) < u64::MAX && (file_id(named[i])
                matches Some(id) ==> id < u64::MAX),
    ensures
        files_max_seq(named) < u64::MAX,
        files_max_id(named) < u64::MAX,
    decreases named.len(),
{
    if named.len() > 0 {
        let front = named.drop_last();
        assert forall|i: int| 0 <= i < front.len() implies file_seq(#[trigger] front[i]) < u64::MAX
            && (file_id(front[i]) matches Some(id) ==> id < u64::MAX) by {
            assert(front[i] == named[i]);
        }
        lemma_files_max_below(front);
        assert(named[named.len() - 1] == named.last());
    }
}

/// An engine can be opened on the files of a whole store, and the numbers that it goes on with
/// do not run out.
pub proof fn law_store_reopens(
    m: EngineModel,
    files: Seq<(u64, Vec<u8>)>,
    held: Map<u64, Seq<Seq<u8>>>,
    named: Seq<NamedFile>,
)
    requires
        whole(m, files, held),
        indexes_storable(m.tables, held),
        names_tables(named, m.tables, files),
    ensures
        files_error(named) is None,
        files_max_seq(named) < u64::MAX,
        files_max_id(named) < u64::MAX,
{
    assert forall|i: int| 0 <= i < named.len() implies file_error(#[trigger] named[i]) is None
        && file_seq(named[i]) < u64::MAX && (file_id(named[i]) matches Some(id) ==> id
        < u64::MAX) by {
        if is_table_name(encode_utf8(named[i].name@)) {
            let id = file_id(named[i])->0;
            lemma_table_reopens(m, files, held, id);
            let s = held[id];
            assert forall|k: int| 0 <= k < s.len() implies seq_of(#[trigger] s[k]) < u64::MAX by {
                assert(s.contains(s[k]));
                assert(in_tables(m.tables, held, s[k]));
                assert(stored(m, held, s[k]));
            }
            lemma_max_seq_below(s, u64::MAX as nat);
        }
    }
    lemma_files_in_order(named);
    lemma_files_max_below(named);
}

/// An engine that is opened on the files and the logs of a whole store is whole, and it holds
/// the same records. Its tables have the same filters.
pub proof fn law_reopened_whole(
    m: EngineModel,
    files: Seq<(u64, Vec<u8>)>,
    held: Map<u64, Seq<Seq<u8>>>,
    named: Seq<NamedFile>,
    logs: Seq<Seq<u8>>,
    n: EngineModel,
)
    requires
        whole(m, files, held),
        indexes_storable(m.tables, held),
        names_tables(named, m.tables, files),
        logs_cover(m, held, logs),
        engine_sorted(n),
        engine_opened(n.base_dir, n.limit, logs, named, n),
    ensures
        whole(n, files, held),
        same_records(m, held, n, held),
        forall|id: u64| #[trigger] has_id(n.tables, id) <==> has_id(m.tables, id),
        forall|id: u64| #[trigger]
            has_id(n.tables, id) ==> value_at(n.tables, id).bloom@ == value_at(
                m.tables,
                id,
            ).bloom@,
{
    assert forall|id: u64| #[trigger] has_id(n.tables, id) <==> has_id(m.tables, id) by {
        if names_id(named, id) {
            let i = choose|i: int|
                0 <= i < named.len() && file_id(#[trigger] named[i]) == Some(id);
            assert(is_table_name(encode_utf8(named[i].name@)));
        }
    }
    assert forall|id: u64| #[trigger] has_id(n.tables, id) implies has_id(files, id)
        && table_holds(&value_at(n.tables, id), value_at(files, id)@, held[id]) && id
        < n.next_table && max_seq(held[id]) < n.next_seq && value_at(n.tables, id).bloom@
        == value_at(m.tables, id).bloom@ by {
        assert(has_id(m.tables, id));
        let i = lemma_last_of_id(named, id);
        lemma_files_max(named, i);
        lemma_table_reopens(m, files, held, id);
        assert(opened_from(n.base_dir, named[i], value_at(n.tables, id)));
        assert(is_table_name(encode_utf8(named[i].name@)));
    }
    lemma_reopened_records(m, held, logs, n);
    assert forall|x: Seq<u8>, y: Seq<u8>|
        #[trigger] stored(n, held, x) && #[trigger] stored(n, held, y) && rec_eq(
            x,
            y,
        ) implies x == y by {
        assert(stored(m, held, x) && stored(m, held, y));
    }
    assert forall|x: Seq<u8>| #[trigger] stored(n, held, x) implies seq_of(x) < n.next_seq by {
        if n.mem.contains(x) {
            let i = choose|i: int| 0 <= i < n.mem.len() && n.mem[i] == x;
            assert(has_key(n.mem[i]));
            lemma_max_seq(n.mem, i);
        } else {
            let id = choose|id: u64| #[trigger] has_id(n.tables, id) && held[id].contains(x);
            let s = held[id];
            let i = choose|i: int| 0 <= i < s.len() && s[i] == x;
            assert(table_holds(&value_at(n.tables, id), value_at(files, id)@, s));
            assert(has_key(s[i]));
            lemma_max_seq(s, i);
        }
    }
}

proof fn lemma_reopened_records(
    m: EngineModel,
    held: Map<u64, Seq<Seq<u8>>>,
    logs: Seq<Seq<u8>>,
    n: EngineModel,
)
    requires
        unambiguous(m, held),
        logs_cover(m, held, logs),
        n.mem == recovered(logs),
        n.frozen.len() == 0,
        forall|id: u64| #[trigger] has_id(n.tables, id) <==> has_id(m.tables, id),
    ensures
        same_records(m, held, n, held),
{
    law_recovers_all(logs);
    assert forall|x: Seq<u8>| #[trigger] stored(n, held, x) <==> stored(m, held, x) by {
        if n.mem.contains(x) {
            assert(logged_in(logs, x));
        }
        if in_tables(n.tables, held, x) {
            let id = choose|id: u64| #[trigger] has_id(n.tables, id) && held[id].contains(x);
            assert(has_id(m.tables, id));
        }
        if in_tables(m.tables, held, x) {
            let id = choose|id: u64| #[trigger] has_id(m.tables, id) && held[id].contains(x);
            assert(has_id(n.tables, id));
        }
        if in_memory(m.mem, m.frozen, x) {
            assert(logged_in(logs, x));
            let all = recovered(logs);
            let k = choose|k: int| 0 <= k < all.len() && rec_eq(#[trigger] all[k], x);
            assert(all.contains(all[k]));
            assert(logged_in(logs, all[k]));
            assert(stored(m, held, all[k]) && stored(m, held, x));
            assert(all[k] == x);
        }
    }
}

/// A store that is opened without tables is whole, and it holds what was recovered from its
/// logs.
pub proof fn law_opened_whole(
    m: EngineModel,
    files: Seq<(u64, Vec<u8>)>,
    held: Map<u64, Seq<Seq<u8>>>,
)
    requires
        engine_sorted(m),
        m.frozen.len() == 0,
        forall|id: u64| !#[trigger] has_id(m.tables, id),
        max_seq(m.mem) < m.next_seq,
        ascending(files),
    ensures
        whole(m, files, held),
        forall|x: Seq<u8>| #[trigger] stored(m, held, x) <==> m.mem.contains(x),
{
    assert forall|x: Seq<u8>| #[trigger] stored(m, held, x) implies seq_of(x) < m.next_seq by {
        let i = choose|i: int| 0 <= i < m.mem.len() && m.mem[i] == x;
        assert(has_key(m.mem[i]));
        lemma_max_seq(m.mem, i);
    }
    assert forall|x: Seq<u8>, y: Seq<u8>|
        #[trigger] stored(m, held, x) && #[trigger] stored(m, held, y) && rec_eq(
            x,
            y,
        ) implies x == y by {
        let i = choose|i: int| 0 <= i < m.mem.len() && m.mem[i] == x;
        let j = choose|j: int| 0 <= j < m.mem.len() && m.mem[j] == y;
        law_record_order_total(x, y);
        if i < j {
            assert(rec_lt(m.mem[i], m.mem[j]));
        } else if j < i {
            assert(rec_lt(m.mem[j], m.mem[i]));
        }
    }
}

/// An insert keeps the store whole. It adds just the record, under the next sequence number.
pub proof fn law_insert_whole(
    m: EngineModel,
    files: Seq<(u64, Vec<u8>)>,
    held: Map<u64, Seq<Seq<u8>>>,
    record: (i64, i64, Seq<u8>, Seq<u8>),
)
    requires
        whole(m, files, held),
        m.next_seq < u64::MAX,
        record.2.len() <= usize::MAX,
        record.3.len() <= usize::MAX,
    ensures
        ({
            let b = record_bytes(record.0, record.1, m.next_seq, record.2, record.3);
            &&& whole(m.with_insert(b), files, held)
            &&& forall|x: Seq<u8>| #[trigger]
                stored(m.with_insert(b), held, x) <==> stored(m, held, x) || x == b
        }),
{
    law_insert_stored(m, held, record.0, record.1, record.2, record.3);
}

/// A batch of inserts keeps the store whole. It adds just its records, under the next sequence
/// numbers in their order.
pub proof fn law_batch_whole(
    m: EngineModel,
    files: Seq<(u64, Vec<u8>)>,
    held: Map<u64, Seq<Seq<u8>>>,
    inserts: Seq<Insert>,
)
    requires
        whole(m, files, held),
        m.next_seq + inserts.len() <= u64::MAX,
        forall|i: int|
            0 <= i < inserts.len() ==> encode_utf8((#[trigger] inserts[i]).key@).len() <= usize::MAX
                && encode_utf8(inserts[i].value@).len() <= usize::MAX,
    ensures
        ({
            let recs = batch_records(inserts, m.next_seq);
            &&& whole(m.with_batch(recs), files, held)
            &&& forall|x: Seq<u8>| #[trigger]
                stored(m.with_batch(recs), held, x) <==> stored(m, held, x) || recs.contains(x)
        }),
    decreases inserts.len(),
{
    let recs = batch_records(inserts, m.next_seq);
    let after = m.with_batch(recs);
    if inserts.len() == 0 {
        assert(after.mem == m.mem);
        assert forall|x: Seq<u8>| #[trigger] stored(after, held, x) <==> stored(m, held, x) by {}
    } else {
        let front = inserts.drop_last();
        let last = inserts.last();
        assert(inserts[inserts.len() - 1] == last);
        assert forall|i: int| 0 <= i < front.len() implies encode_utf8(
            (#[trigger] front[i]).key@,
        ).len() <= usize::MAX && encode_utf8(front[i].value@).len() <= usize::MAX by {
            assert(front[i] == inserts[i]);
        }
        law_batch_whole(m, files, held, front);
        let some = batch_records(front, m.next_seq);
        let mid = m.with_batch(some);
        let record = (last.source_id, last.ts, encode_utf8(last.key@), encode_utf8(last.value@));
        let b = record_bytes(record.0, record.1, mid.next_seq, record.2, record.3);
        law_insert_whole(mid, files, held, record);
        assert(recs.drop_last() =~= some);
        assert(recs.last() == b);
        let end = mid.with_insert(b);
        assert(after.mem == end.mem);
        assert(after.next_seq == end.next_seq);
        assert forall|x: Seq<u8>| #[trigger] stored(after, held, x) <==> stored(
            m,
            held,
            x,
        ) || recs.contains(x) by {
            assert(stored(after, held, x) <==> stored(end, held, x));
            assert(stored(end, held, x) <==> stored(mid, held, x) || x == b);
            assert(recs =~= some.push(b));
            if some.contains(x) {
                let i = choose|i: int| 0 <= i < some.len() && some[i] == x;
                assert(recs[i] == x);
            }
            if recs.contains(x) && x != b {
                let i = choose|i: int| 0 <= i < recs.len() && recs[i] == x;
                assert(some[i] == x);
            }
            if x == b {
                assert(recs[recs.len() - 1] == b);
            }
        }
        lemma_same_kept(end, held, after, held);
    }
}

/// What the sequence numbers and the places are is a matter of the records that are stored.
proof fn lemma_same_kept(
    m: EngineModel,
    held: Map<u64, Seq<Seq<u8>>>,
    n: EngineModel,
    held_after: Map<u64, Seq<Seq<u8>>>,
)
    requires
        same_records(m, held, n, held_after),
        m.next_seq <= n.next_seq,
        unambiguous(m, held),
        seqs_used(m, held),
    ensures
        unambiguous(n, held_after),
        seqs_used(n, held_after),
{
    assert forall|x: Seq<u8>| #[trigger] stored(n, held_after, x) implies seq_of(x) < n.next_seq by {
        assert(stored(m, held, x));
    }
    assert forall|x: Seq<u8>, y: Seq<u8>|
        #[trigger] stored(n, held_after, x) && #[trigger] stored(n, held_after, y) && rec_eq(
            x,
            y,
        ) implies x == y by {
        assert(stored(m, held, x) && stored(m, held, y));
    }
}

/// Setting the memory table aside for a flush keeps the store whole and all its records.
pub proof fn law_planned_whole(
    before: BackendModel,
    plan: Option<FlushPlan>,
    after: BackendModel,
    files: Seq<(u64, Vec<u8>)>,
    held: Map<u64, Seq<Seq<u8>>>,
)
    requires
        flush_planned(before, plan, after),
        whole(before.engine, files, held),
        before.engine.next_table < u64::MAX,
    ensures
        whole(after.engine, files, held),
        same_records(before.engine, held, after.engine, held),
{
    let (m, n) = (before.engine, after.engine);
    if plan is Some {
        law_prepare_flush_stored(m, held);
        assert forall|x: Seq<u8>| #[trigger] stored(n, held, x) <==> stored(m, held, x) by {
            let mid = EngineModel {
                mem: Seq::empty(),
                mem_size: 0,
                frozen: with_entry(m.frozen, m.next_table, m.mem),
                next_table: (m.next_table + 1) as u64,
                ..m
            };
            assert(stored(n, held, x) <==> stored(mid, held, x));
        }
        lemma_same_kept(m, held, n, held);
        assert forall|id: u64| #[trigger] has_id(n.frozen, id) implies id < n.next_table
            && !has_id(n.tables, id) by {
            law_with_entry(m.frozen, m.next_table, m.mem, id);
            if id == m.next_table && has_id(m.tables, id) {
                assert(id < m.next_table);
            }
        }
    }
}

/// Taking up the table to which a memory table was flushed keeps the store whole and all its
/// records, once the file of the table is there.
pub proof fn law_flush_whole(
    before: BackendModel,
    meta: SSTableMeta,
    paths: Seq<String>,
    after: BackendModel,
    file: Vec<u8>,
    files: Seq<(u64, Vec<u8>)>,
    held: Map<u64, Seq<Seq<u8>>>,
)
    requires
        flush_applied(before, meta, paths, after),
        whole(before.engine, files, held),
        has_id(before.engine.frozen, meta.id),
        table_holds(&meta, file@, value_at(before.engine.frozen, meta.id)),
    ensures
        ({
            let s = value_at(before.engine.frozen, meta.id);
            &&& whole(
                after.engine,
                with_entry(files, meta.id, file),
                held.insert(meta.id, s),
            )
            &&& same_records(before.engine, held, after.engine, held.insert(meta.id, s))
        }),
{
    let (m, n) = (before.engine, after.engine);
    let id = meta.id;
    let s = value_at(m.frozen, id);
    let held_after = held.insert(id, s);
    let files_after = with_entry(files, id, file);
    law_flush_stored(m, held, meta);
    lemma_same_kept(m, held, n, held_after);
    law_with_entry(files, id, file, id);
    assert forall|k: u64| #[trigger] has_id(n.tables, k) implies has_id(files_after, k)
        && table_holds(&value_at(n.tables, k), value_at(files_after, k)@, held_after[k]) && k
        < n.next_table by {
        law_with_entry(m.tables, id, meta, k);
        law_with_entry(files, id, file, k);
        if k != id {
            assert(has_id(m.tables, k));
        }
    }
    assert forall|k: u64| #[trigger] has_id(n.frozen, k) implies k < n.next_table && !has_id(
        n.tables,
        k,
    ) by {
        law_without_entry(m.frozen, id, k);
        law_with_entry(m.tables, id, meta, k);
        assert(has_id(m.frozen, k));
    }
}

/// Taking up the table into which others were merged keeps the store whole and all its records,
/// once the file of the table is there.
pub proof fn law_compaction_whole(
    before: BackendModel,
    meta: SSTableMeta,
    ids: Seq<u64>,
    paths: Seq<String>,
    after: BackendModel,
    s: Seq<Seq<u8>>,
    file: Vec<u8>,
    files: Seq<(u64, Vec<u8>)>,
    held: Map<u64, Seq<Seq<u8>>>,
)
    requires
        compaction_applied(before, meta, ids, paths, after),
        whole(before.engine, files, held),
        forall|i: int| 0 <= i < ids.len() ==> has_id(before.engine.tables, #[trigger] ids[i]),
        meta.id < before.engine.next_table,
        !has_id(before.engine.tables, meta.id),
        !has_id(before.engine.frozen, meta.id),
        table_holds(&meta, file@, s),
        forall|x: Seq<u8>| #[trigger] s.contains(x) <==> held_by(held, ids, x),
    ensures
        whole(after.engine, with_entry(files, meta.id, file), held.insert(meta.id, s)),
        same_records(before.engine, held, after.engine, held.insert(meta.id, s)),
{
    let (m, n) = (before.engine, after.engine);
    let id = meta.id;
    let held_after = held.insert(id, s);
    let files_after = with_entry(files, id, file);
    let rest = without_entries(m.tables, ids);
    law_compaction_stored(m, held, ids, meta, s);
    assert forall|x: Seq<u8>| #[trigger] stored(n, held_after, x) <==> stored(m, held, x) by {
        let mid = EngineModel { tables: with_entry(rest, id, meta), ..m };
        assert(stored(n, held_after, x) <==> stored(mid, held_after, x));
    }
    lemma_same_kept(m, held, n, held_after);
    law_with_entry(files, id, file, id);
    law_without_entries(m.tables, ids, id);
    assert forall|k: u64| #[trigger] has_id(n.tables, k) implies has_id(files_after, k)
        && table_holds(&value_at(n.tables, k), value_at(files_after, k)@, held_after[k]) && k
        < n.next_table && (k == id || has_id(m.tables, k)) by {
        law_without_entries(m.tables, ids, k);
        law_with_entry(rest, id, meta, k);
        law_with_entry(files, id, file, k);
        if k != id {
            assert(has_id(m.tables, k));
        }
    }
    assert forall|k: u64| #[trigger] has_id(n.frozen, k) implies k < n.next_table && !has_id(
        n.tables,
        k,
    ) by {
        assert(has_id(m.frozen, k));
    }
}

/// Whether one of the log files holds the records from which the memory table `s` was filled.
pub open spec fn has_log(logs: Seq<Seq<u8>>, s: Seq<Seq<u8>>) -> bool {
    exists|i: int|
        0 <= i < logs.len() && frames_to_end(#[trigger] logs[i], 0) is Some && s == with_records(
            Seq::empty(),
            frames_to_end(logs[i], 0)->0,
        )
}

/// While the memory table and each one that is being flushed have their logs, and the logs hold
/// nothing that is not stored, an engine can be opened on them.
pub proof fn law_logs_cover(m: EngineModel, held: Map<u64, Seq<Seq<u8>>>, logs: Seq<Seq<u8>>)
    requires
        forall|i: int| 0 <= i < logs.len() ==> recoverable(#[trigger] logs[i]),
        forall|x: Seq<u8>| #[trigger] logged_in(logs, x) ==> stored(m, held, x),
        has_log(logs, m.mem),
        forall|i: int| 0 <= i < m.frozen.len() ==> has_log(logs, (#[trigger] m.frozen[i]).1),
    ensures
        logs_cover(m, held, logs),
{
    assert forall|x: Seq<u8>| #[trigger] in_memory(m.mem, m.frozen, x) implies logged_in(
        logs,
        x,
    ) by {
        lemma_memory_logged(m, logs, x);
    }
}

proof fn lemma_memory_logged(m: EngineModel, logs: Seq<Seq<u8>>, x: Seq<u8>)
    requires
        forall|i: int| 0 <= i < logs.len() ==> recoverable(#[trigger] logs[i]),
        has_log(logs, m.mem),
        forall|i: int| 0 <= i < m.frozen.len() ==> has_log(logs, (#[trigger] m.frozen[i]).1),
        in_memory(m.mem, m.frozen, x),
    ensures
        logged_in(logs, x),
{
    let s = if m.mem.contains(x) {
        m.mem
    } else {
        let i = choose|i: int| 0 <= i < m.frozen.len() && (#[trigger] m.frozen[i]).1.contains(x);
        m.frozen[i].1
    };
    assert(has_log(logs, s) && s.contains(x));
    let i = choose|i: int|
        0 <= i < logs.len() && frames_to_end(#[trigger] logs[i], 0) is Some && s == with_records(
            Seq::empty(),
            frames_to_end(logs[i], 0)->0,
        );
    assert(recoverable(logs[i]));
    law_with_records(Seq::empty(), frames_to_end(logs[i], 0)->0);
}

/// While the memory table and each one that is being flushed have their logs, all their records
/// are recovered from these.
pub proof fn law_logs_recover_memory(m: EngineModel, logs: Seq<Seq<u8>>)
    requires
        forall|i: int| 0 <= i < logs.len() ==> recoverable(#[trigger] logs[i]),
        forall|x: Seq<u8>, y: Seq<u8>|
            #[trigger] logged_in(logs, x) && #[trigger] logged_in(logs, y) && rec_eq(x, y) ==> x
                == y,
        has_log(logs, m.mem),
        forall|i: int| 0 <= i < m.frozen.len() ==> has_log(logs, (#[trigger] m.frozen[i]).1),
    ensures
        forall|x: Seq<u8>| #[trigger]
            in_memory(m.mem, m.frozen, x) ==> recovered(logs).contains(x),
{
    law_recovers_all(logs);
    assert forall|x: Seq<u8>| #[trigger] in_memory(m.mem, m.frozen, x) implies recovered(
        logs,
    ).contains(x) by {
        lemma_memory_logged(m, logs, x);
        let all = recovered(logs);
        let k = choose|k: int| 0 <= k < all.len() && rec_eq(#[trigger] all[k], x);
        assert(all.contains(all[k]));
        assert(logged_in(logs, all[k]));
    }
}

/// Every query can be run on a whole store whose filters have bits.
pub proof fn law_whole_ready(
    m: EngineModel,
    files: Seq<(u64, Vec<u8>)>,
    held: Map<u64, Seq<Seq<u8>>>,
    source_id: i64,
    key: Seq<u8>,
    start_ts: i64,
    end_ts: i64,
)
    requires
        whole(m, files, held),
        forall|i: int| 0 <= i < m.tables.len() ==> (#[trigger] m.tables[i]).1.bloom@.usable(),
    ensures
        range_ready(m.tables, files, source_id, key, start_ts, end_ts),
{
    assert forall|i: int| 0 <= i < m.tables.len() implies (#[trigger] m.tables[i]).1.bloom@.usable()
        && table_orderable(
        &m.tables[i].1,
        value_at(files, m.tables[i].0)@,
        source_id,
        key,
        start_ts,
        end_ts,
    ) by {
        let id = m.tables[i].0;
        lemma_has_id(m.tables, id);
        assert(has_id(m.tables, id));
        law_table_orderable(
            &m.tables[i].1,
            value_at(files, id)@,
            held[id],
            source_id,
            key,
            start_ts,
            end_ts,
        );
    }
}

/// A query on a whole store gives exactly the stored records that it asks for, sorted and each
/// once.
pub proof fn law_query_whole(
    m: EngineModel,
    files: Seq<(u64, Vec<u8>)>,
    held: Map<u64, Seq<Seq<u8>>>,
    query: (i64, Seq<u8>, i64, i64, Seq<u8>),
    srcs: Seq<Seq<Seq<u8>>>,
)
    requires
        whole(m, files, held),
        0 <= query.2 <= query.3,
        query.1.len() <= usize::MAX,
        range_sources(m, files, query.0, query.1, query.2, query.3, query.4, srcs),
    ensures
        strictly_sorted(merged(srcs, None)),
        forall|x: Seq<u8>| #[trigger]
            merged(srcs, None).contains(x) <==> stored(m, held, x) && asked_for(
                x,
                query.0,
                query.1,
                query.2,
                query.3,
                query.4,
            ),
{
    law_range_exact(m, files, held, query.0, query.1, query.2, query.3, query.4, srcs);
}

} // verus!
