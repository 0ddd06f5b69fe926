//! What holds of the operations of the store, from what they are given to what they give back.
use vstd::prelude::*;
use vstd::utf8::{encode_utf8, encode_utf8_decode_utf8, encode_utf8_valid_utf8};

use crate::codec::{bytes_lt, law_contains_anywhere};
use crate::proto::{record_model, BatchInsert, Insert, Range};
use crate::storage::backend::{
    batch_done, compaction_planned, flush_planned, insert_done, models, range_started,
    record_views, sendable, tally_range, tally_range_failure, upkeep_done, Backend, FlushPlan,
    IoCommand, IoResult, RangeBatch, RangeTask, Upkeep,
};
use crate::storage::bloom::{law_bloom_no_false_negatives, BloomFilter};
use crate::storage::compaction::{
    compact, ids_of, merge_of, CompactionCommand, CompactionResult,
};
use crate::storage::engine::{
    bytes_total, file_id, files_max_id, files_max_seq, held_ids, last_of_id, lemma_files_max, names_id, opened_from, Engine,
    NamedFile, OpenError,
};
use crate::storage::frames::{
    frame, frameable, framed, frames_in, law_frames_to_end_framed,
};
use crate::storage::idmap::{
    ascending, has_id, law_with_entry, law_without_entry, lemma_has_id, value_at, IdMap,
};
use crate::storage::index::index_storable;
use crate::storage::iter::{range_error, RangeError};
use crate::storage::laws::{
    held_by, law_inserted_found, law_merge_exact, table_holds, tables_hold,
};
use crate::storage::layout::{errors_of, law_highest_number, law_path, law_store_refused};
use crate::storage::listing::table_names;
use crate::storage::memtable::{in_span, is_log, MemTable};
use crate::storage::merge::{merged, MergeIter};
use crate::storage::record::{
    all_fields_error, has_key, key_of, law_record_round_trip, rec_eq, record_bytes, seq_of,
    source_of, time_of, Record, RecordError,
};
use crate::storage::sorted::{all_keyed, law_with_record, rec_views, strictly_sorted};
use crate::storage::sstable::{
    index_of, is_table_name, law_table_opens, law_table_records, max_seq, table_bytes,
    table_records, SSTableMeta, TableError,
};
use crate::storage::upkeep::law_portion_of_query;
use crate::storage::wal::{file_views, recovered, Wal, WalError};
use crate::storage::whole::whole;
use crate::text::texts;

verus! {

/// A record that was inserted into a store is found by a query of that store just where the query
/// asks for its source and its key, its time is not before the start of the range and before its
/// end, and the text that is looked for stands somewhere in the value.
pub proof fn law_insert_then_range(
    e: &mut Engine,
    files: IdMap<Vec<u8>>,
    held: Map<u64, Seq<Seq<u8>>>,
    source_id: i64,
    ts: i64,
    key: &str,
    value: &str,
    r: Result<bool, WalError>,
    source: i64,
    asked: &str,
    start_ts: i64,
    end_ts: i64,
    filter: &str,
    found: Result<MergeIter, RangeError>,
)
    requires
        whole(old(e)@, files@, held),
        old(e)@.next_seq < u64::MAX,
        old(e)@.wal_open,
        encode_utf8(key@).len() <= usize::MAX,
        encode_utf8(value@).len() <= usize::MAX,
        encode_utf8(asked@).len() <= usize::MAX,
        0 <= start_ts <= end_ts,
        call_ensures(Engine::insert_record, (e, source_id, ts, key, value), r),
        call_ensures(
            Engine::range,
            (final(e), source, asked, start_ts, end_ts, filter, &files),
            found,
        ),
    ensures
        r is Ok,
        found is Ok,
        ({
            let b = record_bytes(
                source_id,
                ts,
                old(e)@.next_seq,
                encode_utf8(key@),
                encode_utf8(value@),
            );
            let found = found->Ok_0.remaining();
            &&& found.contains(b) ==> source == source_id && encode_utf8(asked@) == encode_utf8(
                key@,
            ) && start_ts <= ts < end_ts && exists|a: Seq<u8>, c: Seq<u8>|
                encode_utf8(value@) == #[trigger] (a + encode_utf8(filter@) + c)
            &&& forall|a: Seq<u8>, c: Seq<u8>|
                source == source_id && asked@ == key@ && start_ts <= ts < end_ts && encode_utf8(
                    value@,
                ) == #[trigger] (a + encode_utf8(filter@) + c) ==> found.contains(b)
        }),
{
    let (k, v, q, f) = (
        encode_utf8(key@),
        encode_utf8(value@),
        encode_utf8(asked@),
        encode_utf8(filter@),
    );
    let it = found->Ok_0;
    law_inserted_found(
        old(e)@,
        files@,
        held,
        (source_id, ts, k, v),
        (source, q, start_ts, end_ts, f),
        it.sources(),
    );
    law_contains_anywhere(v, f);
}

/// A memory table takes a record in unless one stands in its place already. Its size grows by the
/// bytes of the record, and it says so once it is larger than its limit.
pub proof fn law_memtable_insert(m: &mut MemTable, rec: Record, r: bool)
    requires
        old(m).wf(),
        has_key(rec@),
        call_ensures(MemTable::insert, (m, rec), r),
    ensures
        final(m).size() == old(m).size() + rec@.len(),
        final(m).bound() == old(m).bound(),
        r <==> old(m).size() + rec@.len() > old(m).bound(),
        strictly_sorted(final(m).records()),
        forall|x: Seq<u8>|
            old(m).records().contains(x) ==> #[trigger] final(m).records().contains(x),
        (forall|i: int|
            0 <= i < old(m).records().len() ==> !rec_eq(#[trigger] old(m).records()[i], rec@))
            ==> final(m).records().contains(rec@) && final(m).records().len()
            == old(m).records().len() + 1,
        forall|x: Seq<u8>| #[trigger]
            final(m).records().contains(x) ==> old(m).records().contains(x) || x == rec@,
{
    law_with_record(old(m).records(), rec@);
    if forall|i: int|
        0 <= i < old(m).records().len() ==> !rec_eq(#[trigger] old(m).records()[i], rec@) {
        assert(final(m).records().len() == old(m).records().len() + 1);
    }
}

/// What a memory table gives for a source, a time and a key is a record of it with these, the one
/// with the highest sequence number; and it gives one where there is one.
pub proof fn law_memtable_get(
    m: MemTable,
    source_id: i64,
    ts: i64,
    key: &str,
    r: Option<&Record>,
    x: Seq<u8>,
)
    requires
        call_ensures(MemTable::get, (&m, source_id, ts, key), r),
    ensures
        r matches Some(rec) ==> m.records().contains(rec@) && source_of(rec@) == source_id
            && time_of(rec@) == ts && key_of(rec@) == encode_utf8(key@),
        m.records().contains(x) && source_of(x) == source_id && time_of(x) == ts && key_of(x)
            == encode_utf8(key@) ==> (r matches Some(rec) && seq_of(x) <= seq_of(rec@)),
{
    let s = m.records();
    if s.contains(x) && is_log(x, source_id, ts, encode_utf8(key@)) {
        let i = choose|i: int| 0 <= i < s.len() && s[i] == x;
        assert(is_log(s[i], source_id, ts, encode_utf8(key@)));
        assert(r is Some);
        let rec = r->0;
        assert(seq_of(s[i]) <= seq_of(rec@));
    }
}

/// Of a memory table a source and a range of times give all its records with these and no others,
/// in their order. Taking its records away leaves it empty and gives all of them.
pub proof fn law_memtable_range(
    m: MemTable,
    source_id: i64,
    start_ts: i64,
    end_ts: i64,
    v: Vec<Record>,
    t: &mut MemTable,
    frozen: MemTable,
    x: Seq<u8>,
)
    requires
        call_ensures(MemTable::clone_range, (&m, source_id, start_ts, end_ts), v),
        call_ensures(MemTable::freeze, (t,), frozen),
    ensures
        rec_views(v@).contains(x) <==> m.records().contains(x) && source_of(x) == source_id
            && start_ts <= time_of(x) < end_ts,
        frozen.records() == old(t).records(),
        frozen.size() == old(t).size(),
        final(t).records().len() == 0,
        final(t).size() == 0,
        final(t).bound() == old(t).bound(),
{
    let p = |b: Seq<u8>| in_span(b, source_id, start_ts, end_ts);
    lemma_filter_contains(m.records(), p, x);
}

proof fn lemma_filter_contains(s: Seq<Seq<u8>>, p: spec_fn(Seq<u8>) -> bool, x: Seq<u8>)
    ensures
        s.filter(p).contains(x) <==> s.contains(x) && p(x),
    decreases s.len(),
{
    reveal(Seq::filter);
    if s.len() > 0 {
        let front = s.drop_last();
        lemma_filter_contains(front, p, x);
        let f = front.filter(p);
        if s.contains(x) && p(x) {
            let i = choose|i: int| 0 <= i < s.len() && s[i] == x;
            if i < front.len() {
                assert(front[i] == x);
                let k = choose|k: int| 0 <= k < f.len() && f[k] == x;
                assert(s.filter(p)[k] == x);
            } else {
                assert(s.filter(p)[f.len() as int] == x);
            }
        }
        if s.filter(p).contains(x) {
            let k = choose|k: int| 0 <= k < s.filter(p).len() && s.filter(p)[k] == x;
            if k < f.len() {
                assert(f[k] == x);
                let i = choose|i: int| 0 <= i < front.len() && front[i] == x;
                assert(s[i] == x);
            } else {
                assert(s[s.len() - 1] == x);
            }
        }
    }
}

/// What was written to a log and then read from its file is just the records that were written,
/// in their order.
pub proof fn law_log_written_and_read(
    w: &mut Wal,
    recs: &[Record],
    r: Result<(), WalError>,
    x: &mut Wal,
    bytes: Vec<u8>,
    file: &[u8],
    read: Result<Vec<Record>, WalError>,
)
    requires
        old(w).pending().len() == 0,
        old(w).is_open(),
        call_ensures(Wal::write_many, (w, recs), r),
        *old(x) == *final(w),
        call_ensures(Wal::flush_buffer, (x,), bytes),
        file@ == bytes@,
        call_ensures(Wal::recover_file, (file,), read),
        forall|i: int| 0 <= i < recs@.len() ==> (#[trigger] recs@[i])@.len() <= u64::MAX,
    ensures
        r is Ok,
        read matches Ok(v) && rec_views(v@) == rec_views(recs@),
        final(x).pending().len() == 0,
{
    let s = rec_views(recs@);
    let none = Seq::<u8>::empty();
    assert forall|i: int| 0 <= i < s.len() implies (#[trigger] s[i]).len() <= u64::MAX by {
        assert(s[i] == recs@[i]@);
    }
    law_frames_to_end_framed(s, none);
    assert(old(w).pending() =~= none);
    assert(file@ =~= framed(s) + none);
}

/// A record that is written to a log is put behind what is in it, and only there; a log that is
/// not there takes nothing and says so.
pub proof fn law_log_write(w: &mut Wal, rec: Record, r: Result<(), WalError>)
    requires
        call_ensures(Wal::write_one, (w, &rec), r),
    ensures
        r is Ok <==> old(w).is_open(),
        r is Ok ==> final(w).pending() == old(w).pending() + frame(rec@),
        r is Err ==> final(w).pending() == old(w).pending(),
        final(w).file_path() == old(w).file_path(),
        final(w).is_open() == old(w).is_open(),
{
}

/// A filter says of what was put into it that it may be there, and of what it said so before it
/// says so still.
pub proof fn law_filter_remembers(
    f: &mut BloomFilter,
    source_id: i64,
    key: &[u8],
    before: bool,
    source: i64,
    asked: &[u8],
    after: bool,
)
    requires
        old(f)@.usable(),
        call_ensures(BloomFilter::contains, (old(f), source, asked), before),
        call_ensures(BloomFilter::insert, (f, source_id, key), ()),
        call_ensures(BloomFilter::contains, (final(f), source, asked), after),
    ensures
        before ==> after,
        source == source_id && asked@ == key@ ==> after,
{
    law_bloom_no_false_negatives(old(f)@, final(f)@, source_id, key@, source, asked@);
}

/// What was put under an id is found there until something else is put there or it is taken away;
/// what is under other ids stays.
pub proof fn law_map_entries<V>(
    m: &mut IdMap<V>,
    id: u64,
    v: V,
    other: u64,
    before: Option<&V>,
    put: Option<&V>,
    rest: Option<&V>,
    n: &mut IdMap<V>,
    gone: Option<&V>,
    kept: Option<&V>,
)
    requires
        old(m).wf(),
        other != id,
        call_ensures(IdMap::<V>::get, (old(m), other), before),
        call_ensures(IdMap::<V>::insert, (m, id, v), ()),
        call_ensures(IdMap::<V>::get, (final(m), id), put),
        call_ensures(IdMap::<V>::get, (final(m), other), rest),
        *old(n) == *final(m),
        call_ensures(IdMap::<V>::remove, (n, id), ()),
        call_ensures(IdMap::<V>::get, (final(n), id), gone),
        call_ensures(IdMap::<V>::get, (final(n), other), kept),
    ensures
        put == Some(&v),
        rest == before,
        gone is None,
        kept == before,
{
    law_with_entry(old(m)@, id, v, other);
    law_without_entry(old(n)@, id, other);
    law_without_entry(old(n)@, id, id);
}

/// The tables of a directory are listed in the order of their names: all files whose names end as
/// those of tables do, and no others.
pub proof fn law_tables_listed(listing: Vec<String>, v: Vec<String>, name: Seq<char>)
    requires
        call_ensures(table_names, (&listing,), v),
    ensures
        texts(v@).contains(name) <==> texts(listing@).contains(name) && is_table_name(
            encode_utf8(name),
        ),
        forall|i: int, j: int|
            0 <= i < j < texts(v@).len() ==> !bytes_lt(
                encode_utf8(#[trigger] texts(v@)[j]),
                encode_utf8(#[trigger] texts(v@)[i]),
            ),
        is_table_name(encode_utf8(name)) <==> encode_utf8(name).len() > 4 && encode_utf8(
            name,
        ).skip(encode_utf8(name).len() - 4) == seq![46u8, 115, 115, 116],
{
    let p = |n: Seq<char>| is_table_name(encode_utf8(n));
    let s = texts(listing@);
    s.filter(p).to_multiset_ensures();
    texts(v@).to_multiset_ensures();
    assert(texts(v@).contains(name) <==> texts(v@).to_multiset().count(name) > 0);
    assert(s.filter(p).contains(name) <==> s.filter(p).to_multiset().count(name) > 0);
    lemma_names_contain(s, p, name);
    assert(seq![46u8] + seq![115u8, 115, 116] =~= seq![46u8, 115, 115, 116]);
}

proof fn lemma_names_contain(s: Seq<Seq<char>>, p: spec_fn(Seq<char>) -> bool, x: Seq<char>)
    ensures
        s.filter(p).contains(x) <==> s.contains(x) && p(x),
    decreases s.len(),
{
    reveal(Seq::filter);
    if s.len() > 0 {
        let front = s.drop_last();
        lemma_names_contain(front, p, x);
        let f = front.filter(p);
        if s.contains(x) && p(x) {
            let i = choose|i: int| 0 <= i < s.len() && s[i] == x;
            if i < front.len() {
                assert(front[i] == x);
                let k = choose|k: int| 0 <= k < f.len() && f[k] == x;
                assert(s.filter(p)[k] == x);
            } else {
                assert(s.filter(p)[f.len() as int] == x);
            }
        }
        if s.filter(p).contains(x) {
            let k = choose|k: int| 0 <= k < s.filter(p).len() && s.filter(p)[k] == x;
            if k < f.len() {
                assert(f[k] == x);
                let i = choose|i: int| 0 <= i < front.len() && front[i] == x;
                assert(s[i] == x);
            } else {
                assert(s[s.len() - 1] == x);
            }
        }
    }
}

/// What the store does on a record, a batch, a query, a result and at the end of a round is what
/// is stated of each of these.
pub proof fn law_store_operations(
    a: &mut Backend,
    i: Insert,
    inserted: (Result<(), WalError>, bool),
    b: &mut Backend,
    batch: BatchInsert,
    batched: (Result<(), WalError>, bool),
    c: &mut Backend,
    q: Range,
    files: IdMap<Vec<u8>>,
    asked: Result<RangeTask, RangeError>,
    d: &mut Backend,
    result: IoResult,
    upkeep: Upkeep,
    e: &mut Backend,
    planned: Option<FlushPlan>,
    f: &mut Backend,
    compaction: Option<IoCommand>,
)
    requires
        call_ensures(Backend::handle_insert, (a, &i), inserted),
        call_ensures(Backend::handle_batch_insert, (b, batch), batched),
        call_ensures(Backend::handle_range, (c, &q, &files), asked),
        call_ensures(Backend::take_up, (d, result), upkeep),
        call_ensures(Backend::send_flush_cmd, (e,), planned),
        call_ensures(Backend::send_compaction_cmd, (f,), compaction),
    ensures
        insert_done(old(a)@, i, inserted.0, inserted.1, final(a)@),
        batch_done(old(b)@, batch.records@, batched.0, batched.1, final(b)@),
        range_started(old(c)@, q, files@, asked, final(c)@),
        upkeep_done(old(d)@, result, upkeep, final(d)@),
        flush_planned(old(e)@, planned, final(e)@),
        compaction_planned(old(f)@, compaction, final(f)@),
{
}

/// At the end of a round the memory table is taken out to be flushed just where that is due and
/// it holds something: all its records go with it, and none stays behind.
pub proof fn law_round_ended(b: &mut Backend, needs_flush: bool, plan: Option<FlushPlan>)
    requires
        old(b)@.engine.next_table < u64::MAX,
        ascending(old(b)@.engine.frozen),
        call_ensures(Backend::end_round, (b, needs_flush), plan),
    ensures
        plan is Some <==> needs_flush && old(b)@.engine.mem.len() > 0,
        plan is None ==> final(b)@ == old(b)@,
        plan matches Some(p) ==> p.memtable.records() == old(b)@.engine.mem && p.sst_id
            == old(b)@.engine.next_table && p.wal_bytes@ == old(b)@.engine.wal_pending
            && final(b)@.engine.mem.len() == 0 && final(b)@.engine.mem_size == 0 && has_id(
            final(b)@.engine.frozen,
            p.sst_id,
        ) && value_at(final(b)@.engine.frozen, p.sst_id) == old(b)@.engine.mem && final(b)@.engine.tables == old(b)@.engine.tables && final(b)@.engine.next_table
            == p.sst_id + 1,
{
    let m = old(b)@.engine;
    law_with_entry(m.frozen, m.next_table, m.mem, m.next_table);
}

/// A flush that goes on remembers the log that it was for, under the id of its table, and writes
/// the memory table that was taken out to that table.
pub proof fn law_flush_confirmed(
    b: &mut Backend,
    plan: FlushPlan,
    r: (IoCommand, IoCommand),
    other: u64,
)
    requires
        ascending(old(b)@.stale),
        call_ensures(Backend::confirm_flush, (b, plan), r),
    ensures
        has_id(final(b)@.stale, plan.sst_id) && value_at(final(b)@.stale, plan.sst_id)
            == plan.stale_wal@,
        other != plan.sst_id ==> has_id(final(b)@.stale, other) == has_id(old(b)@.stale, other),
        final(b)@.engine == old(b)@.engine,
        r.1 matches IoCommand::FlushMemtable { memtable, base_path, sst_id } && memtable
            == plan.memtable && sst_id == plan.sst_id && base_path@ == old(b)@.engine.base_dir,
        r.0 is ResyncWal,
{
    law_with_entry(old(b)@.stale, plan.sst_id, plan.stale_wal@, other);
}

/// A query that is through is counted as such with the records that were gone through, and as
/// failed too where it failed. The store stays as it is.
pub proof fn law_query_finished(b: &mut Backend, scanned: u64, failed: bool)
    requires
        call_ensures(Backend::finish_range, (b, scanned, failed), ()),
    ensures
        final(b)@.engine == old(b)@.engine,
        final(b)@.stale == old(b)@.stale,
        !failed ==> final(b)@.tally == tally_range(old(b)@.tally, scanned as nat),
        failed ==> final(b)@.tally == tally_range(
            tally_range_failure(old(b)@.tally),
            scanned as nat,
        ),
{
}

/// What is to go to the file of the log is handed over once, all of it, and is to be made lasting
/// at once where the log is not synced from time to time.
pub proof fn law_log_handed_over(
    engine: Engine,
    interval: u64,
    fresh: Backend,
    b: &mut Backend,
    r: (Vec<u8>, bool),
)
    requires
        call_ensures(Backend::new, (engine, interval), fresh),
        call_ensures(Backend::send_wal_sync_cmd, (b,), r),
        old(b).syncs() == fresh.syncs(),
    ensures
        r.0@ == old(b)@.engine.wal_pending,
        final(b)@.engine.wal_pending.len() == 0,
        final(b)@.engine.mem == old(b)@.engine.mem,
        r.1 <==> interval == 0,
        fresh@.engine == engine@,
{
}

/// A record is made of its fields, and each can be taken out of it again.
pub proof fn law_record_made(
    source_id: i64,
    ts: i64,
    seq: u64,
    key: &str,
    value: &str,
    rec: Record,
    source: Result<i64, RecordError>,
    time: Result<i64, RecordError>,
    number: Result<u64, RecordError>,
    k: Result<&[u8], RecordError>,
    v: Result<&[u8], RecordError>,
    all: Result<(i64, i64, u64, String, String), RecordError>,
)
    requires
        encode_utf8(key@).len() <= usize::MAX,
        encode_utf8(value@).len() <= usize::MAX,
        call_ensures(Record::from_raw_parts, (source_id, ts, seq, key, value), rec),
        call_ensures(Record::extract_source_id, (&rec,), source),
        call_ensures(Record::extract_timestamp, (&rec,), time),
        call_ensures(Record::extract_seq_num, (&rec,), number),
        call_ensures(Record::extract_key, (&rec,), k),
        call_ensures(Record::extract_value, (&rec,), v),
        call_ensures(Record::extract_all_fields, (&rec,), all),
    ensures
        source == Ok::<i64, RecordError>(source_id),
        time == Ok::<i64, RecordError>(ts),
        number == Ok::<u64, RecordError>(seq),
        k matches Ok(bytes) && bytes@ == encode_utf8(key@),
        v matches Ok(bytes) && bytes@ == encode_utf8(value@),
        all matches Ok((s, t, n, name, said)) && s == source_id && t == ts && n == seq && name@
            == key@ && said@ == value@,
{
    let (kb, vb) = (encode_utf8(key@), encode_utf8(value@));
    law_record_round_trip(source_id, ts, seq, kb, vb);
    encode_utf8_valid_utf8(key@);
    encode_utf8_valid_utf8(value@);
    encode_utf8_decode_utf8(key@);
    encode_utf8_decode_utf8(value@);
}

/// Merging tables gives all records that the tables hold, each once and in their order; the new
/// table has them all, and the old ones are to go.
pub proof fn law_tables_merged(
    cmd: CompactionCommand,
    files: IdMap<Vec<u8>>,
    held: Map<u64, Seq<Seq<u8>>>,
    bloom: BloomFilter,
    r: Result<(CompactionResult, Vec<u8>), TableError>,
    x: Seq<u8>,
)
    requires
        call_ensures(compact, (cmd, &files, bloom), r),
        forall|i: int|
            0 <= i < cmd.tables@.len() ==> has_id(files@, (#[trigger] cmd.tables@[i]).id)
                && table_holds(
                &cmd.tables@[i],
                value_at(files@, cmd.tables@[i].id)@,
                held[cmd.tables@[i].id],
            ),
        forall|x: Seq<u8>, y: Seq<u8>| #[trigger]
            held_by(held, ids_of(cmd.tables@), x) && #[trigger] held_by(
                held,
                ids_of(cmd.tables@),
                y,
            ) && rec_eq(x, y) ==> x == y,
        frameable(merge_of(cmd.tables@, files@)),
    ensures
        r matches Ok((res, bytes)) ==> {
            let merged = frames_in(bytes@, 0, res.new_meta.index_offset as nat);
            &&& res.new_meta.id == cmd.new_file_id
            &&& res.new_meta.path@ == cmd.new_file_path@
            &&& res.new_meta.num_records == merged.len()
            &&& res.new_meta.file_size == bytes@.len()
            &&& strictly_sorted(merged)
            &&& merged.contains(x) <==> exists|i: int|
                0 <= i < cmd.tables@.len() && held[(#[trigger] cmd.tables@[i]).id].contains(x)
            &&& res.ids_to_remove@.len() == cmd.tables@.len()
            &&& forall|i: int|
                0 <= i < cmd.tables@.len() ==> #[trigger] res.ids_to_remove@[i]
                    == cmd.tables@[i].id
        },
{
    let s = merge_of(cmd.tables@, files@);
    law_merge_exact(cmd.tables@, files@, held);
    if let Ok((res, bytes)) = r {
        law_table_records(s, res.new_meta.bloom@);
        let ids = ids_of(cmd.tables@);
        if held_by(held, ids, x) {
            let i = choose|i: int| 0 <= i < ids.len() && held[#[trigger] ids[i]].contains(x);
            assert(held[cmd.tables@[i].id].contains(x));
        }
        if exists|i: int|
            0 <= i < cmd.tables@.len() && held[(#[trigger] cmd.tables@[i]).id].contains(x) {
            let i = choose|i: int|
                0 <= i < cmd.tables@.len() && held[(#[trigger] cmd.tables@[i]).id].contains(x);
            assert(ids[i] == cmd.tables@[i].id);
        }
    }
}

/// The records of a query are sent on in portions of 1024, each as it was stored and in their
/// order, until there are no more; then the query is through.
pub proof fn law_portions_sent(t: &mut RangeTask, r: RangeBatch)
    requires
        call_ensures(RangeTask::next_batch, (t,), r),
        forall|i: int|
            0 <= i < old(t).remaining().len() ==> all_fields_error(
                #[trigger] old(t).remaining()[i],
            ) is None,
    ensures
        ({
            let all = old(t).remaining();
            let n = r.records@.len() as int;
            &&& n == (if all.len() > 1024 {
                1024
            } else {
                all.len() as int
            })
            &&& forall|i: int| 0 <= i < n ==> (#[trigger] r.records@[i])@ == record_model(all[i])
            &&& final(t).remaining() == all.skip(n)
            &&& final(t).count() == old(t).count() + n
            &&& all.len() >= 1024 ==> r.end is None
            &&& all.len() < 1024 ==> r.end == Some(Ok::<(), RecordError>(()))
        }),
{
    let all = old(t).remaining();
    law_portion_of_query(all);
    let k = sendable(all, Backend::RANGE_BATCH_SIZE as nat);
    if k < 1024 && k < all.len() {
        assert(all_fields_error(all[k as int]) is None);
    }
    assert(record_views(r.records@).len() == r.records@.len());
    assert(models(all, k).len() == k);
    assert forall|i: int| 0 <= i < r.records@.len() implies (#[trigger] r.records@[i])@
        == record_model(all[i]) by {
        assert(record_views(r.records@)[i] == models(all, k)[i]);
    }
    assert(final(t).remaining() =~= all.skip(k as int));
}

/// A table that was written can be opened, and then the same is known of it: where its parts are,
/// its index, its filter, how large it is and how many records it has, and the highest sequence
/// number in it.
pub proof fn law_table_written_and_opened(
    path: String,
    id: u64,
    source: &[Record],
    bloom: BloomFilter,
    r: Result<(SSTableMeta, Vec<u8>), TableError>,
    again: String,
    file: &[u8],
    opened: Result<(SSTableMeta, u64), TableError>,
)
    requires
        call_ensures(SSTableMeta::write_to_file, (path, id, source, bloom), r),
        r matches Ok((meta, bytes)) && file@ == bytes@ && file@.len() <= u64::MAX
            && meta.bloom@.n_bits <= u64::MAX && meta.bloom@.n_hashes <= u64::MAX,
        call_ensures(SSTableMeta::open, (id, again, file), opened),
        frameable(rec_views(source@)),
        all_keyed(rec_views(source@)),
        index_storable(index_of(rec_views(source@))),
    ensures
        opened matches Ok((meta, seq)) && {
            let written = r->Ok_0.0;
            &&& meta.id == written.id
            &&& meta.path@ == again@
            &&& written.path@ == path@
            &&& meta.index_offset == written.index_offset
            &&& meta.bloom_offset == written.bloom_offset
            &&& meta.index@ == written.index@
            &&& meta.bloom@ == written.bloom@
            &&& meta.file_size == written.file_size
            &&& meta.file_size == file@.len()
            &&& meta.num_records == source@.len()
            &&& written.num_records == source@.len()
            &&& seq == max_seq(rec_views(source@))
        },
{
    let s = rec_views(source@);
    let (written, bytes) = r->Ok_0;
    assert(file@ == table_bytes(s, written.bloom@));
    law_table_opens(s, written.bloom@);
    assert(opened is Ok);
    let (meta, seq) = opened->Ok_0;
    assert(meta.opened(id, again@, table_bytes(s, written.bloom@)));
}

/// A store that is opened has the limit and the directory that it was given, the records of its
/// logs in memory, and nothing that is being flushed or compacted. Its next record and its next
/// table get numbers that none of its records and tables has. Its memory is to be flushed at
/// once just where it is too large.
pub proof fn law_store_opened(
    base_dir: String,
    limit: usize,
    logs: Vec<Vec<u8>>,
    files: Vec<NamedFile>,
    r: Result<(Engine, bool), OpenError>,
    i: int,
    base: &str,
    active: String,
)
    requires
        call_ensures(Engine::open, (base_dir, limit, &logs, &files), r),
        call_ensures(Wal::format_active_wal_path, (base,), active),
        base@ == base_dir@,
    ensures
        r is Ok <==> forall|j: int|
            0 <= j < files@.len() ==> (#[trigger] errors_of(files@)[j]) is None,
        r matches Ok((e, flush)) ==> {
            &&& e@.base_dir == base_dir@
            &&& e@.limit == limit
            &&& e@.wal_path == active@
            &&& e@.wal_open
            &&& e@.wal_pending.len() == 0
            &&& e@.frozen.len() == 0
            &&& e@.compacting == Set::<u64>::empty()
            &&& e@.mem == recovered(file_views(logs@))
            &&& e@.mem_size == e@.mem.fold_left(0, |sum: int, b: Seq<u8>| sum + b.len())
            &&& flush <==> e@.mem.len() > 0 && e@.mem_size > limit
            &&& 0 <= i < e@.mem.len() && e@.mem[i].len() >= 24 ==> seq_of(e@.mem[i]) < e@.next_seq
            &&& 0 <= i < files@.len() ==> (file_id(files@[i]) matches Some(id) ==> id
                < e@.next_table && has_id(e@.tables, id) && (last_of_id(files@, i) && base@.len() > 0
                && base@.last() != '/' ==> value_at(e@.tables, id).path@ == base@ + "/"@
                + files@[i].name@))
        },
{
    law_store_refused(files@, i);
    if let Ok((e, flush)) = r {
        let m = e@;
        law_highest_number(m.mem);
        lemma_bytes_total(m.mem);
        if 0 <= i < files@.len() {
            lemma_files_max(files@, i);
            if let Some(id) = file_id(files@[i]) {
                assert(names_id(files@, id));
                assert(has_id(m.tables, id));
                law_path(base@, files@[i].name@);
                if last_of_id(files@, i) {
                    assert(opened_from(base_dir@, files@[i], value_at(m.tables, id)));
                }
            }
        }
    }
}

proof fn lemma_bytes_total(s: Seq<Seq<u8>>)
    ensures
        bytes_total(s) == s.fold_left(0, |sum: int, b: Seq<u8>| sum + b.len()),
    decreases s.len(),
{
    reveal_with_fuel(Seq::fold_left, 2);
    if s.len() > 0 {
        lemma_bytes_total(s.drop_last());
    }
}

/// The tables whose files are read for a query: those in whose filters the source and the key may
/// be, in the order of their numbers, so every table that holds such a record.
pub proof fn law_tables_read(
    e: Engine,
    files: Seq<(u64, Vec<u8>)>,
    held: Map<u64, Seq<Seq<u8>>>,
    source_id: i64,
    key: &str,
    v: Vec<u64>,
    id: u64,
    i: int,
)
    requires
        call_ensures(Engine::range_tables, (&e, source_id, key), v),
        ascending(e@.tables),
        tables_hold(e@.tables, files, held),
        has_id(e@.tables, id),
        0 <= i < held[id].len(),
        source_of(held[id][i]) == source_id,
        key_of(held[id][i]) == encode_utf8(key@),
    ensures
        v@.contains(id),
{
    lemma_has_id(e@.tables, id);
    let k = choose|k: int| 0 <= k < e@.tables.len() && (#[trigger] e@.tables[k]).0 == id;
    assert(e@.tables[k].1.bloom@.holds(source_of(held[id][i]), key_of(held[id][i])));
    lemma_held_ids(e@.tables, source_id, encode_utf8(key@), k);
}

proof fn lemma_held_ids(
    tables: Seq<(u64, SSTableMeta)>,
    source_id: i64,
    key: Seq<u8>,
    k: int,
)
    requires
        0 <= k < tables.len(),
        tables[k].1.bloom@.holds(source_id, key),
    ensures
        held_ids(tables, source_id, key).contains(tables[k].0),
    decreases tables.len(),
{
    let front = held_ids(tables.drop_last(), source_id, key);
    let all = held_ids(tables, source_id, key);
    if k < tables.len() - 1 {
        assert(tables.drop_last()[k] == tables[k]);
        lemma_held_ids(tables.drop_last(), source_id, key, k);
        let n = choose|n: int| 0 <= n < front.len() && front[n] == tables[k].0;
        assert(all[n] == tables[k].0);
    } else {
        assert(all[all.len() - 1] == tables[k].0);
    }
}

/// A store that is opened gives out numbers and ids behind all that it found, and leaves none
/// out: each is one more than the highest there, and the first where there is none.
pub proof fn law_numbers_go_on(
    base_dir: String,
    limit: usize,
    logs: Vec<Vec<u8>>,
    files: Vec<NamedFile>,
    e: Engine,
    flush: bool,
    i: int,
    k: int,
)
    requires
        call_ensures(Engine::open, (base_dir, limit, &logs, &files), Ok((e, flush))),
    ensures
        0 <= i < files@.len() && file_id(files@[i]) is Some ==> {
            let rs = table_records(files@[i].bytes@);
            0 <= k < rs.len() && rs[k].len() >= 24 ==> seq_of(rs[k]) < e@.next_seq
        },
        e@.next_seq == 1 || (exists|j: int|
            0 <= j < e@.mem.len() && e@.mem[j].len() >= 24 && #[trigger] seq_of(e@.mem[j]) + 1
                == e@.next_seq) || (exists|f: int, j: int|
            0 <= f < files@.len() && file_id(files@[f]) is Some && 0 <= j < table_records(
                files@[f].bytes@,
            ).len() && table_records(files@[f].bytes@)[j].len() >= 24 && seq_of(
                #[trigger] table_records(files@[f].bytes@)[j],
            ) + 1 == e@.next_seq),
        e@.next_table == 1 || exists|f: int|
            0 <= f < files@.len() && (#[trigger] file_id(files@[f]) matches Some(id) && id + 1
                == e@.next_table),
{
    let m = e@;
    law_highest_number(m.mem);
    if 0 <= i < files@.len() {
        law_store_refused(files@, i);
        lemma_files_max(files@, i);
        assert(errors_of(files@)[i] is None);
        law_highest_number(table_records(files@[i].bytes@));
    }
    lemma_highest_file(files@);
    if files_max_seq(files@) > 0 {
        let f = choose|f: int|
            0 <= f < files@.len() && file_id(files@[f]) is Some && #[trigger] max_seq(
                table_records(files@[f].bytes@),
            ) == files_max_seq(files@);
        law_highest_number(table_records(files@[f].bytes@));
    }
}

proof fn lemma_highest_file(files: Seq<NamedFile>)
    ensures
        files_max_seq(files) > 0 ==> exists|f: int|
            0 <= f < files.len() && file_id(files[f]) is Some && #[trigger] max_seq(
                table_records(files[f].bytes@),
            ) == files_max_seq(files),
        files_max_id(files) > 0 ==> exists|f: int|
            0 <= f < files.len() && #[trigger] file_id(files[f]) == Some(files_max_id(files)),
    decreases files.len(),
{
    if files.len() > 0 {
        let front = files.drop_last();
        lemma_highest_file(front);
        let last = files.len() - 1;
        assert(files[last] == files.last());
        if files_max_seq(files) > 0 {
            if files_max_seq(files) == files_max_seq(front) {
                let f = choose|f: int|
                    0 <= f < front.len() && file_id(front[f]) is Some && #[trigger] max_seq(
                        table_records(front[f].bytes@),
                    ) == files_max_seq(front);
                assert(files[f] == front[f]);
                assert(max_seq(table_records(files[f].bytes@)) == files_max_seq(files));
            } else {
                assert(max_seq(table_records(files[last].bytes@)) == files_max_seq(files));
            }
        }
        if files_max_id(files) > 0 {
            if files_max_id(files) == files_max_id(front) {
                let f = choose|f: int|
                    0 <= f < front.len() && #[trigger] file_id(front[f]) == Some(
                        files_max_id(front),
                    );
                assert(file_id(files[f]) == Some(files_max_id(files)));
            } else {
                assert(file_id(files[last]) == Some(files_max_id(files)));
            }
        }
    }
}

/// A file is a log just where its name ends in `.log` with something before it.
pub proof fn law_logs_known(name: &str, r: bool, base: Seq<u8>)
    requires
        call_ensures(Wal::is_wal_file, (name,), r),
    ensures
        r ==> encode_utf8(name@).len() > 4 && encode_utf8(name@).skip(
            encode_utf8(name@).len() - 4,
        ) == seq![46u8, 108, 111, 103],
        base.len() > 0 && encode_utf8(name@) == base + seq![46u8, 108, 111, 103] ==> r,
{
    let b = encode_utf8(name@);
    assert(seq![46u8] + seq![108u8, 111, 103] =~= seq![46u8, 108, 111, 103]);
    if b == base + seq![46u8, 108, 111, 103] {
        assert(b.skip(b.len() - 4) =~= seq![46u8, 108, 111, 103]);
    }
}

/// Whoever asks for a range that ends before it starts is told so, and whoever asks for one that
/// starts before zero is told that.
pub proof fn law_range_refusal_told(start_ts: i64, end_ts: i64, s: &'static str)
    requires
        range_error(start_ts, end_ts) is Some,
        call_ensures(RangeError::message, (&range_error(start_ts, end_ts)->0,), s),
    ensures
        end_ts < start_ts ==> s@ == "engine.range: end_ts cannot be smaller than start_ts"@,
        start_ts <= end_ts ==> start_ts < 0 && s@ == "engine.range: start_ts cannot be negative"@,
{
}

} // verus!
