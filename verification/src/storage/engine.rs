//! The storage engine: the write-ahead log, the memory tables and the table files as one.
use std::collections::BTreeSet;
use std::sync::Arc;
use vstd::prelude::*;
use vstd::utf8::encode_utf8;

use crate::proto::Insert;
use crate::storage::frames::{frame, framed};
use crate::storage::idmap::{
    ascending, has_id, id_place, law_with_entry, lemma_id_place,
    lemma_id_place_unique, lemma_with_entry_each, lemma_without_entry_each, value_at, with_entry,
    pointed, without_entry, IdMap,
};
use crate::storage::iter::{
    asked_for, check_range, is_table_orderable, lemma_pick_keyed, range_error, table_orderable,
    table_pick, MemTableIterOwned, RangeError, SSTableIter,
};
use crate::storage::laws::engine_sorted;
use crate::storage::memtable::{in_span, span_of, MemTable};
use crate::storage::merge::{MergeIter, RecordIter};
use crate::storage::record::{
    has_key, law_record_round_trip, lemma_record_len, record_bytes, Record,
};
use crate::storage::sorted::{
    all_keyed, insert_sorted, lemma_filter_sorted, lemma_with_records_sorted,
    lemma_with_records_step, rec_views, strictly_sorted, with_record, with_records,
};
use crate::storage::sstable::{
    file_kind, is_table_name, join, join_path, max_seq, open_table_error, scan_seq, table_records,
    table_name_id, FileKind, SSTableMeta, TableError,
};
use crate::storage::wal::{
    active_name, counted_after, file_views, inactive_name, recoverable, recovered, wal_dir, Wal,
    WalError,
};
use crate::text::copy_bytes;

verus! {

/// `Arc::clone`: another pointer to the same memory table.
#[verifier::external_body]
fn share(table: &Arc<MemTable>) -> (r: Arc<MemTable>)
    ensures
        r == *table,
{
    Arc::clone(table)
}

/// Why an engine could not be opened.
#[derive(Clone, Copy, Debug, PartialEq, Eq, Structural)]
pub enum OpenError {
    /// A table file is not named after a number.
    FileName,
    /// A table file could not be read.
    Table(TableError),
}

/// The state of an engine.
pub struct EngineModel {
    /// The directory of the store.
    pub base_dir: Seq<char>,
    /// The path of the active log.
    pub wal_path: Seq<char>,
    /// What was written to the log and is still to go to its file.
    pub wal_pending: Seq<u8>,
    /// Whether the file of the log takes bytes.
    pub wal_open: bool,
    /// How many records and bytes were written to the log, where they are counted.
    pub wal_counts: Option<(u64, u64)>,
    /// The records of the memory table.
    pub mem: Seq<Seq<u8>>,
    /// How many bytes went into the memory table.
    pub mem_size: nat,
    /// How many bytes the memory table takes before it should be flushed.
    pub limit: nat,
    /// The records of the memory tables that are being flushed, under the ids of their tables.
    pub frozen: Seq<(u64, Seq<Seq<u8>>)>,
    /// What is known of the table files, under their ids.
    pub tables: Seq<(u64, SSTableMeta)>,
    /// The ids of the tables that are being compacted.
    pub compacting: Set<u64>,
    /// The id of the next table.
    pub next_table: u64,
    /// The sequence number of the next record.
    pub next_seq: u64,
}

/// The records of each memory table that is being flushed.
pub open spec fn frozen_views(s: Seq<(u64, Arc<MemTable>)>) -> Seq<(u64, Seq<Seq<u8>>)> {
    Seq::new(s.len(), |i: int| (s[i].0, s[i].1.records()))
}

impl EngineModel {
    /// What the log, the memory table and the counter are after the record is inserted.
    pub open spec fn with_insert(self, b: Seq<u8>) -> EngineModel {
        EngineModel {
            wal_pending: self.wal_pending + frame(b),
            wal_counts: counted_after(self.wal_counts, 1, b.len()),
            mem: with_record(self.mem, b),
            mem_size: self.mem_size + b.len(),
            next_seq: (self.next_seq + 1) as u64,
            ..self
        }
    }

    /// What the log, the memory table and the counter are after the records are inserted
    /// together.
    pub open spec fn with_batch(self, recs: Seq<Seq<u8>>) -> EngineModel {
        EngineModel {
            wal_pending: self.wal_pending + framed(recs),
            wal_counts: counted_after(self.wal_counts, recs.len(), framed(recs).len()),
            mem: with_records(self.mem, recs),
            mem_size: self.mem_size + bytes_total(recs),
            next_seq: (self.next_seq + recs.len()) as u64,
            ..self
        }
    }

    /// The records of the source in the time span in all memory tables, sorted and without
    /// duplicates. Of records with the same place that of the current table stays, then that
    /// of the oldest that is being flushed.
    pub open spec fn mem_span(self, source_id: i64, start_ts: i64, end_ts: i64) -> Seq<Seq<u8>> {
        frozen_span(
            span_of(self.mem, source_id, start_ts, end_ts),
            self.frozen,
            source_id,
            start_ts,
            end_ts,
        )
    }
}

/// `s` with the records of the source in the time span of the memory tables `frozen` put in.
pub open spec fn frozen_span(
    s: Seq<Seq<u8>>,
    frozen: Seq<(u64, Seq<Seq<u8>>)>,
    source_id: i64,
    start_ts: i64,
    end_ts: i64,
) -> Seq<Seq<u8>>
    decreases frozen.len(),
{
    if frozen.len() == 0 {
        s
    } else {
        with_records(
            frozen_span(s, frozen.drop_last(), source_id, start_ts, end_ts),
            span_of(frozen.last().1, source_id, start_ts, end_ts),
        )
    }
}

/// The records of a batch of inserts, under sequence numbers from `seq` on.
pub open spec fn batch_records(inserts: Seq<Insert>, seq: u64) -> Seq<Seq<u8>> {
    Seq::new(
        inserts.len(),
        |i: int|
            record_bytes(
                inserts[i].source_id,
                inserts[i].ts,
                (seq + i) as u64,
                encode_utf8(inserts[i].key@),
                encode_utf8(inserts[i].value@),
            ),
    )
}

/// How many bytes the records have together.
pub open spec fn bytes_total(s: Seq<Seq<u8>>) -> nat
    decreases s.len(),
{
    if s.len() == 0 {
        0
    } else {
        bytes_total(s.drop_last()) + s.last().len()
    }
}

pub proof fn lemma_bytes_total_step(s: Seq<Seq<u8>>, i: int)
    requires
        0 <= i < s.len(),
    ensures
        bytes_total(s.take(i + 1)) == bytes_total(s.take(i)) + s[i].len(),
        bytes_total(s.take(i + 1)) <= bytes_total(s),
    decreases s.len() - i,
{
    assert(s.take(i + 1).drop_last() =~= s.take(i));
    if i + 1 < s.len() {
        lemma_bytes_total_step(s, i + 1);
    } else {
        assert(s.take(i + 1) =~= s);
    }
}

/// The tables, by their position, whose filters hold the source and the key and whose files
/// are there.
pub open spec fn hits(
    tables: Seq<(u64, SSTableMeta)>,
    files: Seq<(u64, Vec<u8>)>,
    source_id: i64,
    key: Seq<u8>,
) -> Seq<int>
    decreases tables.len(),
{
    if tables.len() == 0 {
        Seq::empty()
    } else {
        let front = hits(tables.drop_last(), files, source_id, key);
        let last = tables.last();
        if last.1.bloom@.holds(source_id, key) && has_id(files, last.0) {
            front.push(tables.len() - 1)
        } else {
            front
        }
    }
}

/// The ids of the tables whose filters hold the source and the key, in their order.
pub open spec fn held_ids(tables: Seq<(u64, SSTableMeta)>, source_id: i64, key: Seq<u8>) -> Seq<u64>
    decreases tables.len(),
{
    if tables.len() == 0 {
        Seq::empty()
    } else {
        let front = held_ids(tables.drop_last(), source_id, key);
        if tables.last().1.bloom@.holds(source_id, key) {
            front.push(tables.last().0)
        } else {
            front
        }
    }
}

/// Whether a query can be run on the tables: each has a filter that can be asked, and every
/// record that is read from a file can be ordered.
pub open spec fn range_ready(
    tables: Seq<(u64, SSTableMeta)>,
    files: Seq<(u64, Vec<u8>)>,
    source_id: i64,
    key: Seq<u8>,
    start_ts: i64,
    end_ts: i64,
) -> bool {
    forall|i: int|
        0 <= i < tables.len() ==> (#[trigger] tables[i]).1.bloom@.usable() && (
        tables[i].1.bloom@.holds(source_id, key) && has_id(files, tables[i].0) ==> table_orderable(
            &tables[i].1,
            value_at(files, tables[i].0)@,
            source_id,
            key,
            start_ts,
            end_ts,
        ))
}

/// Whether `srcs` are the sources of the records for a query: first what is asked for in the
/// memory tables, then what is picked from each table whose filter holds the source and the
/// key and whose file is there.
pub open spec fn range_sources(
    m: EngineModel,
    files: Seq<(u64, Vec<u8>)>,
    source_id: i64,
    key: Seq<u8>,
    start_ts: i64,
    end_ts: i64,
    filter: Seq<u8>,
    srcs: Seq<Seq<Seq<u8>>>,
) -> bool {
    let h = hits(m.tables, files, source_id, key);
    &&& srcs.len() == 1 + h.len()
    &&& srcs[0] == m.mem_span(source_id, start_ts, end_ts).filter(
        |b: Seq<u8>| asked_for(b, source_id, key, start_ts, end_ts, filter),
    )
    &&& forall|j: int|
        0 <= j < h.len() ==> table_pick(
            &m.tables[#[trigger] h[j]].1,
            value_at(files, m.tables[h[j]].0)@,
            source_id,
            key,
            start_ts,
            end_ts,
            filter,
            srcs[j + 1],
        )
}

proof fn lemma_hits_step(
    tables: Seq<(u64, SSTableMeta)>,
    files: Seq<(u64, Vec<u8>)>,
    source_id: i64,
    key: Seq<u8>,
    i: int,
)
    requires
        0 <= i < tables.len(),
    ensures
        hits(tables.take(i + 1), files, source_id, key) == (if tables[i].1.bloom@.holds(
            source_id,
            key,
        ) && has_id(files, tables[i].0) {
            hits(tables.take(i), files, source_id, key).push(i)
        } else {
            hits(tables.take(i), files, source_id, key)
        }),
{
    assert(tables.take(i + 1).drop_last() =~= tables.take(i));
}

/// The log-structured store.
#[derive(Debug)]
pub struct Engine {
    base_dir: String,
    wal: Wal,
    memtable: MemTable,
    frozen_memtables: IdMap<Arc<MemTable>>,
    sstable_map: IdMap<SSTableMeta>,
    compacting: BTreeSet<u64>,
    sst_counter: u64,
    seq_counter: u64,
}

impl View for Engine {
    type V = EngineModel;

    closed spec fn view(&self) -> EngineModel {
        EngineModel {
            base_dir: self.base_dir@,
            wal_path: self.wal.file_path(),
            wal_pending: self.wal.pending(),
            wal_open: self.wal.is_open(),
            wal_counts: self.wal.counted(),
            mem: self.memtable.records(),
            mem_size: self.memtable.size(),
            limit: self.memtable.bound(),
            frozen: frozen_views(self.frozen_memtables@),
            tables: self.sstable_map@,
            compacting: self.compacting@,
            next_table: self.sst_counter,
            next_seq: self.seq_counter,
        }
    }
}

impl Engine {
    /// The memory tables are sorted and without duplicates, and each table stands under its
    /// own id.
    pub closed spec fn wf(&self) -> bool {
        &&& self.memtable.wf()
        &&& self.frozen_memtables.wf()
        &&& forall|i: int|
            0 <= i < self.frozen_memtables@.len() ==> (#[trigger]
            self.frozen_memtables@[i]).1.wf()
        &&& self.sstable_map.wf()
        &&& forall|i: int|
            0 <= i < self.sstable_map@.len() ==> (#[trigger] self.sstable_map@[i]).0
                == self.sstable_map@[i].1.id
    }

    /// Inserts a record under the next sequence number: first into the log, and then, if the
    /// log took it, into the memory table. Returns whether the memory table should be flushed.
    pub fn insert_record(&mut self, source_id: i64, ts: i64, key: &str, value: &str) -> (r: Result<
        bool,
        WalError,
    >)
        requires
            old(self).wf(),
            old(self)@.next_seq < u64::MAX,
            old(self)@.mem_size + 40 + encode_utf8(key@).len() + encode_utf8(value@).len()
                <= usize::MAX,
        ensures
            final(self).wf(),
            r is Ok <==> old(self)@.wal_open,
            r matches Err(e) ==> e == WalError::Unavailable && final(self)@ == old(self)@,
            r is Ok ==> final(self)@ == old(self)@.with_insert(
                record_bytes(
                    source_id,
                    ts,
                    old(self)@.next_seq,
                    encode_utf8(key@),
                    encode_utf8(value@),
                ),
            ),
            r matches Ok(needs_flush) ==> needs_flush == (final(self)@.mem_size
                > final(self)@.limit),
    {
        let current_seq: u64 = self.seq_counter;
        let rec = Record::from_raw_parts(source_id, ts, current_seq, key, value);
        proof {
            law_record_round_trip(
                source_id,
                ts,
                current_seq,
                encode_utf8(key@),
                encode_utf8(value@),
            );
        }
        match self.wal.write_one(&rec) {
            Ok(_) => {},
            Err(e) => {
                return Err(e);
            },
        }
        let needs_flush = self.memtable.insert(rec);
        self.seq_counter = self.seq_counter + 1;
        Ok(needs_flush)
    }

    /// Inserts records under the next sequence numbers, in their order: first all into the
    /// log, and then, if the log took them, into the memory table. The numbers are used up
    /// either way. Returns whether the memory table should be flushed.
    pub fn batch_insert_records(&mut self, inserts: Vec<Insert>) -> (r: Result<bool, WalError>)
        requires
            old(self).wf(),
            old(self)@.next_seq + inserts@.len() <= u64::MAX,
            old(self)@.mem_size + bytes_total(batch_records(inserts@, old(self)@.next_seq))
                <= usize::MAX,
        ensures
            final(self).wf(),
            r is Ok <==> old(self)@.wal_open || inserts@.len() == 0,
            r matches Err(e) ==> e == WalError::Unavailable,
            r is Err ==> final(self)@ == (EngineModel {
                next_seq: (old(self)@.next_seq + inserts@.len()) as u64,
                ..old(self)@
            }),
            r is Ok ==> final(self)@ == old(self)@.with_batch(
                batch_records(inserts@, old(self)@.next_seq),
            ),
            r matches Ok(needs_flush) ==> needs_flush == (inserts@.len() > 0 &&
                final(self)@.mem_size > final(self)@.limit),
    {
        let ghost start = self.seq_counter;
        let ghost want = batch_records(inserts@, start);
        let ghost before = *self;
        let mut records: Vec<Record> = Vec::new();
        let mut i: usize = 0;
        while i < inserts.len()
            invariant
                i <= inserts@.len(),
                start + inserts@.len() <= u64::MAX,
                want == batch_records(inserts@, start),
                self.seq_counter == start + i,
                self.memtable == before.memtable,
                self.wal == before.wal,
                self.base_dir == before.base_dir,
                self.frozen_memtables == before.frozen_memtables,
                self.sstable_map == before.sstable_map,
                self.compacting == before.compacting,
                self.sst_counter == before.sst_counter,
                records@.len() == i,
                forall|j: int| 0 <= j < i ==> (#[trigger] records@[j])@ == want[j],
            decreases inserts@.len() - i,
        {
            let ins = &inserts[i];
            let rec = Record::from_raw_parts(
                ins.source_id,
                ins.ts,
                self.seq_counter,
                ins.key.as_str(),
                ins.value.as_str(),
            );
            records.push(rec);
            self.seq_counter = self.seq_counter + 1;
            i += 1;
        }
        assert(rec_views(records@) =~= want);
        match self.wal.write_many(records.as_slice()) {
            Ok(_) => {},
            Err(e) => {
                return Err(e);
            },
        }
        let mut needs_flush = false;
        let ghost mid = *self;
        let mut k: usize = 0;
        proof {
            assert(want.take(0) =~= Seq::<Seq<u8>>::empty());
        }
        while k < records.len()
            invariant
                k <= records@.len() == want.len(),
                rec_views(records@) == want,
                want == batch_records(inserts@, start),
                before.memtable.wf(),
                before.memtable.size() + bytes_total(want) <= usize::MAX,
                self.seq_counter == mid.seq_counter,
                self.wal == mid.wal,
                self.base_dir == mid.base_dir,
                self.frozen_memtables == mid.frozen_memtables,
                self.sstable_map == mid.sstable_map,
                self.compacting == mid.compacting,
                self.sst_counter == mid.sst_counter,
                self.memtable.wf(),
                self.memtable.records() == with_records(
                    before.memtable.records(),
                    want.take(k as int),
                ),
                self.memtable.size() == before.memtable.size() + bytes_total(want.take(k as int)),
                self.memtable.bound() == before.memtable.bound(),
                needs_flush == (k > 0 && self.memtable.size() > self.memtable.bound()),
            decreases records@.len() - k,
        {
            let rec = records[k].clone();
            let len: usize = rec.len();
            proof {
                lemma_with_records_step(before.memtable.records(), want, k as int);
                lemma_bytes_total_step(want, k as int);
                assert(rec@ == want[k as int]);
                let ins = inserts@[k as int];
                lemma_record_len(
                    ins.source_id,
                    ins.ts,
                    (start + k) as u64,
                    encode_utf8(ins.key@),
                    encode_utf8(ins.value@),
                );
                law_record_round_trip(
                    ins.source_id,
                    ins.ts,
                    (start + k) as u64,
                    encode_utf8(ins.key@),
                    encode_utf8(ins.value@),
                );
            }
            if self.memtable.insert(rec) {
                needs_flush = true;
            }
            k += 1;
        }
        assert(want.take(want.len() as int) =~= want);
        Ok(needs_flush)
    }

    /// The records of `source_id` under `key` at times from `start_ts` on and before `end_ts`
    /// whose values hold `filter`, from the memory tables and from the table files in `files`.
    /// A table whose filter does not hold the source and the key is passed over, and so is one
    /// whose file is not there.
    pub fn range(
        &self,
        source_id: i64,
        key: &str,
        start_ts: i64,
        end_ts: i64,
        filter: &str,
        files: &IdMap<Vec<u8>>,
    ) -> (r: Result<MergeIter, RangeError>)
        requires
            self.wf(),
            files.wf(),
            range_error(start_ts, end_ts) is None ==> range_ready(
                self@.tables,
                files@,
                source_id,
                encode_utf8(key@),
                start_ts,
                end_ts,
            ),
        ensures
            r is Ok <==> range_error(start_ts, end_ts) is None,
            r matches Err(e) ==> range_error(start_ts, end_ts) == Some(e),
            r matches Ok(it) ==> it.wf() && it.last() is None && range_sources(
                self@,
                files@,
                source_id,
                encode_utf8(key@),
                start_ts,
                end_ts,
                encode_utf8(filter@),
                it.sources(),
            ),
    {
        match check_range(start_ts, end_ts) {
            Ok(_) => {},
            Err(e) => {
                return Err(e);
            },
        }
        let ghost k = encode_utf8(key@);
        let ghost f = encode_utf8(filter@);
        let ghost want = |b: Seq<u8>| asked_for(b, source_id, k, start_ts, end_ts, f);
        let key_bytes = key.as_bytes();
        let records = self.clone_mem_span(source_id, start_ts, end_ts);
        let ghost span = rec_views(records@);
        let mem_iter = MemTableIterOwned::filtered(
            records,
            source_id,
            key_bytes,
            start_ts,
            end_ts,
            filter,
        );
        proof {
            lemma_filter_sorted(span, want);
        }
        let ghost tables = self.sstable_map@;
        let mut iters: Vec<RecordIter> = Vec::new();
        let mut i: usize = 0;
        assert(tables.take(0) =~= Seq::<(u64, SSTableMeta)>::empty());
        let entries = self.sstable_map.entries();
        while i < entries.len()
            invariant
                pointed(entries@) == self.sstable_map@,
                i <= tables.len(),
                self.wf(),
                files.wf(),
                tables == self.sstable_map@,
                k == encode_utf8(key@),
                f == encode_utf8(filter@),
                key_bytes@ == k,
                range_error(start_ts, end_ts) is None,
                range_ready(tables, files@, source_id, k, start_ts, end_ts),
                iters@.len() == hits(tables.take(i as int), files@, source_id, k).len(),
                forall|j: int|
                    0 <= j < iters@.len() ==> 0 <= #[trigger] hits(
                        tables.take(i as int),
                        files@,
                        source_id,
                        k,
                    )[j] < i,
                forall|j: int|
                    0 <= j < iters@.len() ==> (#[trigger] iters@[j]).wf() && all_keyed(
                        iters@[j].remaining(),
                    ) && table_pick(
                        &tables[hits(tables.take(i as int), files@, source_id, k)[j]].1,
                        value_at(
                            files@,
                            tables[hits(tables.take(i as int), files@, source_id, k)[j]].0,
                        )@,
                        source_id,
                        k,
                        start_ts,
                        end_ts,
                        f,
                        iters@[j].remaining(),
                    ),
            decreases tables.len() - i,
        {
            let ghost before = hits(tables.take(i as int), files@, source_id, k);
            proof {
                lemma_hits_step(tables, files@, source_id, k, i as int);
                assert(tables[i as int].1.bloom@.usable());
            }
            let entry = &entries[i];
            assert(pointed(entries@)[i as int] == (entry.0, *entry.1));
            if entry.1.bloom.contains(source_id, key_bytes) {
                if let Some(bytes) = files.get(entry.0) {
                    let bytes = copy_bytes(bytes.as_slice());
                    match SSTableIter::new(
                        entry.1,
                        bytes,
                        source_id,
                        key,
                        start_ts,
                        end_ts,
                        filter,
                    ) {
                        Ok(iter) => {
                            proof {
                                lemma_pick_keyed(
                                    entry.1,
                                    bytes@,
                                    source_id,
                                    k,
                                    start_ts,
                                    end_ts,
                                    f,
                                    iter.remaining(),
                                );
                            }
                            let ghost done = iters@;
                            iters.push(RecordIter::File(iter));
                            assert forall|j: int| 0 <= j < iters@.len() implies (#[trigger]
                            iters@[j]).wf() && all_keyed(iters@[j].remaining()) && table_pick(
                                &tables[before.push(i as int)[j]].1,
                                value_at(files@, tables[before.push(i as int)[j]].0)@,
                                source_id,
                                k,
                                start_ts,
                                end_ts,
                                f,
                                iters@[j].remaining(),
                            ) by {
                                if j < done.len() {
                                    assert(iters@[j] == done[j]);
                                }
                            }
                        },
                        Err(_) => {},
                    }
                }
            }
            i += 1;
        }
        let ghost h = hits(tables, files@, source_id, k);
        assert(tables.take(tables.len() as int) =~= tables);
        let it = MergeIter::new(Some(mem_iter), iters);
        proof {
            let srcs = it.sources();
            assert(srcs[0] == mem_iter.remaining());
            assert(srcs[0] == self@.mem_span(source_id, start_ts, end_ts).filter(want));
            assert forall|j: int| 0 <= j < h.len() implies table_pick(
                &tables[#[trigger] h[j]].1,
                value_at(files@, tables[h[j]].0)@,
                source_id,
                k,
                start_ts,
                end_ts,
                f,
                srcs[j + 1],
            ) by {
                assert(srcs[j + 1] == iters@[j].remaining());
            }
        }
        Ok(it)
    }

    /// Whether a query can be run: each table has a filter that can be asked, and every record
    /// that is read from the table files in `files` can be ordered.
    pub fn is_range_ready(
        &self,
        source_id: i64,
        key: &str,
        start_ts: i64,
        end_ts: i64,
        files: &IdMap<Vec<u8>>,
    ) -> (r: bool)
        requires
            self.wf(),
            files.wf(),
        ensures
            r == range_ready(
                self@.tables,
                files@,
                source_id,
                encode_utf8(key@),
                start_ts,
                end_ts,
            ),
    {
        let ghost k = encode_utf8(key@);
        let ghost tables = self.sstable_map@;
        let key_bytes = key.as_bytes();
        let mut i: usize = 0;
        assert(tables.take(0) =~= Seq::<(u64, SSTableMeta)>::empty());
        let entries = self.sstable_map.entries();
        while i < entries.len()
            invariant
                pointed(entries@) == self.sstable_map@,
                i <= tables.len(),
                self.wf(),
                files.wf(),
                tables == self.sstable_map@,
                k == encode_utf8(key@),
                key_bytes@ == k,
                range_ready(tables.take(i as int), files@, source_id, k, start_ts, end_ts),
            decreases tables.len() - i,
        {
            let entry = &entries[i];
            assert(pointed(entries@)[i as int] == (entry.0, *entry.1));
            assert(tables[i as int] == (entry.0, *entry.1));
            if !entry.1.bloom.is_usable() {
                return false;
            }
            if entry.1.bloom.contains(source_id, key_bytes) {
                if let Some(bytes) = files.get(entry.0) {
                    if !is_table_orderable(
                        entry.1,
                        bytes.as_slice(),
                        source_id,
                        key,
                        start_ts,
                        end_ts,
                    ) {
                        return false;
                    }
                }
            }
            assert(tables.take(i + 1) =~= tables.take(i as int).push((entry.0, *entry.1)));
            assert forall|j: int| 0 <= j < i implies tables.take(i as int)[j] == #[trigger] tables.take(
                i + 1,
            )[j] by {}
            i += 1;
        }
        assert(tables.take(tables.len() as int) =~= tables);
        true
    }

    /// The records of the source in the time span in all memory tables.
    fn clone_mem_span(&self, source_id: i64, start_ts: i64, end_ts: i64) -> (v: Vec<Record>)
        requires
            self.wf(),
        ensures
            rec_views(v@) == self@.mem_span(source_id, start_ts, end_ts),
            strictly_sorted(rec_views(v@)),
            all_keyed(rec_views(v@)),
    {
        let ghost p = |b: Seq<u8>| in_span(b, source_id, start_ts, end_ts);
        let mut v = self.memtable.clone_range(source_id, start_ts, end_ts);
        let ghost s = rec_views(v@);
        let ghost frozen = frozen_views(self.frozen_memtables@);
        proof {
            lemma_filter_sorted(self.memtable.records(), p);
            assert(frozen.take(0) =~= Seq::<(u64, Seq<Seq<u8>>)>::empty());
        }
        let mut i: usize = 0;
        let entries = self.frozen_memtables.entries();
        while i < entries.len()
            invariant
                pointed(entries@) == self.frozen_memtables@,
                self.wf(),
                i <= self.frozen_memtables@.len(),
                frozen == frozen_views(self.frozen_memtables@),
                p == (|b: Seq<u8>| in_span(b, source_id, start_ts, end_ts)),
                rec_views(v@) == frozen_span(
                    s,
                    frozen.take(i as int),
                    source_id,
                    start_ts,
                    end_ts,
                ),
                strictly_sorted(rec_views(v@)),
                all_keyed(rec_views(v@)),
            decreases self.frozen_memtables@.len() - i,
        {
            let entry = &entries[i];
            assert(pointed(entries@)[i as int] == (entry.0, *entry.1));
            assert(entry.1.wf());
            let recs = entry.1.clone_range(source_id, start_ts, end_ts);
            let ghost rs = rec_views(recs@);
            let ghost start = rec_views(v@);
            proof {
                lemma_filter_sorted(entry.1.records(), p);
                assert(rs.take(0) =~= Seq::<Seq<u8>>::empty());
                assert(frozen.take(i + 1).drop_last() =~= frozen.take(i as int));
                assert(frozen.take(i + 1).last() == (entry.0, entry.1.records()));
            }
            let mut j: usize = 0;
            while j < recs.len()
                invariant
                    j <= recs@.len(),
                    rs == rec_views(recs@),
                    all_keyed(rs),
                    rec_views(v@) == with_records(start, rs.take(j as int)),
                    strictly_sorted(rec_views(v@)),
                    all_keyed(rec_views(v@)),
                decreases recs@.len() - j,
            {
                let rec = recs[j].clone();
                assert(has_key(rs[j as int]));
                insert_sorted(&mut v, rec);
                proof {
                    lemma_with_records_step(start, rs, j as int);
                }
                j += 1;
            }
            assert(rs.take(rs.len() as int) =~= rs);
            i += 1;
        }
        assert(frozen.take(frozen.len() as int) =~= frozen);
        v
    }

    /// Whether each table has a filter that can be asked.
    pub fn has_usable_filters(&self) -> (r: bool)
        requires
            self.wf(),
        ensures
            r <==> forall|i: int|
                0 <= i < self@.tables.len() ==> (#[trigger] self@.tables[i]).1.bloom@.usable(),
    {
        let ghost tables = self.sstable_map@;
        assert(tables == self@.tables);
        let mut i: usize = 0;
        let entries = self.sstable_map.entries();
        while i < entries.len()
            invariant
                pointed(entries@) == self.sstable_map@,
                self.wf(),
                tables == self.sstable_map@,
                i <= tables.len(),
                forall|j: int| 0 <= j < i ==> (#[trigger] tables[j]).1.bloom@.usable(),
            decreases tables.len() - i,
        {
            let entry = &entries[i];
            assert(pointed(entries@)[i as int] == (entry.0, *entry.1));
            assert(tables[i as int] == (entry.0, *entry.1));
            if !entry.1.bloom.is_usable() {
                assert(!self@.tables[i as int].1.bloom@.usable());
                return false;
            }
            i += 1;
        }
        true
    }

    /// The path of the file of table `id`, if there is such a table.
    pub fn table_path(&self, id: u64) -> (r: Option<String>)
        requires
            self.wf(),
        ensures
            r is Some <==> has_id(self@.tables, id),
            r matches Some(path) ==> path@ == value_at(self@.tables, id).path@,
    {
        match self.sstable_map.get(id) {
            Some(meta) => Some(meta.path.clone()),
            None => None,
        }
    }

    /// The ids of the tables whose filters hold the source and the key, in their order.
    pub fn range_tables(&self, source_id: i64, key: &str) -> (v: Vec<u64>)
        requires
            self.wf(),
            forall|i: int|
                0 <= i < self@.tables.len() ==> (#[trigger] self@.tables[i]).1.bloom@.usable(),
        ensures
            v@ == held_ids(self@.tables, source_id, encode_utf8(key@)),
    {
        let ghost k = encode_utf8(key@);
        let ghost tables = self.sstable_map@;
        let key_bytes = key.as_bytes();
        assert(tables == self@.tables);
        let mut v: Vec<u64> = Vec::new();
        let mut i: usize = 0;
        assert(tables.take(0) =~= Seq::<(u64, SSTableMeta)>::empty());
        let entries = self.sstable_map.entries();
        while i < entries.len()
            invariant
                pointed(entries@) == self.sstable_map@,
                self.wf(),
                tables == self.sstable_map@,
                i <= tables.len(),
                key_bytes@ == k,
                forall|j: int| 0 <= j < tables.len() ==> (#[trigger] tables[j]).1.bloom@.usable(),
                v@ == held_ids(tables.take(i as int), source_id, k),
            decreases tables.len() - i,
        {
            let entry = &entries[i];
            assert(pointed(entries@)[i as int] == (entry.0, *entry.1));
            assert(tables[i as int].1.bloom@.usable());
            assert(tables.take(i + 1).drop_last() =~= tables.take(i as int));
            if entry.1.bloom.contains(source_id, key_bytes) {
                v.push(entry.0);
            }
            i += 1;
        }
        assert(tables.take(tables.len() as int) =~= tables);
        v
    }

    /// Takes the contents of the memory table aside, to be flushed to a table under the next
    /// id. They can still be read. Returns them and the id.
    pub fn prepare_flush(&mut self) -> (r: (Arc<MemTable>, u64))
        requires
            old(self).wf(),
            old(self)@.next_table < u64::MAX,
        ensures
            final(self).wf(),
            r.0.wf(),
            r.0.records() == old(self)@.mem,
            r.1 == old(self)@.next_table,
            final(self)@ == (EngineModel {
                mem: Seq::empty(),
                mem_size: 0,
                frozen: with_entry(old(self)@.frozen, old(self)@.next_table, old(self)@.mem),
                next_table: (old(self)@.next_table + 1) as u64,
                ..old(self)@
            }),
    {
        let ghost before = *self;
        let new_sst_id: u64 = self.sst_counter;
        self.sst_counter = self.sst_counter + 1;
        let shared = Arc::new(self.memtable.freeze());
        let ghost table = shared;
        self.frozen_memtables.insert(new_sst_id, share(&shared));
        proof {
            let map = before.frozen_memtables@;
            lemma_frozen_insert(map, new_sst_id, table);
            assert forall|i: int| 0 <= i < self.frozen_memtables@.len() implies (#[trigger]
            self.frozen_memtables@[i]).1.wf() by {
                lemma_with_entry_each(map, new_sst_id, table, i);
            }
        }
        (shared, new_sst_id)
    }

    /// Forgets the memory table that was flushed to table `id`.
    pub fn remove_frozen_memtable(&mut self, id: u64)
        requires
            old(self).wf(),
        ensures
            final(self).wf(),
            final(self)@ == (EngineModel {
                frozen: without_entry(old(self)@.frozen, id),
                ..old(self)@
            }),
    {
        let ghost before = self.frozen_memtables@;
        self.frozen_memtables.remove(id);
        proof {
            lemma_frozen_remove(before, id);
            assert forall|i: int| 0 <= i < self.frozen_memtables@.len() implies (#[trigger]
            self.frozen_memtables@[i]).1.wf() by {
                lemma_without_entry_each(before, id, i);
            }
        }
    }

    /// Takes up a table, in place of one with its id.
    pub fn insert_meta(&mut self, meta: SSTableMeta)
        requires
            old(self).wf(),
        ensures
            final(self).wf(),
            final(self)@ == (EngineModel {
                tables: with_entry(old(self)@.tables, meta.id, meta),
                ..old(self)@
            }),
    {
        let id: u64 = meta.id;
        let ghost before = self.sstable_map@;
        let ghost new = meta;
        self.sstable_map.insert(id, meta);
        proof {
            assert forall|i: int| 0 <= i < self.sstable_map@.len() implies (#[trigger]
            self.sstable_map@[i]).0 == self.sstable_map@[i].1.id by {
                lemma_with_entry_each(before, id, new, i);
            }
        }
    }

    /// Forgets table `id`.
    pub fn remove_meta(&mut self, id: u64)
        requires
            old(self).wf(),
        ensures
            final(self).wf(),
            final(self)@ == (EngineModel {
                tables: without_entry(old(self)@.tables, id),
                ..old(self)@
            }),
    {
        let ghost before = self.sstable_map@;
        self.sstable_map.remove(id);
        proof {
            assert forall|i: int| 0 <= i < self.sstable_map@.len() implies (#[trigger]
            self.sstable_map@[i]).0 == self.sstable_map@[i].1.id by {
                lemma_without_entry_each(before, id, i);
            }
        }
    }

    /// How many tables there are.
    pub fn sstable_count(&self) -> (n: usize)
        ensures
            n == self@.tables.len(),
    {
        self.sstable_map.len()
    }

    /// The tables stand in the order of their ids.
    pub proof fn lemma_tables_ascending(&self)
        requires
            self.wf(),
        ensures
            ascending(self@.tables),
    {
    }

    /// How many bytes the files of the tables have together.
    pub fn total_sstable_size(&self) -> (n: u64)
        requires
            size_total(self@.tables) <= u64::MAX,
        ensures
            n == size_total(self@.tables),
    {
        let ghost tables = self.sstable_map@;
        let mut total: u64 = 0;
        let mut i: usize = 0;
        assert(tables.take(0) =~= Seq::<(u64, SSTableMeta)>::empty());
        let entries = self.sstable_map.entries();
        while i < entries.len()
            invariant
                pointed(entries@) == self.sstable_map@,
                tables == self.sstable_map@,
                i <= tables.len(),
                size_total(tables) <= u64::MAX,
                total == size_total(tables.take(i as int)),
            decreases tables.len() - i,
        {
            proof {
                lemma_size_total_step(tables, i as int);
            }
            total = total + entries[i].1.file_size;
            assert(pointed(entries@)[i as int] == (entries@[i as int].0, *entries@[i as int].1));
            i += 1;
        }
        assert(tables.take(tables.len() as int) =~= tables);
        total
    }

    /// Whether the bytes of the files can be counted when there is one more of `size` bytes, and
    /// be compared with eight times the limit of the memory table.
    pub fn has_room_for_table(&self, size: u64) -> (r: bool)
        ensures
            r == (size_total(self@.tables) + size <= u64::MAX && self@.limit * 8 <= u64::MAX),
    {
        let ghost tables = self.sstable_map@;
        if self.memtable.capacity() as u64 > u64::MAX / 8 {
            return false;
        }
        let mut total: u64 = size;
        let mut i: usize = 0;
        assert(tables.take(0) =~= Seq::<(u64, SSTableMeta)>::empty());
        let entries = self.sstable_map.entries();
        while i < entries.len()
            invariant
                pointed(entries@) == self.sstable_map@,
                tables == self.sstable_map@,
                i <= tables.len(),
                total == size + size_total(tables.take(i as int)),
            decreases tables.len() - i,
        {
            proof {
                lemma_size_total_step(tables, i as int);
            }
            let more: u64 = entries[i].1.file_size;
            assert(pointed(entries@)[i as int] == (entries@[i as int].0, *entries@[i as int].1));
            if more > u64::MAX - total {
                return false;
            }
            total = total + more;
            i += 1;
        }
        assert(tables.take(tables.len() as int) =~= tables);
        true
    }

    /// How many bytes the memory table takes before it should be flushed.
    pub fn memtable_capacity(&self) -> (n: usize)
        ensures
            n == self@.limit,
    {
        self.memtable.capacity()
    }

    /// Starts to count what is written to the log. Returns the limit of the memory table.
    pub fn set_metrics(&mut self) -> (limit: usize)
        requires
            old(self).wf(),
        ensures
            final(self).wf(),
            limit == old(self)@.limit,
            final(self)@ == (EngineModel { wal_counts: Some((0u64, 0u64)), ..old(self)@ }),
    {
        self.wal.set_metrics();
        self.memtable.capacity()
    }

    /// How many records and bytes were written to the log, where they are counted.
    pub fn wal_counts(&self) -> (r: Option<(u64, u64)>)
        ensures
            r == self@.wal_counts,
    {
        self.wal.counts()
    }

    /// The directory of the store.
    pub fn clone_base_dir(&self) -> (r: String)
        ensures
            r@ == self@.base_dir,
    {
        self.base_dir.clone()
    }

    /// Whether the memory table holds no record.
    pub fn is_memtable_empty(&self) -> (r: bool)
        ensures
            r == (self@.mem.len() == 0),
    {
        self.memtable.is_empty()
    }

    /// How many bytes went into the memory table.
    pub fn memtable_size(&self) -> (n: usize)
        ensures
            n == self@.mem_size,
    {
        self.memtable.current_size()
    }

    /// The directory of the store.
    pub fn base_dir(&self) -> (r: &str)
        ensures
            r@ == self@.base_dir,
    {
        self.base_dir.as_str()
    }

    /// How many bytes went into the memory table, and how many tables there are.
    pub fn send_stats(&self) -> (r: (usize, usize))
        ensures
            r.0 == self@.mem_size,
            r.1 == self@.tables.len(),
    {
        (self.memtable.current_size(), self.sstable_map.len())
    }

    /// Notes whether the file of the log takes bytes.
    pub fn set_wal_available(&mut self, available: bool)
        requires
            old(self).wf(),
        ensures
            final(self).wf(),
            final(self)@ == (EngineModel { wal_open: available, ..old(self)@ }),
    {
        self.wal.set_available(available);
    }

    /// How many bytes are still to go to the file of the log.
    pub fn wal_pending_len(&self) -> (n: usize)
        ensures
            n == self@.wal_pending.len(),
    {
        self.wal.pending_len()
    }

    /// Hands over the bytes that are still to go to the file of the log.
    pub fn flush_wal_buffer(&mut self) -> (r: Vec<u8>)
        requires
            old(self).wf(),
        ensures
            final(self).wf(),
            r@ == old(self)@.wal_pending,
            final(self)@ == (EngineModel { wal_pending: Seq::empty(), ..old(self)@ }),
    {
        self.wal.flush_buffer()
    }

    /// Closes the log for table `sst_id` and starts a new one. Returns the bytes that are still
    /// to go to the file of the closed one, and the path to which that file is to be moved.
    pub fn rotate_wal(&mut self, sst_id: u64) -> (r: (Vec<u8>, String))
        requires
            old(self).wf(),
        ensures
            final(self).wf(),
            r.0@ == old(self)@.wal_pending,
            r.1@ == join_path(old(self)@.base_dir, inactive_name(sst_id)),
            final(self)@ == (EngineModel {
                wal_pending: Seq::empty(),
                wal_path: join_path(join_path(old(self)@.base_dir, wal_dir()), active_name()),
                ..old(self)@
            }),
    {
        self.wal.rotate(self.base_dir.as_str(), sst_id)
    }

    /// Marks the tables as being compacted.
    pub fn mark_compacting(&mut self, ids: &[u64])
        requires
            old(self).wf(),
        ensures
            final(self).wf(),
            final(self)@ == (EngineModel {
                compacting: old(self)@.compacting.union(ids@.to_set()),
                ..old(self)@
            }),
    {
        broadcast use vstd::std_specs::btree::group_btree_axioms;

        let ghost before = *self;
        let mut i: usize = 0;
        assert(before.compacting@.union(ids@.take(0).to_set()) =~= before.compacting@);
        while i < ids.len()
            invariant
                i <= ids@.len(),
                self.wf(),
                self.memtable == before.memtable,
                self.wal == before.wal,
                self.base_dir == before.base_dir,
                self.frozen_memtables == before.frozen_memtables,
                self.sstable_map == before.sstable_map,
                self.sst_counter == before.sst_counter,
                self.seq_counter == before.seq_counter,
                self.compacting@ == before.compacting@.union(ids@.take(i as int).to_set()),
            decreases ids@.len() - i,
        {
            let _ = self.compacting.insert(ids[i]);
            proof {
                assert(ids@.take(i + 1) =~= ids@.take(i as int).push(ids@[i as int]));
                lemma_push_set(ids@.take(i as int), ids@[i as int]);
                assert(self.compacting@ =~= before.compacting@.union(ids@.take(i + 1).to_set()));
            }
            i += 1;
        }
        assert(ids@.take(ids@.len() as int) =~= ids@);
    }

    /// Marks the tables as no longer being compacted.
    pub fn unmark_compacting(&mut self, ids: &[u64])
        requires
            old(self).wf(),
        ensures
            final(self).wf(),
            final(self)@ == (EngineModel {
                compacting: old(self)@.compacting.difference(ids@.to_set()),
                ..old(self)@
            }),
    {
        broadcast use vstd::std_specs::btree::group_btree_axioms;

        let ghost before = *self;
        let mut i: usize = 0;
        assert(before.compacting@.difference(ids@.take(0).to_set()) =~= before.compacting@);
        while i < ids.len()
            invariant
                i <= ids@.len(),
                self.wf(),
                self.memtable == before.memtable,
                self.wal == before.wal,
                self.base_dir == before.base_dir,
                self.frozen_memtables == before.frozen_memtables,
                self.sstable_map == before.sstable_map,
                self.sst_counter == before.sst_counter,
                self.seq_counter == before.seq_counter,
                self.compacting@ == before.compacting@.difference(ids@.take(i as int).to_set()),
            decreases ids@.len() - i,
        {
            let _ = self.compacting.remove(&ids[i]);
            proof {
                assert(ids@.take(i + 1) =~= ids@.take(i as int).push(ids@[i as int]));
                lemma_push_set(ids@.take(i as int), ids@[i as int]);
                assert(self.compacting@ =~= before.compacting@.difference(
                    ids@.take(i + 1).to_set(),
                ));
            }
            i += 1;
        }
        assert(ids@.take(ids@.len() as int) =~= ids@);
    }

    /// The `n` tables with the lowest ids that are not being compacted, or as many as there
    /// are.
    pub fn get_oldest_metas(&self, n: usize) -> (v: Vec<SSTableMeta>)
        requires
            self.wf(),
        ensures
            v@.len() == oldest(self@.tables, self@.compacting, n as nat).len(),
            forall|i: int|
                0 <= i < v@.len() ==> (#[trigger] v@[i]).same(
                    &self@.tables[oldest(self@.tables, self@.compacting, n as nat)[i]].1,
                ),
    {
        broadcast use vstd::std_specs::btree::group_btree_axioms;

        let ghost tables = self.sstable_map@;
        let ghost busy = self.compacting@;
        let mut v: Vec<SSTableMeta> = Vec::new();
        let mut i: usize = 0;
        assert(tables.take(0) =~= Seq::<(u64, SSTableMeta)>::empty());
        let entries = self.sstable_map.entries();
        while i < entries.len()
            invariant
                pointed(entries@) == self.sstable_map@,
                self.wf(),
                tables == self.sstable_map@,
                busy == self.compacting@,
                i <= tables.len(),
                v@.len() == oldest(tables.take(i as int), busy, n as nat).len(),
                v@.len() <= n,
                forall|j: int|
                    0 <= j < v@.len() ==> 0 <= #[trigger] oldest(
                        tables.take(i as int),
                        busy,
                        n as nat,
                    )[j] < i,
                forall|j: int|
                    0 <= j < v@.len() ==> (#[trigger] v@[j]).same(
                        &tables[oldest(tables.take(i as int), busy, n as nat)[j]].1,
                    ),
            decreases tables.len() - i,
        {
            let ghost before = oldest(tables.take(i as int), busy, n as nat);
            assert(tables.take(i + 1).drop_last() =~= tables.take(i as int));
            let entry = &entries[i];
            assert(pointed(entries@)[i as int] == (entry.0, *entry.1));
            if v.len() < n && !self.compacting.contains(&entry.1.id) {
                let ghost done = v@;
                v.push(entry.1.clone());
                assert(oldest(tables.take(i + 1), busy, n as nat) == before.push(i as int));
                assert forall|j: int| 0 <= j < v@.len() implies (#[trigger] v@[j]).same(
                    &tables[before.push(i as int)[j]].1,
                ) by {
                    if j < done.len() {
                        assert(v@[j] == done[j]);
                    }
                }
            } else {
                assert(oldest(tables.take(i + 1), busy, n as nat) == before);
            }
            i += 1;
        }
        assert(tables.take(tables.len() as int) =~= tables);
        v
    }

    /// Takes the next table id.
    pub fn allocate_sstable_id(&mut self) -> (id: u64)
        requires
            old(self).wf(),
            old(self)@.next_table < u64::MAX,
        ensures
            final(self).wf(),
            id == old(self)@.next_table,
            final(self)@ == (EngineModel {
                next_table: (old(self)@.next_table + 1) as u64,
                ..old(self)@
            }),
    {
        let id: u64 = self.sst_counter;
        self.sst_counter = self.sst_counter + 1;
        id
    }

    /// Whether there are sequence numbers left for `records` more records, and whether `bytes`
    /// more bytes can be counted in the memory table.
    pub fn has_room(&self, records: usize, bytes: usize) -> (r: bool)
        ensures
            r == (self@.next_seq + records <= u64::MAX && self@.mem_size + bytes <= usize::MAX),
    {
        records as u64 <= u64::MAX - self.seq_counter && bytes <= usize::MAX
            - self.memtable.current_size()
    }

    /// Whether there are sequence numbers left for the records, and whether their bytes can be
    /// counted in the memory table.
    pub fn has_room_for(&self, inserts: &Vec<Insert>) -> (r: bool)
        ensures
            r == (self@.next_seq + inserts@.len() <= u64::MAX && self@.mem_size + bytes_total(
                batch_records(inserts@, self@.next_seq),
            ) <= usize::MAX),
    {
        let ghost want = batch_records(inserts@, self.seq_counter);
        if inserts.len() as u64 > u64::MAX - self.seq_counter {
            return false;
        }
        let room: usize = usize::MAX - self.memtable.current_size();
        let mut used: usize = 0;
        let mut i: usize = 0;
        assert(want.take(0) =~= Seq::<Seq<u8>>::empty());
        while i < inserts.len()
            invariant
                i <= inserts@.len(),
                want == batch_records(inserts@, self.seq_counter),
                room == usize::MAX - self.memtable.size(),
                used <= room,
                used == bytes_total(want.take(i as int)),
            decreases inserts@.len() - i,
        {
            let ins = &inserts[i];
            proof {
                lemma_bytes_total_step(want, i as int);
                lemma_record_len(
                    ins.source_id,
                    ins.ts,
                    (self.seq_counter + i) as u64,
                    encode_utf8(ins.key@),
                    encode_utf8(ins.value@),
                );
            }
            let key: usize = ins.key.as_str().as_bytes().len();
            let value: usize = ins.value.as_str().as_bytes().len();
            if room - used < 40 || key > room - used - 40 || value > room - used - 40 - key {
                return false;
            }
            used = used + 40 + key + value;
            i += 1;
        }
        assert(want.take(want.len() as int) =~= want);
        true
    }

    /// The sequence number of the next record.
    pub fn next_seq(&self) -> (n: u64)
        ensures
            n == self@.next_seq,
    {
        self.seq_counter
    }

    /// The id of the next table.
    pub fn next_sstable_id(&self) -> (n: u64)
        ensures
            n == self@.next_table,
    {
        self.sst_counter
    }
}

/// The name and the bytes of a file.
pub struct NamedFile {
    pub name: String,
    pub bytes: Vec<u8>,
}

/// The table id of a file that is named like a table.
pub open spec fn file_id(f: NamedFile) -> Option<u64> {
    if is_table_name(encode_utf8(f.name@)) {
        table_name_id(encode_utf8(f.name@))
    } else {
        None
    }
}

/// Why the file keeps an engine from being opened, if it does.
pub open spec fn file_error(f: NamedFile) -> Option<OpenError> {
    if !is_table_name(encode_utf8(f.name@)) {
        None
    } else if table_name_id(encode_utf8(f.name@)) is None {
        Some(OpenError::FileName)
    } else {
        match open_table_error(f.bytes@) {
            Some(e) => Some(OpenError::Table(e)),
            None => None,
        }
    }
}

/// Why the files keep an engine from being opened, if they do: what is wrong with the first of
/// them that does.
pub open spec fn files_error(files: Seq<NamedFile>) -> Option<OpenError>
    decreases files.len(),
{
    if files.len() == 0 {
        None
    } else if files_error(files.drop_last()) is Some {
        files_error(files.drop_last())
    } else {
        file_error(files.last())
    }
}

/// The highest table id of the files.
pub open spec fn files_max_id(files: Seq<NamedFile>) -> u64
    decreases files.len(),
{
    if files.len() == 0 {
        0
    } else {
        let m = files_max_id(files.drop_last());
        match file_id(files.last()) {
            Some(id) => if id > m {
                id
            } else {
                m
            },
            None => m,
        }
    }
}

/// The highest sequence number of the records in the file, if it is that of a table.
pub open spec fn file_seq(f: NamedFile) -> nat {
    if file_id(f) is Some && open_table_error(f.bytes@) is None {
        max_seq(table_records(f.bytes@))
    } else {
        0
    }
}

/// The highest sequence number in the files of tables.
pub open spec fn files_max_seq(files: Seq<NamedFile>) -> nat
    decreases files.len(),
{
    if files.len() == 0 {
        0
    } else {
        let m = files_max_seq(files.drop_last());
        if file_seq(files.last()) > m {
            file_seq(files.last())
        } else {
            m
        }
    }
}

/// Whether one of the files is that of table `id`.
pub open spec fn names_id(files: Seq<NamedFile>, id: u64) -> bool {
    exists|i: int| 0 <= i < files.len() && file_id(#[trigger] files[i]) == Some(id)
}

/// Whether file `i` is that of a table, and none of those behind it is that of the same table.
pub open spec fn last_of_id(files: Seq<NamedFile>, i: int) -> bool {
    &&& 0 <= i < files.len()
    &&& file_id(files[i]) is Some
    &&& forall|j: int| i < j < files.len() ==> file_id(#[trigger] files[j]) != file_id(files[i])
}

/// Whether `meta` is what the file says of its table.
pub open spec fn opened_from(base_dir: Seq<char>, f: NamedFile, meta: SSTableMeta) -> bool {
    meta.opened(file_id(f)->0, join_path(base_dir, f.name@), f.bytes@)
}

/// Whether `tables` is what the files say of the tables. Of two files with the same id the
/// later counts.
pub open spec fn tables_opened(
    base_dir: Seq<char>,
    files: Seq<NamedFile>,
    tables: Seq<(u64, SSTableMeta)>,
) -> bool {
    &&& forall|id: u64| #[trigger] has_id(tables, id) <==> names_id(files, id)
    &&& forall|i: int| #[trigger]
        last_of_id(files, i) ==> opened_from(
            base_dir,
            files[i],
            value_at(tables, file_id(files[i])->0),
        )
}

proof fn lemma_files_error_first(files: Seq<NamedFile>, i: int)
    requires
        0 <= i <= files.len(),
        files_error(files.take(i)) is Some,
    ensures
        files_error(files) == files_error(files.take(i)),
    decreases files.len() - i,
{
    if i < files.len() {
        assert(files.take(i + 1).drop_last() =~= files.take(i));
        lemma_files_error_first(files, i + 1);
    } else {
        assert(files.take(i) =~= files);
    }
}

proof fn lemma_files_max_grow(files: Seq<NamedFile>, i: int)
    requires
        0 <= i <= files.len(),
    ensures
        files_max_id(files.take(i)) <= files_max_id(files),
        files_max_seq(files.take(i)) <= files_max_seq(files),
    decreases files.len() - i,
{
    if i < files.len() {
        assert(files.take(i + 1).drop_last() =~= files.take(i));
        lemma_files_max_grow(files, i + 1);
    } else {
        assert(files.take(i) =~= files);
    }
}

proof fn lemma_names_id_step(files: Seq<NamedFile>, i: int, id: u64)
    requires
        0 <= i < files.len(),
    ensures
        names_id(files.take(i + 1), id) <==> names_id(files.take(i), id) || file_id(files[i])
            == Some(id),
{
    let front = files.take(i);
    let all = files.take(i + 1);
    assert(all[i] == files[i]);
    if names_id(front, id) {
        let k = choose|k: int| 0 <= k < front.len() && file_id(#[trigger] front[k]) == Some(id);
        assert(all[k] == front[k]);
    }
    if names_id(all, id) {
        let k = choose|k: int| 0 <= k < all.len() && file_id(#[trigger] all[k]) == Some(id);
        if k < i {
            assert(front[k] == all[k]);
        }
    }
}

proof fn lemma_last_of_id_step(files: Seq<NamedFile>, i: int, k: int)
    requires
        0 <= i < files.len(),
        k < i,
        last_of_id(files.take(i + 1), k),
    ensures
        last_of_id(files.take(i), k),
        files.take(i)[k] == files.take(i + 1)[k],
        file_id(files[i]) != file_id(files.take(i)[k]),
        names_id(files.take(i), file_id(files.take(i)[k])->0),
{
    let front = files.take(i);
    let all = files.take(i + 1);
    assert(all[i] == files[i]);
    assert(front[k] == all[k]);
    assert forall|j: int| k < j < front.len() implies file_id(#[trigger] front[j]) != file_id(
        front[k],
    ) by {
        assert(front[j] == all[j]);
    }
    assert(file_id(front[k]) == Some(file_id(front[k])->0));
}

proof fn lemma_tables_opened_step(
    base_dir: Seq<char>,
    files: Seq<NamedFile>,
    i: int,
    before: Seq<(u64, SSTableMeta)>,
    id: u64,
    meta: SSTableMeta,
)
    requires
        0 <= i < files.len(),
        ascending(before),
        tables_opened(base_dir, files.take(i), before),
        file_id(files[i]) == Some(id),
        opened_from(base_dir, files[i], meta),
    ensures
        tables_opened(base_dir, files.take(i + 1), with_entry(before, id, meta)),
{
    let front = files.take(i);
    let all = files.take(i + 1);
    let after = with_entry(before, id, meta);
    assert forall|x: u64| #[trigger] has_id(after, x) <==> names_id(all, x) by {
        law_with_entry(before, id, meta, x);
        lemma_names_id_step(files, i, x);
        assert(has_id(before, x) <==> names_id(front, x));
    }
    assert forall|k: int| #[trigger] last_of_id(all, k) implies opened_from(
        base_dir,
        all[k],
        value_at(after, file_id(all[k])->0),
    ) by {
        let x = file_id(all[k])->0;
        law_with_entry(before, id, meta, x);
        if k < i {
            lemma_last_of_id_step(files, i, k);
            assert(has_id(before, x) <==> names_id(front, x));
        } else {
            assert(all[k] == files[i]);
        }
    }
}

proof fn lemma_tables_opened_skip(
    base_dir: Seq<char>,
    files: Seq<NamedFile>,
    i: int,
    tables: Seq<(u64, SSTableMeta)>,
)
    requires
        0 <= i < files.len(),
        tables_opened(base_dir, files.take(i), tables),
        file_id(files[i]) is None,
    ensures
        tables_opened(base_dir, files.take(i + 1), tables),
{
    let front = files.take(i);
    let all = files.take(i + 1);
    assert forall|x: u64| #[trigger] has_id(tables, x) <==> names_id(all, x) by {
        lemma_names_id_step(files, i, x);
        assert(has_id(tables, x) <==> names_id(front, x));
    }
    assert forall|k: int| #[trigger] last_of_id(all, k) implies opened_from(
        base_dir,
        all[k],
        value_at(tables, file_id(all[k])->0),
    ) by {
        if k < i {
            lemma_last_of_id_step(files, i, k);
        } else {
            assert(all[k] == files[i]);
        }
    }
}

/// Whether the numbers that an engine needs to open do not run out: those of the bytes in the
/// memory table, of the next record and of the next table.
pub open spec fn counters_fit(wal_files: Seq<Seq<u8>>, files: Seq<NamedFile>) -> bool {
    &&& bytes_total(recovered(wal_files)) <= usize::MAX
    &&& max_seq(recovered(wal_files)) < u64::MAX
    &&& files_max_seq(files) < u64::MAX
    &&& files_max_id(files) < u64::MAX
}

/// Whether `m` is the state of an engine that was opened on the log files `logs` and the files
/// `files`: the memory table holds what is recovered from the logs, the tables are what the
/// files say, and the numbers go on behind the highest that are found.
pub open spec fn engine_opened(
    base_dir: Seq<char>,
    limit: nat,
    logs: Seq<Seq<u8>>,
    files: Seq<NamedFile>,
    m: EngineModel,
) -> bool {
    &&& m.base_dir == base_dir
    &&& m.wal_path == join_path(join_path(base_dir, wal_dir()), active_name())
    &&& m.wal_pending == Seq::<u8>::empty()
    &&& m.wal_open
    &&& m.wal_counts is None
    &&& m.mem == recovered(logs)
    &&& m.mem_size == bytes_total(m.mem)
    &&& m.limit == limit
    &&& m.frozen == Seq::<(u64, Seq<Seq<u8>>)>::empty()
    &&& tables_opened(base_dir, files, m.tables)
    &&& m.compacting == Set::<u64>::empty()
    &&& m.next_table == files_max_id(files) + 1
    &&& m.next_seq == 1 + (if max_seq(m.mem) > files_max_seq(files) {
        max_seq(m.mem)
    } else {
        files_max_seq(files)
    })
}

/// No file has a higher id or sequence number than the highest of all.
pub proof fn lemma_files_max(files: Seq<NamedFile>, i: int)
    requires
        0 <= i < files.len(),
    ensures
        file_id(files[i]) matches Some(id) ==> id <= files_max_id(files),
        file_seq(files[i]) <= files_max_seq(files),
    decreases files.len(),
{
    if i < files.len() - 1 {
        assert(files.drop_last()[i] == files[i]);
        lemma_files_max(files.drop_last(), i);
    }
}

/// Files that are each in order keep no engine from being opened.
pub proof fn lemma_files_in_order(files: Seq<NamedFile>)
    requires
        forall|i: int| 0 <= i < files.len() ==> file_error(#[trigger] files[i]) is None,
    ensures
        files_error(files) is None,
    decreases files.len(),
{
    if files.len() > 0 {
        let front = files.drop_last();
        assert forall|i: int| 0 <= i < front.len() implies file_error(#[trigger] front[i])
            is None by {
            assert(front[i] == files[i]);
        }
        lemma_files_in_order(front);
        assert(files[files.len() - 1] == files.last());
    }
}

/// Of the files of a table one is the last.
pub proof fn lemma_last_of_id(files: Seq<NamedFile>, id: u64) -> (i: int)
    requires
        names_id(files, id),
    ensures
        last_of_id(files, i),
        file_id(files[i]) == Some(id),
    decreases files.len(),
{
    let n = files.len() - 1;
    if file_id(files[n]) == Some(id) {
        n
    } else {
        let front = files.drop_last();
        let k = choose|k: int| 0 <= k < files.len() && file_id(#[trigger] files[k]) == Some(id);
        assert(front[k] == files[k]);
        let i = lemma_last_of_id(front, id);
        assert(files[i] == front[i]);
        assert forall|j: int| i < j < files.len() implies file_id(#[trigger] files[j]) != file_id(
            files[i],
        ) by {
            if j < n {
                assert(front[j] == files[j]);
            }
        }
        i
    }
}

impl Engine {
    /// Opens the store in the directory `base_dir`: the memory table takes the records of the
    /// log files `wal_files`, and the files `files` that are named like tables are opened in
    /// their order. The sequence numbers and table ids go on behind the highest that are
    /// found. Returns the engine and whether its memory table should be flushed.
    pub fn open(
        base_dir: String,
        memtable_limit: usize,
        wal_files: &Vec<Vec<u8>>,
        files: &Vec<NamedFile>,
    ) -> (r: Result<(Self, bool), OpenError>)
        requires
            forall|i: int| 0 <= i < wal_files@.len() ==> recoverable((#[trigger] wal_files@[i])@),
            counters_fit(file_views(wal_files@), files@),
        ensures
            r is Ok <==> files_error(files@) is None,
            r matches Err(e) ==> files_error(files@) == Some(e),
            r matches Ok((e, needs_flush)) ==> e.wf() && needs_flush == (e@.mem.len() > 0
                && e@.mem_size > memtable_limit) && engine_opened(
                base_dir@,
                memtable_limit as nat,
                file_views(wal_files@),
                files@,
                e@,
            ),
    {
        let ghost logs = file_views(wal_files@);
        let wal = Wal::open_active(base_dir.as_str());
        let recs = Wal::recover_all(wal_files);
        let ghost rs = rec_views(recs@);
        let (mem_seq, _) = scan_seq(&recs);
        let mut max_seq_num: u64 = mem_seq;
        let mut needs_flush = false;
        let mut memtable = MemTable::new(memtable_limit);
        let mut i: usize = 0;
        assert(rs.take(0) =~= Seq::<Seq<u8>>::empty());
        while i < recs.len()
            invariant
                i <= recs@.len(),
                rs == rec_views(recs@),
                all_keyed(rs),
                bytes_total(rs) <= usize::MAX,
                memtable.wf(),
                memtable.records() == with_records(Seq::empty(), rs.take(i as int)),
                memtable.size() == bytes_total(rs.take(i as int)),
                memtable.bound() == memtable_limit,
                needs_flush == (i > 0 && memtable.size() > memtable_limit),
            decreases recs@.len() - i,
        {
            let rec = recs[i].clone();
            proof {
                assert(has_key(rs[i as int]));
                lemma_with_records_step(Seq::empty(), rs, i as int);
                lemma_bytes_total_step(rs, i as int);
            }
            needs_flush = memtable.insert(rec);
            i += 1;
        }
        proof {
            assert(rs.take(rs.len() as int) =~= rs);
            lemma_with_records_sorted(rs);
        }
        let mut max_sst_id: u64 = 0;
        let mut sstable_map: IdMap<SSTableMeta> = IdMap::new();
        let mut k: usize = 0;
        assert(files@.take(0) =~= Seq::<NamedFile>::empty());
        while k < files.len()
            invariant
                k <= files@.len(),
                files_error(files@.take(k as int)) is None,
                max_sst_id == files_max_id(files@.take(k as int)),
                max_seq_num == (if max_seq(rs) > files_max_seq(files@.take(k as int)) {
                    max_seq(rs)
                } else {
                    files_max_seq(files@.take(k as int))
                }),
                sstable_map.wf(),
                tables_opened(base_dir@, files@.take(k as int), sstable_map@),
                forall|n: int|
                    0 <= n < sstable_map@.len() ==> (#[trigger] sstable_map@[n]).0
                        == sstable_map@[n].1.id,
            decreases files@.len() - k,
        {
            let file = &files[k];
            proof {
                assert(files@.take(k + 1).drop_last() =~= files@.take(k as int));
                assert(files@.take(k + 1).last() == files@[k as int]);
                assert(files_error(files@.take(k + 1)) == file_error(files@[k as int]));
            }
            match file_kind(file.name.as_str()) {
                FileKind::Other => {
                    proof {
                        lemma_tables_opened_skip(base_dir@, files@, k as int, sstable_map@);
                    }
                },
                FileKind::Unnumbered => {
                    proof {
                        lemma_files_error_first(files@, k + 1);
                    }
                    return Err(OpenError::FileName);
                },
                FileKind::Table(id) => {
                    if id > max_sst_id {
                        max_sst_id = id;
                    }
                    let path = join(base_dir.as_str(), file.name.as_str());
                    match SSTableMeta::open(id, path, file.bytes.as_slice()) {
                        Ok((meta, seq)) => {
                            if seq > max_seq_num {
                                max_seq_num = seq;
                            }
                            let ghost before = sstable_map@;
                            let ghost new = meta;
                            sstable_map.insert(id, meta);
                            proof {
                                lemma_tables_opened_step(
                                    base_dir@,
                                    files@,
                                    k as int,
                                    before,
                                    id,
                                    new,
                                );
                                assert forall|n: int| 0 <= n < sstable_map@.len() implies (
                                #[trigger] sstable_map@[n]).0 == sstable_map@[n].1.id by {
                                    lemma_with_entry_each(before, id, new, n);
                                }
                            }
                        },
                        Err(e) => {
                            proof {
                                lemma_files_error_first(files@, k + 1);
                            }
                            return Err(OpenError::Table(e));
                        },
                    }
                },
            }
            k += 1;
        }
        assert(files@.take(files@.len() as int) =~= files@);
        let e = Engine {
            base_dir,
            wal,
            memtable,
            frozen_memtables: IdMap::new(),
            sstable_map,
            compacting: BTreeSet::new(),
            sst_counter: max_sst_id + 1,
            seq_counter: max_seq_num + 1,
        };
        assert(e@.frozen =~= Seq::<(u64, Seq<Seq<u8>>)>::empty());
        Ok((e, needs_flush))
    }

    /// Whether the numbers that an engine needs to open do not run out.
    pub fn counters_suffice(wal_files: &Vec<Vec<u8>>, files: &Vec<NamedFile>) -> (r: bool)
        requires
            forall|i: int| 0 <= i < wal_files@.len() ==> recoverable((#[trigger] wal_files@[i])@),
        ensures
            r == counters_fit(file_views(wal_files@), files@),
    {
        let recs = Wal::recover_all(wal_files);
        let ghost rs = rec_views(recs@);
        let (seq, _) = scan_seq(&recs);
        if seq == u64::MAX {
            return false;
        }
        let mut size: usize = 0;
        let mut i: usize = 0;
        assert(rs.take(0) =~= Seq::<Seq<u8>>::empty());
        while i < recs.len()
            invariant
                i <= recs@.len(),
                rs == rec_views(recs@),
                size == bytes_total(rs.take(i as int)),
                rs == recovered(file_views(wal_files@)),
            decreases recs@.len() - i,
        {
            let len: usize = recs[i].len();
            proof {
                lemma_bytes_total_step(rs, i as int);
            }
            if len > usize::MAX - size {
                return false;
            }
            size = size + len;
            i += 1;
        }
        assert(rs.take(rs.len() as int) =~= rs);
        let mut k: usize = 0;
        assert(files@.take(0) =~= Seq::<NamedFile>::empty());
        while k < files.len()
            invariant
                k <= files@.len(),
                files_max_id(files@.take(k as int)) < u64::MAX,
                files_max_seq(files@.take(k as int)) < u64::MAX,
            decreases files@.len() - k,
        {
            let file = &files[k];
            proof {
                assert(files@.take(k + 1).drop_last() =~= files@.take(k as int));
                assert(files@.take(k + 1).last() == files@[k as int]);
                lemma_files_max_grow(files@, k + 1);
            }
            if let FileKind::Table(id) = file_kind(file.name.as_str()) {
                if id == u64::MAX {
                    return false;
                }
                let path = file.name.clone();
                if let Ok((_, seq)) = SSTableMeta::open(id, path, file.bytes.as_slice()) {
                    if seq == u64::MAX {
                        return false;
                    }
                }
            }
            k += 1;
        }
        assert(files@.take(files@.len() as int) =~= files@);
        true
    }
}

/// The memory tables of an engine are sorted and without duplicates, and the ids of its tables
/// ascend.
pub proof fn law_engine_sorted(e: &Engine)
    requires
        e.wf(),
    ensures
        engine_sorted(e@),
{
    let s = e.frozen_memtables@;
    let t = frozen_views(s);
    assert forall|i: int| 0 <= i < t.len() implies strictly_sorted((#[trigger] t[i]).1)
        && all_keyed(t[i].1) by {
        assert(s[i].1.wf());
    }
    assert forall|i: int, j: int| 0 <= i < j < t.len() implies (#[trigger] t[i]).0 < (
    #[trigger] t[j]).0 by {
        assert(s[i].0 < s[j].0);
    }
}

/// How many bytes the files of the tables have together.
pub open spec fn size_total(tables: Seq<(u64, SSTableMeta)>) -> nat
    decreases tables.len(),
{
    if tables.len() == 0 {
        0
    } else {
        size_total(tables.drop_last()) + tables.last().1.file_size as nat
    }
}

proof fn lemma_size_total_step(tables: Seq<(u64, SSTableMeta)>, i: int)
    requires
        0 <= i < tables.len(),
    ensures
        size_total(tables.take(i + 1)) == size_total(tables.take(i)) + tables[i].1.file_size,
        size_total(tables.take(i + 1)) <= size_total(tables),
    decreases tables.len() - i,
{
    assert(tables.take(i + 1).drop_last() =~= tables.take(i));
    if i + 1 < tables.len() {
        lemma_size_total_step(tables, i + 1);
    } else {
        assert(tables.take(i + 1) =~= tables);
    }
}

/// The bytes of the files are no more than before and those of the table that is taken up.
pub proof fn lemma_size_with_entry(tables: Seq<(u64, SSTableMeta)>, id: u64, meta: SSTableMeta)
    requires
        ascending(tables),
    ensures
        size_total(with_entry(tables, id, meta)) <= size_total(tables) + meta.file_size,
{
    lemma_id_place(tables, id);
    let p = id_place(tables, id);
    if has_id(tables, id) {
        lemma_size_total_split(tables, p);
        lemma_size_total_split(with_entry(tables, id, meta), p);
        assert(with_entry(tables, id, meta).remove(p) =~= tables.remove(p));
    } else {
        lemma_size_total_split(with_entry(tables, id, meta), p);
        assert(with_entry(tables, id, meta).remove(p) =~= tables);
    }
}

/// Taking a table out takes the bytes of its file away.
pub proof fn lemma_size_total_split(tables: Seq<(u64, SSTableMeta)>, p: int)
    requires
        0 <= p < tables.len(),
    ensures
        size_total(tables) == size_total(tables.remove(p)) + tables[p].1.file_size,
    decreases tables.len(),
{
    if p == tables.len() - 1 {
        assert(tables.remove(p) =~= tables.drop_last());
    } else {
        lemma_size_total_split(tables.drop_last(), p);
        assert(tables.remove(p).drop_last() =~= tables.drop_last().remove(p));
    }
}

/// The first `n` tables, by their position, that are not being compacted, or as many as there
/// are.
pub open spec fn oldest(tables: Seq<(u64, SSTableMeta)>, busy: Set<u64>, n: nat) -> Seq<int>
    decreases tables.len(),
{
    if tables.len() == 0 {
        Seq::empty()
    } else {
        let front = oldest(tables.drop_last(), busy, n);
        if front.len() < n && !busy.contains(tables.last().1.id) {
            front.push(tables.len() - 1)
        } else {
            front
        }
    }
}

proof fn lemma_push_set(s: Seq<u64>, x: u64)
    ensures
        s.push(x).to_set() == s.to_set().insert(x),
{
    assert forall|y: u64| s.push(x).to_set().contains(y) <==> #[trigger] s.to_set().insert(
        x,
    ).contains(y) by {
        if s.contains(y) {
            let k = choose|k: int| 0 <= k < s.len() && s[k] == y;
            assert(s.push(x)[k] == y);
        }
        if y == x {
            assert(s.push(x)[s.len() as int] == y);
        }
        if s.push(x).contains(y) {
            let k = choose|k: int| 0 <= k < s.push(x).len() && s.push(x)[k] == y;
            if k < s.len() {
                assert(s[k] == y);
            }
        }
    }
    assert(s.push(x).to_set() =~= s.to_set().insert(x));
}

proof fn lemma_frozen_place(s: Seq<(u64, Arc<MemTable>)>, id: u64)
    requires
        ascending(s),
    ensures
        id_place(frozen_views(s), id) == id_place(s, id),
{
    lemma_id_place(s, id);
    let t = frozen_views(s);
    let p = id_place(s, id);
    assert forall|j: int| 0 <= j < p implies (#[trigger] t[j]).0 < id by {
        assert(s[j].0 < id);
    }
    lemma_id_place_unique(t, id, p);
}

proof fn lemma_frozen_insert(s: Seq<(u64, Arc<MemTable>)>, id: u64, table: Arc<MemTable>)
    requires
        ascending(s),
    ensures
        frozen_views(with_entry(s, id, table)) == with_entry(
            frozen_views(s),
            id,
            table.records(),
        ),
{
    lemma_frozen_place(s, id);
    lemma_id_place(s, id);
    assert(frozen_views(with_entry(s, id, table)) =~= with_entry(
        frozen_views(s),
        id,
        table.records(),
    ));
}

proof fn lemma_frozen_remove(s: Seq<(u64, Arc<MemTable>)>, id: u64)
    requires
        ascending(s),
    ensures
        frozen_views(without_entry(s, id)) == without_entry(frozen_views(s), id),
{
    lemma_frozen_place(s, id);
    lemma_id_place(s, id);
    assert(frozen_views(without_entry(s, id)) =~= without_entry(frozen_views(s), id));
}

} // verus!
