//! The loop around the engine: what is done for each command and for each result of the worker
//! that writes files.
use std::collections::BTreeSet;
use std::sync::Arc;
use vstd::prelude::*;
use vstd::utf8::encode_utf8;

use crate::codec::{i64_from_bits, i64_of_bits};
use crate::metrics::{clamped, counted_up, EngineMetrics, EngineTally};
use crate::proto::{record_model, BatchInsert, Command, Insert, Range, Record, RecordModel};
use crate::storage::compaction::{ids_of, table_ids};
use crate::storage::compactor::{remove_metas, without_entries};
use crate::storage::engine::{
    batch_records, bytes_total, lemma_size_total_split, lemma_size_with_entry, oldest,
    range_ready, range_sources, size_total, Engine, EngineModel,
};
use crate::storage::idmap::{
    ascending, has_id, id_place, law_without_entry, lemma_id_place, lemma_id_place_unique,
    value_at, with_entry, without_entry, IdMap,
};
use crate::storage::iter::{check_range, range_error, RangeError};
use crate::storage::memtable::MemTable;
use crate::storage::merge::MergeIter;
use crate::storage::record::{all_fields_error, record_bytes, RecordError};
use crate::storage::sstable::{join_path, table_name, SSTableMeta};
use crate::storage::wal::{active_name, inactive_name, wal_dir, Wal, WalError};

verus! {

/// What the worker that writes files is asked to do.
#[derive(Debug)]
pub enum IoCommand {
    /// Sync the log at this path from now on.
    ResyncWal { new_syncer_path: String },
    /// Write a memory table to the file of table `sst_id`.
    FlushMemtable { memtable: Arc<MemTable>, base_path: String, sst_id: u64 },
    /// Merge tables into table `file_id`.
    CompactSSTables { tables: Vec<SSTableMeta>, base_path: String, file_id: u64 },
}

/// What the worker that writes files has done.
#[derive(Debug)]
pub enum IoResult {
    /// It wrote a memory table.
    Flush { new_meta: SSTableMeta },
    /// It merged tables.
    Compaction { new_meta: SSTableMeta, ids_to_remove: Vec<u64> },
}

/// What is to be done for a flush.
#[derive(Debug)]
pub struct FlushPlan {
    /// The memory table to be written.
    pub memtable: Arc<MemTable>,
    /// The id of its table.
    pub sst_id: u64,
    /// The bytes that are still to go to the file of the log.
    pub wal_bytes: Vec<u8>,
    /// The path to which the file of the log is then to be moved.
    pub stale_wal: String,
}

/// The state of a backend.
pub struct BackendModel {
    pub engine: EngineModel,
    /// The paths of the logs that were closed, under the ids of the tables that they are for.
    pub stale: Seq<(u64, Seq<char>)>,
    /// The ids of the tables whose flushes were taken up.
    pub applied: Set<u64>,
    /// The table whose log is deleted next.
    pub next_wal: u64,
    /// What is counted, where it is.
    pub tally: Option<EngineTally>,
}

/// The commands and results that come in, and what the engine makes of them.
#[derive(Debug)]
pub struct Backend {
    engine: Engine,
    stale_wals: IdMap<String>,
    applied_flushes: BTreeSet<u64>,
    next_wal_to_del: u64,
    metrics: Option<EngineMetrics>,
    sync_each_batch: bool,
}

/// The path under each id.
pub open spec fn path_views(s: Seq<(u64, String)>) -> Seq<(u64, Seq<char>)> {
    Seq::new(s.len(), |i: int| (s[i].0, s[i].1@))
}

impl View for Backend {
    type V = BackendModel;

    closed spec fn view(&self) -> BackendModel {
        BackendModel {
            engine: self.engine@,
            stale: path_views(self.stale_wals@),
            applied: self.applied_flushes@,
            next_wal: self.next_wal_to_del,
            tally: match self.metrics {
                Some(m) => Some(m@),
                None => None,
            },
        }
    }
}

/// The tally after an insert that the log took.
pub open spec fn tally_insert(t: Option<EngineTally>) -> Option<EngineTally> {
    match t {
        Some(t) => Some(
            EngineTally {
                insert_count: counted_up(t.insert_count, 1),
                records_inserted: counted_up(t.records_inserted, 1),
                ..t
            },
        ),
        None => None,
    }
}

/// The tally after a batch of `n` records that the log took.
pub open spec fn tally_batch(t: Option<EngineTally>, n: nat) -> Option<EngineTally> {
    match t {
        Some(t) => Some(
            EngineTally {
                batch_insert_count: counted_up(t.batch_insert_count, 1),
                records_inserted: counted_up(t.records_inserted, n),
                ..t
            },
        ),
        None => None,
    }
}

/// The tally after `n` records that the log did not take.
pub open spec fn tally_insert_failures(t: Option<EngineTally>, n: nat) -> Option<EngineTally> {
    match t {
        Some(t) => Some(
            EngineTally { insert_failures: counted_up(t.insert_failures, n), ..t },
        ),
        None => None,
    }
}

/// The tally after a query that failed.
pub open spec fn tally_range_failure(t: Option<EngineTally>) -> Option<EngineTally> {
    match t {
        Some(t) => Some(EngineTally { range_failures: counted_up(t.range_failures, 1), ..t }),
        None => None,
    }
}

/// The tally after a query that read `n` records.
pub open spec fn tally_range(t: Option<EngineTally>, n: nat) -> Option<EngineTally> {
    match t {
        Some(t) => Some(
            EngineTally {
                records_scanned: counted_up(t.records_scanned, n),
                range_count: counted_up(t.range_count, 1),
                ..t
            },
        ),
        None => None,
    }
}

/// Whether there is a sequence number left for the record, and its bytes can be counted.
pub open spec fn insert_fits(m: EngineModel, i: Insert) -> bool {
    m.next_seq < u64::MAX && m.mem_size + 40 + encode_utf8(i.key@).len() + encode_utf8(
        i.value@,
    ).len() <= usize::MAX
}

/// Whether there are sequence numbers left for the records, and their bytes can be counted.
pub open spec fn batch_fits(m: EngineModel, inserts: Seq<Insert>) -> bool {
    m.next_seq + inserts.len() <= u64::MAX && m.mem_size + bytes_total(
        batch_records(inserts, m.next_seq),
    ) <= usize::MAX
}

/// Whether the query can be run on the tables, if it can be asked.
pub open spec fn range_fits(m: EngineModel, r: Range, files: Seq<(u64, Vec<u8>)>) -> bool {
    range_error(r.start_ts, r.end_ts) is None ==> range_ready(
        m.tables,
        files,
        r.source_id,
        encode_utf8(r.key@),
        r.start_ts,
        r.end_ts,
    )
}

/// What an insert does: if the log takes the record, it is stored under the next sequence
/// number, and the memory table should be flushed if it has outgrown its limit. If not, nothing
/// but the failure is noted.
pub open spec fn insert_done(
    before: BackendModel,
    i: Insert,
    reply: Result<(), WalError>,
    needs_flush: bool,
    after: BackendModel,
) -> bool {
    let b = record_bytes(
        i.source_id,
        i.ts,
        before.engine.next_seq,
        encode_utf8(i.key@),
        encode_utf8(i.value@),
    );
    if before.engine.wal_open {
        &&& reply is Ok
        &&& needs_flush == (after.engine.mem_size > after.engine.limit)
        &&& after == (BackendModel {
            engine: before.engine.with_insert(b),
            tally: tally_insert(before.tally),
            ..before
        })
    } else {
        &&& reply == Err::<(), WalError>(WalError::Unavailable)
        &&& !needs_flush
        &&& after == (BackendModel { tally: tally_insert_failures(before.tally, 1), ..before })
    }
}

/// What a batch of inserts does: if the log takes the records, they are stored under the next
/// sequence numbers, and the memory table should be flushed if it has outgrown its limit. If
/// not, the numbers are used up and the failure is noted.
pub open spec fn batch_done(
    before: BackendModel,
    inserts: Seq<Insert>,
    reply: Result<(), WalError>,
    needs_flush: bool,
    after: BackendModel,
) -> bool {
    let recs = batch_records(inserts, before.engine.next_seq);
    if before.engine.wal_open || inserts.len() == 0 {
        &&& reply is Ok
        &&& needs_flush == (inserts.len() > 0 && after.engine.mem_size > after.engine.limit)
        &&& after == (BackendModel {
            engine: before.engine.with_batch(recs),
            tally: tally_batch(before.tally, inserts.len()),
            ..before
        })
    } else {
        &&& reply == Err::<(), WalError>(WalError::Unavailable)
        &&& !needs_flush
        &&& after == (BackendModel {
            engine: EngineModel {
                next_seq: (before.engine.next_seq + inserts.len()) as u64,
                ..before.engine
            },
            tally: tally_insert_failures(before.tally, inserts.len()),
            ..before
        })
    }
}

/// What a query does: it is refused and that is noted, or it starts with nothing read.
pub open spec fn range_started(
    before: BackendModel,
    r: Range,
    files: Seq<(u64, Vec<u8>)>,
    res: Result<RangeTask, RangeError>,
    after: BackendModel,
) -> bool {
    match range_error(r.start_ts, r.end_ts) {
        Some(e) => {
            &&& res == Err::<RangeTask, RangeError>(e)
            &&& after == (BackendModel { tally: tally_range_failure(before.tally), ..before })
        },
        None => {
            &&& after == before
            &&& res matches Ok(task) && task.wf() && task.count() == 0 && task.iter().last()
                is None && range_sources(
                before.engine,
                files,
                r.source_id,
                encode_utf8(r.key@),
                r.start_ts,
                r.end_ts,
                encode_utf8(r.filter@),
                task.iter().sources(),
            )
        },
    }
}

/// Whether a command can be carried out.
pub open spec fn command_fits(m: EngineModel, cmd: Command, files: Seq<(u64, Vec<u8>)>) -> bool {
    match cmd {
        Command::Insert(i) => insert_fits(m, i),
        Command::BatchInsert(b) => batch_fits(m, b.records@),
        Command::Range(r) => range_fits(m, r, files),
        Command::Metrics => true,
    }
}

proof fn lemma_size_without_entries(tables: Seq<(u64, SSTableMeta)>, ids: Seq<u64>)
    requires
        ascending(tables),
    ensures
        ascending(without_entries(tables, ids)),
        size_total(without_entries(tables, ids)) <= size_total(tables),
    decreases ids.len(),
{
    if ids.len() > 0 {
        lemma_size_without_entries(tables, ids.drop_last());
        let front = without_entries(tables, ids.drop_last());
        law_without_entry(front, ids.last(), ids.last());
        lemma_id_place(front, ids.last());
        if has_id(front, ids.last()) {
            lemma_size_total_split(front, id_place(front, ids.last()));
        }
    }
}

/// The answer to a command.
#[derive(Debug)]
pub enum Reply {
    Insert(Result<(), WalError>),
    Range(Result<RangeTask, RangeError>),
    /// The metrics are to be told, as they stand.
    Metrics,
}

/// What a command does. An insert decides anew whether the memory table should be flushed; a
/// query, and asking for the metrics, leave that as it is.
pub open spec fn command_done(
    before: BackendModel,
    cmd: Command,
    files: Seq<(u64, Vec<u8>)>,
    flush_before: bool,
    reply: Reply,
    flush_after: bool,
    after: BackendModel,
) -> bool {
    match (cmd, reply) {
        (Command::Insert(i), Reply::Insert(res)) => insert_done(
            before,
            i,
            res,
            flush_after,
            after,
        ),
        (Command::BatchInsert(b), Reply::Insert(res)) => batch_done(
            before,
            b.records@,
            res,
            flush_after,
            after,
        ),
        (Command::Range(r), Reply::Range(res)) => range_started(before, r, files, res, after)
            && flush_after == flush_before,
        (Command::Metrics, Reply::Metrics) => after == before && flush_after == flush_before,
        _ => false,
    }
}

/// Whether the files of the tables have eight times as many bytes as the memory table takes.
pub open spec fn has_grown(m: EngineModel) -> bool {
    size_total(m.tables) >= m.limit * 8
}

/// What is set aside to be flushed: all that the memory table holds, unless it holds nothing.
/// The log of it is closed.
pub open spec fn flush_planned(
    before: BackendModel,
    plan: Option<FlushPlan>,
    after: BackendModel,
) -> bool {
    let m = before.engine;
    match plan {
        None => m.mem.len() == 0 && after == before,
        Some(plan) => {
            &&& m.mem.len() > 0
            &&& plan.memtable.wf()
            &&& plan.memtable.records() == m.mem
            &&& plan.sst_id == m.next_table
            &&& plan.wal_bytes@ == m.wal_pending
            &&& plan.stale_wal@ == join_path(m.base_dir, inactive_name(plan.sst_id))
            &&& after == (BackendModel {
                engine: EngineModel {
                    mem: Seq::empty(),
                    mem_size: 0,
                    frozen: with_entry(m.frozen, m.next_table, m.mem),
                    next_table: (m.next_table + 1) as u64,
                    wal_pending: Seq::empty(),
                    wal_path: join_path(join_path(m.base_dir, wal_dir()), active_name()),
                    ..m
                },
                ..before
            })
        },
    }
}

/// What taking up a flushed table does: it stands in place of the memory table, and the logs
/// that are not needed any more are given up.
pub open spec fn flush_applied(
    before: BackendModel,
    new_meta: SSTableMeta,
    paths: Seq<String>,
    after: BackendModel,
) -> bool {
    &&& after.engine == (EngineModel {
        frozen: without_entry(before.engine.frozen, new_meta.id),
        tables: with_entry(before.engine.tables, new_meta.id, new_meta),
        ..before.engine
    })
    &&& after.applied == before.applied.insert(new_meta.id)
    &&& frontier(after.applied, before.next_wal, after.next_wal)
    &&& path_texts(paths) == paths_from(before.stale, before.next_wal, after.next_wal)
    &&& after.stale == stale_after(before.stale, before.next_wal, after.next_wal)
    &&& after.tally == tally_flush(before.tally)
}

/// What taking up a merged table does: it stands in place of the tables that went into it, and
/// their files are given up.
pub open spec fn compaction_applied(
    before: BackendModel,
    new_meta: SSTableMeta,
    ids_to_remove: Seq<u64>,
    paths: Seq<String>,
    after: BackendModel,
) -> bool {
    &&& after == (BackendModel {
        engine: EngineModel {
            tables: with_entry(
                without_entries(before.engine.tables, ids_to_remove),
                new_meta.id,
                new_meta,
            ),
            compacting: before.engine.compacting.difference(ids_to_remove.to_set()),
            ..before.engine
        },
        tally: tally_compaction(before.tally),
        ..before
    })
    &&& paths.len() == ids_to_remove.len()
    &&& forall|i: int|
        0 <= i < paths.len() ==> (#[trigger] paths[i])@ == join_path(
            before.engine.base_dir,
            table_name(ids_to_remove[i]),
        )
}

/// What is picked to be compacted, once the tables have grown: the oldest that are not being
/// compacted, if they are at least two.
pub open spec fn compaction_planned(
    before: BackendModel,
    cmd: Option<IoCommand>,
    after: BackendModel,
) -> bool {
    let m = before.engine;
    match cmd {
        None => !(has_grown(m) && picked(m).len() >= 2) && after == before,
        Some(IoCommand::CompactSSTables { tables, base_path, file_id }) => {
            &&& has_grown(m)
            &&& picked(m).len() >= 2
            &&& ids_of(tables@) == picked(m)
            &&& forall|i: int|
                0 <= i < tables@.len() ==> (#[trigger] tables@[i]).same(
                    &m.tables[oldest(m.tables, m.compacting, 4)[i]].1,
                )
            &&& base_path@ == m.base_dir
            &&& file_id == m.next_table
            &&& after == (BackendModel {
                engine: EngineModel {
                    compacting: m.compacting.union(picked(m).to_set()),
                    next_table: (m.next_table + 1) as u64,
                    ..m
                },
                ..before
            })
        },
        Some(_) => false,
    }
}

/// What is left to do once a result of the worker was taken up.
#[derive(Debug)]
pub struct Upkeep {
    /// The paths of the files that are to be deleted.
    pub stale: Vec<String>,
    /// What the worker is to do next.
    pub command: Option<IoCommand>,
}

/// What taking up a result of the worker does.
pub open spec fn result_applied(
    before: BackendModel,
    result: IoResult,
    paths: Seq<String>,
    after: BackendModel,
) -> bool {
    match result {
        IoResult::Flush { new_meta } => flush_applied(before, new_meta, paths, after),
        IoResult::Compaction { new_meta, ids_to_remove } => compaction_applied(
            before,
            new_meta,
            ids_to_remove@,
            paths,
            after,
        ),
    }
}

/// What taking up a result of the worker leads to: its table is taken up, and then tables are
/// picked to be compacted if they have grown.
pub open spec fn upkeep_done(
    before: BackendModel,
    result: IoResult,
    upkeep: Upkeep,
    after: BackendModel,
) -> bool {
    exists|mid: BackendModel| #[trigger]
        result_applied(before, result, upkeep.stale@, mid) && compaction_planned(
            mid,
            upkeep.command,
            after,
        )
}

/// The table that the worker has written.
pub open spec fn meta_of(result: IoResult) -> SSTableMeta {
    match result {
        IoResult::Flush { new_meta } => new_meta,
        IoResult::Compaction { new_meta, .. } => new_meta,
    }
}

/// The tables once a result of the worker is taken up.
pub open spec fn tables_with(m: EngineModel, result: IoResult) -> Seq<(u64, SSTableMeta)> {
    match result {
        IoResult::Flush { new_meta } => with_entry(m.tables, new_meta.id, new_meta),
        IoResult::Compaction { new_meta, ids_to_remove } => with_entry(
            without_entries(m.tables, ids_to_remove@),
            new_meta.id,
            new_meta,
        ),
    }
}

impl Backend {
    /// How many records of a query are sent on at once.
    pub const RANGE_BATCH_SIZE: usize = 1024;

    /// How many commands are taken at once.
    pub const COMMAND_BATCH_SIZE: usize = 512;

    /// How many tables there may be.
    pub const MAX_SSTABLE_COUNT: usize = 8;

    pub closed spec fn wf(&self) -> bool {
        &&& self.engine.wf()
        &&& self.stale_wals.wf()
        &&& self.metrics matches Some(m) ==> m.wf()
    }

    /// Whether the log is synced after each batch of commands.
    pub closed spec fn syncs(&self) -> bool {
        self.sync_each_batch
    }

    /// The loop around `engine`. The log is synced after each batch of commands if there is no
    /// interval at which it is synced.
    pub fn new(engine: Engine, fsync_interval_ms: u64) -> (r: Self)
        requires
            engine.wf(),
        ensures
            r.wf(),
            r.syncs() == (fsync_interval_ms == 0),
            r@ == (BackendModel {
                engine: engine@,
                stale: Seq::empty(),
                applied: Set::empty(),
                next_wal: 1,
                tally: None,
            }),
    {
        let r = Backend {
            engine,
            stale_wals: IdMap::new(),
            applied_flushes: BTreeSet::new(),
            next_wal_to_del: 1,
            metrics: None,
            sync_each_batch: fsync_interval_ms == 0,
        };
        assert(r@.stale =~= Seq::<(u64, Seq<char>)>::empty());
        r
    }

    /// Starts to count.
    pub fn set_metrics(&mut self, m: EngineMetrics)
        requires
            old(self).wf(),
            m.wf(),
        ensures
            final(self).wf(),
            final(self).syncs() == old(self).syncs(),
            final(self)@ == (BackendModel { tally: Some(m@), ..old(self)@ }),
    {
        self.metrics = Some(m);
    }

    /// What is counted.
    pub fn metrics(&self) -> (r: &Option<EngineMetrics>)
        ensures
            self@.tally == (match r {
                Some(m) => Some(m@),
                None => None,
            }),
    {
        &self.metrics
    }

    /// The engine.
    pub fn engine(&self) -> (r: &Engine)
        requires
            self.wf(),
        ensures
            r.wf(),
            r@ == self@.engine,
    {
        &self.engine
    }

    /// Notes whether the file of the log takes bytes.
    pub fn set_wal_available(&mut self, available: bool)
        requires
            old(self).wf(),
        ensures
            final(self).wf(),
            final(self).syncs() == old(self).syncs(),
            final(self)@ == (BackendModel {
                engine: EngineModel { wal_open: available, ..old(self)@.engine },
                ..old(self)@
            }),
    {
        self.engine.set_wal_available(available);
    }

    /// Whether the command can be carried out: there are sequence numbers left and the bytes of
    /// the memory table can be counted, or the query can be run.
    pub fn can_handle(&self, cmd: &Command, files: &IdMap<Vec<u8>>) -> (r: bool)
        requires
            self.wf(),
            files.wf(),
        ensures
            r == command_fits(self@.engine, *cmd, files@),
    {
        match cmd {
            Command::Insert(i) => {
                let key: usize = i.key.as_str().as_bytes().len();
                let value: usize = i.value.as_str().as_bytes().len();
                key <= usize::MAX - 40 && value <= usize::MAX - 40 - key && self.engine.has_room(
                    1,
                    40 + key + value,
                )
            },
            Command::BatchInsert(b) => self.engine.has_room_for(&b.records),
            Command::Range(r) => match check_range(r.start_ts, r.end_ts) {
                Ok(_) => self.engine.is_range_ready(
                    r.source_id,
                    r.key.as_str(),
                    r.start_ts,
                    r.end_ts,
                    files,
                ),
                Err(_) => true,
            },
            Command::Metrics => true,
        }
    }

    /// Whether a result of the worker can be taken up: the bytes of the files can be counted and
    /// be compared with eight times the limit of the memory table, and there are table ids left.
    pub fn can_take_up(&self, result: &IoResult) -> (r: bool)
        requires
            self.wf(),
        ensures
            r == (size_total(self@.engine.tables) + meta_of(*result).file_size <= u64::MAX
                && self@.engine.limit * 8 <= u64::MAX && self@.engine.next_table < u64::MAX),
            r ==> size_total(tables_with(self@.engine, *result)) <= u64::MAX,
    {
        let size: u64 = match result {
            IoResult::Flush { new_meta } => new_meta.file_size,
            IoResult::Compaction { new_meta, .. } => new_meta.file_size,
        };
        let r = self.engine.has_room_for_table(size) && self.engine.next_sstable_id() < u64::MAX;
        proof {
            let tables = self@.engine.tables;
            let meta = meta_of(*result);
            self.engine.lemma_tables_ascending();
            match result {
                IoResult::Flush { .. } => {
                    lemma_size_with_entry(tables, meta.id, meta);
                },
                IoResult::Compaction { ids_to_remove, .. } => {
                    lemma_size_without_entries(tables, ids_to_remove@);
                    lemma_size_with_entry(
                        without_entries(tables, ids_to_remove@),
                        meta.id,
                        meta,
                    );
                },
            }
        }
        r
    }

    /// Inserts a record and counts that. Returns the answer to the client, and whether the
    /// memory table should be flushed.
    pub fn handle_insert(&mut self, i: &Insert) -> (r: (Result<(), WalError>, bool))
        requires
            old(self).wf(),
            insert_fits(old(self)@.engine, *i),
        ensures
            final(self).wf(),
            final(self).syncs() == old(self).syncs(),
            insert_done(old(self)@, *i, r.0, r.1, final(self)@),
    {
        match self.engine.insert_record(i.source_id, i.ts, i.key.as_str(), i.value.as_str()) {
            Ok(needs_flush) => {
                if let Some(m) = &mut self.metrics {
                    m.insert_count.inc(1);
                    m.records_inserted.inc(1);
                }
                (Ok(()), needs_flush)
            },
            Err(e) => {
                if let Some(m) = &mut self.metrics {
                    m.insert_failures.inc(1);
                }
                (Err(e), false)
            },
        }
    }

    /// Inserts records together and counts that. Returns the answer to the client, and whether
    /// the memory table should be flushed.
    pub fn handle_batch_insert(&mut self, batch: BatchInsert) -> (r: (Result<(), WalError>, bool))
        requires
            old(self).wf(),
            batch_fits(old(self)@.engine, batch.records@),
        ensures
            final(self).wf(),
            final(self).syncs() == old(self).syncs(),
            batch_done(old(self)@, batch.records@, r.0, r.1, final(self)@),
    {
        let count: u64 = batch.records.len() as u64;
        match self.engine.batch_insert_records(batch.records) {
            Ok(needs_flush) => {
                if let Some(m) = &mut self.metrics {
                    m.batch_insert_count.inc(1);
                    m.records_inserted.inc(count);
                }
                (Ok(()), needs_flush)
            },
            Err(e) => {
                if let Some(m) = &mut self.metrics {
                    m.insert_failures.inc(count);
                }
                (Err(e), false)
            },
        }
    }

    /// Starts a query on the memory tables and on the table files in `files`, or counts that it
    /// cannot be asked.
    pub fn handle_range(&mut self, r: &Range, files: &IdMap<Vec<u8>>) -> (res: Result<
        RangeTask,
        RangeError,
    >)
        requires
            old(self).wf(),
            files.wf(),
            range_fits(old(self)@.engine, *r, files@),
        ensures
            final(self).wf(),
            final(self).syncs() == old(self).syncs(),
            range_started(old(self)@, *r, files@, res, final(self)@),
    {
        match self.engine.range(
            r.source_id,
            r.key.as_str(),
            r.start_ts,
            r.end_ts,
            r.filter.as_str(),
            files,
        ) {
            Ok(iter) => Ok(RangeTask { iter, scanned: 0 }),
            Err(e) => {
                if let Some(m) = &mut self.metrics {
                    m.range_failures.inc(1);
                }
                Err(e)
            },
        }
    }

    /// Carries out a command. Returns the answer, and whether the memory table should be flushed
    /// once the commands that came together are done; `needs_flush` says that of those before.
    pub fn handle_command(
        &mut self,
        cmd: Command,
        files: &IdMap<Vec<u8>>,
        needs_flush: bool,
    ) -> (r: (Reply, bool))
        requires
            old(self).wf(),
            files.wf(),
            command_fits(old(self)@.engine, cmd, files@),
        ensures
            final(self).wf(),
            final(self).syncs() == old(self).syncs(),
            command_done(old(self)@, cmd, files@, needs_flush, r.0, r.1, final(self)@),
    {
        match cmd {
            Command::Insert(i) => {
                let (res, flush) = self.handle_insert(&i);
                (Reply::Insert(res), flush)
            },
            Command::BatchInsert(b) => {
                let (res, flush) = self.handle_batch_insert(b);
                (Reply::Insert(res), flush)
            },
            Command::Range(r) => {
                let res = self.handle_range(&r, files);
                (Reply::Range(res), needs_flush)
            },
            Command::Metrics => (Reply::Metrics, needs_flush),
        }
    }

    /// Counts a query that has read `scanned` records and come to its end, or that has failed
    /// at the last of them.
    pub fn finish_range(&mut self, scanned: u64, failed: bool)
        requires
            old(self).wf(),
        ensures
            final(self).wf(),
            final(self).syncs() == old(self).syncs(),
            failed ==> final(self)@ == (BackendModel {
                tally: tally_range(tally_range_failure(old(self)@.tally), scanned as nat),
                ..old(self)@
            }),
            !failed ==> final(self)@ == (BackendModel {
                tally: tally_range(old(self)@.tally, scanned as nat),
                ..old(self)@
            }),
    {
        if let Some(m) = &mut self.metrics {
            if failed {
                m.range_failures.inc(1);
            }
            m.records_scanned.inc(scanned);
            m.range_count.inc(1);
        }
    }

    /// Records how long an operation took, in microseconds.
    pub fn record_latency(&mut self, op: Operation, us: u64)
        requires
            old(self).wf(),
        ensures
            final(self).wf(),
            final(self).syncs() == old(self).syncs(),
            final(self)@ == (BackendModel {
                tally: tally_latency(old(self)@.tally, op, us),
                ..old(self)@
            }),
    {
        if let Some(m) = &mut self.metrics {
            match op {
                Operation::Insert => m.insert_latency.record_us(us),
                Operation::BatchInsert => m.batch_insert_latency.record_us(us),
                Operation::Range => m.range_latency.record_us(us),
                Operation::Flush => m.flush_duration.record_us(us),
                Operation::Compaction => m.compaction_duration.record_us(us),
            }
        }
    }

    /// Sets the contents of the memory table aside to be flushed and closes the log, unless the
    /// memory table is empty. Returns what is to be done.
    pub fn send_flush_cmd(&mut self) -> (r: Option<FlushPlan>)
        requires
            old(self).wf(),
            old(self)@.engine.next_table < u64::MAX,
        ensures
            final(self).wf(),
            final(self).syncs() == old(self).syncs(),
            flush_planned(old(self)@, r, final(self)@),
    {
        if self.engine.is_memtable_empty() {
            return None;
        }
        let (memtable, sst_id) = self.engine.prepare_flush();
        let (wal_bytes, stale_wal) = self.engine.rotate_wal(sst_id);
        Some(FlushPlan { memtable, sst_id, wal_bytes, stale_wal })
    }

    /// Notes that the file of the closed log was moved. Returns what the worker is to do: sync
    /// the new log, and write the memory table.
    pub fn confirm_flush(&mut self, plan: FlushPlan) -> (r: (IoCommand, IoCommand))
        requires
            old(self).wf(),
        ensures
            final(self).wf(),
            final(self).syncs() == old(self).syncs(),
            r.0 matches IoCommand::ResyncWal { new_syncer_path } && new_syncer_path@ == join_path(
                join_path(old(self)@.engine.base_dir, wal_dir()),
                active_name(),
            ),
            r.1 matches IoCommand::FlushMemtable { memtable, base_path, sst_id } && memtable
                == plan.memtable && base_path@ == old(self)@.engine.base_dir && sst_id
                == plan.sst_id,
            final(self)@ == (BackendModel {
                stale: with_entry(old(self)@.stale, plan.sst_id, plan.stale_wal@),
                ..old(self)@
            }),
    {
        let ghost before = self.stale_wals@;
        let ghost path = plan.stale_wal;
        let sst_id: u64 = plan.sst_id;
        self.stale_wals.insert(sst_id, plan.stale_wal);
        proof {
            lemma_paths_insert(before, sst_id, path);
        }
        let base = self.engine.clone_base_dir();
        let resync = IoCommand::ResyncWal {
            new_syncer_path: Wal::format_active_wal_path(base.as_str()),
        };
        let flush = IoCommand::FlushMemtable { memtable: plan.memtable, base_path: base, sst_id };
        (resync, flush)
    }

    /// Takes up the table to which a memory table was flushed. Returns whether tables should be
    /// compacted, and the paths of the logs that are to be deleted: a log goes only when the
    /// flush of its table and that of the next were taken up, and only after all before it.
    pub fn apply_flush_result(&mut self, new_meta: SSTableMeta) -> (r: (bool, Vec<String>))
        requires
            old(self).wf(),
            size_total(with_entry(old(self)@.engine.tables, new_meta.id, new_meta)) <= u64::MAX,
            old(self)@.engine.limit * 8 <= u64::MAX,
        ensures
            final(self).wf(),
            final(self).syncs() == old(self).syncs(),
            flush_applied(old(self)@, new_meta, r.1@, final(self)@),
            r.0 == has_grown(final(self)@.engine),
    {
        broadcast use vstd::std_specs::btree::group_btree_axioms;

        self.engine.remove_frozen_memtable(new_meta.id);
        let _ = self.applied_flushes.insert(new_meta.id);
        let ghost stale = path_views(self.stale_wals@);
        let ghost from = self.next_wal_to_del;
        let ghost engine = self.engine;
        let mut paths: Vec<String> = Vec::new();
        proof {
            assert(path_texts(paths@) =~= paths_from(stale, from, from));
        }
        while self.next_wal_to_del < u64::MAX && self.applied_flushes.contains(
            &self.next_wal_to_del,
        ) && self.applied_flushes.contains(&(self.next_wal_to_del + 1))
            invariant
                self.wf(),
                ascending(stale),
                self.engine == engine,
                self.metrics == old(self).metrics,
                self.sync_each_batch == old(self).sync_each_batch,
                self.applied_flushes@ == old(self).applied_flushes@.insert(new_meta.id),
                from <= self.next_wal_to_del,
                from == old(self).next_wal_to_del,
                forall|k: u64|
                    from <= k < self.next_wal_to_del ==> #[trigger] with_next(
                        self.applied_flushes@,
                        k,
                    ),
                path_texts(paths@) == paths_from(stale, from, self.next_wal_to_del),
                path_views(self.stale_wals@) == stale_after(stale, from, self.next_wal_to_del),
            decreases u64::MAX - self.next_wal_to_del,
        {
            let id: u64 = self.next_wal_to_del;
            assert(with_next(self.applied_flushes@, id));
            let ghost before = self.stale_wals@;
            let ghost texts = path_texts(paths@);
            proof {
                lemma_path_place(before, id);
                lemma_stale_after(stale, from, id, id);
            }
            let path = match self.stale_wals.get(id) {
                Some(path) => Some(path.clone()),
                None => None,
            };
            self.stale_wals.remove(id);
            proof {
                lemma_paths_remove(before, id);
            }
            if let Some(path) = path {
                let ghost p = path@;
                paths.push(path);
                assert(path_texts(paths@) =~= texts.push(p));
            }
            self.next_wal_to_del = id + 1;
        }
        self.engine.insert_meta(new_meta);
        if let Some(m) = &mut self.metrics {
            m.flush_count.inc(1);
        }
        let needs_compaction = self.needs_compaction();
        (needs_compaction, paths)
    }

    /// Whether the files of the tables have eight times as many bytes as the memory table
    /// takes.
    fn needs_compaction(&self) -> (r: bool)
        requires
            size_total(self@.engine.tables) <= u64::MAX,
            self@.engine.limit * 8 <= u64::MAX,
        ensures
            r == has_grown(self@.engine),
    {
        self.engine.total_sstable_size() >= self.engine.memtable_capacity() as u64 * 8
    }

    /// Picks the oldest tables that are not being compacted, if the files of the tables have
    /// grown enough and there are at least two such tables, and marks them. Returns what the
    /// worker is to do.
    pub fn send_compaction_cmd(&mut self) -> (r: Option<IoCommand>)
        requires
            old(self).wf(),
            size_total(old(self)@.engine.tables) <= u64::MAX,
            old(self)@.engine.limit * 8 <= u64::MAX,
            old(self)@.engine.next_table < u64::MAX,
        ensures
            final(self).wf(),
            final(self).syncs() == old(self).syncs(),
            compaction_planned(old(self)@, r, final(self)@),
    {
        if !self.needs_compaction() {
            return None;
        }
        let half: usize = Self::MAX_SSTABLE_COUNT / 2;
        let count: usize = if half < 2 {
            2
        } else {
            half
        };
        let metas = self.engine.get_oldest_metas(count);
        let ids = table_ids(metas.as_slice());
        assert(ids@ =~= picked(old(self)@.engine));
        if metas.len() < 2 {
            return None;
        }
        self.engine.mark_compacting(ids.as_slice());
        let file_id: u64 = self.engine.allocate_sstable_id();
        Some(
            IoCommand::CompactSSTables {
                tables: metas,
                base_path: self.engine.clone_base_dir(),
                file_id,
            },
        )
    }

    /// Takes back the marks of tables that the worker could not be told to compact.
    pub fn unmark_compacting(&mut self, ids: &[u64])
        requires
            old(self).wf(),
        ensures
            final(self).wf(),
            final(self).syncs() == old(self).syncs(),
            final(self)@ == (BackendModel {
                engine: EngineModel {
                    compacting: old(self)@.engine.compacting.difference(ids@.to_set()),
                    ..old(self)@.engine
                },
                ..old(self)@
            }),
    {
        self.engine.unmark_compacting(ids);
    }

    /// Takes up the table into which others were merged, in their place. Returns whether tables
    /// should be compacted, and the paths of the files that are to be deleted.
    pub fn apply_compaction_result(&mut self, new_meta: SSTableMeta, ids_to_remove: &Vec<u64>) -> (r:
        (bool, Vec<String>))
        requires
            old(self).wf(),
            size_total(
                with_entry(
                    without_entries(old(self)@.engine.tables, ids_to_remove@),
                    new_meta.id,
                    new_meta,
                ),
            ) <= u64::MAX,
            old(self)@.engine.limit * 8 <= u64::MAX,
        ensures
            final(self).wf(),
            final(self).syncs() == old(self).syncs(),
            compaction_applied(old(self)@, new_meta, ids_to_remove@, r.1@, final(self)@),
            r.0 == has_grown(final(self)@.engine),
    {
        let mut paths: Vec<String> = Vec::new();
        let mut i: usize = 0;
        while i < ids_to_remove.len()
            invariant
                i <= ids_to_remove@.len(),
                self.engine@.base_dir == old(self)@.engine.base_dir,
                *self == *old(self),
                paths@.len() == i,
                forall|j: int|
                    0 <= j < i ==> (#[trigger] paths@[j])@ == join_path(
                        old(self)@.engine.base_dir,
                        table_name(ids_to_remove@[j]),
                    ),
            decreases ids_to_remove@.len() - i,
        {
            paths.push(SSTableMeta::format_file_path(self.engine.base_dir(), ids_to_remove[i]));
            i += 1;
        }
        remove_metas(&mut self.engine, ids_to_remove.as_slice());
        self.engine.unmark_compacting(ids_to_remove.as_slice());
        self.engine.insert_meta(new_meta);
        if let Some(m) = &mut self.metrics {
            m.compaction_count.inc(1);
        }
        let needs_compaction = self.needs_compaction();
        (needs_compaction, paths)
    }

    /// Takes up a result of the worker, and picks tables to be compacted if they have grown.
    pub fn take_up(&mut self, result: IoResult) -> (r: Upkeep)
        requires
            old(self).wf(),
            size_total(tables_with(old(self)@.engine, result)) <= u64::MAX,
            old(self)@.engine.limit * 8 <= u64::MAX,
            old(self)@.engine.next_table < u64::MAX,
        ensures
            final(self).wf(),
            final(self).syncs() == old(self).syncs(),
            upkeep_done(old(self)@, result, r, final(self)@),
    {
        let ghost res = result;
        let (needs_compaction, stale) = match result {
            IoResult::Flush { new_meta } => self.apply_flush_result(new_meta),
            IoResult::Compaction { new_meta, ids_to_remove } => self.apply_compaction_result(
                new_meta,
                &ids_to_remove,
            ),
        };
        let ghost mid = self@;
        assert(result_applied(old(self)@, res, stale@, mid));
        let command = if needs_compaction {
            self.send_compaction_cmd()
        } else {
            None
        };
        let r = Upkeep { stale, command };
        assert(compaction_planned(mid, r.command, self@));
        assert(result_applied(old(self)@, res, r.stale@, mid));
        r
    }

    /// Ends a round of commands: sets the memory table aside to be flushed if it should be.
    pub fn end_round(&mut self, needs_flush: bool) -> (r: Option<FlushPlan>)
        requires
            old(self).wf(),
            old(self)@.engine.next_table < u64::MAX,
        ensures
            final(self).wf(),
            final(self).syncs() == old(self).syncs(),
            needs_flush ==> flush_planned(old(self)@, r, final(self)@),
            !needs_flush ==> r is None && final(self)@ == old(self)@,
    {
        if needs_flush {
            self.send_flush_cmd()
        } else {
            None
        }
    }

    /// Hands over the bytes that are still to go to the file of the log, and says whether that
    /// is to be synced once they are there.
    pub fn send_wal_sync_cmd(&mut self) -> (r: (Vec<u8>, bool))
        requires
            old(self).wf(),
        ensures
            final(self).wf(),
            final(self).syncs() == old(self).syncs(),
            r.0@ == old(self)@.engine.wal_pending,
            r.1 == old(self).syncs(),
            final(self)@ == (BackendModel {
                engine: EngineModel { wal_pending: Seq::empty(), ..old(self)@.engine },
                ..old(self)@
            }),
    {
        (self.engine.flush_wal_buffer(), self.sync_each_batch)
    }

    /// Sets the gauges to the state of the engine. Returns how many bytes went into the memory
    /// table, and how many tables there are.
    pub fn update_gauges(&mut self) -> (r: (usize, usize))
        requires
            old(self).wf(),
        ensures
            final(self).wf(),
            final(self).syncs() == old(self).syncs(),
            r.0 == old(self)@.engine.mem_size,
            r.1 == old(self)@.engine.tables.len(),
            final(self)@ == (BackendModel {
                tally: tally_gauges(old(self)@.tally, r.0, r.1),
                ..old(self)@
            }),
    {
        let (size, count) = self.engine.send_stats();
        if let Some(m) = &mut self.metrics {
            m.memtable_bytes.set(i64_from_bits(size as u64));
            m.sstable_count.set(i64_from_bits(count as u64));
        }
        (size, count)
    }
}

/// What a latency is of.
#[derive(Debug, Clone, Copy, PartialEq, Eq, Structural)]
pub enum Operation {
    Insert,
    BatchInsert,
    Range,
    Flush,
    Compaction,
}

/// The tally after an operation that took `us` microseconds.
pub open spec fn tally_latency(t: Option<EngineTally>, op: Operation, us: u64) -> Option<
    EngineTally,
> {
    match t {
        Some(t) => Some(
            match op {
                Operation::Insert => EngineTally {
                    insert_latency: t.insert_latency.insert(clamped(us)),
                    ..t
                },
                Operation::BatchInsert => EngineTally {
                    batch_insert_latency: t.batch_insert_latency.insert(clamped(us)),
                    ..t
                },
                Operation::Range => EngineTally {
                    range_latency: t.range_latency.insert(clamped(us)),
                    ..t
                },
                Operation::Flush => EngineTally {
                    flush_duration: t.flush_duration.insert(clamped(us)),
                    ..t
                },
                Operation::Compaction => EngineTally {
                    compaction_duration: t.compaction_duration.insert(clamped(us)),
                    ..t
                },
            },
        ),
        None => None,
    }
}

/// The tally after a flush.
pub open spec fn tally_flush(t: Option<EngineTally>) -> Option<EngineTally> {
    match t {
        Some(t) => Some(EngineTally { flush_count: counted_up(t.flush_count, 1), ..t }),
        None => None,
    }
}

/// The tally after a compaction.
pub open spec fn tally_compaction(t: Option<EngineTally>) -> Option<EngineTally> {
    match t {
        Some(t) => Some(EngineTally { compaction_count: counted_up(t.compaction_count, 1), ..t }),
        None => None,
    }
}

/// The tally with the gauges set.
pub open spec fn tally_gauges(t: Option<EngineTally>, size: usize, count: usize) -> Option<
    EngineTally,
> {
    match t {
        Some(t) => Some(
            EngineTally {
                memtable_bytes: i64_of_bits(size as nat),
                sstable_count: i64_of_bits(count as nat),
                ..t
            },
        ),
        None => None,
    }
}

/// The ids of the tables that are picked to be compacted: the four oldest that are not being
/// compacted, or as many as there are.
pub open spec fn picked(m: EngineModel) -> Seq<u64> {
    let at = oldest(m.tables, m.compacting, 4);
    Seq::new(at.len(), |i: int| m.tables[at[i]].1.id)
}

/// Whether the flushes of table `id` and of the next were taken up.
pub open spec fn with_next(applied: Set<u64>, id: u64) -> bool {
    applied.contains(id) && applied.contains((id + 1) as u64)
}

/// Whether `to` is as far as logs can be deleted from `from` on: the flush of each before it
/// and that of the next were taken up, and that does not hold of `to` itself.
pub open spec fn frontier(applied: Set<u64>, from: u64, to: u64) -> bool {
    &&& from <= to
    &&& forall|k: u64| from <= k < to ==> #[trigger] with_next(applied, k)
    &&& to == u64::MAX || !with_next(applied, to)
}

/// The paths, of those under the ids from `from` on and before `to`, that are there.
pub open spec fn paths_from(stale: Seq<(u64, Seq<char>)>, from: u64, to: u64) -> Seq<Seq<char>>
    decreases to,
{
    if to <= from {
        Seq::empty()
    } else {
        let id = (to - 1) as u64;
        let front = paths_from(stale, from, id);
        if has_id(stale, id) {
            front.push(value_at(stale, id))
        } else {
            front
        }
    }
}

/// What is left without the ids from `from` on and before `to`.
pub open spec fn stale_after(stale: Seq<(u64, Seq<char>)>, from: u64, to: u64) -> Seq<
    (u64, Seq<char>),
>
    decreases to,
{
    if to <= from {
        stale
    } else {
        without_entry(stale_after(stale, from, (to - 1) as u64), (to - 1) as u64)
    }
}

/// The characters of each path.
pub open spec fn path_texts(v: Seq<String>) -> Seq<Seq<char>> {
    Seq::new(v.len(), |i: int| v[i]@)
}

proof fn lemma_stale_after(stale: Seq<(u64, Seq<char>)>, from: u64, to: u64, id: u64)
    requires
        ascending(stale),
        id >= to,
    ensures
        ascending(stale_after(stale, from, to)),
        has_id(stale_after(stale, from, to), id) == has_id(stale, id),
        has_id(stale, id) ==> value_at(stale_after(stale, from, to), id) == value_at(stale, id),
    decreases to,
{
    if to > from {
        let last = (to - 1) as u64;
        lemma_stale_after(stale, from, last, id);
        law_without_entry(stale_after(stale, from, last), last, id);
    }
}

proof fn lemma_path_place(s: Seq<(u64, String)>, id: u64)
    requires
        ascending(s),
    ensures
        ascending(path_views(s)),
        id_place(path_views(s), id) == id_place(s, id),
        has_id(path_views(s), id) == has_id(s, id),
        has_id(s, id) ==> value_at(path_views(s), id) == value_at(s, id)@,
{
    lemma_id_place(s, id);
    let t = path_views(s);
    let p = id_place(s, id);
    assert forall|j: int| 0 <= j < p implies (#[trigger] t[j]).0 < id by {
        assert(s[j].0 < id);
    }
    lemma_id_place_unique(t, id, p);
    assert forall|i: int, j: int| 0 <= i < j < t.len() implies (#[trigger] t[i]).0 < (
    #[trigger] t[j]).0 by {
        assert(s[i].0 < s[j].0);
    }
}

proof fn lemma_paths_insert(s: Seq<(u64, String)>, id: u64, path: String)
    requires
        ascending(s),
    ensures
        path_views(with_entry(s, id, path)) == with_entry(path_views(s), id, path@),
{
    lemma_path_place(s, id);
    lemma_id_place(s, id);
    assert(path_views(with_entry(s, id, path)) =~= with_entry(path_views(s), id, path@));
}

proof fn lemma_paths_remove(s: Seq<(u64, String)>, id: u64)
    requires
        ascending(s),
    ensures
        path_views(without_entry(s, id)) == without_entry(path_views(s), id),
{
    lemma_path_place(s, id);
    lemma_id_place(s, id);
    assert(path_views(without_entry(s, id)) =~= without_entry(path_views(s), id));
}

/// A log is deleted only after the flush of its table, and that of the next, were taken up.
pub proof fn law_log_deleted_after_flush(
    applied: Set<u64>,
    stale: Seq<(u64, Seq<char>)>,
    from: u64,
    to: u64,
    i: int,
)
    requires
        frontier(applied, from, to),
        0 <= i < paths_from(stale, from, to).len(),
    ensures
        exists|id: u64|
            from <= id < to && has_id(stale, id) && value_at(stale, id) == paths_from(
                stale,
                from,
                to,
            )[i] && #[trigger] with_next(applied, id),
{
    lemma_paths_from(stale, from, to, i);
    let id = choose|id: u64|
        from <= id < to && #[trigger] has_id(stale, id) && value_at(stale, id) == paths_from(
            stale,
            from,
            to,
        )[i];
    assert(with_next(applied, id));
}

proof fn lemma_paths_from(stale: Seq<(u64, Seq<char>)>, from: u64, to: u64, i: int)
    requires
        0 <= i < paths_from(stale, from, to).len(),
    ensures
        exists|id: u64|
            from <= id < to && #[trigger] has_id(stale, id) && value_at(stale, id) == paths_from(
                stale,
                from,
                to,
            )[i],
    decreases to,
{
    let id = (to - 1) as u64;
    let front = paths_from(stale, from, id);
    if i < front.len() {
        lemma_paths_from(stale, from, id, i);
    } else {
        assert(has_id(stale, id) && value_at(stale, id) == paths_from(stale, from, to)[i]);
    }
}

/// The log of a table whose flush was not taken up is kept.
pub proof fn law_log_kept_until_flush(
    applied: Set<u64>,
    stale: Seq<(u64, Seq<char>)>,
    from: u64,
    to: u64,
    id: u64,
)
    requires
        ascending(stale),
        frontier(applied, from, to),
        has_id(stale, id),
        !applied.contains(id),
    ensures
        has_id(stale_after(stale, from, to), id),
        value_at(stale_after(stale, from, to), id) == value_at(stale, id),
{
    if from <= id < to {
        assert(with_next(applied, id));
    }
    lemma_stale_outside(stale, from, to, id);
}

/// When a flushed table is taken up, the logs are gone through from where the last time ended,
/// one after the other, as long as the memory table of the log and the one after it have been
/// flushed. Just those logs are forgotten, and their files are just those that are to be
/// deleted. All other logs stay as they were.
pub proof fn law_stale_logs(
    before: BackendModel,
    new_meta: SSTableMeta,
    paths: Seq<String>,
    after: BackendModel,
    id: u64,
)
    requires
        ascending(before.stale),
        flush_applied(before, new_meta, paths, after),
    ensures
        after.applied == before.applied.insert(new_meta.id),
        before.next_wal <= after.next_wal,
        before.next_wal <= id < after.next_wal ==> after.applied.contains(id)
            && after.applied.contains((id + 1) as u64),
        after.next_wal < u64::MAX ==> !(after.applied.contains(after.next_wal)
            && after.applied.contains((after.next_wal + 1) as u64)),
        has_id(after.stale, id) <==> has_id(before.stale, id) && !(before.next_wal <= id
            < after.next_wal),
        has_id(after.stale, id) ==> value_at(after.stale, id) == value_at(before.stale, id),
        before.next_wal <= id < after.next_wal && has_id(before.stale, id) ==> path_texts(
            paths,
        ).contains(value_at(before.stale, id)),
        forall|p: Seq<char>| #[trigger]
            path_texts(paths).contains(p) ==> exists|k: u64|
                before.next_wal <= k < after.next_wal && #[trigger] has_id(before.stale, k)
                    && value_at(before.stale, k) == p,
{
    let (from, to) = (before.next_wal, after.next_wal);
    assert(before.next_wal <= id < after.next_wal ==> with_next(after.applied, id));
    assert(!(to < u64::MAX) || !with_next(after.applied, to));
    lemma_stale_inside(before.stale, from, to, id);
    if !(from <= id < to) && has_id(before.stale, id) {
        lemma_stale_outside(before.stale, from, to, id);
    }
    if from <= id < to && has_id(before.stale, id) {
        lemma_paths_all(before.stale, from, to, id);
    }
    assert forall|p: Seq<char>| #[trigger] path_texts(paths).contains(p) implies exists|k: u64|
        from <= k < to && #[trigger] has_id(before.stale, k) && value_at(before.stale, k) == p by {
        let i = choose|i: int| 0 <= i < paths.len() && path_texts(paths)[i] == p;
        lemma_paths_from(before.stale, from, to, i);
    }
}

proof fn lemma_stale_inside(stale: Seq<(u64, Seq<char>)>, from: u64, to: u64, id: u64)
    requires
        ascending(stale),
    ensures
        ascending(stale_after(stale, from, to)),
        from <= id < to ==> !has_id(stale_after(stale, from, to), id),
        has_id(stale_after(stale, from, to), id) ==> has_id(stale, id),
    decreases to,
{
    if to > from {
        let last = (to - 1) as u64;
        lemma_stale_inside(stale, from, last, id);
        law_without_entry(stale_after(stale, from, last), last, id);
    }
}

proof fn lemma_paths_all(stale: Seq<(u64, Seq<char>)>, from: u64, to: u64, id: u64)
    requires
        from <= id < to,
        has_id(stale, id),
    ensures
        paths_from(stale, from, to).contains(value_at(stale, id)),
    decreases to,
{
    let last = (to - 1) as u64;
    let front = paths_from(stale, from, last);
    let all = paths_from(stale, from, to);
    if id == last {
        assert(all[all.len() - 1] == value_at(stale, id));
    } else {
        lemma_paths_all(stale, from, last, id);
        let k = choose|k: int| 0 <= k < front.len() && front[k] == value_at(stale, id);
        assert(all[k] == value_at(stale, id));
    }
}

proof fn lemma_stale_outside(stale: Seq<(u64, Seq<char>)>, from: u64, to: u64, id: u64)
    requires
        ascending(stale),
        !(from <= id < to),
        has_id(stale, id),
    ensures
        ascending(stale_after(stale, from, to)),
        has_id(stale_after(stale, from, to), id),
        value_at(stale_after(stale, from, to), id) == value_at(stale, id),
    decreases to,
{
    if to > from {
        let last = (to - 1) as u64;
        lemma_stale_outside(stale, from, last, id);
        law_without_entry(stale_after(stale, from, last), last, id);
    }
}

/// A query that is being run.
#[derive(Debug)]
pub struct RangeTask {
    iter: MergeIter,
    scanned: u64,
}

/// Records of a query that are sent on together. Behind the last of them stands how the query
/// ended.
#[derive(Debug)]
pub struct RangeBatch {
    pub records: Vec<Record>,
    pub end: Option<Result<(), RecordError>>,
}

/// How many of the records at the beginning of `s`, up to `limit`, can be sent on.
pub open spec fn sendable(s: Seq<Seq<u8>>, limit: nat) -> nat
    decreases limit,
{
    if limit == 0 || s.len() == 0 || all_fields_error(s[0]) is Some {
        0
    } else {
        1 + sendable(s.drop_first(), (limit - 1) as nat)
    }
}

/// What each of the records says.
pub open spec fn record_views(v: Seq<Record>) -> Seq<RecordModel> {
    Seq::new(v.len(), |i: int| v[i]@)
}

/// What the first `n` of the stored records say.
pub open spec fn models(s: Seq<Seq<u8>>, n: nat) -> Seq<RecordModel> {
    Seq::new(n, |i: int| record_model(s[i]))
}

proof fn lemma_sendable(s: Seq<Seq<u8>>, limit: nat, k: nat)
    requires
        k <= limit,
        k <= s.len(),
        forall|i: int| 0 <= i < k ==> all_fields_error(#[trigger] s[i]) is None,
        k == limit || k == s.len() || all_fields_error(s[k as int]) is Some,
    ensures
        sendable(s, limit) == k,
    decreases k,
{
    if k > 0 {
        let t = s.drop_first();
        assert(all_fields_error(s[0]) is None);
        assert forall|i: int| 0 <= i < k - 1 implies all_fields_error(#[trigger] t[i]) is None by {
            assert(t[i] == s[i + 1]);
        }
        if k < s.len() {
            assert(t[k - 1] == s[k as int]);
        }
        lemma_sendable(t, (limit - 1) as nat, (k - 1) as nat);
    }
}

impl RangeTask {
    pub closed spec fn iter(&self) -> MergeIter {
        self.iter
    }

    /// How many records were read.
    pub closed spec fn count(&self) -> u64 {
        self.scanned
    }

    pub closed spec fn wf(&self) -> bool {
        self.iter.wf()
    }

    /// The records that are still to come.
    pub open spec fn remaining(&self) -> Seq<Seq<u8>> {
        self.iter().remaining()
    }

    /// How many records were read.
    pub fn scanned(&self) -> (n: u64)
        ensures
            n == self.count(),
    {
        self.scanned
    }

    /// The next records to be sent on: as many as are sent at once, or those up to the end of
    /// the query or to the first of which a field cannot be taken out.
    pub fn next_batch(&mut self) -> (r: RangeBatch)
        requires
            old(self).wf(),
            old(self).count() + Backend::RANGE_BATCH_SIZE < u64::MAX,
        ensures
            final(self).wf(),
            ({
                let s = old(self).remaining();
                let k = sendable(s, Backend::RANGE_BATCH_SIZE as nat);
                &&& k <= s.len()
                &&& record_views(r.records@) == models(s, k)
                &&& k == Backend::RANGE_BATCH_SIZE ==> r.end is None && final(self).remaining()
                    == s.skip(k as int) && final(self).count() == old(self).count() + k
                &&& k < Backend::RANGE_BATCH_SIZE && k == s.len() ==> r.end == Some(
                    Ok::<(), RecordError>(()),
                ) && final(self).remaining() == Seq::<Seq<u8>>::empty() && final(self).count()
                    == old(self).count() + k
                &&& k < Backend::RANGE_BATCH_SIZE && k < s.len() ==> all_fields_error(
                    s[k as int],
                ) is Some && r.end == Some(
                    Err::<(), RecordError>(all_fields_error(s[k as int])->0),
                ) && final(self).remaining() == s.skip((k + 1) as int) && final(self).count() == old(
                    self).count() + k + 1
            }),
    {
        let ghost s = self.remaining();
        let mut records: Vec<Record> = Vec::new();
        let mut k: usize = 0;
        proof {
            assert(s.skip(0) =~= s);
            assert(record_views(records@) =~= models(s, 0));
        }
        while k < Backend::RANGE_BATCH_SIZE
            invariant
                k <= Backend::RANGE_BATCH_SIZE,
                k <= s.len(),
                self.wf(),
                s == old(self).remaining(),
                old(self).count() + Backend::RANGE_BATCH_SIZE < u64::MAX,
                self.count() == old(self).count() + k,
                self.remaining() == s.skip(k as int),
                record_views(records@) == models(s, k as nat),
                forall|i: int| 0 <= i < k ==> all_fields_error(#[trigger] s[i]) is None,
            decreases Backend::RANGE_BATCH_SIZE - k,
        {
            let ghost t = s.skip(k as int);
            match self.iter.next() {
                Some(rec) => {
                    proof {
                        assert(t.len() > 0);
                        assert(t[0] == rec@ && t[0] == s[k as int]);
                        assert(s.skip(k + 1) =~= t.drop_first());
                        assert(t.drop_first() =~= self.iter.remaining());
                    }
                    self.scanned = self.scanned + 1;
                    match Record::try_from(&rec) {
                        Ok(record) => {
                            let ghost before = record_views(records@);
                            let ghost m = record@;
                            records.push(record);
                            proof {
                                assert(record_views(records@) =~= before.push(m));
                                assert(models(s, (k + 1) as nat) =~= before.push(m));
                            }
                        },
                        Err(e) => {
                            proof {
                                lemma_sendable(s, Backend::RANGE_BATCH_SIZE as nat, k as nat);
                            }
                            return RangeBatch { records, end: Some(Err(e)) };
                        },
                    }
                },
                None => {
                    proof {
                        assert(t.len() == 0);
                        lemma_sendable(s, Backend::RANGE_BATCH_SIZE as nat, k as nat);
                    }
                    return RangeBatch { records, end: Some(Ok(())) };
                },
            }
            k += 1;
        }
        proof {
            lemma_sendable(s, Backend::RANGE_BATCH_SIZE as nat, k as nat);
        }
        RangeBatch { records, end: None }
    }
}

} // verus!
