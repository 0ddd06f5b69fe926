//! Compaction: several tables become one.
use vstd::prelude::*;

use crate::storage::bloom::BloomFilter;
use crate::storage::frames::frames_in;
use crate::storage::idmap::{has_id, value_at, IdMap};
use crate::storage::iter::SSTableScaner;
use crate::storage::merge::{lemma_merged_keyed, merged, source_list, MergeIter, RecordIter};
use crate::storage::record::{has_key, Record};
use crate::storage::sorted::{all_keyed, rec_views};
use crate::storage::sstable::{fills, table_bytes, write_error, SSTableMeta, TableError};
use crate::text::copy_bytes;

verus! {

/// Tables to be merged into the table `new_file_id` at `new_file_path`.
#[derive(Debug)]
pub struct CompactionCommand {
    pub tables: Vec<SSTableMeta>,
    pub new_file_path: String,
    pub new_file_id: u64,
}

/// The table into which others were merged, and the ids of those.
#[derive(Debug)]
pub struct CompactionResult {
    pub new_meta: SSTableMeta,
    pub ids_to_remove: Vec<u64>,
}

/// How many records the tables say they have together.
pub open spec fn records_total(tables: Seq<SSTableMeta>) -> nat
    decreases tables.len(),
{
    if tables.len() == 0 {
        0
    } else {
        records_total(tables.drop_last()) + tables.last().num_records as nat
    }
}

/// The ids of the tables.
pub open spec fn ids_of(tables: Seq<SSTableMeta>) -> Seq<u64> {
    Seq::new(tables.len(), |i: int| tables[i].id)
}

/// The records of each table whose file is there.
pub open spec fn scans(tables: Seq<SSTableMeta>, files: Seq<(u64, Vec<u8>)>) -> Seq<Seq<Seq<u8>>>
    decreases tables.len(),
{
    if tables.len() == 0 {
        Seq::empty()
    } else {
        let front = scans(tables.drop_last(), files);
        let last = tables.last();
        if has_id(files, last.id) {
            front.push(frames_in(value_at(files, last.id)@, 0, last.index_offset as nat))
        } else {
            front
        }
    }
}

/// Whether every record of the tables whose files are there can be ordered.
pub open spec fn mergeable(tables: Seq<SSTableMeta>, files: Seq<(u64, Vec<u8>)>) -> bool {
    forall|i: int|
        0 <= i < scans(tables, files).len() ==> all_keyed(#[trigger] scans(tables, files)[i])
}

/// The merge of the records of the tables whose files are there.
pub open spec fn merge_of(tables: Seq<SSTableMeta>, files: Seq<(u64, Vec<u8>)>) -> Seq<Seq<u8>> {
    merged(seq![Seq::<Seq<u8>>::empty()] + scans(tables, files), None)
}

proof fn lemma_records_total_step(tables: Seq<SSTableMeta>, i: int)
    requires
        0 <= i < tables.len(),
    ensures
        records_total(tables.take(i + 1)) == records_total(tables.take(i)) + tables[i].num_records,
        records_total(tables.take(i + 1)) <= records_total(tables),
    decreases tables.len() - i,
{
    assert(tables.take(i + 1).drop_last() =~= tables.take(i));
    if i + 1 < tables.len() {
        lemma_records_total_step(tables, i + 1);
    } else {
        assert(tables.take(i + 1) =~= tables);
    }
}

/// Every record of the merge can be ordered.
pub proof fn lemma_merge_keyed(tables: Seq<SSTableMeta>, files: Seq<(u64, Vec<u8>)>)
    requires
        mergeable(tables, files),
    ensures
        all_keyed(merge_of(tables, files)),
{
    let srcs = seq![Seq::<Seq<u8>>::empty()] + scans(tables, files);
    assert forall|i: int| 0 <= i < srcs.len() implies all_keyed(#[trigger] srcs[i]) by {
        if i > 0 {
            assert(srcs[i] == scans(tables, files)[i - 1]);
        }
    }
    lemma_merged_keyed(srcs, None);
}

/// How many records the tables say they have together: what the filter of the table is made
/// for into which they are merged.
pub fn num_records_hint(tables: &[SSTableMeta]) -> (n: usize)
    requires
        records_total(tables@) <= usize::MAX,
    ensures
        n == records_total(tables@),
{
    let mut total: usize = 0;
    let mut i: usize = 0;
    assert(tables@.take(0) =~= Seq::<SSTableMeta>::empty());
    while i < tables.len()
        invariant
            i <= tables@.len(),
            records_total(tables@) <= usize::MAX,
            total == records_total(tables@.take(i as int)),
        decreases tables@.len() - i,
    {
        proof {
            lemma_records_total_step(tables@, i as int);
        }
        total = total + tables[i].num_records;
        i += 1;
    }
    assert(tables@.take(tables@.len() as int) =~= tables@);
    total
}

/// The ids of the tables.
pub fn table_ids(tables: &[SSTableMeta]) -> (v: Vec<u64>)
    ensures
        v@ == ids_of(tables@),
{
    let mut v: Vec<u64> = Vec::new();
    let mut i: usize = 0;
    while i < tables.len()
        invariant
            i <= tables@.len(),
            v@ == ids_of(tables@.take(i as int)),
        decreases tables@.len() - i,
    {
        v.push(tables[i].id);
        assert(v@ =~= ids_of(tables@.take(i + 1)));
        i += 1;
    }
    assert(tables@.take(tables@.len() as int) =~= tables@);
    v
}

/// Whether every record of the tables whose files are there can be ordered.
pub fn is_mergeable(tables: &[SSTableMeta], files: &IdMap<Vec<u8>>) -> (r: bool)
    requires
        files.wf(),
    ensures
        r == mergeable(tables@, files@),
{
    let mut i: usize = 0;
    assert(tables@.take(0) =~= Seq::<SSTableMeta>::empty());
    while i < tables.len()
        invariant
            i <= tables@.len(),
            files.wf(),
            mergeable(tables@.take(i as int), files@),
        decreases tables@.len() - i,
    {
        let meta = &tables[i];
        let ghost front = scans(tables@.take(i as int), files@);
        assert(tables@.take(i + 1).drop_last() =~= tables@.take(i as int));
        assert forall|j: int| 0 <= j < front.len() implies all_keyed(#[trigger] front[j]) by {}
        if let Some(bytes) = files.get(meta.id) {
            let ghost all = frames_in(bytes@, 0, meta.index_offset as nat);
            assert(scans(tables@.take(i + 1), files@) == front.push(all));
            let mut scan = SSTableScaner::new(meta, copy_bytes(bytes.as_slice()));
            let ghost mut k: int = 0;
            assert(all.skip(0) =~= all);
            loop
                invariant_except_break
                    0 <= k <= all.len(),
                    scan.remaining() == all.skip(k),
                    forall|j: int| 0 <= j < k ==> has_key(#[trigger] all[j]),
                    i < tables@.len(),
                    scans(tables@.take(i + 1), files@) == front.push(all),
                ensures
                    all_keyed(all),
                decreases all.len() - k,
            {
                let next = scan.next();
                match next {
                    Some(rec) => {
                        proof {
                            assert(all.skip(k).len() == 1 + scan.remaining().len());
                            assert(all.skip(k)[0] == rec@);
                            assert(all[k] == rec@);
                        }
                        if !rec.is_comparable() {
                            proof {
                                lemma_scans_prefix(tables@, files@, i as int);
                                assert(scans(tables@.take(i + 1), files@)[front.len() as int]
                                    == all);
                                assert(scans(tables@, files@)[front.len() as int] == all);
                            }
                            return false;
                        }
                        proof {
                            assert(scan.remaining() =~= all.skip(k + 1)) by {
                                assert forall|j: int| 0 <= j < scan.remaining().len() implies
                                    scan.remaining()[j] == all.skip(k + 1)[j] by {
                                    assert(all.skip(k)[j + 1] == scan.remaining()[j]);
                                }
                            }
                            k = k + 1;
                        }
                    },
                    None => {
                        assert(all.skip(k).len() == 0);
                        break ;
                    },
                }
            }
            assert forall|j: int|
                0 <= j < scans(tables@.take(i + 1), files@).len() implies all_keyed(
                #[trigger] scans(tables@.take(i + 1), files@)[j],
            ) by {
                if j < front.len() {
                    assert(front[j] == scans(tables@.take(i + 1), files@)[j]);
                }
            }
        }
        i += 1;
    }
    assert(tables@.take(tables@.len() as int) =~= tables@);
    true
}

/// What is scanned of the first tables comes first in what is scanned of all.
proof fn lemma_scans_prefix(tables: Seq<SSTableMeta>, files: Seq<(u64, Vec<u8>)>, i: int)
    requires
        0 <= i < tables.len(),
    ensures
        scans(tables.take(i + 1), files).is_prefix_of(scans(tables, files)),
    decreases tables.len(),
{
    if i + 1 == tables.len() {
        assert(tables.take(i + 1) =~= tables);
    } else {
        lemma_scans_prefix(tables.drop_last(), files, i);
        assert(tables.drop_last().take(i + 1) =~= tables.take(i + 1));
    }
}

/// The merge of the records of the tables whose files are there.
pub fn merge_tables(tables: &[SSTableMeta], files: &IdMap<Vec<u8>>) -> (v: Vec<Record>)
    requires
        files.wf(),
        mergeable(tables@, files@),
    ensures
        rec_views(v@) == merge_of(tables@, files@),
{
    let mut iters: Vec<RecordIter> = Vec::new();
    let mut i: usize = 0;
    assert(tables@.take(0) =~= Seq::<SSTableMeta>::empty());
    while i < tables.len()
        invariant
            i <= tables@.len(),
            files.wf(),
            mergeable(tables@, files@),
            iters@.len() == scans(tables@.take(i as int), files@).len(),
            forall|j: int|
                0 <= j < iters@.len() ==> (#[trigger] iters@[j]).wf() && iters@[j].remaining()
                    == scans(tables@.take(i as int), files@)[j],
        decreases tables@.len() - i,
    {
        let meta = &tables[i];
        assert(tables@.take(i + 1).drop_last() =~= tables@.take(i as int));
        if let Some(bytes) = files.get(meta.id) {
            let ghost before = iters@;
            iters.push(
                RecordIter::Scan(SSTableScaner::new(meta, copy_bytes(bytes.as_slice()))),
            );
            assert forall|j: int| 0 <= j < iters@.len() implies (#[trigger] iters@[j]).wf()
                && iters@[j].remaining() == scans(tables@.take(i + 1), files@)[j] by {
                if j < before.len() {
                    assert(iters@[j] == before[j]);
                }
            }
        }
        i += 1;
    }
    assert(tables@.take(tables@.len() as int) =~= tables@);
    assert forall|j: int| 0 <= j < iters@.len() implies (#[trigger] iters@[j]).wf() && all_keyed(
        iters@[j].remaining(),
    ) by {
        assert(all_keyed(scans(tables@, files@)[j]));
    }
    proof {
        assert(source_list(None, iters@) =~= seq![Seq::<Seq<u8>>::empty()] + scans(
            tables@,
            files@,
        ));
    }
    MergeIter::new(None, iters).collect()
}

/// Merges the tables into one, whose filter is made from `bloom`. A table whose file is not
/// there counts for nothing. Returns the result and the bytes of the file of the new table.
pub fn compact(cmd: CompactionCommand, files: &IdMap<Vec<u8>>, bloom: BloomFilter) -> (r: Result<
    (CompactionResult, Vec<u8>),
    TableError,
>)
    requires
        files.wf(),
        mergeable(cmd.tables@, files@),
        merge_of(cmd.tables@, files@).len() > 0 ==> bloom@.usable(),
    ensures
        r is Ok <==> write_error(merge_of(cmd.tables@, files@)) is None,
        r matches Err(e) ==> write_error(merge_of(cmd.tables@, files@)) == Some(e),
        r matches Ok((res, bytes)) ==> res.new_meta.id == cmd.new_file_id && res.new_meta.path@
            == cmd.new_file_path@ && res.ids_to_remove@ == ids_of(cmd.tables@) && fills(
            bloom@,
            res.new_meta.bloom@,
            merge_of(cmd.tables@, files@),
        ) && res.new_meta.describes(merge_of(cmd.tables@, files@)) && bytes@ == table_bytes(
            merge_of(cmd.tables@, files@),
            res.new_meta.bloom@,
        ),
{
    let ids_to_remove = table_ids(cmd.tables.as_slice());
    let recs = merge_tables(cmd.tables.as_slice(), files);
    match SSTableMeta::write_to_file(
        cmd.new_file_path,
        cmd.new_file_id,
        recs.as_slice(),
        bloom,
    ) {
        Ok((new_meta, bytes)) => Ok((CompactionResult { new_meta, ids_to_remove }, bytes)),
        Err(e) => Err(e),
    }
}

} // verus!
