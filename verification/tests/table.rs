use std::cmp::Ordering;

use logregator::storage::bloom::{BloomError, BloomFilter};
use logregator::storage::frames::{frame_at, put_frame, FrameAt};
use logregator::storage::index::{IndexBlock, IndexError};
use logregator::storage::iter::{MemTableIterOwned, RangeError, SSTableIter, SSTableScaner};
use logregator::storage::merge::{MergeIter, RecordIter, RecordVec};
use logregator::storage::record::{Record, RecordError};
use logregator::storage::sstable::{file_kind, FileKind, SSTableMeta, TableError};

fn bloom_for(n: usize, fpr: f64) -> BloomFilter {
    let m = (-(n as f64 * fpr.ln()) / 2f64.ln().powi(2)).ceil() as usize;
    let k = ((m as f64 / (n as f64)) * 2f64.ln()) as usize;
    BloomFilter::new(m as u64, k as u64)
}

fn make_meta(end_pos: u64) -> SSTableMeta {
    SSTableMeta {
        id: 0,
        path: "test.sst".to_string(),
        bloom: bloom_for(0, 0.01),
        bloom_offset: end_pos,
        index: IndexBlock::default(),
        index_offset: end_pos,
        file_size: end_pos,
        num_records: 0,
    }
}

fn write_sstable(records: &[Record]) -> Vec<u8> {
    let mut out = Vec::new();
    for rec in records {
        put_frame(&mut out, rec);
    }
    out
}

fn iterate(
    meta: &SSTableMeta,
    file: &[u8],
    source_id: i64,
    key: &str,
    start: i64,
    end: i64,
    filter: &str,
) -> Vec<Record> {
    let mut iter =
        SSTableIter::new(meta, file.to_vec(), source_id, key, start, end, filter).unwrap();
    let mut v = Vec::new();
    while let Some(r) = iter.next() {
        v.push(r);
    }
    assert!(iter.next().is_none());
    v
}

fn scan(meta: &SSTableMeta, file: &[u8]) -> Vec<Record> {
    let mut iter = SSTableScaner::new(meta, file.to_vec());
    let mut v = Vec::new();
    while let Some(r) = iter.next() {
        v.push(r);
    }
    v
}

fn mem(records: Vec<Record>) -> RecordIter {
    RecordIter::Mem(RecordVec::new(records))
}

fn timestamps(records: &[Record]) -> Vec<i64> {
    records.iter().map(|r| r.extract_timestamp().unwrap()).collect()
}

#[test]
fn test_iter_all_in_range() {
    let records = vec![
        Record::from_raw_parts(1, 10, 0, "sys", "a"),
        Record::from_raw_parts(1, 20, 0, "sys", "b"),
        Record::from_raw_parts(1, 30, 0, "sys", "c"),
    ];
    let file = write_sstable(&records);
    let meta = make_meta(file.len() as u64);
    let collected = iterate(&meta, &file, 1, "sys", 10, 40, "");
    assert_eq!(collected.len(), 3);
    assert_eq!(collected[0].extract_timestamp().unwrap(), 10);
    assert_eq!(collected[1].extract_timestamp().unwrap(), 20);
    assert_eq!(collected[2].extract_timestamp().unwrap(), 30);
}

#[test]
fn test_iter_skip_before_start() {
    let records = vec![
        Record::from_raw_parts(1, 5, 0, "sys", "too_early"),
        Record::from_raw_parts(1, 10, 0, "sys", "a"),
        Record::from_raw_parts(1, 20, 0, "sys", "b"),
    ];
    let file = write_sstable(&records);
    let meta = make_meta(file.len() as u64);
    let collected = iterate(&meta, &file, 1, "sys", 10, 30, "");
    assert_eq!(collected.len(), 2);
    assert_eq!(collected[0].extract_timestamp().unwrap(), 10);
    assert_eq!(collected[1].extract_timestamp().unwrap(), 20);
}

#[test]
fn test_iter_stop_at_end() {
    let records = vec![
        Record::from_raw_parts(1, 10, 0, "sys", "a"),
        Record::from_raw_parts(1, 20, 0, "sys", "b"),
        Record::from_raw_parts(1, 30, 0, "sys", "past_end"),
    ];
    let file = write_sstable(&records);
    let meta = make_meta(file.len() as u64);
    let collected = iterate(&meta, &file, 1, "sys", 10, 20, "");
    assert_eq!(collected.len(), 1);
    assert_eq!(collected[0].extract_timestamp().unwrap(), 10);
}

#[test]
fn test_iter_empty_range() {
    let records = vec![Record::from_raw_parts(1, 10, 0, "sys", "a")];
    let file = write_sstable(&records);
    let meta = make_meta(file.len() as u64);
    assert!(iterate(&meta, &file, 1, "sys", 10, 10, "").is_empty());
}

#[test]
fn test_iter_empty_file() {
    let meta = make_meta(0);
    assert!(iterate(&meta, &[], 1, "sys", 0, 100, "").is_empty());
}

#[test]
fn test_iter_single_record() {
    let records = vec![Record::from_raw_parts(1, 50, 0, "sys", "loner")];
    let file = write_sstable(&records);
    let meta = make_meta(file.len() as u64);
    let collected = iterate(&meta, &file, 1, "sys", 0, 100, "");
    assert_eq!(collected.len(), 1);
    assert_eq!(collected[0].extract_value().unwrap(), b"loner");
}

#[test]
fn test_iter_range_before_first_record() {
    let records = vec![Record::from_raw_parts(1, 20, 0, "sys", "a")];
    let file = write_sstable(&records);
    let meta = make_meta(file.len() as u64);
    assert!(iterate(&meta, &file, 1, "sys", 0, 10, "").is_empty());
}

#[test]
fn test_iter_validation() {
    let meta = make_meta(0);
    let backwards = SSTableIter::new(&meta, vec![], 1, "sys", 10, 5, "");
    assert!(backwards.is_err());
    assert_eq!(backwards.unwrap_err(), RangeError::EndBeforeStart);
    let negative = SSTableIter::new(&meta, vec![], 1, "sys", -1, 10, "");
    assert!(negative.is_err());
    assert_eq!(negative.unwrap_err(), RangeError::NegativeStart);
}

#[test]
fn test_iter_source_id_boundary() {
    let records = vec![
        Record::from_raw_parts(1, 10, 0, "sys", "a"),
        Record::from_raw_parts(1, 20, 0, "sys", "b"),
        Record::from_raw_parts(2, 10, 0, "sys", "other_source"),
    ];
    let file = write_sstable(&records);
    let meta = make_meta(file.len() as u64);
    let collected = iterate(&meta, &file, 1, "sys", 0, 100, "");
    assert_eq!(collected.len(), 2);
    assert!(collected.iter().all(|r| r.extract_source_id().unwrap() == 1));
}

#[test]
fn test_index_binary_seek_empty() {
    let index = IndexBlock::default();
    let target = Record::from_raw_parts(1, 100, 0, "sys", "");
    assert_eq!(index.binary_seek(&target), 0);
}

#[test]
fn test_index_binary_seek_exact_match() {
    let mut index = IndexBlock::with_capacity(4);
    index.try_insert(0, &Record::from_raw_parts(1, 100, 5, "sys", "v"), 42).unwrap();
    index.try_insert(16, &Record::from_raw_parts(1, 200, 10, "sys", "v"), 128).unwrap();

    let target = Record::from_raw_parts(1, 100, 0, "sys", "");
    assert_eq!(index.binary_seek(&target), 42);
}

#[test]
fn test_index_binary_seek_between_entries() {
    let mut index = IndexBlock::with_capacity(4);
    index.try_insert(0, &Record::from_raw_parts(1, 100, 5, "sys", "v"), 42).unwrap();
    index.try_insert(16, &Record::from_raw_parts(1, 200, 10, "sys", "v"), 128).unwrap();

    let target = Record::from_raw_parts(1, 150, 0, "sys", "");
    assert_eq!(index.binary_seek(&target), 42);
}

#[test]
fn test_index_binary_seek_before_all() {
    let mut index = IndexBlock::with_capacity(4);
    index.try_insert(0, &Record::from_raw_parts(1, 100, 5, "sys", "v"), 42).unwrap();

    let target = Record::from_raw_parts(1, 50, 0, "sys", "");
    assert_eq!(index.binary_seek(&target), 0);
}

#[test]
fn test_index_binary_seek_after_all() {
    let mut index = IndexBlock::with_capacity(4);
    index.try_insert(0, &Record::from_raw_parts(1, 100, 5, "sys", "v"), 42).unwrap();

    let target = Record::from_raw_parts(1, 200, 0, "sys", "");
    assert_eq!(index.binary_seek(&target), 42);
}

#[test]
fn test_index_binary_seek_ignores_seq_num() {
    // Index entry has seq=25, target has seq=0 — binary_seek should still match on ts
    let mut index = IndexBlock::with_capacity(4);
    index.try_insert(16, &Record::from_raw_parts(1, 116, 25, "sys", "v"), 200).unwrap();

    let target = Record::from_raw_parts(1, 116, 0, "sys", "");
    assert_eq!(index.binary_seek(&target), 200);
}

#[test]
fn test_index_binary_seek_different_source_id() {
    let mut index = IndexBlock::with_capacity(4);
    index.try_insert(0, &Record::from_raw_parts(1, 100, 5, "sys", "v"), 42).unwrap();

    let target = Record::from_raw_parts(2, 100, 0, "sys", "");
    assert_eq!(index.binary_seek(&target), 42); // falls back to the previous entry
}

fn write_indexed_sstable(records: &[Record]) -> (SSTableMeta, Vec<u8>) {
    SSTableMeta::write_to_file(
        "indexed.sst".to_string(),
        1,
        records,
        bloom_for(records.len(), 0.01),
    )
    .unwrap()
}

#[test]
fn test_iter_real_index_returns_all_records() {
    let records: Vec<Record> = (0..33)
        .map(|i| Record::from_raw_parts(1, i, i as u64, "sys", &format!("val{}", i)))
        .collect();
    let (meta, file) = write_indexed_sstable(&records);

    assert!(!meta.index.inner.is_empty(), "index should have entries for 33 records");

    let collected = iterate(&meta, &file, 1, "sys", 0, 100, "");
    assert_eq!(collected.len(), 33);
}

#[test]
fn test_iter_real_index_skips_early_records() {
    let records: Vec<Record> = (0..33)
        .map(|i| Record::from_raw_parts(1, 100 + i, i as u64, "sys", &format!("val{}", i)))
        .collect();
    let (meta, file) = write_indexed_sstable(&records);

    assert!(meta.index.inner.len() >= 2, "33 records should produce >=2 index entries");

    // Range [116, 120) — binary_seek should land on entry at ts=116
    let collected = iterate(&meta, &file, 1, "sys", 116, 120, "");
    assert_eq!(collected.len(), 4);
    for rec in &collected {
        let ts = rec.extract_timestamp().unwrap();
        assert!(ts >= 116 && ts < 120, "timestamp {} should be in [116, 120)", ts);
    }
}

#[test]
fn test_iter_real_index_skips_early_records_different_source() {
    let mut records = Vec::with_capacity(48);
    for i in 0..48 {
        let sid = if i < 16 { 1 } else { 2 };
        records.push(Record::from_raw_parts(sid, 100 + i, i as u64, "sys", &format!("val{}", i)));
    }
    let (meta, file) = write_indexed_sstable(&records);

    // Source_id=2 records start at index 16 (ts=116)
    let collected = iterate(&meta, &file, 2, "sys", 116, 120, "");
    assert_eq!(collected.len(), 4);
    for rec in &collected {
        assert_eq!(rec.extract_source_id().unwrap(), 2);
        let ts = rec.extract_timestamp().unwrap();
        assert!(ts >= 116 && ts < 120);
    }
}

#[test]
fn test_iter_real_index_range_before_start() {
    let records: Vec<Record> = (0..33)
        .map(|i| Record::from_raw_parts(1, 100 + i, i as u64, "sys", &format!("val{}", i)))
        .collect();
    let (meta, file) = write_indexed_sstable(&records);

    // Range before all records
    assert!(iterate(&meta, &file, 1, "sys", 0, 50, "").is_empty());
}

#[test]
fn test_iter_real_index_range_after_end() {
    let records: Vec<Record> = (0..33)
        .map(|i| Record::from_raw_parts(1, 100 + i, i as u64, "sys", &format!("val{}", i)))
        .collect();
    let (meta, file) = write_indexed_sstable(&records);

    assert!(iterate(&meta, &file, 1, "sys", 200, 300, "").is_empty());
}

#[test]
fn test_scanner_all_records() {
    let records = vec![
        Record::from_raw_parts(1, 10, 0, "sys", "a"),
        Record::from_raw_parts(1, 20, 0, "sys", "b"),
        Record::from_raw_parts(2, 30, 0, "db", "c"),
    ];
    let file = write_sstable(&records);
    let meta = make_meta(file.len() as u64);
    assert_eq!(scan(&meta.clone(), &file).len(), 3);
}

#[test]
fn test_scanner_empty_file() {
    let meta = make_meta(0);
    assert!(scan(&meta, &[]).is_empty());
}

#[test]
fn test_scanner_single_record() {
    let records = vec![Record::from_raw_parts(1, 50, 0, "sys", "loner")];
    let file = write_sstable(&records);
    let meta = make_meta(file.len() as u64);
    let collected = scan(&meta, &file);
    assert_eq!(collected.len(), 1);
    assert_eq!(collected[0].extract_value().unwrap(), b"loner");
}

#[test]
fn test_scanner_stops_at_bloom_offset() {
    let records = vec![
        Record::from_raw_parts(1, 10, 0, "sys", "a"),
        Record::from_raw_parts(1, 20, 0, "sys", "b"),
    ];
    let file = write_sstable(&records);
    let meta = make_meta(file.len() as u64);
    assert_eq!(scan(&meta, &file).len(), 2);
    let mut longer = file.clone();
    longer.extend([7; 40]);
    assert_eq!(scan(&meta, &longer).len(), 2);
}

#[test]
fn test_scanner_multiple_source_ids() {
    let records = vec![
        Record::from_raw_parts(1, 10, 0, "sys", "a"),
        Record::from_raw_parts(2, 20, 0, "db", "b"),
        Record::from_raw_parts(1, 30, 0, "web", "c"),
        Record::from_raw_parts(3, 40, 0, "cache", "d"),
    ];
    let file = write_sstable(&records);
    let meta = make_meta(file.len() as u64);
    assert_eq!(scan(&meta, &file).len(), 4);
}

#[test]
fn test_merge_memtable_only() {
    let records = vec![
        Record::from_raw_parts(1, 10, 0, "sys", "a"),
        Record::from_raw_parts(1, 20, 0, "sys", "b"),
    ];
    let mem_iter = MemTableIterOwned::filtered(records, 1, b"sys", 0, 100, "");
    let merge = MergeIter::new(Some(mem_iter), vec![]);
    let collected: Vec<Record> = merge.collect();
    assert_eq!(collected.len(), 2);
}

#[test]
fn test_merge_sstable_only() {
    let sstable = vec![
        Record::from_raw_parts(1, 10, 0, "sys", "a"),
        Record::from_raw_parts(1, 20, 0, "sys", "b"),
    ];
    let merge = MergeIter::new(None, vec![mem(sstable)]);
    let collected: Vec<Record> = merge.collect();
    assert_eq!(collected.len(), 2);
}

#[test]
fn test_merge_memtable_and_sstable() {
    let mem_records = vec![
        Record::from_raw_parts(1, 5, 0, "sys", "early"),
        Record::from_raw_parts(1, 25, 0, "sys", "late"),
    ];
    let mem_iter = MemTableIterOwned::filtered(mem_records, 1, b"sys", 0, 100, "");
    let sstable = vec![
        Record::from_raw_parts(1, 10, 0, "sys", "mid"),
        Record::from_raw_parts(1, 20, 0, "sys", "mid2"),
    ];
    let merge = MergeIter::new(Some(mem_iter), vec![mem(sstable)]);
    let collected: Vec<Record> = merge.collect();
    assert_eq!(collected.len(), 4);
    assert_eq!(timestamps(&collected), vec![5, 10, 20, 25]);
}

#[test]
fn test_merge_multiple_sstables() {
    let sst1 = vec![
        Record::from_raw_parts(1, 10, 0, "sys", "a"),
        Record::from_raw_parts(1, 30, 0, "sys", "c"),
    ];
    let sst2 = vec![
        Record::from_raw_parts(1, 20, 0, "sys", "b"),
        Record::from_raw_parts(1, 40, 0, "sys", "d"),
    ];
    let merge = MergeIter::new(None, vec![mem(sst1), mem(sst2)]);
    let collected: Vec<Record> = merge.collect();
    assert_eq!(collected.len(), 4);
    assert_eq!(timestamps(&collected), vec![10, 20, 30, 40]);
}

#[test]
fn test_merge_dedup() {
    let sst1 = vec![
        Record::from_raw_parts(1, 10, 0, "sys", "dup"),
        Record::from_raw_parts(1, 30, 0, "sys", "c"),
    ];
    let sst2 = vec![
        Record::from_raw_parts(1, 10, 0, "sys", "dup"),
        Record::from_raw_parts(1, 20, 0, "sys", "b"),
    ];
    let merge = MergeIter::new(None, vec![mem(sst1), mem(sst2)]);
    let collected: Vec<Record> = merge.collect();
    assert_eq!(collected.len(), 3);
    assert_eq!(timestamps(&collected), vec![10, 20, 30]);
}

#[test]
fn test_merge_empty_sstables() {
    let merge = MergeIter::new(None, vec![]);
    assert!(merge.collect().is_empty());
}

#[test]
fn test_merge_memtable_only_no_matches() {
    let records = vec![
        Record::from_raw_parts(1, 10, 0, "sys", "a"),
        Record::from_raw_parts(1, 20, 0, "sys", "b"),
    ];
    let mem_iter = MemTableIterOwned::filtered(records, 2, b"other", 0, 100, "");
    let merge = MergeIter::new(Some(mem_iter), vec![]);
    assert!(merge.collect().is_empty());
}

#[test]
fn test_merge_memtable_filter_matches_subset() {
    let records = vec![
        Record::from_raw_parts(1, 10, 0, "sys", "cpu normal"),
        Record::from_raw_parts(1, 20, 0, "sys", "mem high"),
        Record::from_raw_parts(1, 30, 0, "sys", "disk full"),
        Record::from_raw_parts(1, 40, 0, "sys", "memory leak"),
    ];
    let mem_iter = MemTableIterOwned::filtered(records, 1, b"sys", 0, 100, "mem");
    let merge = MergeIter::new(Some(mem_iter), vec![]);
    let collected: Vec<Record> = merge.collect();
    assert_eq!(collected.len(), 2);
    for rec in &collected {
        let val = rec.extract_value().unwrap();
        assert!(val == b"mem high" || val == b"memory leak");
    }
}

#[test]
fn test_merge_memtable_filter_no_match() {
    let records = vec![
        Record::from_raw_parts(1, 10, 0, "sys", "cpu normal"),
        Record::from_raw_parts(1, 20, 0, "sys", "mem high"),
    ];
    let mem_iter = MemTableIterOwned::filtered(records, 1, b"sys", 0, 100, "nonexistent");
    let merge = MergeIter::new(Some(mem_iter), vec![]);
    assert!(merge.collect().is_empty());
}

#[test]
fn test_merge_memtable_filter_with_sstable() {
    // memtable records with filter
    let mem_records = vec![
        Record::from_raw_parts(1, 5, 0, "sys", "early"),
        Record::from_raw_parts(1, 25, 0, "sys", "late"),
    ];
    let mem_iter = MemTableIterOwned::filtered(mem_records, 1, b"sys", 0, 100, "late");
    // sstable vec iterator (no filter applied)
    let sstable = vec![
        Record::from_raw_parts(1, 10, 0, "sys", "mid"),
        Record::from_raw_parts(1, 20, 0, "sys", "mid2"),
    ];
    let merge = MergeIter::new(Some(mem_iter), vec![mem(sstable)]);
    let collected: Vec<Record> = merge.collect();
    // sstable records pass through unfiltered, memtable only yields "late"
    assert_eq!(collected.len(), 3);
    assert_eq!(timestamps(&collected), vec![10, 20, 25]);
}

#[test]
fn merge_of_many_sources_is_sorted_and_complete() {
    let source = |start: i64| -> Vec<Record> {
        (0..20).map(|i| Record::from_raw_parts(1, start + 3 * i, i as u64, "k", "v")).collect()
    };
    let iters = vec![mem(source(0)), mem(source(1)), mem(source(2)), mem(source(0))];
    assert_eq!(iters[0].size_hint(), (20, Some(20)));
    let collected = MergeIter::new(None, iters).collect();
    assert_eq!(timestamps(&collected), (0..60).collect::<Vec<i64>>());
}

#[test]
fn table_file_reads_back() {
    let records: Vec<Record> = (0..40)
        .map(|i| Record::from_raw_parts(i / 10, i, i as u64, "key", &format!("value {i}")))
        .collect();
    let (meta, file) = write_indexed_sstable(&records);
    assert_eq!(meta.num_records, 40);
    assert_eq!(meta.file_size, file.len() as u64);
    assert_eq!(meta.index.inner.len(), 3);
    let back = scan(&meta, &file);
    assert_eq!(back.len(), 40);
    for (a, b) in back.iter().zip(&records) {
        assert_eq!(a.as_bytes(), b.as_bytes());
    }
    let (index, offset, end) = IndexBlock::read_from_unchecked(&file, file.len() - 16).unwrap();
    assert_eq!(offset, meta.index_offset);
    assert_eq!(end as u64, meta.bloom_offset);
    assert_eq!(index.inner.len(), 3);
    assert_eq!(index.inner[1].offset, meta.index.inner[1].offset);
    let (bloom, at) = BloomFilter::read_from_unchecked(&file, file.len() - 8).unwrap();
    assert_eq!(at, meta.bloom_offset);
    assert!(bloom.is_usable());
    for r in &records {
        let source = r.extract_source_id().unwrap();
        assert!(meta.bloom.contains(source, r.extract_key().unwrap()));
    }
    assert_eq!(file[..8], (records[0].len() as u64).to_le_bytes());
}

#[test]
fn table_refuses_bad_records() {
    let write = |r: Vec<u8>| {
        SSTableMeta::write_to_file(
            "x".to_string(),
            1,
            &[Record::from_vec(r)],
            bloom_for(1, 0.01),
        )
        .unwrap_err()
    };
    assert_eq!(write(vec![1; 7]), TableError::SourceId(RecordError::SourceId));
    assert_eq!(write(vec![1; 24]), TableError::Key(RecordError::KeyLength));
    let mut bad = Record::from_raw_parts(1, 1, 1, "k", "v").as_bytes().to_vec();
    bad[32] = 0xff;
    assert_eq!(write(bad), TableError::Entry(IndexError::Utf8));
}

#[test]
fn a_written_table_can_be_opened() {
    let recs: Vec<Record> = (0..40)
        .map(|i| Record::from_raw_parts(i - 3, i, 100 - i as u64, &format!("key {i}"), "v"))
        .collect();
    let (meta, file) = write_indexed_sstable(&recs);
    let (again, seq) = SSTableMeta::open(7, "p/7.sst".to_string(), &file).unwrap();
    assert_eq!(seq, 100);
    assert_eq!((again.id, again.path.as_str()), (7, "p/7.sst"));
    assert_eq!(again.num_records, 40);
    assert_eq!(again.index_offset, meta.index_offset);
    assert_eq!(again.bloom_offset, meta.bloom_offset);
    assert_eq!(again.file_size, file.len() as u64);
    assert_eq!(again.index.inner.len(), 3);
    for i in 0..40 {
        assert!(again.bloom.contains(i - 3, format!("key {i}").as_bytes()));
    }
    assert_eq!(scan(&again, &file).len(), 40);
    let (empty, file) = write_indexed_sstable(&[]);
    let (again, seq) = SSTableMeta::open(8, "p".to_string(), &file).unwrap();
    assert_eq!((again.num_records, seq), (0, 0));
    assert_eq!(again.bloom_offset, empty.bloom_offset);
}

#[test]
fn opening_a_table_reports_what_is_missing() {
    let open = |file: &[u8]| SSTableMeta::open(1, "p".to_string(), file);
    assert_eq!(open(&[0; 15]).unwrap_err(), TableError::Footer);
    // A record that is longer than the file.
    let mut file = vec![0u8; 24];
    file[0] = 0xff;
    file[8] = 1;
    assert_eq!(open(&file).unwrap_err(), TableError::Record);
    // The index block says that it has an entry, and there is no room for one.
    let mut file = vec![0u8; 16];
    file[0] = 8;
    file[8] = 1;
    assert_eq!(open(&file).unwrap_err(), TableError::Index(IndexError::SourceId));
    // An empty index block with no room for a filter behind it.
    assert_eq!(open(&[0; 16]).unwrap_err(), TableError::Bloom(BloomError::Hashes));
    // Nothing but an empty index block and a filter without bits.
    let (meta, seq) = open(&[0; 64]).unwrap();
    assert_eq!((meta.num_records, seq), (0, 0));
    assert_eq!((meta.index_offset, meta.bloom_offset, meta.file_size), (0, 4, 64));
    assert!(!meta.bloom.is_usable());
}

#[test]
fn index_block_layout_is_little_endian() {
    let mut index = IndexBlock::with_capacity(1);
    assert_eq!(index.try_insert(5, &Record::from_raw_parts(1, 2, 3, "k", "v"), 9), Ok(false));
    assert_eq!(index.try_insert(16, &Record::from_raw_parts(-1, 2, 3, "k", "v"), 9), Ok(true));
    let mut out = vec![99];
    index.encode(&mut out);
    let mut want = vec![99u8, 1, 0, 0, 0];
    want.extend((-1i64).to_le_bytes());
    want.extend(2i64.to_le_bytes());
    want.extend(3u64.to_le_bytes());
    want.extend(1u32.to_le_bytes());
    want.extend(b"k");
    want.extend(9u64.to_le_bytes());
    assert_eq!(out, want);
    let (back, end) = IndexBlock::decode(&out, 1).unwrap();
    assert_eq!(end, out.len());
    assert_eq!(back.inner[0].source_id, -1);
    assert_eq!(back.inner[0].key, "k");
    assert_eq!(back.inner[0].offset, 9);
    for n in 1..out.len() {
        assert!(IndexBlock::decode(&out[..n], 1).is_err());
    }
    assert_eq!(IndexBlock::decode(&out[..4], 1).unwrap_err(), IndexError::Length);
    assert_eq!(IndexBlock::decode(&out[..12], 1).unwrap_err(), IndexError::SourceId);
    assert_eq!(IndexBlock::decode(&out[..20], 1).unwrap_err(), IndexError::Timestamp);
    assert_eq!(IndexBlock::decode(&out[..28], 1).unwrap_err(), IndexError::SeqNum);
    assert_eq!(IndexBlock::decode(&out[..32], 1).unwrap_err(), IndexError::KeyLength);
    assert_eq!(IndexBlock::decode(&out[..33], 1).unwrap_err(), IndexError::Key);
    assert_eq!(IndexBlock::decode(&out[..41], 1).unwrap_err(), IndexError::Offset);
    let mut bad = out.clone();
    bad[33] = 0xff;
    assert_eq!(IndexBlock::decode(&bad, 1).unwrap_err(), IndexError::Utf8);
    assert_eq!(
        IndexBlock::read_from_unchecked(&out, out.len()).unwrap_err(),
        IndexError::Position
    );
}

#[test]
fn index_entries_compare_with_records() {
    let mut index = IndexBlock::default();
    index.try_insert(0, &Record::from_raw_parts(1, 2, 3, "k", "v"), 0).unwrap();
    let e = &index.inner[0];
    let r = |s, t, q, k: &str| Record::from_raw_parts(s, t, q, k, "");
    assert_eq!(e.cmp_record(&r(1, 2, 3, "k")), Some(Ordering::Equal));
    assert_eq!(e.cmp_record(&r(-1, 2, 3, "k")), Some(Ordering::Greater));
    assert_eq!(e.cmp_record(&r(1, 3, 3, "k")), Some(Ordering::Less));
    assert_eq!(e.cmp_record(&r(1, 2, 4, "k")), Some(Ordering::Less));
    assert_eq!(e.cmp_record(&r(1, 2, 3, "a")), Some(Ordering::Greater));
    assert_eq!(e.cmp_record(&Record::from_vec(vec![0; 31])), None);
    assert_eq!(index.binary_seek(&Record::from_vec(vec![0; 31])), 0);
}

#[test]
fn bloom_filter_has_no_false_negatives() {
    let mut bloom = bloom_for(100, 0.01);
    for i in 0..100i64 {
        bloom.insert(i, format!("key {i}").as_bytes());
    }
    for i in 0..100i64 {
        assert!(bloom.contains(i, format!("key {i}").as_bytes()));
    }
    let misses = (100..1100i64)
        .filter(|i| !bloom.contains(*i, format!("key {i}").as_bytes()))
        .count();
    assert!(misses > 900);
    let copy = bloom.clone();
    assert!(copy.contains(5, b"key 5"));
}

#[test]
fn bloom_filter_probes_wrap_around() {
    let mut bloom = BloomFilter::new(10, 3);
    assert_eq!(bloom.positions_of(7, 5), vec![7, 2, 7]);
    let h1 = u64::MAX;
    assert_eq!(bloom.positions_of(h1, 2), vec![h1 % 10, 1, 3]);
    assert!(!bloom.contains_hashes(7, 5));
    bloom.insert_hashes(7, 5);
    assert!(bloom.contains_hashes(7, 5));
    assert!(bloom.contains_hashes(2, 5));
    assert!(!bloom.contains_hashes(3, 0));
    let mut out = Vec::new();
    bloom.encode(&mut out);
    let mut want = Vec::new();
    want.extend(10u64.to_le_bytes());
    want.extend(3u64.to_le_bytes());
    want.extend(2u64.to_le_bytes());
    want.extend([0b1000_0100, 0]);
    assert_eq!(out, want);
    let back = BloomFilter::decode(&out, 0).unwrap();
    assert!(back.contains_hashes(7, 5));
    assert_eq!(BloomFilter::decode(&out[..7], 0).unwrap_err(), BloomError::Bits);
    assert_eq!(BloomFilter::decode(&out[..15], 0).unwrap_err(), BloomError::Hashes);
    assert_eq!(BloomFilter::decode(&out[..23], 0).unwrap_err(), BloomError::Length);
    assert_eq!(BloomFilter::decode(&out[..25], 0).unwrap_err(), BloomError::Contents);
    assert_eq!(
        BloomFilter::read_from_unchecked(&out, out.len()).unwrap_err(),
        BloomError::Position
    );
}

#[test]
fn bloom_hashes_differ_with_input() {
    let a = BloomFilter::new(1 << 26, 2);
    let b = BloomFilter::new(1 << 26, 2);
    assert_eq!(a.positions(1, b"k"), b.positions(1, b"k"));
    assert_ne!(a.positions(1, b"k"), a.positions(2, b"k"));
    assert_ne!(a.positions(1, b"k"), a.positions(1, b"l"));
    let p = a.positions(1, b"k");
    assert_ne!(p[0], p[1]);
}

#[test]
fn bloom_filter_finds_its_keys_after_it_was_read_back() {
    let mut bloom = bloom_for(100, 0.01);
    bloom.insert(7, b"sys");
    for i in 0..99 {
        bloom.insert(-i, format!("key {i}").as_bytes());
    }
    let mut out = b"front".to_vec();
    bloom.encode(&mut out);
    let back = BloomFilter::decode(&out, 5).unwrap();
    assert!(back.contains(7, b"sys"));
    for i in 0..99 {
        assert!(back.contains(-i, format!("key {i}").as_bytes()));
    }
}

#[test]
fn table_names_sort_as_their_ids() {
    let ids = [0, 1, 9, 10, 99, 100, 123_456, 999_999_999, 9_999_999_999];
    for pair in ids.windows(2) {
        let (a, b) = (
            SSTableMeta::format_file_path("d", pair[0]),
            SSTableMeta::format_file_path("d", pair[1]),
        );
        assert!(a < b);
    }
}

#[test]
fn table_names_are_padded_numbers() {
    assert_eq!(SSTableMeta::format_file_path("data", 7), "data/0000000007.sst");
    assert_eq!(SSTableMeta::format_file_path("data/", 7), "data/0000000007.sst");
    assert_eq!(SSTableMeta::format_file_path("", 12345678901), "12345678901.sst");
    assert_eq!(file_kind("0000000007.sst"), FileKind::Table(7));
    assert_eq!(file_kind("+7.sst"), FileKind::Table(7));
    assert_eq!(file_kind("18446744073709551615.sst"), FileKind::Table(u64::MAX));
    assert_eq!(file_kind("18446744073709551616.sst"), FileKind::Unnumbered);
    assert_eq!(file_kind("a.sst"), FileKind::Unnumbered);
    assert_eq!(file_kind("+.sst"), FileKind::Unnumbered);
    assert_eq!(file_kind(".sst"), FileKind::Other);
    assert_eq!(file_kind("7.sst2"), FileKind::Other);
    assert_eq!(file_kind("wals"), FileKind::Other);
}

#[test]
fn frames_tell_end_from_cut() {
    let mut out = Vec::new();
    put_frame(&mut out, &Record::from_vec(vec![1, 2, 3]));
    assert_eq!(out, vec![3, 0, 0, 0, 0, 0, 0, 0, 1, 2, 3]);
    assert!(matches!(frame_at(&out, 0), FrameAt::Whole(_, 11)));
    assert!(matches!(frame_at(&out, 4), FrameAt::End));
    assert!(matches!(frame_at(&out[..10], 0), FrameAt::Cut));
    assert!(matches!(frame_at(&out, 1000), FrameAt::End));
}

#[test]
fn iterator_filters_by_value() {
    let records = vec![
        Record::from_raw_parts(1, 10, 0, "sys", "cpu normal"),
        Record::from_raw_parts(1, 10, 1, "web", "cpu high"),
        Record::from_raw_parts(1, 20, 2, "sys", "mem high"),
    ];
    let file = write_sstable(&records);
    let meta = make_meta(file.len() as u64);
    let collected = iterate(&meta, &file, 1, "sys", 0, 100, "high");
    assert_eq!(timestamps(&collected), vec![20]);
    let collected = iterate(&meta, &file, 1, "sys", 0, 100, "");
    assert_eq!(timestamps(&collected), vec![10, 20]);
}

#[test]
fn a_copied_table_has_the_same_filter() {
    let recs: Vec<Record> = (0..60)
        .map(|i| Record::from_raw_parts(i, i, i as u64, &format!("key {i}"), "v"))
        .collect();
    let bloom = BloomFilter::new(1 << 12, 3);
    let (meta, _) = SSTableMeta::write_to_file("p".to_string(), 1, &recs, bloom).unwrap();
    let copy = meta.clone();
    for i in 0..60 {
        assert!(copy.bloom.contains(i, format!("key {i}").as_bytes()));
        let other = format!("other {i}");
        assert_eq!(
            copy.bloom.contains(i, other.as_bytes()),
            meta.bloom.contains(i, other.as_bytes())
        );
    }
    assert_eq!(copy.bloom.positions(1, b"k"), meta.bloom.positions(1, b"k"));
    assert_eq!(copy.index.binary_seek(&recs[17]), meta.index.binary_seek(&recs[17]));
}

#[test]
fn range_seek_comes_before_all_records_of_its_start() {
    let mut index = IndexBlock::with_capacity(4);
    assert_eq!(index.range_seek(1, 5), 0);
    for (n, (source, ts, key)) in
        [(-2, 9, "a"), (1, 4, "z"), (1, 5, "a"), (1, 5, "b"), (2, 0, "a")].iter().enumerate()
    {
        let rec = Record::from_raw_parts(*source, *ts, n as u64, key, "");
        assert_eq!(index.try_insert(16 * n, &rec, 100 * n as u64), Ok(true));
    }
    assert_eq!(index.range_seek(-2, 9), 0);
    assert_eq!(index.range_seek(1, 4), 0);
    assert_eq!(index.range_seek(1, 5), 100);
    assert_eq!(index.range_seek(1, 6), 300);
    assert_eq!(index.range_seek(9, 0), 400);
    assert_eq!(index.start_at(1, 5, 2), Some(100));
    assert_eq!(index.start_at(1, 5, 3), None);
}
