use logregator::proto::Insert;
use logregator::storage::bloom::BloomFilter;
use logregator::storage::compaction::{
    compact, is_mergeable, num_records_hint, CompactionCommand,
};
use logregator::storage::compactor::Compactor;
use logregator::storage::engine::{Engine, NamedFile, OpenError};
use logregator::storage::idmap::IdMap;
use logregator::storage::iter::RangeError;
use logregator::storage::listing::table_names;
use logregator::storage::record::Record;
use logregator::storage::sstable::{SSTableMeta, TableError};
use logregator::storage::wal::{Wal, WalError};

fn open_engine(limit: usize) -> Engine {
    Engine::open("db_data".to_string(), limit, &vec![], &vec![]).unwrap().0
}

fn bloom_for(n: usize) -> BloomFilter {
    let m = (-(n as f64 * 0.01f64.ln()) / 2f64.ln().powi(2)).ceil() as usize;
    let k = ((m as f64 / (n as f64)) * 2f64.ln()) as usize;
    BloomFilter::new(m as u64, k as u64)
}

fn query(
    engine: &Engine,
    source_id: i64,
    key: &str,
    start: i64,
    end: i64,
    filter: &str,
) -> Vec<Record> {
    engine
        .range(source_id, key, start, end, filter, &IdMap::new())
        .unwrap()
        .collect()
}

/// Flushes the memory table and returns the bytes of the new table.
fn flush(engine: &mut Engine) -> (u64, Vec<u8>) {
    let (table, id) = engine.prepare_flush();
    let path = SSTableMeta::format_file_path(engine.base_dir(), id);
    let (meta, bytes) =
        SSTableMeta::write_to_file(path, id, table.iter(), bloom_for(table.len())).unwrap();
    engine.remove_frozen_memtable(id);
    engine.insert_meta(meta);
    (id, bytes)
}

#[test]
fn test_engine_initialization() {
    let engine = open_engine(1024);
    assert_eq!(engine.base_dir(), "db_data");
    assert_eq!(
        Wal::format_active_wal_path(engine.base_dir()),
        format!("db_data/{}/{}", Wal::WAL_DIR, Wal::ACTIVE_WAL_NAME)
    );
    assert_eq!(engine.next_sstable_id(), 1);
}

#[test]
fn test_engine_range_validation() {
    let engine = open_engine(1024);
    let files = IdMap::new();

    assert!(engine.range(1, "sys", 10, 5, "", &files).is_err());
    assert!(engine.range(1, "sys", -1, 10, "", &files).is_err());
    assert_eq!(
        engine.range(1, "sys", -1, -5, "", &files).unwrap_err(),
        RangeError::EndBeforeStart
    );
    assert_eq!(
        RangeError::EndBeforeStart.message(),
        "engine.range: end_ts cannot be smaller than start_ts"
    );
    assert_eq!(
        RangeError::NegativeStart.message(),
        "engine.range: start_ts cannot be negative"
    );
}

#[test]
fn test_engine_range_no_matches() {
    let mut engine = open_engine(1024);

    engine.insert_record(1, 10, "sys", "cpu normal").unwrap();

    assert!(query(&engine, 1, "other", 5, 15, "").is_empty());
    assert!(query(&engine, 1, "sys", 20, 30, "").is_empty());
    assert!(query(&engine, 1, "sys", 10, 10, "").is_empty());
}

#[test]
fn test_engine_range_in_memtable_only() {
    let mut engine = open_engine(1024);

    engine.insert_record(1, 10, "sys", "cpu normal").unwrap();
    engine.insert_record(1, 20, "sys", "mem high").unwrap();
    engine.insert_record(1, 30, "sys", "disk full").unwrap();

    let result = query(&engine, 1, "sys", 15, 35, "");
    assert_eq!(result.len(), 2);
    assert!(result.iter().any(|r| {
        r.extract_timestamp().unwrap() == 20 && r.extract_value().unwrap() == b"mem high"
    }));
    assert!(result.iter().any(|r| {
        r.extract_timestamp().unwrap() == 30 && r.extract_value().unwrap() == b"disk full"
    }));
}

#[test]
fn test_engine_range_start_inclusive_end_exclusive() {
    let mut engine = open_engine(1024);

    engine.insert_record(1, 10, "sys", "cpu normal").unwrap();
    engine.insert_record(1, 20, "sys", "mem high").unwrap();

    let result = query(&engine, 1, "sys", 10, 20, "");
    assert_eq!(result.len(), 1);
    assert_eq!(result[0].extract_timestamp().unwrap(), 10);

    let result = query(&engine, 1, "sys", 10, 30, "");
    assert_eq!(result.len(), 2);
}

#[test]
fn test_engine_range_key_filtering() {
    let mut engine = open_engine(50);

    engine.insert_record(1, 10, "sys", "cpu normal").unwrap();
    engine.insert_record(1, 20, "db", "query slow").unwrap();
    engine.insert_record(1, 30, "sys", "flush_trigger_01").unwrap();

    engine.insert_record(1, 40, "db", "connection lost").unwrap();

    let result = query(&engine, 1, "sys", 0, 100, "");
    assert_eq!(result.len(), 2);
    assert!(result.iter().all(|r| r.extract_key().unwrap() == b"sys"));

    let result = query(&engine, 1, "db", 0, 100, "");
    assert_eq!(result.len(), 2);
    assert!(result.iter().all(|r| r.extract_key().unwrap() == b"db"));
}

#[test]
fn test_engine_range_across_sstables() {
    let mut engine = open_engine(50);

    engine.insert_record(1, 10, "sys", "cpu normal").unwrap();
    engine.insert_record(1, 20, "sys", "mem high").unwrap();
    engine.insert_record(1, 30, "sys", "flush_trigger_01").unwrap();

    engine.insert_record(1, 40, "sys", "disk full").unwrap();
    engine.insert_record(1, 50, "sys", "all good").unwrap();

    let result = query(&engine, 1, "sys", 20, 45, "");
    assert_eq!(result.len(), 3);
    assert!(result.iter().any(|r| r.extract_timestamp().unwrap() == 20));
    assert!(result.iter().any(|r| r.extract_timestamp().unwrap() == 30));
    assert!(result.iter().any(|r| r.extract_timestamp().unwrap() == 40));
}

#[test]
fn test_engine_range_overlapping_sstables() {
    let mut engine = open_engine(50);

    engine.insert_record(1, 15, "sys", "first flush").unwrap();
    engine.insert_record(1, 25, "sys", "flush_trigger_01").unwrap();

    engine.insert_record(1, 20, "sys", "second flush entry").unwrap();
    engine.insert_record(1, 45, "sys", "flush_trigger_02").unwrap();

    let result = query(&engine, 1, "sys", 20, 30, "");
    assert_eq!(result.len(), 2);
    let mut ts: Vec<i64> = result.iter().map(|r| r.extract_timestamp().unwrap()).collect();
    ts.sort();
    assert_eq!(ts, vec![20, 25]);
}

#[test]
fn test_engine_range_memtable_and_sstables() {
    let mut engine = open_engine(50);

    engine.insert_record(1, 10, "sys", "flushed").unwrap();
    engine.insert_record(1, 20, "sys", "flush_trigger_01").unwrap();

    engine.insert_record(1, 30, "sys", "in memtable").unwrap();

    let result = query(&engine, 1, "sys", 5, 35, "");
    assert_eq!(result.len(), 3);
    assert!(result.iter().any(|r| {
        r.extract_timestamp().unwrap() == 10 && r.extract_value().unwrap() == b"flushed"
    }));
    assert!(result.iter().any(|r| r.extract_timestamp().unwrap() == 20));
    assert!(result.iter().any(|r| {
        r.extract_timestamp().unwrap() == 30 && r.extract_value().unwrap() == b"in memtable"
    }));
}

#[test]
fn test_engine_flush_trigger() {
    let mut engine = open_engine(50);

    engine.insert_record(1, 1, "k1", "small").unwrap();

    let needs_flush = engine
        .insert_record(1, 2, "k2", "this_is_a_massive_payload_to_force_a_flush")
        .unwrap();
    assert!(needs_flush, "insert should indicate flush is needed");
}

fn make_insert(source_id: i64, ts: i64, key: &str, value: &str) -> Insert {
    Insert {
        source_id,
        ts,
        key: key.to_string(),
        value: value.to_string(),
    }
}

#[test]
fn test_engine_batch_insert_basic() {
    let mut engine = open_engine(1024);

    let batch = vec![
        make_insert(1, 10, "sys", "cpu normal"),
        make_insert(1, 20, "sys", "mem high"),
        make_insert(1, 30, "sys", "disk full"),
    ];

    engine.batch_insert_records(batch).unwrap();

    let result = query(&engine, 1, "sys", 0, 100, "");
    assert_eq!(result.len(), 3);
    assert_eq!(result[0].extract_timestamp().unwrap(), 10);
    assert_eq!(result[1].extract_timestamp().unwrap(), 20);
    assert_eq!(result[2].extract_timestamp().unwrap(), 30);
}

#[test]
fn test_engine_batch_insert_seq_nums() {
    let mut engine = open_engine(1024);

    // the sequence numbers start at 1 after open
    let start_seq = engine.next_seq();
    assert_eq!(start_seq, 1);

    let batch = vec![
        make_insert(1, 10, "sys", "a"),
        make_insert(1, 20, "sys", "b"),
        make_insert(1, 30, "sys", "c"),
    ];

    engine.batch_insert_records(batch).unwrap();

    assert_eq!(engine.next_seq(), start_seq + 3);

    let result = query(&engine, 1, "sys", 0, 100, "");
    assert_eq!(result.len(), 3);
    for (i, rec) in result.iter().enumerate() {
        assert_eq!(rec.extract_seq_num().unwrap(), start_seq + i as u64);
    }
}

#[test]
fn test_engine_batch_insert_flush_trigger() {
    let mut engine = open_engine(100);

    let batch = vec![
        make_insert(1, 1, "sys", "x"),
        make_insert(1, 2, "sys", "this_is_a_massive_payload_to_force_a_flush"),
    ];

    assert!(engine.batch_insert_records(batch).unwrap());
}

#[test]
fn test_engine_batch_insert_with_range() {
    let mut engine = open_engine(50);

    let batch = vec![
        make_insert(1, 5, "sys", "first"),
        make_insert(1, 10, "sys", "second"),
    ];
    engine.batch_insert_records(batch).unwrap();

    // standalone insert after batch
    engine.insert_record(1, 15, "sys", "third").unwrap();

    let result = query(&engine, 1, "sys", 0, 20, "");
    assert_eq!(result.len(), 3);
    assert_eq!(result[0].extract_timestamp().unwrap(), 5);
    assert_eq!(result[1].extract_timestamp().unwrap(), 10);
    assert_eq!(result[2].extract_timestamp().unwrap(), 15);
}

#[test]
fn test_engine_batch_insert_multiple_batches() {
    let mut engine = open_engine(1024);

    let batch1 = vec![
        make_insert(1, 10, "sys", "batch1_a"),
        make_insert(1, 20, "sys", "batch1_b"),
    ];
    engine.batch_insert_records(batch1).unwrap();

    let batch2 = vec![
        make_insert(1, 30, "sys", "batch2_a"),
        make_insert(1, 40, "sys", "batch2_b"),
    ];
    engine.batch_insert_records(batch2).unwrap();

    let result = query(&engine, 1, "sys", 0, 100, "");
    assert_eq!(result.len(), 4);
    assert!(result.iter().any(|r| r.extract_value().unwrap() == b"batch1_a"));
    assert!(result.iter().any(|r| r.extract_value().unwrap() == b"batch2_b"));
}

#[test]
fn test_engine_range_filter_empty_returns_all() {
    let mut engine = open_engine(1024);

    engine.insert_record(1, 10, "sys", "cpu normal").unwrap();
    engine.insert_record(1, 20, "sys", "mem high").unwrap();
    engine.insert_record(1, 30, "sys", "disk full").unwrap();

    let result = query(&engine, 1, "sys", 0, 100, "");
    assert_eq!(result.len(), 3);
}

#[test]
fn test_engine_range_filter_partial_match() {
    let mut engine = open_engine(1024);

    engine.insert_record(1, 10, "sys", "cpu normal").unwrap();
    engine.insert_record(1, 20, "sys", "mem high pressure").unwrap();
    engine.insert_record(1, 30, "sys", "disk full").unwrap();
    engine.insert_record(1, 40, "sys", "memory leak detected").unwrap();

    let result = query(&engine, 1, "sys", 0, 100, "mem");
    assert_eq!(result.len(), 2);
    assert!(result.iter().all(|r| {
        let val = r.extract_value().unwrap();
        val == b"mem high pressure" || val == b"memory leak detected"
    }));
}

#[test]
fn test_engine_range_filter_no_match() {
    let mut engine = open_engine(1024);

    engine.insert_record(1, 10, "sys", "cpu normal").unwrap();
    engine.insert_record(1, 20, "sys", "mem high").unwrap();

    let result = query(&engine, 1, "sys", 0, 100, "nonexistent");
    assert!(result.is_empty());
}

#[test]
fn test_engine_range_filter_works_across_tiers() {
    let mut engine = open_engine(50);

    engine.insert_record(1, 10, "sys", "cpu normal").unwrap();
    engine.insert_record(1, 20, "sys", "first flush trigger").unwrap();
    engine.insert_record(1, 30, "sys", "disk full").unwrap();

    // all records, empty filter yields all
    let result = query(&engine, 1, "sys", 0, 100, "");
    assert_eq!(result.len(), 3);

    // filter matches only one record
    let result = query(&engine, 1, "sys", 0, 100, "cpu");
    assert_eq!(result.len(), 1);

    // filter matches no records
    let result = query(&engine, 1, "sys", 0, 100, "nonexistent");
    assert!(result.is_empty());
}

#[test]
fn test_wal_persistence() {
    let entry = Record::from_raw_parts(1, 12345, 0, "user_1", "login_event");

    let mut wal = Wal::open_active("dir");
    wal.write_one(&entry).expect("failed to write");
    let file = wal.flush_buffer();

    let recovered = Wal::recover_all(&vec![file]);

    assert_eq!(recovered.len(), 1);
    assert_eq!(recovered[0].cmp(&entry), std::cmp::Ordering::Equal);
}

#[test]
fn test_wal_ordering() {
    let mut wal = Wal::open_active("dir");

    let entries = vec![
        Record::from_raw_parts(1, 1, 0, "a", "v1"),
        Record::from_raw_parts(1, 2, 0, "b", "v2"),
        Record::from_raw_parts(1, 3, 0, "c", "v3"),
    ];

    for e in &entries {
        wal.write_one(e).unwrap();
    }
    let file = wal.flush_buffer();

    let recovered = Wal::recover_all(&vec![file]);

    assert_eq!(recovered.len(), entries.len());
    for (r, e) in recovered.iter().zip(entries.iter()) {
        assert_eq!(r.cmp(e), std::cmp::Ordering::Equal);
    }
}

#[test]
fn wal_files_are_merged_and_torn_ones_passed_over() {
    let r = |ts, v: &str| Record::from_raw_parts(1, ts, 0, "k", v);
    let log = |recs: &[Record]| {
        let mut wal = Wal::open_active("d");
        wal.write_many(recs).unwrap();
        wal.flush_buffer()
    };
    let one = log(&[r(3, "a"), r(1, "b")]);
    let two = log(&[r(2, "c"), r(1, "later")]);
    let mut torn = log(&[r(9, "lost")]);
    torn.pop();
    let mut ragged = log(&[r(7, "kept")]);
    ragged.extend([1, 2, 3]);
    assert_eq!(Wal::recover_file(&torn).unwrap_err(), WalError::ShortRecord);
    assert_eq!(Wal::recover_file(&ragged).unwrap().len(), 1);
    assert!(Wal::is_recoverable(&torn));
    let all = Wal::recover_all(&vec![one, two, torn, ragged]);
    let got: Vec<(i64, Vec<u8>)> = all
        .iter()
        .map(|r| (r.extract_timestamp().unwrap(), r.extract_value().unwrap().to_vec()))
        .collect();
    assert_eq!(
        got,
        vec![
            (1, b"b".to_vec()),
            (2, b"c".to_vec()),
            (3, b"a".to_vec()),
            (7, b"kept".to_vec())
        ]
    );
    let keyless = [24u64.to_le_bytes().to_vec(), vec![0; 24]].concat();
    assert!(!Wal::is_recoverable(&keyless));
}

#[test]
fn wal_counts_and_paths() {
    let mut wal = Wal::open_active("d");
    assert_eq!(wal.counts(), None);
    wal.set_metrics();
    let rec = Record::from_raw_parts(1, 1, 1, "k", "v");
    wal.write_one(&rec).unwrap();
    assert_eq!(wal.counts(), Some((1, 42)));
    wal.write_many(&[rec.clone(), rec.clone()]).unwrap();
    assert_eq!(wal.counts(), Some((3, 142)));
    assert_eq!(wal.pending_len(), 150);
    wal.set_available(false);
    assert_eq!(wal.write_one(&rec), Err(WalError::Unavailable));
    assert_eq!(wal.write_many(&[rec.clone()]), Err(WalError::Unavailable));
    assert_eq!(wal.write_many(&[]), Ok(()));
    assert_eq!(wal.pending_len(), 150);
    let (bytes, path) = wal.rotate("d", 12);
    assert_eq!(bytes.len(), 150);
    assert_eq!(path, "d/wals/wal_0000000012.log");
    assert_eq!(wal.pending_len(), 0);
    assert_eq!(Wal::format_active_wal_path("d"), "d/wals/__active_wal.log");
    assert!(Wal::is_wal_file("wal_0000000012.log"));
    assert!(!Wal::is_wal_file(".log"));
    assert!(!Wal::is_wal_file("wal.txt"));
}

#[test]
fn engine_keeps_nothing_that_the_log_refuses() {
    let mut engine = open_engine(1000);
    engine.set_wal_available(false);
    assert_eq!(engine.insert_record(1, 1, "k", "v"), Err(WalError::Unavailable));
    assert!(engine.is_memtable_empty());
    assert_eq!(engine.next_seq(), 1);
    assert_eq!(
        engine.batch_insert_records(vec![make_insert(1, 1, "k", "v"), make_insert(1, 2, "k", "v")]),
        Err(WalError::Unavailable)
    );
    assert!(engine.is_memtable_empty());
    assert_eq!(engine.next_seq(), 3);
    assert_eq!(engine.batch_insert_records(vec![]), Ok(false));
    engine.set_wal_available(true);
    assert_eq!(engine.insert_record(1, 1, "k", "v"), Ok(false));
    assert_eq!(query(&engine, 1, "k", 0, 9, "")[0].extract_seq_num().unwrap(), 3);
    assert!(engine.has_room(10, 1000));
    assert!(!engine.has_room(10, usize::MAX));
    assert!(engine.has_room_for(&vec![make_insert(1, 1, "k", "v")]));
}

#[test]
fn engine_recovers_its_memory_from_the_log() {
    let mut engine = open_engine(100);
    engine.insert_record(1, 20, "k", "b").unwrap();
    engine.insert_record(1, 10, "k", "a").unwrap();
    let mut log = engine.flush_wal_buffer();
    engine
        .batch_insert_records(vec![make_insert(2, 5, "k", "c"), make_insert(1, 15, "k", "d")])
        .unwrap();
    log.extend(engine.flush_wal_buffer());
    let (again, needs_flush) =
        Engine::open("db_data".to_string(), 100, &vec![log], &vec![]).unwrap();
    assert!(needs_flush);
    assert_eq!(again.next_seq(), 5);
    assert_eq!(again.memtable_size(), engine.memtable_size());
    let values: Vec<Vec<u8>> = query(&again, 1, "k", 0, 100, "")
        .iter()
        .map(|r| r.extract_value().unwrap().to_vec())
        .collect();
    assert_eq!(values, vec![b"a".to_vec(), b"d".to_vec(), b"b".to_vec()]);
}

#[test]
fn engine_reads_flushed_records_from_files() {
    let mut engine = open_engine(1 << 20);
    let mut files = IdMap::new();
    for ts in 0..100 {
        engine.insert_record(1, ts, "k", &format!("old {ts}")).unwrap();
    }
    let (frozen, id) = engine.prepare_flush();
    assert_eq!((frozen.len(), id), (100, 1));
    engine.insert_record(1, 50, "k", "new 50").unwrap();
    // what is being flushed can still be read
    assert_eq!(query(&engine, 1, "k", 0, 100, "").len(), 101);
    let (meta, bytes) =
        SSTableMeta::write_to_file("p".to_string(), id, frozen.iter(), bloom_for(100)).unwrap();
    engine.remove_frozen_memtable(id);
    assert_eq!(query(&engine, 1, "k", 0, 100, "").len(), 1);
    engine.insert_meta(meta);
    assert_eq!(engine.range_tables(1, "k"), vec![1]);
    // a table whose file is not there is passed over
    assert_eq!(query(&engine, 1, "k", 0, 100, "").len(), 1);
    files.insert(id, bytes);
    let all = engine.range(1, "k", 0, 100, "", &files).unwrap().collect();
    assert_eq!(all.len(), 101);
    let at_50: Vec<Vec<u8>> = all
        .iter()
        .filter(|r| r.extract_timestamp().unwrap() == 50)
        .map(|r| r.extract_value().unwrap().to_vec())
        .collect();
    assert_eq!(at_50, vec![b"old 50".to_vec(), b"new 50".to_vec()]);
    let some = engine.range(1, "k", 20, 30, "old 2", &files).unwrap().collect();
    assert_eq!(some.len(), 10);
    assert_eq!(engine.sstable_count(), 1);
    assert!(engine.total_sstable_size() > 5000);
}

#[test]
fn a_range_reads_all_records_at_its_start() {
    // Twenty records at one time: the index points into the middle of them.
    let mut engine = open_engine(1 << 20);
    for i in 0..20 {
        engine.insert_record(1, 7, "k", &format!("{i}")).unwrap();
    }
    let (id, bytes) = flush(&mut engine);
    let mut files = IdMap::new();
    files.insert(id, bytes);
    assert_eq!(engine.range(1, "k", 7, 8, "", &files).unwrap().collect().len(), 20);
    let mut engine = open_engine(1 << 20);
    engine.insert_record(1, 6, "k", "before").unwrap();
    for i in 0..20 {
        engine.insert_record(1, 7, "k", &format!("{i}")).unwrap();
    }
    let (id, bytes) = flush(&mut engine);
    let mut files = IdMap::new();
    files.insert(id, bytes);
    assert_eq!(engine.range(1, "k", 7, 8, "", &files).unwrap().collect().len(), 20);
    assert_eq!(engine.range(1, "k", 6, 8, "", &files).unwrap().collect().len(), 21);
}

#[test]
fn engine_open_reports_bad_tables() {
    let file = |name: &str, bytes: Vec<u8>| NamedFile { name: name.to_string(), bytes };
    let open = |files: Vec<NamedFile>| Engine::open("d".to_string(), 10, &vec![], &files);
    assert_eq!(open(vec![file("x.sst", vec![])]).unwrap_err(), OpenError::FileName);
    assert_eq!(
        open(vec![file("1.sst", vec![])]).unwrap_err(),
        OpenError::Table(TableError::Footer)
    );
    assert_eq!(
        open(vec![file("2.sst", vec![9; 24]), file("x.sst", vec![])]).unwrap_err(),
        OpenError::Table(TableError::Record)
    );
    let (engine, flush) = open(vec![file("notes.txt", vec![]), file("41.sst", vec![0; 64])]).unwrap();
    assert!(!flush);
    assert_eq!(engine.next_sstable_id(), 42);
    assert_eq!(engine.sstable_count(), 1);
    assert!(Engine::counters_suffice(&vec![], &vec![file("41.sst", vec![0; 64])]));
    assert!(!Engine::counters_suffice(
        &vec![],
        &vec![file("18446744073709551615.sst", vec![0; 64])]
    ));
}

#[test]
fn engine_open_goes_on_behind_the_highest_sequence_number() {
    let log = |seq: u64| {
        let mut wal = Wal::open_active("d");
        wal.write_one(&Record::from_raw_parts(1, 1, seq, "k", "v")).unwrap();
        wal.flush_buffer()
    };
    let (engine, _) = Engine::open("d".to_string(), 1000, &vec![log(5), log(9)], &vec![]).unwrap();
    assert_eq!(engine.next_seq(), 10);
    assert!(!Engine::counters_suffice(&vec![log(u64::MAX)], &vec![]));
}

#[test]
fn listing_holds_sorted_table_names() {
    let names: Vec<String> =
        ["10.sst", "wals", "2.sst", "a.sst", "1.sst", ".sst"].iter().map(|s| s.to_string()).collect();
    assert_eq!(table_names(&names), vec!["1.sst", "10.sst", "2.sst", "a.sst"]);
}

#[test]
fn oldest_tables_are_picked_for_compaction() {
    let mut engine = open_engine(1 << 20);
    for ts in 0..5 {
        engine.insert_record(1, ts, "k", "v").unwrap();
        flush(&mut engine);
    }
    let ids = |engine: &Engine, n| -> Vec<u64> {
        engine.get_oldest_metas(n).iter().map(|m| m.id).collect()
    };
    assert_eq!(ids(&engine, 3), vec![1, 2, 3]);
    engine.mark_compacting(&[1, 3]);
    assert_eq!(ids(&engine, 3), vec![2, 4, 5]);
    assert_eq!(ids(&engine, 9), vec![2, 4, 5]);
    engine.unmark_compacting(&[1]);
    assert_eq!(ids(&engine, 2), vec![1, 2]);
    engine.remove_meta(2);
    assert_eq!(ids(&engine, 9), vec![1, 4, 5]);
    assert_eq!(engine.allocate_sstable_id(), 6);
    assert_eq!(engine.next_sstable_id(), 7);
}

#[test]
fn compaction_keeps_every_record() {
    let mut engine = open_engine(1 << 20);
    let mut files = IdMap::new();
    for round in 0..3 {
        for ts in 0..10 {
            engine.insert_record(1, ts * 3 + round, "k", "v").unwrap();
        }
        let (id, bytes) = flush(&mut engine);
        files.insert(id, bytes);
    }
    let tables = engine.get_oldest_metas(3);
    assert_eq!(num_records_hint(&tables), 30);
    let cmd = CompactionCommand {
        tables,
        new_file_path: SSTableMeta::format_file_path(engine.base_dir(), 9),
        new_file_id: 9,
    };
    let (res, bytes) = compact(cmd, &files, bloom_for(30)).unwrap();
    assert_eq!(res.ids_to_remove, vec![1, 2, 3]);
    assert_eq!(res.new_meta.id, 9);
    assert_eq!(res.new_meta.num_records, 30);
    let before = engine.range(1, "k", 0, 100, "", &files).unwrap().collect();
    for id in &res.ids_to_remove {
        engine.remove_meta(*id);
    }
    engine.insert_meta(res.new_meta);
    let mut files = IdMap::new();
    files.insert(9, bytes);
    let after = engine.range(1, "k", 0, 100, "", &files).unwrap().collect();
    assert_eq!(before.len(), 30);
    assert_eq!(after.len(), 30);
    for (a, b) in before.iter().zip(&after) {
        assert_eq!(a.as_bytes(), b.as_bytes());
    }
}

#[test]
fn compactor_picks_large_tables() {
    let mut engine = open_engine(1 << 20);
    for n in [1, 50, 2, 60, 70] {
        for ts in 0..n {
            engine.insert_record(1, ts, "k", "v").unwrap();
        }
        flush(&mut engine);
    }
    let tables = engine.get_oldest_metas(5);
    let pick = |num, size| {
        Compactor { file_num_limit: num, file_sz_limit: size }.collect_tables(&tables)
    };
    assert_eq!(pick(2, 2000), Some(vec![1, 3]));
    assert_eq!(pick(3, 2000), Some(vec![1, 3, 4]));
    assert_eq!(pick(4, 2000), None);
    // A table counts only once it has exceeded the limit.
    assert_eq!(pick(1, tables[4].file_size), None);
    assert_eq!(pick(1, tables[4].file_size - 1), Some(vec![4]));
    assert_eq!(pick(0, 2000), Some(vec![]));
    assert_eq!(pick(0, 0), Some(vec![0]));
    assert_eq!(
        Compactor { file_num_limit: 0, file_sz_limit: 0 }.collect_tables(&[]),
        None
    );
}

#[test]
fn compactor_keeps_the_latest_record_of_each_log() {
    let mut engine = open_engine(1 << 20);
    let mut files = IdMap::new();
    for round in 0..3 {
        for key in ["a", "b"] {
            engine.insert_record(1, 7, key, &format!("{key}{round}")).unwrap();
        }
        engine.insert_record(1, 8 + round, "a", "alone").unwrap();
        let (id, bytes) = flush(&mut engine);
        files.insert(id, bytes);
    }
    let tables = engine.get_oldest_metas(3);
    let compactor = Compactor { file_num_limit: 2, file_sz_limit: 0 };
    let bytes = compactor.merge(&mut engine, &tables, &files, bloom_for(9)).unwrap();
    assert_eq!(engine.sstable_count(), 1);
    assert_eq!(engine.next_sstable_id(), 5);
    let mut files = IdMap::new();
    files.insert(4, bytes);
    let values = |key: &str, start, end| -> Vec<String> {
        engine
            .range(1, key, start, end, "", &files)
            .unwrap()
            .collect()
            .iter()
            .map(|r| r.extract_all_fields().unwrap().4)
            .collect()
    };
    assert_eq!(values("a", 7, 8), vec!["a2"]);
    assert_eq!(values("b", 7, 8), vec!["b2"]);
    assert_eq!(values("a", 8, 20).len(), 3);
}

#[test]
fn unordered_records_and_empty_filters_are_noticed() {
    let mut engine = open_engine(1 << 20);
    engine.insert_record(1, 5, "k", "v").unwrap();
    let (id, bytes) = flush(&mut engine);
    let mut files = IdMap::new();
    files.insert(id, vec![0; bytes.len()]);
    assert!(engine.has_usable_filters());
    assert!(!engine.is_range_ready(1, "k", 0, 9, &files));
    assert!(engine.is_range_ready(1, "k", 0, 9, &IdMap::new()));
    assert!(!is_mergeable(&engine.get_oldest_metas(1), &files));
    assert!(is_mergeable(&engine.get_oldest_metas(1), &IdMap::new()));
    files.insert(id, bytes);
    assert!(engine.is_range_ready(1, "k", 0, 9, &files));
    assert!(is_mergeable(&engine.get_oldest_metas(1), &files));
    let zeros = vec![NamedFile { name: "41.sst".to_string(), bytes: vec![0; 64] }];
    let (engine, _) = Engine::open("d".to_string(), 10, &vec![], &zeros).unwrap();
    assert!(!engine.has_usable_filters());
    assert!(!engine.is_range_ready(1, "k", 0, 9, &files));
    assert!(engine.has_room_for_table(u64::MAX - 64));
    assert!(!engine.has_room_for_table(u64::MAX - 63));
}

#[test]
fn what_is_being_flushed_is_recovered_from_its_log() {
    let mut engine = open_engine(1 << 20);
    for ts in 0..3 {
        engine.insert_record(1, ts, "k", "before").unwrap();
    }
    let (_, id) = engine.prepare_flush();
    let (stale, path) = engine.rotate_wal(id);
    assert_eq!(path, "db_data/wals/wal_0000000001.log");
    for ts in 3..5 {
        engine.insert_record(1, ts, "k", "after").unwrap();
    }
    let active = engine.flush_wal_buffer();
    let (again, _) =
        Engine::open("db_data".to_string(), 1 << 20, &vec![active, stale], &vec![]).unwrap();
    assert_eq!(again.next_seq(), engine.next_seq());
    let old = query(&engine, 1, "k", 0, 9, "");
    let new = query(&again, 1, "k", 0, 9, "");
    assert_eq!(old.len(), 5);
    assert_eq!(new.len(), 5);
    for (a, b) in old.iter().zip(&new) {
        assert_eq!(a.as_bytes(), b.as_bytes());
    }
}

#[test]
fn a_store_is_reopened_with_its_tables_and_logs() {
    let mut engine = open_engine(1 << 20);
    let mut files = IdMap::new();
    let mut named = vec![NamedFile { name: "notes.txt".to_string(), bytes: vec![1, 2] }];
    let mut logs = vec![];
    for round in 0..3 {
        for i in 0..40i64 {
            engine.insert_record(i % 3 - 1, i * 7 % 20, "k", &format!("{round} {i}")).unwrap();
        }
        logs.push(engine.flush_wal_buffer());
        if round < 2 {
            let (id, bytes) = flush(&mut engine);
            named.push(NamedFile { name: format!("{id}.sst"), bytes: bytes.clone() });
            files.insert(id, bytes);
        }
    }
    // The log of the last flush is still there, so its records are found twice.
    let logs = logs.split_off(1);
    assert!(Engine::counters_suffice(&logs, &named));
    let (again, _) = Engine::open("db_data".to_string(), 1 << 20, &logs, &named).unwrap();
    assert_eq!(again.sstable_count(), 2);
    assert_eq!(again.next_sstable_id(), 3);
    assert_eq!(again.next_seq(), engine.next_seq());
    assert_eq!(again.table_path(2).unwrap(), "db_data/2.sst");
    assert_eq!(again.table_path(3), None);
    assert!(again.has_usable_filters());
    for source in -1..2 {
        for start in 0..20 {
            let old = engine.range(source, "k", start, 20, "", &files).unwrap().collect();
            let new = again.range(source, "k", start, 20, "", &files).unwrap().collect();
            assert!(start > 0 || !old.is_empty());
            assert_eq!(old.len(), new.len());
            for (a, b) in old.iter().zip(&new) {
                assert_eq!(a.as_bytes(), b.as_bytes());
            }
        }
    }
}

#[test]
fn records_are_ordered_by_signed_sources() {
    let a = Record::from_raw_parts(-1, 0, 0, "k", "");
    let b = Record::from_raw_parts(1, 0, 0, "k", "");
    assert_eq!(a.cmp(&b), std::cmp::Ordering::Less);
    let early = Record::from_raw_parts(1, -5, 9, "k", "");
    assert_eq!(early.cmp(&b), std::cmp::Ordering::Less);
}
