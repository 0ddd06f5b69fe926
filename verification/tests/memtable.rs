use logregator::storage::memtable::MemTable;
use logregator::storage::record::{Record, RecordError};
use logregator::text::{checked_text, Utf8Fault};

#[test]
fn test_memtable_put_and_get() {
    let mut mt = MemTable::new(1024);

    mt.insert(Record::from_raw_parts(1, 1, 0, "log_1", "error on line 42"));
    mt.insert(Record::from_raw_parts(1, 2, 0, "log_2", "user logged in"));

    let retrieved = mt.get(1, 1, "log_1").expect("record should exist");
    assert_eq!(retrieved.extract_value().unwrap(), b"error on line 42");

    assert!(mt.get(1, 3, "log_3").is_none());
}

#[test]
fn test_memtable_maintains_strict_ordering() {
    let mut mt = MemTable::new(1024);

    mt.insert(Record::from_raw_parts(1, 102, 0, "c_log", "third"));
    mt.insert(Record::from_raw_parts(1, 100, 0, "a_log", "first"));
    mt.insert(Record::from_raw_parts(1, 101, 0, "b_log", "second"));

    let mut iter = mt.iter().iter();

    assert_eq!(iter.next().unwrap().extract_timestamp().unwrap(), 100);
    assert_eq!(iter.next().unwrap().extract_key().unwrap(), b"b_log");
    assert_eq!(iter.next().unwrap().extract_key().unwrap(), b"c_log");
    assert!(iter.next().is_none());
}

#[test]
fn test_memtable_size_tracking_and_overwrite() {
    let mut mt = MemTable::new(1024);
    assert_eq!(mt.size_hint(), 0);

    let rec1 = Record::from_raw_parts(1, 100, 0, "sys_metric", "cpu: 45%");
    let size_1 = rec1.len();

    mt.insert(rec1);
    assert_eq!(mt.size_hint(), size_1);

    let rec2 = Record::from_raw_parts(1, 100, 1, "sys_metric", "cpu: 45%, mem: 80%");
    let size_2 = rec2.len();

    mt.insert(rec2);

    assert_eq!(mt.size_hint(), size_1 + size_2);
    assert_eq!(
        mt.get(1, 100, "sys_metric").unwrap().extract_value().unwrap(),
        b"cpu: 45%, mem: 80%"
    );
}

#[test]
fn test_memtable_capacity_trigger() {
    let mut mt = MemTable::new(100);

    assert!(
        !mt.insert(Record::from_raw_parts(1, 1, 0, "a", "x")),
        "should not trigger yet"
    );

    assert!(
        !mt.insert(Record::from_raw_parts(1, 2, 0, "b", "y")),
        "should still be under 100 bytes"
    );

    assert!(
        mt.insert(Record::from_raw_parts(
            1,
            3,
            0,
            "c",
            "this_is_a_massive_string_that_will_overflow_the_limit"
        )),
        "should return true, signaling it is full"
    );
}

#[test]
fn test_memtable_clear() {
    let mut mt = MemTable::new(1024);
    mt.insert(Record::from_raw_parts(1, 1, 0, "k1", "v1"));
    assert!(mt.size_hint() > 0);

    mt.clear();

    assert_eq!(mt.size_hint(), 0);
    assert!(mt.get(1, 1, "k1").is_none());
    assert!(mt.iter().iter().next().is_none());
}

#[test]
fn memtable_keeps_first_of_equal_records() {
    let mut mt = MemTable::new(1024);
    mt.insert(Record::from_raw_parts(1, 1, 7, "k", "old"));
    mt.insert(Record::from_raw_parts(1, 1, 7, "k", "newer"));
    assert_eq!(mt.len(), 1);
    assert_eq!(mt.size_hint(), 44 + 46);
    assert_eq!(mt.get(1, 1, "k").unwrap().extract_value().unwrap(), b"old");
}

#[test]
fn memtable_orders_negative_numbers_before_positive_ones() {
    let mut mt = MemTable::new(1024);
    mt.insert(Record::from_raw_parts(-1, 5, 1, "k", ""));
    mt.insert(Record::from_raw_parts(3, -5, 2, "k", ""));
    mt.insert(Record::from_raw_parts(3, 5, 3, "k", ""));
    let order: Vec<(i64, i64)> = mt
        .iter()
        .iter()
        .map(|r| (r.extract_source_id().unwrap(), r.extract_timestamp().unwrap()))
        .collect();
    assert_eq!(order, vec![(-1, 5), (3, -5), (3, 5)]);
    assert_eq!(mt.get(-1, 5, "k").unwrap().extract_seq_num().unwrap(), 1);
}

#[test]
fn memtable_spans_and_freezes() {
    let mut mt = MemTable::new(1000);
    for ts in 0..10 {
        mt.insert(Record::from_raw_parts(1, ts, ts as u64, "k", "v"));
        mt.insert(Record::from_raw_parts(2, ts, 100 + ts as u64, "k", "v"));
    }
    let span = mt.clone_range(1, 3, 6);
    let times: Vec<i64> = span.iter().map(|r| r.extract_timestamp().unwrap()).collect();
    assert_eq!(times, vec![3, 4, 5]);
    assert_eq!(mt.capacity(), 1000);
    let size = mt.current_size();
    let frozen = mt.freeze();
    assert!(mt.is_empty());
    assert_eq!(mt.current_size(), 0);
    assert_eq!(mt.capacity(), 1000);
    assert_eq!(frozen.len(), 20);
    assert_eq!(frozen.current_size(), size);
}

#[test]
fn record_layout_is_big_endian() {
    let r = Record::from_raw_parts(1, -2, 3, "k", "vw");
    let mut want = vec![0, 0, 0, 0, 0, 0, 0, 1];
    want.extend([255, 255, 255, 255, 255, 255, 255, 254]);
    want.extend([0, 0, 0, 0, 0, 0, 0, 3]);
    want.extend([0, 0, 0, 0, 0, 0, 0, 1]);
    want.extend(b"k");
    want.extend([0, 0, 0, 0, 0, 0, 0, 2]);
    want.extend(b"vw");
    assert_eq!(r.as_bytes(), want.as_slice());
    assert_eq!(r.len(), 43);
}

#[test]
fn record_fields_come_back() {
    let r = Record::from_raw_parts(i64::MIN, i64::MAX, u64::MAX, "schl\u{fc}ssel", "\u{20ac}");
    assert_eq!(
        r.extract_all_fields().unwrap(),
        (i64::MIN, i64::MAX, u64::MAX, "schl\u{fc}ssel".to_string(), "\u{20ac}".to_string())
    );
    let (s, t, q, k, v) = r.extract_all_fields_ref().unwrap();
    assert_eq!((s, t, q), (i64::MIN, i64::MAX, u64::MAX));
    assert_eq!(k, "schl\u{fc}ssel".as_bytes());
    assert_eq!(v, "\u{20ac}".as_bytes());
}

#[test]
fn record_errors_name_the_missing_field() {
    let full = Record::from_raw_parts(1, 2, 3, "key", "value");
    let cut = |n: usize| Record::from_vec(full.as_bytes()[..n].to_vec());
    assert_eq!(cut(7).extract_source_id(), Err(RecordError::SourceId));
    assert_eq!(cut(15).extract_timestamp(), Err(RecordError::Timestamp));
    assert_eq!(cut(23).extract_seq_num(), Err(RecordError::SeqNum));
    assert_eq!(cut(31).extract_key(), Err(RecordError::KeyLength));
    assert_eq!(cut(34).extract_key(), Err(RecordError::KeyContents));
    assert_eq!(cut(31).extract_value(), Err(RecordError::KeyLength));
    assert_eq!(cut(42).extract_value(), Err(RecordError::ValueLength));
    assert_eq!(cut(47).extract_value(), Err(RecordError::ValueContents));
    assert_eq!(cut(23).extract_all_fields(), Err(RecordError::AllIntegers));
    assert_eq!(cut(31).extract_all_fields(), Err(RecordError::AllKeyLength));
    assert_eq!(cut(34).extract_all_fields(), Err(RecordError::AllKeyContents));
    assert_eq!(cut(42).extract_all_fields(), Err(RecordError::AllValueLength));
    assert_eq!(cut(47).extract_all_fields(), Err(RecordError::AllValueContents));
    assert_eq!(
        RecordError::AllKeyLength.message(),
        "record.extract_all: not enough bytes for key length"
    );
    let mut bad = full.as_bytes().to_vec();
    bad[32] = 0xff;
    let fault = Utf8Fault { valid: 0, bad: Some(1) };
    assert_eq!(Record::from_vec(bad).extract_all_fields(), Err(RecordError::Utf8(fault)));
    let mut long = full.as_bytes().to_vec();
    long[24] = 0xff;
    assert_eq!(Record::from_vec(long).extract_key(), Err(RecordError::KeyContents));
}

#[test]
fn record_order_goes_by_source_time_sequence_and_key() {
    let r = |s, t, q, k: &str| Record::from_raw_parts(s, t, q, k, "x");
    assert!(r(1, 9, 9, "z").before(&r(2, 0, 0, "a")));
    assert!(r(1, 1, 9, "z").before(&r(1, 2, 0, "a")));
    assert!(r(1, 1, 1, "z").before(&r(1, 1, 2, "a")));
    assert!(r(1, 1, 1, "a").before(&r(1, 1, 1, "ab")));
    assert!(!r(1, 1, 1, "ab").before(&r(1, 1, 1, "a")));
    assert!(r(1, 1, 1, "k").same_place(&Record::from_raw_parts(1, 1, 1, "k", "other")));
    assert!(matches!(r(1, 2, 3, "a").cmp(&r(1, 2, 3, "b")), std::cmp::Ordering::Less));
    assert!(matches!(r(1, 2, 3, "b").cmp(&r(1, 2, 3, "a")), std::cmp::Ordering::Greater));
    assert!(matches!(r(1, 2, 3, "a").cmp(&r(1, 2, 3, "a")), std::cmp::Ordering::Equal));
}

#[test]
fn text_that_is_not_utf8_is_told_as_std_tells_it() {
    let cases: [&[u8]; 6] = [
        b"\xff",
        b"ab\xf0\x9f\x98",
        b"abc\xe2\x28\xa1d",
        b"\xc3\xa9\xf0\x9f\x28",
        b"\xe2\x82",
        b"x\xed\xa0\x80",
    ];
    for bytes in cases {
        let want = String::from_utf8(bytes.to_vec()).unwrap_err();
        let fault = checked_text(bytes).unwrap_err();
        assert_eq!(fault.valid, want.utf8_error().valid_up_to());
        assert_eq!(fault.message(), want.to_string());
        let mut rec = Record::from_raw_parts(1, 1, 1, "k", "").as_bytes().to_vec();
        rec[40] = bytes.len() as u8;
        rec.extend(bytes);
        let err = Record::from_vec(rec).extract_all_fields().unwrap_err();
        assert_eq!(err.message(), want.to_string());
    }
    assert_eq!(checked_text("\u{e9}".as_bytes()).unwrap(), "\u{e9}");
}
