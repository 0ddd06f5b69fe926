use bytes::BytesMut;
use logregator::client::{insert_reply, ClientError, Incoming, RangeProgress, RangeReply};
use logregator::metrics::{EngineMetrics, ServerMetrics};
use logregator::proto::{
    BatchInsert, ClientCodec, ClientMessage, Command, Insert, ProtoError, Range, Record,
    ServerCodec, ServerMessage,
};
use logregator::server::{accept, Action, Event, Phase, Session};
use logregator::storage::backend::{Backend, IoCommand, IoResult, Operation, Reply};
use logregator::storage::bloom::BloomFilter;
use logregator::storage::compaction::{compact, CompactionCommand};
use logregator::storage::engine::Engine;
use logregator::storage::idmap::IdMap;
use logregator::storage::sstable::SSTableMeta;
use logregator::storage::wal::WalError;

fn bloom_for(n: usize) -> BloomFilter {
    let m = (-(n as f64 * 0.01f64.ln()) / 2f64.ln().powi(2)).ceil() as usize;
    let k = ((m as f64 / (n as f64)) * 2f64.ln()) as usize;
    BloomFilter::new(m as u64, k as u64)
}

/// A server and a client that share two buffers.
struct Wire {
    backend: Backend,
    files: IdMap<Vec<u8>>,
    session: Session,
    metrics: ServerMetrics,
    to_server: BytesMut,
    to_client: BytesMut,
    deleted: Vec<String>,
}

fn setup(limit: usize) -> Wire {
    let (engine, _) = Engine::open("data".to_string(), limit, &vec![], &vec![]).unwrap();
    let mut backend = Backend::new(engine, 0);
    backend.set_metrics(EngineMetrics::new());
    let mut metrics = ServerMetrics::new();
    accept(&mut metrics);
    let session = Session::open(&mut metrics);
    Wire {
        backend,
        files: IdMap::new(),
        session,
        metrics,
        to_server: BytesMut::new(),
        to_client: BytesMut::new(),
        deleted: vec![],
    }
}

fn describe(e: WalError) -> String {
    format!("engine.insert: failed to write to WAL: {e:?}")
}

impl Wire {
    fn step(&mut self, event: Event) -> Action {
        self.session.step(event, &mut self.to_client, &mut self.metrics)
    }

    fn end_round(&mut self, needs_flush: bool) {
        let Some(plan) = self.backend.end_round(needs_flush) else {
            return;
        };
        let (_, flush) = self.backend.confirm_flush(plan);
        let IoCommand::FlushMemtable { memtable, base_path, sst_id } = flush else {
            panic!("a flush is asked for");
        };
        let path = SSTableMeta::format_file_path(&base_path, sst_id);
        let bloom = bloom_for(memtable.len());
        let (meta, bytes) =
            SSTableMeta::write_to_file(path, sst_id, memtable.iter(), bloom).unwrap();
        self.files.insert(sst_id, bytes);
        let result = IoResult::Flush { new_meta: meta };
        assert!(self.backend.can_take_up(&result));
        self.deleted.extend(self.backend.take_up(result).stale);
    }

    /// Serves what the client has sent.
    fn serve(&mut self) {
        let mut codec = ServerCodec;
        while let Some(msg) = codec.decode(&mut self.to_server).unwrap() {
            let Action::Submit(cmd) = self.step(Event::Message(msg)) else {
                continue;
            };
            assert!(self.backend.can_handle(&cmd, &self.files));
            let (reply, needs_flush) = self.backend.handle_command(cmd, &self.files, false);
            match reply {
                Reply::Insert(res) => {
                    self.step(Event::Inserted(res.map_err(describe)));
                }
                Reply::Metrics => {
                    self.step(Event::Measured("{}".to_string()));
                }
                Reply::Range(Ok(mut task)) => {
                    let end = loop {
                        let batch = task.next_batch();
                        if !batch.records.is_empty() {
                            self.step(Event::Records(batch.records));
                        }
                        if let Some(end) = batch.end {
                            break end;
                        }
                    };
                    self.backend.finish_range(task.scanned(), end.is_err());
                    self.step(Event::NoMoreRecords);
                    let end = end.map_err(|e| e.message().to_string());
                    self.step(Event::RangeDone(Some(end)));
                }
                Reply::Range(Err(e)) => {
                    self.step(Event::NoMoreRecords);
                    self.step(Event::RangeDone(Some(Err(e.message().to_string()))));
                }
            }
            self.end_round(needs_flush);
        }
    }

    fn send(&mut self, msg: ClientMessage) {
        ClientCodec.encode(msg, &mut self.to_server);
        self.serve();
    }

    fn receive(&mut self) -> Incoming {
        match ClientCodec.decode(&mut self.to_client) {
            Ok(Some(m)) => Incoming::Message(m),
            Ok(None) => Incoming::Closed,
            Err(e) => Incoming::Failed(format!("{e:?}")),
        }
    }

    fn insert(&mut self, i: Insert) -> Result<(), ClientError> {
        self.send(ClientMessage::Insert(i));
        insert_reply(self.receive())
    }

    fn range(&mut self, r: Range) -> Result<Vec<Record>, ClientError> {
        self.send(ClientMessage::Range(r));
        let mut reply = RangeReply::new();
        loop {
            match reply.take(self.receive()) {
                RangeProgress::More(next) => reply = next,
                RangeProgress::Done(v) => return Ok(v),
                RangeProgress::Failed(e) => return Err(e),
            }
        }
    }
}

fn make_insert(source_id: i64, ts: i64, key: &str, value: &str) -> Insert {
    Insert { source_id, ts, key: key.into(), value: value.into() }
}

fn make_range(source_id: i64, key: &str, start_ts: i64, end_ts: i64) -> Range {
    Range { source_id, key: key.into(), start_ts, end_ts, filter: "".into() }
}

#[test]
fn test_insert_then_range() {
    let mut client = setup(1024);

    client.insert(make_insert(1, 100, "sys", "cpu normal")).unwrap();

    let results = client.range(make_range(1, "sys", 0, 200)).unwrap();

    assert_eq!(results.len(), 1);
    assert_eq!(results[0].ts, 100);
    assert_eq!(results[0].key, "sys");
    assert_eq!(results[0].value, "cpu normal");
}

#[test]
fn test_range_empty() {
    let mut client = setup(1024);
    let results = client.range(make_range(1, "nonexistent", 0, 100)).unwrap();
    assert!(results.is_empty());
}

#[test]
fn test_range_invalid_ts() {
    let mut client = setup(1024);
    let err = client.range(make_range(1, "sys", 100, 0)).unwrap_err();
    let ClientError::Server(text) = err else {
        panic!("the server answers with an error");
    };
    assert!(text.contains("end_ts cannot be smaller than start_ts"));
}

#[test]
fn test_insert_flush_then_range() {
    let mut client = setup(80);

    client.insert(make_insert(1, 10, "sys", "small")).unwrap();
    client.insert(make_insert(1, 20, "sys", "massive_payload_to_force_flush")).unwrap();
    assert_eq!(client.backend.engine().sstable_count(), 1);

    let results = client.range(make_range(1, "sys", 0, 100)).unwrap();

    assert_eq!(results.len(), 2);
    let mut timestamps: Vec<i64> = results.iter().map(|r| r.ts).collect();
    timestamps.sort();
    assert_eq!(timestamps, vec![10, 20]);
}

#[test]
fn test_multiple_inserts_range_subset() {
    let mut client = setup(1024);

    for i in 0..10 {
        client.insert(make_insert(1, i * 10, "sys", &format!("val_{}", i))).unwrap();
    }

    let results = client.range(make_range(1, "sys", 20, 60)).unwrap();

    assert_eq!(results.len(), 4);
}

#[test]
fn session_counts_frames_and_sends_large_answers_in_parts() {
    let mut client = setup(1 << 20);
    let records = (0..1500).map(|i| make_insert(1, i, "sys", "some value")).collect();
    client.send(ClientMessage::BatchInsert(BatchInsert { records }));
    insert_reply(client.receive()).unwrap();
    let results = client.range(make_range(1, "sys", 0, 5000)).unwrap();
    assert_eq!(results.len(), 1500);
    assert_eq!(results[7].seq, 8);
    assert_eq!(client.metrics.frames_read.value(), 2);
    assert_eq!(client.metrics.frames_written.value(), 1502);
    assert_eq!(client.metrics.connections_accepted.value(), 1);
    assert_eq!(client.metrics.connections_active.value(), 2);
    let m = client.backend.metrics().as_ref().unwrap();
    assert_eq!(m.batch_insert_count.value(), 1);
    assert_eq!(m.records_inserted.value(), 1500);
    assert_eq!(m.records_scanned.value(), 1500);
    assert_eq!(m.range_count.value(), 1);
    let Wire { session, mut metrics, .. } = client;
    session.close(&mut metrics);
    assert_eq!(metrics.connections_active.value(), 1);
}

#[test]
fn session_waits_for_what_comes_next() {
    let mut metrics = ServerMetrics::new();
    let mut s = Session::open(&mut metrics);
    let mut buf = BytesMut::new();
    assert_eq!(s.waits_for(), Phase::Idle);
    let i = ClientMessage::Insert(make_insert(1, 2, "k", "v"));
    assert!(matches!(s.step(Event::Message(i), &mut buf, &mut metrics), Action::Submit(Command::Insert(_))));
    assert_eq!(s.waits_for(), Phase::Insert);
    let no = Event::Inserted(Err("full".to_string()));
    assert!(matches!(s.step(no, &mut buf, &mut metrics), Action::Flush));
    assert_eq!(&buf[..], &[0, 0, 0, 9, 0xff, 0, 0, 0, 4, b'f', b'u', b'l', b'l']);
    buf.clear();
    let r = ClientMessage::Range(make_range(1, "k", 0, 1));
    assert!(matches!(s.step(Event::Message(r), &mut buf, &mut metrics), Action::Submit(Command::Range(_))));
    assert_eq!(s.waits_for(), Phase::Records(0));
    let rec = |n: usize| Record {
        source_id: 1,
        ts: 2,
        seq: 3,
        key: "k".to_string(),
        value: "v".repeat(n),
    };
    let few = Event::Records(vec![rec(1), rec(2)]);
    assert!(matches!(s.step(few, &mut buf, &mut metrics), Action::Receive));
    assert_eq!(s.waits_for(), Phase::Records(2));
    let many = Event::Records(vec![rec(9000)]);
    assert!(matches!(s.step(many, &mut buf, &mut metrics), Action::Flush));
    buf.clear();
    assert!(matches!(s.step(Event::NoMoreRecords, &mut buf, &mut metrics), Action::Flush));
    assert_eq!(s.waits_for(), Phase::RangeEnd);
    assert_eq!(metrics.frames_written.value(), 4);
    s.step(Event::RangeDone(None), &mut buf, &mut metrics);
    assert_eq!(s.waits_for(), Phase::Idle);
    assert!(matches!(
        ClientCodec.decode(&mut buf),
        Ok(Some(ServerMessage::Error(e))) if e == "engine closed"
    ));
    s.bad_frame(&mut metrics);
    assert_eq!(metrics.frames_read.value(), 3);
}

#[test]
fn refused_inserts_are_answered_with_an_error() {
    let mut client = setup(1024);
    client.backend.set_wal_available(false);
    let err = client.insert(make_insert(1, 1, "k", "v")).unwrap_err();
    assert!(matches!(err, ClientError::Server(e) if e.contains("failed to write to WAL")));
    let m = client.backend.metrics().as_ref().unwrap();
    assert_eq!(m.insert_failures.value(), 1);
    assert_eq!(m.insert_count.value(), 0);
    client.backend.set_wal_available(true);
    client.insert(make_insert(1, 1, "k", "v")).unwrap();
    assert_eq!(client.range(make_range(1, "k", 0, 5)).unwrap().len(), 1);
}

#[test]
fn client_makes_sense_of_replies() {
    let m = |m| Incoming::Message(m);
    assert!(insert_reply(m(ServerMessage::InsertOk)).is_ok());
    assert!(matches!(
        insert_reply(m(ServerMessage::RangeEnd)),
        Err(ClientError::Unexpected(ServerMessage::RangeEnd))
    ));
    assert!(matches!(
        insert_reply(m(ServerMessage::Pong)),
        Err(ClientError::Unexpected(ServerMessage::Pong))
    ));
    assert!(matches!(
        insert_reply(m(ServerMessage::Metrics("{}".into()))),
        Err(ClientError::Unexpected(ServerMessage::Metrics(j))) if j == "{}"
    ));
    assert!(matches!(
        RangeReply::new().take(m(ServerMessage::Metrics("{}".into()))),
        RangeProgress::Failed(ClientError::Unexpected(ServerMessage::Metrics(j))) if j == "{}"
    ));
    assert!(matches!(
        RangeReply::new().take(m(ServerMessage::Pong)),
        RangeProgress::Failed(ClientError::Unexpected(ServerMessage::Pong))
    ));
    assert!(matches!(insert_reply(Incoming::Closed), Err(ClientError::Closed)));
    assert!(matches!(
        insert_reply(Incoming::Failed("x".into())),
        Err(ClientError::Transport(e)) if e == "x"
    ));
    assert!(matches!(
        RangeReply::new().take(m(ServerMessage::InsertOk)),
        RangeProgress::Failed(ClientError::Unexpected(ServerMessage::InsertOk))
    ));
    assert!(matches!(
        RangeReply::new().take(Incoming::Closed),
        RangeProgress::Failed(ClientError::Closed)
    ));
    assert!(matches!(
        RangeReply::new().take(m(ServerMessage::Error("e".into()))),
        RangeProgress::Failed(ClientError::Server(e)) if e == "e"
    ));
}

fn encode_client(msg: ClientMessage) -> Vec<u8> {
    let mut buf = BytesMut::new();
    ClientCodec.encode(msg, &mut buf);
    buf.to_vec()
}

fn decode_client(bytes: &[u8]) -> (Result<Option<ClientMessage>, ProtoError>, usize) {
    let mut buf = BytesMut::from(bytes);
    let r = ServerCodec.decode(&mut buf);
    (r, buf.len())
}

#[test]
fn insert_frame_layout() {
    let bytes = encode_client(ClientMessage::Insert(make_insert(-1, 2, "ab", "c")));
    let mut want = vec![0, 0, 0, 28, 1];
    want.extend([255; 8]);
    want.extend([0, 0, 0, 0, 0, 0, 0, 2]);
    want.extend([0, 0, 0, 2, b'a', b'b', 0, 0, 0, 1, b'c']);
    assert_eq!(bytes, want);
}

#[test]
fn range_record_frame_layout() {
    let mut buf = BytesMut::new();
    buf.extend_from_slice(b"before");
    let rec = Record { source_id: 1, ts: 2, seq: 3, key: "k".into(), value: "".into() };
    ServerCodec.encode(ServerMessage::RangeRecord(rec), &mut buf);
    let mut want = b"before".to_vec();
    want.extend([0, 0, 0, 34, 0x82]);
    want.extend([0, 0, 0, 0, 0, 0, 0, 1]);
    want.extend([0, 0, 0, 0, 0, 0, 0, 2]);
    want.extend([0, 0, 0, 0, 0, 0, 0, 3]);
    want.extend([0, 0, 0, 1, b'k', 0, 0, 0, 0]);
    assert_eq!(buf.to_vec(), want);
}

#[test]
fn client_messages_round_trip() {
    let range = Range {
        source_id: 7,
        key: "k\u{e9}y".into(),
        start_ts: -5,
        end_ts: i64::MAX,
        filter: "f".into(),
    };
    let mut bytes = encode_client(ClientMessage::Range(range));
    bytes.extend(encode_client(ClientMessage::BatchInsert(BatchInsert {
        records: vec![make_insert(1, 2, "a", "b"), make_insert(3, 4, "", "d")],
    })));
    bytes.extend(encode_client(ClientMessage::Insert(make_insert(5, 6, "x", "y"))));
    let mut buf = BytesMut::from(&bytes[..]);
    let Ok(Some(ClientMessage::Range(r))) = ServerCodec.decode(&mut buf) else {
        panic!("a range");
    };
    assert_eq!((r.source_id, r.start_ts, r.end_ts), (7, -5, i64::MAX));
    assert_eq!((r.key.as_str(), r.filter.as_str()), ("k\u{e9}y", "f"));
    let Ok(Some(ClientMessage::BatchInsert(b))) = ServerCodec.decode(&mut buf) else {
        panic!("a batch");
    };
    assert_eq!(b.records.len(), 2);
    assert_eq!((b.records[1].source_id, b.records[1].ts), (3, 4));
    assert_eq!((b.records[1].key.as_str(), b.records[1].value.as_str()), ("", "d"));
    let Ok(Some(ClientMessage::Insert(i))) = ServerCodec.decode(&mut buf) else {
        panic!("an insert");
    };
    assert_eq!((i.source_id, i.ts, i.key.as_str(), i.value.as_str()), (5, 6, "x", "y"));
    assert!(buf.is_empty());
    assert!(matches!(ServerCodec.decode(&mut buf), Ok(None)));
}

#[test]
fn server_messages_round_trip() {
    let mut buf = BytesMut::new();
    ServerCodec.encode(ServerMessage::InsertOk, &mut buf);
    ServerCodec.encode(ServerMessage::RangeEnd, &mut buf);
    ServerCodec.encode(ServerMessage::Error("bad \u{20ac}".into()), &mut buf);
    let rec = Record { source_id: -9, ts: 8, seq: u64::MAX, key: "k".into(), value: "v".into() };
    ServerCodec.encode(ServerMessage::RangeRecord(rec), &mut buf);
    assert!(matches!(ClientCodec.decode(&mut buf), Ok(Some(ServerMessage::InsertOk))));
    assert!(matches!(ClientCodec.decode(&mut buf), Ok(Some(ServerMessage::RangeEnd))));
    assert!(matches!(
        ClientCodec.decode(&mut buf),
        Ok(Some(ServerMessage::Error(e))) if e == "bad \u{20ac}"
    ));
    let Ok(Some(ServerMessage::RangeRecord(r))) = ClientCodec.decode(&mut buf) else {
        panic!("a record");
    };
    assert_eq!((r.source_id, r.ts, r.seq), (-9, 8, u64::MAX));
    assert_eq!((r.key.as_str(), r.value.as_str()), ("k", "v"));
}

#[test]
fn incomplete_frames_stay_in_the_buffer() {
    let bytes = encode_client(ClientMessage::Insert(make_insert(1, 2, "ab", "c")));
    for n in 0..bytes.len() {
        let (r, left) = decode_client(&bytes[..n]);
        assert!(matches!(r, Ok(None)));
        assert_eq!(left, n);
    }
    assert!(matches!(decode_client(&bytes), (Ok(Some(_)), 0)));
}

#[test]
fn bad_frames_are_taken_out_and_reported() {
    let frame = |body: &[u8]| {
        let mut v = (body.len() as u32).to_be_bytes().to_vec();
        v.extend(body);
        v.push(99);
        v
    };
    let fails = |body: &[u8]| {
        let (r, left) = decode_client(&frame(body));
        assert_eq!(left, 1);
        r.unwrap_err()
    };
    assert_eq!(fails(&[]), ProtoError::Empty);
    assert_eq!(fails(&[0x09]), ProtoError::UnknownType(9));
    assert_eq!(fails(&[0x01, 0]), ProtoError::Truncated);
    let mut body = vec![0x01];
    body.extend([0; 16]);
    body.extend([0, 0, 0, 2, b'a']);
    assert_eq!(fails(&body), ProtoError::Overrun);
    body.push(0xff);
    assert_eq!(fails(&body), ProtoError::Utf8);
    assert_eq!(fails(&[0x03, 0, 0, 0, 1]), ProtoError::Truncated);
    let mut buf = BytesMut::from(&frame(&[0x42])[..]);
    assert_eq!(ClientCodec.decode(&mut buf).unwrap_err(), ProtoError::UnknownType(0x42));
    assert_eq!(buf.len(), 1);
}

fn flushed(backend: &mut Backend, files: &mut IdMap<Vec<u8>>) -> (SSTableMeta, String) {
    let plan = backend.send_flush_cmd().unwrap();
    let stale = plan.stale_wal.clone();
    let (resync, flush) = backend.confirm_flush(plan);
    assert!(matches!(resync, IoCommand::ResyncWal { new_syncer_path } if new_syncer_path == "data/wals/__active_wal.log"));
    let IoCommand::FlushMemtable { memtable, sst_id, base_path } = flush else {
        panic!("a flush");
    };
    assert_eq!(base_path, "data");
    let (meta, bytes) = SSTableMeta::write_to_file(
        SSTableMeta::format_file_path("data", sst_id),
        sst_id,
        memtable.iter(),
        bloom_for(memtable.len()),
    )
    .unwrap();
    files.insert(sst_id, bytes);
    (meta, stale)
}

#[test]
fn logs_are_deleted_once_two_flushes_in_a_row_are_taken_up() {
    let (engine, _) = Engine::open("data".to_string(), 1 << 20, &vec![], &vec![]).unwrap();
    let mut backend = Backend::new(engine, 5);
    assert!(backend.send_flush_cmd().is_none());
    let mut files = IdMap::new();
    let mut metas = vec![];
    for ts in 0..4 {
        backend.handle_insert(&make_insert(1, ts, "k", "v"));
        let (meta, stale) = flushed(&mut backend, &mut files);
        assert_eq!(stale, format!("data/wals/wal_{:010}.log", ts + 1));
        metas.push(meta);
    }
    let mut take = |i: usize| backend.apply_flush_result(metas[i].clone()).1;
    assert!(take(1).is_empty());
    assert!(take(3).is_empty());
    assert_eq!(
        take(0),
        vec!["data/wals/wal_0000000001.log"]
    );
    assert_eq!(
        take(2),
        vec!["data/wals/wal_0000000002.log", "data/wals/wal_0000000003.log"]
    );
}

#[test]
fn compaction_is_asked_for_when_tables_have_grown() {
    let (engine, _) = Engine::open("data".to_string(), 50, &vec![], &vec![]).unwrap();
    let mut backend = Backend::new(engine, 0);
    backend.set_metrics(EngineMetrics::new());
    let mut files = IdMap::new();
    for ts in 0..5 {
        let (reply, needs_flush) = backend.handle_insert(&make_insert(1, ts, "k", "0123456789"));
        assert_eq!(reply, Ok(()));
        assert!(needs_flush);
        let (meta, _) = flushed(&mut backend, &mut files);
        let (needs_compaction, _) = backend.apply_flush_result(meta);
        assert_eq!(needs_compaction, backend.engine().total_sstable_size() >= 400);
    }
    let Some(IoCommand::CompactSSTables { tables, base_path, file_id }) =
        backend.send_compaction_cmd()
    else {
        panic!("a compaction");
    };
    let ids: Vec<u64> = tables.iter().map(|m| m.id).collect();
    assert_eq!(ids, vec![1, 2, 3, 4]);
    assert_eq!((base_path.as_str(), file_id), ("data", 6));
    // only one table is left to be picked
    assert!(backend.send_compaction_cmd().is_none());
    let cmd = CompactionCommand {
        tables,
        new_file_path: SSTableMeta::format_file_path("data", file_id),
        new_file_id: file_id,
    };
    let (res, bytes) = compact(cmd, &files, bloom_for(4)).unwrap();
    files.insert(file_id, bytes);
    let (_, paths) = backend.apply_compaction_result(res.new_meta, &res.ids_to_remove);
    assert_eq!(paths[0], "data/0000000001.sst");
    assert_eq!(paths.len(), 4);
    assert_eq!(backend.engine().sstable_count(), 2);
    backend.record_latency(Operation::Compaction, 12);
    let (size, count) = backend.update_gauges();
    assert_eq!((size, count), (0, 2));
    let m = backend.metrics().as_ref().unwrap();
    assert_eq!(m.flush_count.value(), 5);
    assert_eq!(m.compaction_count.value(), 1);
    assert_eq!(m.sstable_count.value(), 2);
    assert_eq!(m.compaction_duration.buckets(), vec![(12, 1)]);
    let all = backend.engine().range(1, "k", 0, 10, "", &files).unwrap().collect();
    assert_eq!(all.len(), 5);
    let (bytes, notify) = backend.send_wal_sync_cmd();
    assert!(bytes.is_empty() && notify);
    backend.unmark_compacting(&[1]);
}

#[test]
fn a_query_leaves_the_need_for_a_flush_as_it_is() {
    let (engine, _) = Engine::open("data".to_string(), 10, &vec![], &vec![]).unwrap();
    let mut backend = Backend::new(engine, 0);
    let files = IdMap::new();
    let insert = Command::Insert(make_insert(1, 1, "k", "v"));
    let (_, flush) = backend.handle_command(insert, &files, false);
    assert!(flush);
    let range = Command::Range(make_range(1, "k", 0, 5));
    let (reply, flush) = backend.handle_command(range, &files, flush);
    assert!(flush);
    let Reply::Range(Ok(mut task)) = reply else {
        panic!("a query");
    };
    let batch = task.next_batch();
    assert_eq!(batch.records.len(), 1);
    assert_eq!(batch.end, Some(Ok(())));
    assert_eq!(task.scanned(), 1);
    backend.set_wal_available(false);
    let batch = Command::BatchInsert(BatchInsert { records: vec![make_insert(1, 1, "k", "v")] });
    let (reply, flush) = backend.handle_command(batch, &files, flush);
    assert!(matches!(reply, Reply::Insert(Err(WalError::Unavailable))));
    assert!(!flush);
}

#[test]
fn taking_up_a_table_can_lead_to_a_compaction() {
    let (engine, _) = Engine::open("data".to_string(), 40, &vec![], &vec![]).unwrap();
    let mut backend = Backend::new(engine, 0);
    let mut files = IdMap::new();
    let mut commands = vec![];
    for ts in 0..3 {
        let (_, needs_flush) = backend.handle_insert(&make_insert(1, ts, "k", "0123456789"));
        assert!(needs_flush);
        let (new_meta, _) = flushed(&mut backend, &mut files);
        let upkeep = backend.take_up(IoResult::Flush { new_meta });
        assert_eq!(upkeep.stale.len(), if ts == 0 { 0 } else { 1 });
        commands.push(upkeep.command);
    }
    // One table is too few, and two are many enough once they are large.
    assert!(commands[0].is_none());
    let Some(IoCommand::CompactSSTables { tables, file_id, .. }) = commands.remove(2) else {
        panic!("a compaction");
    };
    assert_eq!(tables.len(), 3);
    let new_file_path = SSTableMeta::format_file_path("data", file_id);
    let cmd = CompactionCommand { tables, new_file_path, new_file_id: file_id };
    let (res, _) = compact(cmd, &files, bloom_for(3)).unwrap();
    let result =
        IoResult::Compaction { new_meta: res.new_meta, ids_to_remove: res.ids_to_remove };
    let upkeep = backend.take_up(result);
    assert_eq!(
        upkeep.stale,
        vec!["data/0000000001.sst", "data/0000000002.sst", "data/0000000003.sst"]
    );
    assert!(upkeep.command.is_none());
    assert!(backend.end_round(true).is_none());
}

#[test]
fn ping_and_metrics_frames() {
    let mut src = BytesMut::from(&[0u8, 0, 0, 1, 0x05, 0, 0, 0, 1, 0x04][..]);
    assert!(matches!(ServerCodec.decode(&mut src), Ok(Some(ClientMessage::Ping))));
    assert!(matches!(ServerCodec.decode(&mut src), Ok(Some(ClientMessage::Metrics))));
    assert!(src.is_empty());
    assert_eq!(encode_client(ClientMessage::Ping), vec![0, 0, 0, 1, 5]);
    assert_eq!(encode_client(ClientMessage::Metrics), vec![0, 0, 0, 1, 4]);
    let mut buf = BytesMut::new();
    ServerCodec.encode(ServerMessage::Pong, &mut buf);
    ServerCodec.encode(ServerMessage::Metrics("{\"a\":1}".into()), &mut buf);
    let mut want = vec![0, 0, 0, 1, 0x85, 0, 0, 0, 12, 0x84, 0, 0, 0, 7];
    want.extend(b"{\"a\":1}");
    assert_eq!(buf.to_vec(), want);
    assert!(matches!(ClientCodec.decode(&mut buf), Ok(Some(ServerMessage::Pong))));
    assert!(matches!(
        ClientCodec.decode(&mut buf),
        Ok(Some(ServerMessage::Metrics(j))) if j == "{\"a\":1}"
    ));
    assert!(buf.is_empty());
}

#[test]
fn session_answers_pings_at_once_and_metrics_when_they_are_there() {
    let mut metrics = ServerMetrics::new();
    let mut s = Session::open(&mut metrics);
    let mut buf = BytesMut::new();
    let ping = Event::Message(ClientMessage::Ping);
    assert!(matches!(s.step(ping, &mut buf, &mut metrics), Action::Flush));
    assert_eq!(s.waits_for(), Phase::Idle);
    assert_eq!(buf.to_vec(), vec![0, 0, 0, 1, 0x85]);
    assert_eq!((metrics.frames_read.value(), metrics.frames_written.value()), (1, 1));
    buf.clear();
    let ask = Event::Message(ClientMessage::Metrics);
    assert!(matches!(s.step(ask, &mut buf, &mut metrics), Action::Submit(Command::Metrics)));
    assert_eq!(s.waits_for(), Phase::Metrics);
    assert!(buf.is_empty());
    let told = Event::Measured("[]".to_string());
    assert!(matches!(s.step(told, &mut buf, &mut metrics), Action::Flush));
    assert_eq!(s.waits_for(), Phase::Idle);
    assert_eq!(buf.to_vec(), vec![0, 0, 0, 7, 0x84, 0, 0, 0, 2, b'[', b']']);
    assert_eq!((metrics.frames_read.value(), metrics.frames_written.value()), (2, 2));
}

#[test]
fn asking_for_metrics_changes_nothing() {
    let mut client = setup(10);
    client.insert(make_insert(1, 1, "k", "v")).unwrap();
    for flush in [false, true] {
        assert!(client.backend.can_handle(&Command::Metrics, &client.files));
        let (reply, after) = client.backend.handle_command(Command::Metrics, &client.files, flush);
        assert!(matches!(reply, Reply::Metrics));
        assert_eq!(after, flush);
    }
    assert_eq!(client.backend.metrics().as_ref().unwrap().insert_count.value(), 1);
    client.send(ClientMessage::Metrics);
    assert!(matches!(client.receive(), Incoming::Message(ServerMessage::Metrics(j)) if j == "{}"));
    client.send(ClientMessage::Ping);
    assert!(matches!(client.receive(), Incoming::Message(ServerMessage::Pong)));
}
