//! The messages between clients and the server.
//!
//! Each message is length delimited: `[frame_len: u32][frame]`. A frame is
//! `[type: u8][payload]`. All integers are big-endian.
//!
//! | type | message              | payload |
//! |------|----------------------|---------|
//! | 0x01 | Insert (client)      | `[source_id: i64][ts: i64][key_len: u32][key][value_len: u32][value]` |
//! | 0x02 | Range (client)       | `[source_id: i64][key_len: u32][key][start_ts: i64][end_ts: i64][filter_len: u32][filter]` |
//! | 0x03 | BatchInsert (client) | `[num_records: u32]`, then each record as in Insert |
//! | 0x04 | Metrics (client)     | none |
//! | 0x05 | Ping (client)        | none |
//! | 0x81 | InsertOk (server)    | none |
//! | 0x82 | RangeRecord (server) | `[source_id: i64][ts: i64][seq: u64][key_len: u32][key][value_len: u32][value]` |
//! | 0x83 | RangeEnd (server)    | none |
//! | 0x84 | Metrics (server)     | `[json_len: u32][json]` |
//! | 0x85 | Pong (server)        | none |
//! | 0xFF | Error (server)       | `[err_len: u32][err]` |
use bytes::BytesMut;
use vstd::prelude::*;
use vstd::utf8::{
    decode_utf8, encode_utf8, encode_utf8_decode_utf8, encode_utf8_valid_utf8, valid_utf8,
};

use crate::buffer::{
    advance, buffer_bytes, buffer_len, buffered, overwrite, put_i64, put_slice, put_u32, put_u64,
    put_u8, reserve, split_to,
};
use crate::codec::{
    be_bytes, be_nat, get_be, i64_bits, i64_from_bits, i64_of_bits, law_be_round_trip,
    law_i64_bits_round_trip, lemma_be_bytes_len, lemma_be_nat_bound, lemma_byte_caps, put_be,
};
use crate::storage::record::{
    all_fields_error, key_of, seq_of, source_of, time_of, value_of, RecordError,
};
use crate::text::text_of;

verus! {

/// A log record to be stored.
#[derive(Debug)]
pub struct Insert {
    pub source_id: i64,
    pub ts: i64,
    pub key: String,
    pub value: String,
}

/// A query for the records of a source under a key in a time range whose values hold a filter.
#[derive(Debug)]
pub struct Range {
    pub source_id: i64,
    pub key: String,
    pub start_ts: i64,
    pub end_ts: i64,
    pub filter: String,
}

/// Log records to be stored together.
#[derive(Debug)]
pub struct BatchInsert {
    pub records: Vec<Insert>,
}

/// A message of a client.
#[derive(Debug)]
pub enum ClientMessage {
    Insert(Insert),
    Range(Range),
    BatchInsert(BatchInsert),
    /// Asks for the metrics.
    Metrics,
    /// Asks whether the server is there.
    Ping,
}

/// What the engine is asked to do.
#[derive(Debug)]
pub enum Command {
    Insert(Insert),
    BatchInsert(BatchInsert),
    Range(Range),
    Metrics,
}

/// A stored log record.
#[derive(Debug)]
pub struct Record {
    pub source_id: i64,
    pub ts: i64,
    pub seq: u64,
    pub key: String,
    pub value: String,
}

/// A message of the server.
#[derive(Debug)]
pub enum ServerMessage {
    InsertOk,
    RangeRecord(Record),
    RangeEnd,
    /// The metrics as JSON.
    Metrics(String),
    Pong,
    Error(String),
}

/// Why a frame could not be decoded.
#[derive(Clone, Copy, Debug, PartialEq, Eq, Structural)]
pub enum ProtoError {
    /// The frame ends before a number does.
    Truncated,
    /// A text is not UTF-8.
    Utf8,
    /// No message has this type.
    UnknownType(u8),
    /// The frame does not even have a type.
    Empty,
    /// A text is said to be longer than the frame.
    Overrun,
}

/// What a record to be stored says.
pub struct InsertModel {
    pub source_id: i64,
    pub ts: i64,
    pub key: Seq<char>,
    pub value: Seq<char>,
}

/// What a query says.
pub struct RangeModel {
    pub source_id: i64,
    pub key: Seq<char>,
    pub start_ts: i64,
    pub end_ts: i64,
    pub filter: Seq<char>,
}

/// What a stored record says.
pub struct RecordModel {
    pub source_id: i64,
    pub ts: i64,
    pub seq: u64,
    pub key: Seq<char>,
    pub value: Seq<char>,
}

/// What a client says.
pub enum ClientModel {
    Insert(InsertModel),
    Range(RangeModel),
    BatchInsert(Seq<InsertModel>),
    Metrics,
    Ping,
}

/// What the server says.
pub enum ServerModel {
    InsertOk,
    RangeRecord(RecordModel),
    RangeEnd,
    Metrics(Seq<char>),
    Pong,
    Error(Seq<char>),
}

impl View for Insert {
    type V = InsertModel;

    open spec fn view(&self) -> InsertModel {
        InsertModel {
            source_id: self.source_id,
            ts: self.ts,
            key: self.key@,
            value: self.value@,
        }
    }
}

impl View for Range {
    type V = RangeModel;

    open spec fn view(&self) -> RangeModel {
        RangeModel {
            source_id: self.source_id,
            key: self.key@,
            start_ts: self.start_ts,
            end_ts: self.end_ts,
            filter: self.filter@,
        }
    }
}

impl View for Record {
    type V = RecordModel;

    open spec fn view(&self) -> RecordModel {
        RecordModel {
            source_id: self.source_id,
            ts: self.ts,
            seq: self.seq,
            key: self.key@,
            value: self.value@,
        }
    }
}

/// What each of the records to be stored says.
pub open spec fn insert_views(v: Seq<Insert>) -> Seq<InsertModel> {
    Seq::new(v.len(), |i: int| v[i]@)
}

impl View for ClientMessage {
    type V = ClientModel;

    open spec fn view(&self) -> ClientModel {
        match self {
            ClientMessage::Insert(i) => ClientModel::Insert(i@),
            ClientMessage::Range(r) => ClientModel::Range(r@),
            ClientMessage::BatchInsert(b) => ClientModel::BatchInsert(insert_views(b.records@)),
            ClientMessage::Metrics => ClientModel::Metrics,
            ClientMessage::Ping => ClientModel::Ping,
        }
    }
}

impl View for ServerMessage {
    type V = ServerModel;

    open spec fn view(&self) -> ServerModel {
        match self {
            ServerMessage::InsertOk => ServerModel::InsertOk,
            ServerMessage::RangeRecord(r) => ServerModel::RangeRecord(r@),
            ServerMessage::RangeEnd => ServerModel::RangeEnd,
            ServerMessage::Metrics(j) => ServerModel::Metrics(j@),
            ServerMessage::Pong => ServerModel::Pong,
            ServerMessage::Error(e) => ServerModel::Error(e@),
        }
    }
}

/// A text behind its length in four bytes. Of a length that needs more, the last four stand.
pub open spec fn text_bytes(s: Seq<char>) -> Seq<u8> {
    be_bytes(encode_utf8(s).len(), 4) + encode_utf8(s)
}

/// The payload for a record to be stored.
pub open spec fn insert_payload(m: InsertModel) -> Seq<u8> {
    be_bytes(i64_bits(m.source_id), 8) + be_bytes(i64_bits(m.ts), 8) + text_bytes(m.key)
        + text_bytes(m.value)
}

/// The payload for a query.
pub open spec fn range_payload(m: RangeModel) -> Seq<u8> {
    be_bytes(i64_bits(m.source_id), 8) + text_bytes(m.key) + be_bytes(i64_bits(m.start_ts), 8)
        + be_bytes(i64_bits(m.end_ts), 8) + text_bytes(m.filter)
}

/// The payloads of records one after the other.
pub open spec fn inserts_payload(ms: Seq<InsertModel>) -> Seq<u8>
    decreases ms.len(),
{
    if ms.len() == 0 {
        Seq::empty()
    } else {
        inserts_payload(ms.drop_last()) + insert_payload(ms.last())
    }
}

/// The payload for a stored record.
pub open spec fn record_payload(m: RecordModel) -> Seq<u8> {
    be_bytes(i64_bits(m.source_id), 8) + be_bytes(i64_bits(m.ts), 8) + be_bytes(m.seq as nat, 8)
        + text_bytes(m.key) + text_bytes(m.value)
}

/// The frame for a message of a client.
pub open spec fn client_frame(m: ClientModel) -> Seq<u8> {
    match m {
        ClientModel::Insert(i) => seq![0x01u8] + insert_payload(i),
        ClientModel::Range(r) => seq![0x02u8] + range_payload(r),
        ClientModel::BatchInsert(b) => seq![0x03u8] + be_bytes(b.len(), 4) + inserts_payload(b),
        ClientModel::Metrics => seq![0x04u8],
        ClientModel::Ping => seq![0x05u8],
    }
}

/// The frame for a message of the server.
pub open spec fn server_frame(m: ServerModel) -> Seq<u8> {
    match m {
        ServerModel::InsertOk => seq![0x81u8],
        ServerModel::RangeRecord(r) => seq![0x82u8] + record_payload(r),
        ServerModel::RangeEnd => seq![0x83u8],
        ServerModel::Metrics(j) => seq![0x84u8] + text_bytes(j),
        ServerModel::Pong => seq![0x85u8],
        ServerModel::Error(e) => seq![0xFFu8] + text_bytes(e),
    }
}

/// A frame behind its length in four bytes. Of a length that needs more, the last four stand.
pub open spec fn delimited(frame: Seq<u8>) -> Seq<u8> {
    be_bytes(frame.len(), 4) + frame
}

/// The length of the first message in `b` with its delimiter, if all of it is there.
pub open spec fn message_len(b: Seq<u8>) -> Option<nat> {
    if b.len() < 4 {
        None
    } else {
        let total = 4 + be_nat(b.subrange(0, 4));
        if b.len() < total {
            None
        } else {
            Some(total)
        }
    }
}

/// The number in the `n` bytes of `p` from `at` on.
pub open spec fn uint_at(p: Seq<u8>, at: nat, n: nat) -> Result<nat, ProtoError> {
    if at + n > p.len() {
        Err(ProtoError::Truncated)
    } else {
        Ok(be_nat(p.subrange(at as int, (at + n) as int)))
    }
}

/// The signed number in the eight bytes of `p` from `at` on.
pub open spec fn int_at(p: Seq<u8>, at: nat) -> Result<i64, ProtoError> {
    match uint_at(p, at, 8) {
        Ok(n) => Ok(i64_of_bits(n)),
        Err(e) => Err(e),
    }
}

/// The text behind the length that stands in `p` at `at`, and the position behind it.
pub open spec fn text_at(p: Seq<u8>, at: nat) -> Result<(Seq<char>, nat), ProtoError> {
    match uint_at(p, at, 4) {
        Err(e) => Err(e),
        Ok(len) => {
            let b = p.subrange((at + 4) as int, (at + 4 + len) as int);
            if at + 4 + len > p.len() {
                Err(ProtoError::Overrun)
            } else if !valid_utf8(b) {
                Err(ProtoError::Utf8)
            } else {
                Ok((decode_utf8(b), at + 4 + len))
            }
        },
    }
}

/// The record to be stored that stands in `p` at `at`, and the position behind it.
pub open spec fn insert_at(p: Seq<u8>, at: nat) -> Result<(InsertModel, nat), ProtoError> {
    match int_at(p, at) {
        Err(e) => Err(e),
        Ok(source_id) => match int_at(p, at + 8) {
            Err(e) => Err(e),
            Ok(ts) => match text_at(p, at + 16) {
                Err(e) => Err(e),
                Ok((key, mid)) => match text_at(p, mid) {
                    Err(e) => Err(e),
                    Ok((value, end)) => Ok((InsertModel { source_id, ts, key, value }, end)),
                },
            },
        },
    }
}

/// The query that stands in `p`.
pub open spec fn range_at(p: Seq<u8>) -> Result<RangeModel, ProtoError> {
    match int_at(p, 0) {
        Err(e) => Err(e),
        Ok(source_id) => match text_at(p, 8) {
            Err(e) => Err(e),
            Ok((key, mid)) => match int_at(p, mid) {
                Err(e) => Err(e),
                Ok(start_ts) => match int_at(p, mid + 8) {
                    Err(e) => Err(e),
                    Ok(end_ts) => match text_at(p, mid + 16) {
                        Err(e) => Err(e),
                        Ok((filter, _)) => Ok(
                            RangeModel { source_id, key, start_ts, end_ts, filter },
                        ),
                    },
                },
            },
        },
    }
}

/// The `n` records to be stored that stand in `p` from `at` on, and the position behind them.
pub open spec fn inserts_at(p: Seq<u8>, at: nat, n: nat) -> Result<
    (Seq<InsertModel>, nat),
    ProtoError,
>
    decreases n,
{
    if n == 0 {
        Ok((Seq::empty(), at))
    } else {
        match inserts_at(p, at, (n - 1) as nat) {
            Err(e) => Err(e),
            Ok((front, mid)) => match insert_at(p, mid) {
                Err(e) => Err(e),
                Ok((last, end)) => Ok((front.push(last), end)),
            },
        }
    }
}

/// The records to be stored that stand in `p` behind their number.
pub open spec fn batch_at(p: Seq<u8>) -> Result<Seq<InsertModel>, ProtoError> {
    match uint_at(p, 0, 4) {
        Err(e) => Err(e),
        Ok(n) => match inserts_at(p, 4, n) {
            Err(e) => Err(e),
            Ok((ms, _)) => Ok(ms),
        },
    }
}

/// The stored record that stands in `p`.
pub open spec fn record_at(p: Seq<u8>) -> Result<RecordModel, ProtoError> {
    match int_at(p, 0) {
        Err(e) => Err(e),
        Ok(source_id) => match int_at(p, 8) {
            Err(e) => Err(e),
            Ok(ts) => match uint_at(p, 16, 8) {
                Err(e) => Err(e),
                Ok(seq) => match text_at(p, 24) {
                    Err(e) => Err(e),
                    Ok((key, mid)) => match text_at(p, mid) {
                        Err(e) => Err(e),
                        Ok((value, _)) => Ok(
                            RecordModel { source_id, ts, seq: seq as u64, key, value },
                        ),
                    },
                },
            },
        },
    }
}

/// The message of a client that a frame holds.
pub open spec fn client_of(frame: Seq<u8>) -> Result<ClientModel, ProtoError> {
    if frame.len() == 0 {
        Err(ProtoError::Empty)
    } else {
        let p = frame.skip(1);
        if frame[0] == 0x01 {
            match insert_at(p, 0) {
                Ok((m, _)) => Ok(ClientModel::Insert(m)),
                Err(e) => Err(e),
            }
        } else if frame[0] == 0x02 {
            match range_at(p) {
                Ok(m) => Ok(ClientModel::Range(m)),
                Err(e) => Err(e),
            }
        } else if frame[0] == 0x03 {
            match batch_at(p) {
                Ok(m) => Ok(ClientModel::BatchInsert(m)),
                Err(e) => Err(e),
            }
        } else if frame[0] == 0x04 {
            Ok(ClientModel::Metrics)
        } else if frame[0] == 0x05 {
            Ok(ClientModel::Ping)
        } else {
            Err(ProtoError::UnknownType(frame[0]))
        }
    }
}

/// The message of the server that a frame holds.
pub open spec fn server_of(frame: Seq<u8>) -> Result<ServerModel, ProtoError> {
    if frame.len() == 0 {
        Err(ProtoError::Empty)
    } else {
        let p = frame.skip(1);
        if frame[0] == 0x81 {
            Ok(ServerModel::InsertOk)
        } else if frame[0] == 0x82 {
            match record_at(p) {
                Ok(m) => Ok(ServerModel::RangeRecord(m)),
                Err(e) => Err(e),
            }
        } else if frame[0] == 0x83 {
            Ok(ServerModel::RangeEnd)
        } else if frame[0] == 0x84 {
            match text_at(p, 0) {
                Ok((m, _)) => Ok(ServerModel::Metrics(m)),
                Err(e) => Err(e),
            }
        } else if frame[0] == 0x85 {
            Ok(ServerModel::Pong)
        } else if frame[0] == 0xFF {
            match text_at(p, 0) {
                Ok((m, _)) => Ok(ServerModel::Error(m)),
                Err(e) => Err(e),
            }
        } else {
            Err(ProtoError::UnknownType(frame[0]))
        }
    }
}

fn read_uint(p: &[u8], at: usize, n: usize) -> (r: Result<u64, ProtoError>)
    requires
        n <= 8,
    ensures
        r matches Ok(x) ==> uint_at(p@, at as nat, n as nat) == Ok::<nat, ProtoError>(x as nat)
            && at + n <= p@.len(),
        r matches Err(e) ==> uint_at(p@, at as nat, n as nat) == Err::<nat, ProtoError>(e),
{
    let total: usize = p.len();
    if total < n || at > total - n {
        Err(ProtoError::Truncated)
    } else {
        Ok(get_be(p, at, n))
    }
}

fn read_int(p: &[u8], at: usize) -> (r: Result<i64, ProtoError>)
    ensures
        r == int_at(p@, at as nat),
        r is Ok ==> at + 8 <= p@.len(),
{
    match read_uint(p, at, 8) {
        Ok(n) => Ok(i64_from_bits(n)),
        Err(e) => Err(e),
    }
}

fn read_text(p: &[u8], at: usize) -> (r: Result<(String, usize), ProtoError>)
    ensures
        r matches Ok((s, end)) ==> text_at(p@, at as nat) == Ok::<(Seq<char>, nat), ProtoError>(
            (s@, end as nat),
        ) && end <= p@.len(),
        r matches Err(e) ==> text_at(p@, at as nat) == Err::<(Seq<char>, nat), ProtoError>(e),
{
    let total: usize = p.len();
    let len: u64 = match read_uint(p, at, 4) {
        Ok(len) => len,
        Err(e) => {
            return Err(e);
        },
    };
    if len > (total - at - 4) as u64 {
        return Err(ProtoError::Overrun);
    }
    let end: usize = at + 4 + len as usize;
    match text_of(vstd::slice::slice_subrange(p, at + 4, end)) {
        Some(s) => Ok((s, end)),
        None => Err(ProtoError::Utf8),
    }
}

fn decode_insert(p: &[u8], at: usize) -> (r: Result<(Insert, usize), ProtoError>)
    ensures
        r matches Ok((i, end)) ==> insert_at(p@, at as nat) == Ok::<
            (InsertModel, nat),
            ProtoError,
        >((i@, end as nat)) && end <= p@.len(),
        r matches Err(e) ==> insert_at(p@, at as nat) == Err::<(InsertModel, nat), ProtoError>(e),
{
    let total: usize = p.len();
    let source_id: i64 = match read_int(p, at) {
        Ok(n) => n,
        Err(e) => {
            return Err(e);
        },
    };
    let ts: i64 = match read_int(p, at + 8) {
        Ok(n) => n,
        Err(e) => {
            return Err(e);
        },
    };
    let (key, mid) = match read_text(p, at + 16) {
        Ok(text) => text,
        Err(e) => {
            return Err(e);
        },
    };
    let (value, end) = match read_text(p, mid) {
        Ok(text) => text,
        Err(e) => {
            return Err(e);
        },
    };
    Ok((Insert { source_id, ts, key, value }, end))
}

fn decode_range(p: &[u8]) -> (r: Result<Range, ProtoError>)
    ensures
        r matches Ok(m) ==> range_at(p@) == Ok::<RangeModel, ProtoError>(m@),
        r matches Err(e) ==> range_at(p@) == Err::<RangeModel, ProtoError>(e),
{
    let total: usize = p.len();
    let source_id: i64 = match read_int(p, 0) {
        Ok(n) => n,
        Err(e) => {
            return Err(e);
        },
    };
    let (key, mid) = match read_text(p, 8) {
        Ok(text) => text,
        Err(e) => {
            return Err(e);
        },
    };
    let start_ts: i64 = match read_int(p, mid) {
        Ok(n) => n,
        Err(e) => {
            return Err(e);
        },
    };
    let end_ts: i64 = match read_int(p, mid + 8) {
        Ok(n) => n,
        Err(e) => {
            return Err(e);
        },
    };
    let (filter, _) = match read_text(p, mid + 16) {
        Ok(text) => text,
        Err(e) => {
            return Err(e);
        },
    };
    Ok(Range { source_id, key, start_ts, end_ts, filter })
}

proof fn lemma_inserts_fail(p: Seq<u8>, at: nat, i: nat, n: nat, e: ProtoError)
    requires
        i <= n,
        inserts_at(p, at, i) == Err::<(Seq<InsertModel>, nat), ProtoError>(e),
    ensures
        inserts_at(p, at, n) == Err::<(Seq<InsertModel>, nat), ProtoError>(e),
    decreases n - i,
{
    if i < n {
        lemma_inserts_fail(p, at, i + 1, n, e);
    }
}

fn decode_batch_insert(p: &[u8]) -> (r: Result<BatchInsert, ProtoError>)
    ensures
        r matches Ok(b) ==> batch_at(p@) == Ok::<Seq<InsertModel>, ProtoError>(
            insert_views(b.records@),
        ),
        r matches Err(e) ==> batch_at(p@) == Err::<Seq<InsertModel>, ProtoError>(e),
{
    let n: u64 = match read_uint(p, 0, 4) {
        Ok(n) => n,
        Err(e) => {
            return Err(e);
        },
    };
    let mut records: Vec<Insert> = Vec::new();
    let mut at: usize = 4;
    let mut i: u64 = 0;
    assert(insert_views(records@) =~= Seq::<InsertModel>::empty());
    while i < n
        invariant
            i <= n,
            uint_at(p@, 0, 4) == Ok::<nat, ProtoError>(n as nat),
            inserts_at(p@, 4, i as nat) == Ok::<(Seq<InsertModel>, nat), ProtoError>(
                (insert_views(records@), at as nat),
            ),
        decreases n - i,
    {
        let ghost before = insert_views(records@);
        match decode_insert(p, at) {
            Ok((rec, end)) => {
                let ghost m = rec@;
                records.push(rec);
                at = end;
                assert(insert_views(records@) =~= before.push(m));
            },
            Err(e) => {
                proof {
                    lemma_inserts_fail(p@, 4, (i + 1) as nat, n as nat, e);
                }
                return Err(e);
            },
        }
        i += 1;
    }
    Ok(BatchInsert { records })
}

fn decode_server_range_record(p: &[u8]) -> (r: Result<Record, ProtoError>)
    ensures
        r matches Ok(m) ==> record_at(p@) == Ok::<RecordModel, ProtoError>(m@),
        r matches Err(e) ==> record_at(p@) == Err::<RecordModel, ProtoError>(e),
{
    let source_id: i64 = match read_int(p, 0) {
        Ok(n) => n,
        Err(e) => {
            return Err(e);
        },
    };
    let ts: i64 = match read_int(p, 8) {
        Ok(n) => n,
        Err(e) => {
            return Err(e);
        },
    };
    let seq: u64 = match read_uint(p, 16, 8) {
        Ok(n) => n,
        Err(e) => {
            return Err(e);
        },
    };
    let (key, mid) = match read_text(p, 24) {
        Ok(text) => text,
        Err(e) => {
            return Err(e);
        },
    };
    let (value, _) = match read_text(p, mid) {
        Ok(text) => text,
        Err(e) => {
            return Err(e);
        },
    };
    Ok(Record { source_id, ts, seq, key, value })
}

/// Takes the first message out of `src`, without its delimiter, if all of it is there. If not,
/// nothing changes but the room in the buffer.
fn take_frame(src: &mut BytesMut) -> (r: Option<BytesMut>)
    ensures
        r is Some <==> message_len(buffered(*old(src))) is Some,
        r is None ==> buffered(*final(src)) == buffered(*old(src)),
        r matches Some(f) ==> buffered(f) == buffered(*old(src)).subrange(
            4,
            message_len(buffered(*old(src)))->0 as int,
        ) && buffered(*final(src)) == buffered(*old(src)).skip(
            message_len(buffered(*old(src)))->0 as int,
        ),
{
    let have: usize = buffer_len(src);
    if have < 4 {
        return None;
    }
    let frame_len: u64 = get_be(buffer_bytes(src), 0, 4);
    proof {
        lemma_byte_caps();
        lemma_be_nat_bound(buffered(*src).subrange(0, 4));
    }
    let total: u64 = 4 + frame_len;
    if (have as u64) < total {
        if total <= (usize::MAX / 2) as u64 {
            reserve(src, total as usize - have);
        }
        return None;
    }
    let ghost before = buffered(*src);
    let mut frame = split_to(src, total as usize);
    advance(&mut frame, 4);
    assert(buffered(frame) =~= before.subrange(4, total as int));
    Some(frame)
}

/// Writes the length of the frame that begins behind the four bytes at `start` over them.
fn close_frame(dst: &mut BytesMut, start: usize)
    requires
        start + 4 <= buffered(*old(dst)).len(),
    ensures
        buffered(*final(dst)) == buffered(*old(dst)).take(start as int) + be_bytes(
            (buffered(*old(dst)).len() - start - 4) as nat,
            4,
        ) + buffered(*old(dst)).skip(start + 4),
{
    let frame_len: usize = buffer_len(dst) - start - 4;
    let mut head: Vec<u8> = Vec::new();
    put_be(&mut head, frame_len as u64, 4);
    proof {
        lemma_be_bytes_len(frame_len as nat, 4);
        assert(head@ =~= be_bytes(frame_len as nat, 4));
    }
    overwrite(dst, start, start + 4, head.as_slice());
}

/// Appends a text behind its length.
fn put_text(dst: &mut BytesMut, s: &str)
    ensures
        buffered(*final(dst)) == buffered(*old(dst)) + text_bytes(s@),
{
    let b = s.as_bytes();
    let mut head: Vec<u8> = Vec::new();
    put_be(&mut head, b.len() as u64, 4);
    put_slice(dst, head.as_slice());
    put_slice(dst, b);
    assert(buffered(*dst) =~= buffered(*old(dst)) + text_bytes(s@));
}

fn put_insert(dst: &mut BytesMut, i: &Insert)
    ensures
        buffered(*final(dst)) == buffered(*old(dst)) + insert_payload(i@),
{
    put_i64(dst, i.source_id);
    put_i64(dst, i.ts);
    put_text(dst, i.key.as_str());
    put_text(dst, i.value.as_str());
    assert(buffered(*dst) =~= buffered(*old(dst)) + insert_payload(i@));
}

fn put_range(dst: &mut BytesMut, r: &Range)
    ensures
        buffered(*final(dst)) == buffered(*old(dst)) + range_payload(r@),
{
    put_i64(dst, r.source_id);
    put_text(dst, r.key.as_str());
    put_i64(dst, r.start_ts);
    put_i64(dst, r.end_ts);
    put_text(dst, r.filter.as_str());
    assert(buffered(*dst) =~= buffered(*old(dst)) + range_payload(r@));
}

fn put_inserts(dst: &mut BytesMut, records: &Vec<Insert>)
    ensures
        buffered(*final(dst)) == buffered(*old(dst)) + be_bytes(records@.len(), 4)
            + inserts_payload(insert_views(records@)),
{
    let mut head: Vec<u8> = Vec::new();
    put_be(&mut head, records.len() as u64, 4);
    put_slice(dst, head.as_slice());
    let ghost ms = insert_views(records@);
    let ghost start = buffered(*dst);
    let mut i: usize = 0;
    assert(ms.take(0) =~= Seq::<InsertModel>::empty());
    assert(start + inserts_payload(ms.take(0)) =~= start);
    while i < records.len()
        invariant
            i <= records@.len(),
            ms == insert_views(records@),
            buffered(*dst) == start + inserts_payload(ms.take(i as int)),
        decreases records@.len() - i,
    {
        put_insert(dst, &records[i]);
        proof {
            assert(ms.take(i + 1).drop_last() =~= ms.take(i as int));
            assert(buffered(*dst) =~= start + inserts_payload(ms.take(i + 1)));
        }
        i += 1;
    }
    assert(ms.take(ms.len() as int) =~= ms);
    assert(buffered(*dst) =~= buffered(*old(dst)) + be_bytes(records@.len(), 4) + inserts_payload(
        ms,
    ));
}

fn encode_record(dst: &mut BytesMut, r: &Record)
    ensures
        buffered(*final(dst)) == buffered(*old(dst)) + record_payload(r@),
{
    put_i64(dst, r.source_id);
    put_i64(dst, r.ts);
    put_u64(dst, r.seq);
    put_text(dst, r.key.as_str());
    put_text(dst, r.value.as_str());
    assert(buffered(*dst) =~= buffered(*old(dst)) + record_payload(r@));
}

/// What is left of `b` behind the first message, or all of it as long as that is not complete.
pub open spec fn rest_of(b: Seq<u8>) -> Seq<u8> {
    match message_len(b) {
        None => b,
        Some(n) => b.skip(n as int),
    }
}

/// What the result of decoding a message of a client says.
pub open spec fn client_view(r: Result<Option<ClientMessage>, ProtoError>) -> Result<
    Option<ClientModel>,
    ProtoError,
> {
    match r {
        Ok(Some(m)) => Ok(Some(m@)),
        Ok(None) => Ok(None),
        Err(e) => Err(e),
    }
}

/// What the first message of a client in `b` says. There is none as long as it is not complete.
pub open spec fn decode_client(b: Seq<u8>) -> Result<Option<ClientModel>, ProtoError> {
    match message_len(b) {
        None => Ok(None),
        Some(n) => match client_of(b.subrange(4, n as int)) {
            Ok(m) => Ok(Some(m)),
            Err(e) => Err(e),
        },
    }
}

/// What the result of decoding a message of the server says.
pub open spec fn server_view(r: Result<Option<ServerMessage>, ProtoError>) -> Result<
    Option<ServerModel>,
    ProtoError,
> {
    match r {
        Ok(Some(m)) => Ok(Some(m@)),
        Ok(None) => Ok(None),
        Err(e) => Err(e),
    }
}

/// What the first message of the server in `b` says. There is none as long as it is not complete.
pub open spec fn decode_server(b: Seq<u8>) -> Result<Option<ServerModel>, ProtoError> {
    match message_len(b) {
        None => Ok(None),
        Some(n) => match server_of(b.subrange(4, n as int)) {
            Ok(m) => Ok(Some(m)),
            Err(e) => Err(e),
        },
    }
}

/// Decodes the messages of clients and encodes those of the server.
pub struct ServerCodec;

impl ServerCodec {
    /// Takes the first message of a client out of `src`. As long as it is not complete there is
    /// none, and nothing changes. A frame that holds no message is taken out too.
    pub fn decode(&mut self, src: &mut BytesMut) -> (r: Result<Option<ClientMessage>, ProtoError>)
        ensures
            client_view(r) == decode_client(buffered(*old(src))),
            buffered(*final(src)) == rest_of(buffered(*old(src))),
    {
        let frame = match take_frame(src) {
            Some(frame) => frame,
            None => {
                return Ok(None);
            },
        };
        let f = buffer_bytes(&frame);
        if f.len() == 0 {
            return Err(ProtoError::Empty);
        }
        let p = vstd::slice::slice_subrange(f, 1, f.len());
        assert(p@ =~= f@.skip(1));
        match f[0] {
            0x01 => match decode_insert(p, 0) {
                Ok((i, _)) => Ok(Some(ClientMessage::Insert(i))),
                Err(e) => Err(e),
            },
            0x02 => match decode_range(p) {
                Ok(r) => Ok(Some(ClientMessage::Range(r))),
                Err(e) => Err(e),
            },
            0x03 => match decode_batch_insert(p) {
                Ok(b) => Ok(Some(ClientMessage::BatchInsert(b))),
                Err(e) => Err(e),
            },
            0x04 => Ok(Some(ClientMessage::Metrics)),
            0x05 => Ok(Some(ClientMessage::Ping)),
            t => Err(ProtoError::UnknownType(t)),
        }
    }

    /// Appends a message of the server to `dst`.
    pub fn encode(&mut self, msg: ServerMessage, dst: &mut BytesMut)
        ensures
            buffered(*final(dst)) == buffered(*old(dst)) + delimited(server_frame(msg@)),
    {
        let ghost before = buffered(*dst);
        let start: usize = buffer_len(dst);
        put_u32(dst, 0);
        proof {
            lemma_be_bytes_len(0, 4);
        }
        match &msg {
            ServerMessage::InsertOk => {
                put_u8(dst, 0x81);
            },
            ServerMessage::RangeRecord(rec) => {
                put_u8(dst, 0x82);
                encode_record(dst, rec);
            },
            ServerMessage::RangeEnd => {
                put_u8(dst, 0x83);
            },
            ServerMessage::Metrics(json) => {
                put_u8(dst, 0x84);
                put_text(dst, json.as_str());
            },
            ServerMessage::Pong => {
                put_u8(dst, 0x85);
            },
            ServerMessage::Error(err) => {
                put_u8(dst, 0xFF);
                put_text(dst, err.as_str());
            },
        }
        assert(buffered(*dst) =~= before + be_bytes(0, 4) + server_frame(msg@));
        close_frame(dst, start);
        assert(buffered(*dst) =~= before + delimited(server_frame(msg@)));
    }
}

/// Appends a record of a query, as a message of the server, to `dst`.
pub fn put_record_frame(dst: &mut BytesMut, rec: &Record)
    ensures
        buffered(*final(dst)) == buffered(*old(dst)) + delimited(
            server_frame(ServerModel::RangeRecord(rec@)),
        ),
{
    let ghost before = buffered(*dst);
    let ghost frame = server_frame(ServerModel::RangeRecord(rec@));
    let start: usize = buffer_len(dst);
    put_u32(dst, 0);
    proof {
        lemma_be_bytes_len(0, 4);
    }
    put_u8(dst, 0x82);
    encode_record(dst, rec);
    assert(buffered(*dst) =~= before + be_bytes(0, 4) + frame);
    close_frame(dst, start);
    assert(buffered(*dst) =~= before + delimited(frame));
}

/// Decodes the messages of the server and encodes those of clients.
pub struct ClientCodec;

impl ClientCodec {
    /// Appends a message of a client to `dst`.
    pub fn encode(&mut self, msg: ClientMessage, dst: &mut BytesMut)
        ensures
            buffered(*final(dst)) == buffered(*old(dst)) + delimited(client_frame(msg@)),
    {
        let ghost before = buffered(*dst);
        let start: usize = buffer_len(dst);
        put_u32(dst, 0);
        proof {
            lemma_be_bytes_len(0, 4);
        }
        match &msg {
            ClientMessage::Insert(i) => {
                put_u8(dst, 0x01);
                put_insert(dst, i);
            },
            ClientMessage::Range(r) => {
                put_u8(dst, 0x02);
                put_range(dst, r);
            },
            ClientMessage::BatchInsert(b) => {
                put_u8(dst, 0x03);
                put_inserts(dst, &b.records);
            },
            ClientMessage::Metrics => {
                put_u8(dst, 0x04);
            },
            ClientMessage::Ping => {
                put_u8(dst, 0x05);
            },
        }
        assert(buffered(*dst) =~= before + be_bytes(0, 4) + client_frame(msg@));
        close_frame(dst, start);
        assert(buffered(*dst) =~= before + delimited(client_frame(msg@)));
    }

    /// Takes the first message of the server out of `src`. As long as it is not complete there
    /// is none, and nothing changes. A frame that holds no message is taken out too.
    pub fn decode(&mut self, src: &mut BytesMut) -> (r: Result<Option<ServerMessage>, ProtoError>)
        ensures
            server_view(r) == decode_server(buffered(*old(src))),
            buffered(*final(src)) == rest_of(buffered(*old(src))),
    {
        let frame = match take_frame(src) {
            Some(frame) => frame,
            None => {
                return Ok(None);
            },
        };
        let f = buffer_bytes(&frame);
        if f.len() == 0 {
            return Err(ProtoError::Empty);
        }
        let p = vstd::slice::slice_subrange(f, 1, f.len());
        assert(p@ =~= f@.skip(1));
        match f[0] {
            0x81 => Ok(Some(ServerMessage::InsertOk)),
            0x82 => match decode_server_range_record(p) {
                Ok(r) => Ok(Some(ServerMessage::RangeRecord(r))),
                Err(e) => Err(e),
            },
            0x83 => Ok(Some(ServerMessage::RangeEnd)),
            0x84 => match read_text(p, 0) {
                Ok((s, _)) => Ok(Some(ServerMessage::Metrics(s))),
                Err(e) => Err(e),
            },
            0x85 => Ok(Some(ServerMessage::Pong)),
            0xFF => match read_text(p, 0) {
                Ok((s, _)) => Ok(Some(ServerMessage::Error(s))),
                Err(e) => Err(e),
            },
            t => Err(ProtoError::UnknownType(t)),
        }
    }
}

/// What a stored record says, if its key and value are text.
pub open spec fn record_model(b: Seq<u8>) -> RecordModel {
    RecordModel {
        source_id: source_of(b),
        ts: time_of(b),
        seq: seq_of(b) as u64,
        key: decode_utf8(key_of(b)),
        value: decode_utf8(value_of(b)),
    }
}

impl Record {
    /// The record as a message, unless a field of it cannot be taken out.
    pub fn try_from(rec: &crate::storage::record::Record) -> (r: Result<Self, RecordError>)
        ensures
            r matches Ok(m) ==> all_fields_error(rec@) is None && m@ == record_model(rec@),
            r matches Err(e) ==> all_fields_error(rec@) == Some(e),
    {
        match rec.extract_all_fields() {
            Ok((source_id, ts, seq, key, value)) => Ok(Record { source_id, ts, seq, key, value }),
            Err(e) => Err(e),
        }
    }
}

/// Whether `x` stands in `p` at `at`.
spec fn stands(p: Seq<u8>, at: nat, x: Seq<u8>) -> bool {
    at + x.len() <= p.len() && p.subrange(at as int, (at + x.len()) as int) == x
}

proof fn lemma_stands_split(p: Seq<u8>, at: nat, x: Seq<u8>, y: Seq<u8>)
    requires
        stands(p, at, x + y),
    ensures
        stands(p, at, x),
        stands(p, at + x.len(), y),
{
    let whole = p.subrange(at as int, (at + x.len() + y.len()) as int);
    assert(whole == x + y);
    assert(p.subrange(at as int, (at + x.len()) as int) =~= whole.subrange(0, x.len() as int));
    assert(whole.subrange(0, x.len() as int) =~= x);
    assert(p.subrange((at + x.len()) as int, (at + x.len() + y.len()) as int) =~= whole.subrange(
        x.len() as int,
        (x.len() + y.len()) as int,
    ));
    assert(whole.subrange(x.len() as int, (x.len() + y.len()) as int) =~= y);
}

proof fn lemma_int_stands(p: Seq<u8>, at: nat, n: i64)
    requires
        stands(p, at, be_bytes(i64_bits(n), 8)),
    ensures
        int_at(p, at) == Ok::<i64, ProtoError>(n),
        be_bytes(i64_bits(n), 8).len() == 8,
{
    lemma_byte_caps();
    law_i64_bits_round_trip(n, 0);
    law_be_round_trip(i64_bits(n), 8);
}

/// Whether the length of the text takes no more than four bytes.
pub open spec fn text_fits(s: Seq<char>) -> bool {
    encode_utf8(s).len() <= u32::MAX
}

proof fn lemma_text_stands(p: Seq<u8>, at: nat, s: Seq<char>)
    requires
        stands(p, at, text_bytes(s)),
        text_fits(s),
    ensures
        text_at(p, at) == Ok::<(Seq<char>, nat), ProtoError>((s, at + text_bytes(s).len())),
{
    lemma_byte_caps();
    let b = encode_utf8(s);
    law_be_round_trip(b.len(), 4);
    lemma_stands_split(p, at, be_bytes(b.len(), 4), b);
    encode_utf8_valid_utf8(s);
    encode_utf8_decode_utf8(s);
}

/// Whether the record comes back as it is out of its bytes.
pub open spec fn insert_fits(m: InsertModel) -> bool {
    text_fits(m.key) && text_fits(m.value)
}

proof fn lemma_insert_stands(p: Seq<u8>, at: nat, m: InsertModel)
    requires
        stands(p, at, insert_payload(m)),
        insert_fits(m),
    ensures
        insert_at(p, at) == Ok::<(InsertModel, nat), ProtoError>(
            (m, at + insert_payload(m).len()),
        ),
{
    let a = be_bytes(i64_bits(m.source_id), 8);
    let b = be_bytes(i64_bits(m.ts), 8);
    lemma_be_bytes_len(i64_bits(m.source_id), 8);
    lemma_be_bytes_len(i64_bits(m.ts), 8);
    lemma_stands_split(p, at, a + b + text_bytes(m.key), text_bytes(m.value));
    lemma_stands_split(p, at, a + b, text_bytes(m.key));
    lemma_stands_split(p, at, a, b);
    lemma_int_stands(p, at, m.source_id);
    lemma_int_stands(p, at + 8, m.ts);
    lemma_text_stands(p, at + 16, m.key);
    lemma_text_stands(p, at + 16 + text_bytes(m.key).len(), m.value);
}

proof fn lemma_inserts_stand(p: Seq<u8>, at: nat, ms: Seq<InsertModel>)
    requires
        stands(p, at, inserts_payload(ms)),
        forall|i: int| 0 <= i < ms.len() ==> insert_fits(#[trigger] ms[i]),
    ensures
        inserts_at(p, at, ms.len()) == Ok::<(Seq<InsertModel>, nat), ProtoError>(
            (ms, at + inserts_payload(ms).len()),
        ),
    decreases ms.len(),
{
    if ms.len() == 0 {
        assert(ms =~= Seq::<InsertModel>::empty());
    } else {
        let front = ms.drop_last();
        let last = ms.last();
        lemma_stands_split(p, at, inserts_payload(front), insert_payload(last));
        assert forall|i: int| 0 <= i < front.len() implies insert_fits(#[trigger] front[i]) by {
            assert(front[i] == ms[i]);
        }
        assert(insert_fits(ms[ms.len() - 1]));
        lemma_inserts_stand(p, at, front);
        lemma_insert_stands(p, at + inserts_payload(front).len(), last);
        assert(front.push(last) =~= ms);
    }
}

/// Whether the message comes back as it is out of its bytes: every length in it, and that of
/// its frame, takes no more than four bytes.
pub open spec fn client_fits(m: ClientModel) -> bool {
    &&& client_frame(m).len() <= u32::MAX
    &&& match m {
        ClientModel::Insert(i) => insert_fits(i),
        ClientModel::Range(r) => text_fits(r.key) && text_fits(r.filter),
        ClientModel::BatchInsert(b) => b.len() <= u32::MAX && forall|i: int|
            0 <= i < b.len() ==> insert_fits(#[trigger] b[i]),
        _ => true,
    }
}

/// Whether the message comes back as it is out of its bytes: every length in it, and that of
/// its frame, takes no more than four bytes.
pub open spec fn server_fits(m: ServerModel) -> bool {
    &&& server_frame(m).len() <= u32::MAX
    &&& match m {
        ServerModel::RangeRecord(r) => text_fits(r.key) && text_fits(r.value),
        ServerModel::Metrics(j) => text_fits(j),
        ServerModel::Error(e) => text_fits(e),
        _ => true,
    }
}

proof fn lemma_delimited(frame: Seq<u8>, rest: Seq<u8>)
    requires
        frame.len() <= u32::MAX,
    ensures
        ({
            let b = delimited(frame) + rest;
            &&& message_len(b) == Some(4 + frame.len())
            &&& b.subrange(4, 4 + frame.len() as int) == frame
            &&& rest_of(b) == rest
        }),
{
    let b = delimited(frame) + rest;
    lemma_byte_caps();
    law_be_round_trip(frame.len(), 4);
    assert(b.subrange(0, 4) =~= be_bytes(frame.len(), 4));
    assert(b.subrange(4, 4 + frame.len() as int) =~= frame);
    assert(b.skip(4 + frame.len() as int) =~= rest);
}

#[verifier::spinoff_prover]
#[verifier::rlimit(40)]
proof fn lemma_client_frame(m: ClientModel)
    requires
        client_fits(m),
    ensures
        client_of(client_frame(m)) == Ok::<ClientModel, ProtoError>(m),
{
    let f = client_frame(m);
    let p = f.skip(1);
    match m {
        ClientModel::Insert(i) => {
            assert(p =~= insert_payload(i));
            assert(p.subrange(0, p.len() as int) =~= p);
            lemma_insert_stands(p, 0, i);
        },
        ClientModel::Range(r) => {
            assert(p =~= range_payload(r));
            assert(p.subrange(0, p.len() as int) =~= p);
            let a = be_bytes(i64_bits(r.source_id), 8);
            let b = text_bytes(r.key);
            let c = be_bytes(i64_bits(r.start_ts), 8);
            let d = be_bytes(i64_bits(r.end_ts), 8);
            lemma_be_bytes_len(i64_bits(r.source_id), 8);
            lemma_be_bytes_len(i64_bits(r.start_ts), 8);
            lemma_be_bytes_len(i64_bits(r.end_ts), 8);
            lemma_stands_split(p, 0, a + b + c + d, text_bytes(r.filter));
            lemma_stands_split(p, 0, a + b + c, d);
            lemma_stands_split(p, 0, a + b, c);
            lemma_stands_split(p, 0, a, b);
            let mid = 8 + b.len();
            lemma_int_stands(p, 0, r.source_id);
            lemma_text_stands(p, 8, r.key);
            lemma_int_stands(p, mid, r.start_ts);
            lemma_int_stands(p, mid + 8, r.end_ts);
            lemma_text_stands(p, mid + 16, r.filter);
        },
        ClientModel::BatchInsert(b) => {
            let head = be_bytes(b.len(), 4);
            assert(p =~= head + inserts_payload(b));
            assert(p.subrange(0, p.len() as int) =~= p);
            lemma_stands_split(p, 0, head, inserts_payload(b));
            lemma_byte_caps();
            law_be_round_trip(b.len(), 4);
            lemma_inserts_stand(p, 4, b);
        },
        _ => {},
    }
}

proof fn lemma_server_frame(m: ServerModel)
    requires
        server_fits(m),
    ensures
        server_of(server_frame(m)) == Ok::<ServerModel, ProtoError>(m),
{
    let f = server_frame(m);
    let p = f.skip(1);
    match m {
        ServerModel::RangeRecord(r) => {
            assert(p =~= record_payload(r));
            assert(p.subrange(0, p.len() as int) =~= p);
            let a = be_bytes(i64_bits(r.source_id), 8);
            let b = be_bytes(i64_bits(r.ts), 8);
            let c = be_bytes(r.seq as nat, 8);
            lemma_byte_caps();
            lemma_be_bytes_len(i64_bits(r.source_id), 8);
            lemma_be_bytes_len(i64_bits(r.ts), 8);
            law_be_round_trip(r.seq as nat, 8);
            lemma_stands_split(p, 0, a + b + c + text_bytes(r.key), text_bytes(r.value));
            lemma_stands_split(p, 0, a + b + c, text_bytes(r.key));
            lemma_stands_split(p, 0, a + b, c);
            lemma_stands_split(p, 0, a, b);
            lemma_int_stands(p, 0, r.source_id);
            lemma_int_stands(p, 8, r.ts);
            lemma_text_stands(p, 24, r.key);
            lemma_text_stands(p, 24 + text_bytes(r.key).len(), r.value);
        },
        ServerModel::Metrics(j) => {
            assert(p =~= text_bytes(j));
            assert(p.subrange(0, p.len() as int) =~= p);
            lemma_text_stands(p, 0, j);
        },
        ServerModel::Error(e) => {
            assert(p =~= text_bytes(e));
            assert(p.subrange(0, p.len() as int) =~= p);
            lemma_text_stands(p, 0, e);
        },
        _ => {},
    }
}

/// The server decodes what a client encoded, and nothing of what follows it.
pub proof fn law_client_round_trip(m: ClientModel, rest: Seq<u8>)
    requires
        client_fits(m),
    ensures
        decode_client(delimited(client_frame(m)) + rest) == Ok::<Option<ClientModel>, ProtoError>(
            Some(m),
        ),
        rest_of(delimited(client_frame(m)) + rest) == rest,
{
    lemma_delimited(client_frame(m), rest);
    lemma_client_frame(m);
}

/// A client decodes what the server encoded, and nothing of what follows it.
pub proof fn law_server_round_trip(m: ServerModel, rest: Seq<u8>)
    requires
        server_fits(m),
    ensures
        decode_server(delimited(server_frame(m)) + rest) == Ok::<Option<ServerModel>, ProtoError>(
            Some(m),
        ),
        rest_of(delimited(server_frame(m)) + rest) == rest,
{
    lemma_delimited(server_frame(m), rest);
    lemma_server_frame(m);
}

/// As long as a frame has not come in completely, neither side decodes a message, and nothing
/// of it is taken out.
pub proof fn law_incomplete_frame(frame: Seq<u8>, have: nat)
    requires
        frame.len() <= u32::MAX,
        have < delimited(frame).len(),
    ensures
        ({
            let b = delimited(frame).take(have as int);
            &&& decode_client(b) == Ok::<Option<ClientModel>, ProtoError>(None)
            &&& decode_server(b) == Ok::<Option<ServerModel>, ProtoError>(None)
            &&& rest_of(b) == b
        }),
{
    let b = delimited(frame).take(have as int);
    lemma_byte_caps();
    law_be_round_trip(frame.len(), 4);
    if have >= 4 {
        assert(b.subrange(0, 4) =~= be_bytes(frame.len(), 4));
    }
}

proof fn lemma_uint_kept(p: Seq<u8>, have: nat, at: nat, n: nat)
    requires
        have <= p.len(),
        uint_at(p.take(have as int), at, n) is Ok,
    ensures
        uint_at(p.take(have as int), at, n) == uint_at(p, at, n),
        at + n <= have,
{
    assert(p.take(have as int).subrange(at as int, (at + n) as int) =~= p.subrange(
        at as int,
        (at + n) as int,
    ));
}

proof fn lemma_text_kept(p: Seq<u8>, have: nat, at: nat)
    requires
        have <= p.len(),
        text_at(p.take(have as int), at) is Ok,
    ensures
        text_at(p.take(have as int), at) == text_at(p, at),
        text_at(p, at)->Ok_0.1 <= have,
{
    lemma_uint_kept(p, have, at, 4);
    let len = uint_at(p, at, 4)->Ok_0;
    assert(p.take(have as int).subrange((at + 4) as int, (at + 4 + len) as int) =~= p.subrange(
        (at + 4) as int,
        (at + 4 + len) as int,
    ));
}

proof fn lemma_insert_kept(p: Seq<u8>, have: nat, at: nat)
    requires
        have <= p.len(),
        insert_at(p.take(have as int), at) is Ok,
    ensures
        insert_at(p.take(have as int), at) == insert_at(p, at),
        insert_at(p, at)->Ok_0.1 <= have,
{
    lemma_uint_kept(p, have, at, 8);
    lemma_uint_kept(p, have, at + 8, 8);
    lemma_text_kept(p, have, at + 16);
    lemma_text_kept(p, have, text_at(p, at + 16)->Ok_0.1);
}

proof fn lemma_inserts_kept(p: Seq<u8>, have: nat, at: nat, n: nat)
    requires
        at <= have <= p.len(),
        inserts_at(p.take(have as int), at, n) is Ok,
    ensures
        inserts_at(p.take(have as int), at, n) == inserts_at(p, at, n),
        inserts_at(p, at, n)->Ok_0.1 <= have,
    decreases n,
{
    if n > 0 {
        let m = (n - 1) as nat;
        lemma_inserts_kept(p, have, at, m);
        lemma_insert_kept(p, have, inserts_at(p, at, m)->Ok_0.1);
    }
}

/// No part of a batch is taken for one: with any number of bytes missing at the end of the frame
/// it is refused as a whole.
pub proof fn law_cut_batch(ms: Seq<InsertModel>, have: nat)
    requires
        ms.len() <= u32::MAX,
        forall|i: int| 0 <= i < ms.len() ==> insert_fits(#[trigger] ms[i]),
        have < client_frame(ClientModel::BatchInsert(ms)).len(),
    ensures
        client_of(client_frame(ClientModel::BatchInsert(ms)).take(have as int)) is Err,
{
    let f = client_frame(ClientModel::BatchInsert(ms));
    if have > 0 {
        let n = (have - 1) as nat;
        let p = f.skip(1);
        let head = be_bytes(ms.len(), 4);
        lemma_byte_caps();
        law_be_round_trip(ms.len(), 4);
        assert(p =~= head + inserts_payload(ms));
        assert(p.subrange(0, 4) =~= head);
        assert(p.subrange(4, 4 + inserts_payload(ms).len() as int) =~= inserts_payload(ms));
        lemma_inserts_stand(p, 4, ms);
        assert(f.take(have as int).skip(1) =~= p.take(n as int));
        assert(f.take(have as int)[0] == 0x03);
        if uint_at(p.take(n as int), 0, 4) is Ok {
            lemma_uint_kept(p, n, 0, 4);
            if inserts_at(p.take(n as int), 4, ms.len()) is Ok {
                lemma_inserts_kept(p, n, 4, ms.len());
            }
        }
    }
}

} // verus!
