//! What holds of the bytes between clients and the server: where each field of a message
//! stands, what a stored record is told as, and what is no message.
use bytes::BytesMut;
use vstd::prelude::*;
use vstd::utf8::{
    decode_utf8, encode_utf8, encode_utf8_decode_utf8, encode_utf8_valid_utf8, valid_utf8,
};

use crate::buffer::buffered;
use crate::codec::{
    be_bytes, be_nat, i64_bits, law_be_round_trip, law_i64_bits_round_trip, lemma_be_bytes_len,
    lemma_byte_caps,
};
use crate::proto::{
    client_fits, client_frame, client_of, decode_client, decode_server, delimited,
    insert_payload, inserts_payload, law_client_round_trip, law_server_round_trip, message_len,
    record_model, rest_of, server_fits, server_frame, server_of, text_at, text_bytes, text_fits,
    uint_at, BatchInsert, ClientCodec, ClientMessage, ClientModel, Insert, InsertModel, ProtoError,
    Range, RangeModel, Record, RecordModel, ServerCodec, ServerMessage, ServerModel,
};
use crate::storage::record::{all_fields_error, law_record_round_trip, record_bytes, RecordError};

verus! {

/// A record is told just as it was stored: with its source, its time, its sequence number, its
/// key and its value. Nothing is wrong with a record that was stored from texts.
pub proof fn law_stored_record_told(
    source_id: i64,
    ts: i64,
    seq: u64,
    key: Seq<char>,
    value: Seq<char>,
)
    requires
        encode_utf8(key).len() <= usize::MAX,
        encode_utf8(value).len() <= usize::MAX,
    ensures
        ({
            let b = record_bytes(source_id, ts, seq, encode_utf8(key), encode_utf8(value));
            &&& all_fields_error(b) is None
            &&& record_model(b).source_id == source_id
            &&& record_model(b).ts == ts
            &&& record_model(b).seq == seq
            &&& record_model(b).key == key
            &&& record_model(b).value == value
        }),
{
    let b = record_bytes(source_id, ts, seq, encode_utf8(key), encode_utf8(value));
    law_record_round_trip(source_id, ts, seq, encode_utf8(key), encode_utf8(value));
    encode_utf8_valid_utf8(key);
    encode_utf8_valid_utf8(value);
    encode_utf8_decode_utf8(key);
    encode_utf8_decode_utf8(value);
}

/// What a client inserts comes back to a client, out of the bytes that the server sends for the
/// stored record, with the same source, time, key and value and with its sequence number.
pub proof fn law_insert_comes_back(i: InsertModel, seq: u64, rest: Seq<u8>)
    requires
        text_fits(i.key),
        text_fits(i.value),
        33 + encode_utf8(i.key).len() + encode_utf8(i.value).len() <= u32::MAX,
    ensures
        ({
            let b = record_bytes(
                i.source_id,
                i.ts,
                seq,
                encode_utf8(i.key),
                encode_utf8(i.value),
            );
            let sent = delimited(server_frame(ServerModel::RangeRecord(record_model(b))));
            &&& decode_server(sent + rest) matches Ok(Some(ServerModel::RangeRecord(r)))
            &&& r.source_id == i.source_id
            &&& r.ts == i.ts
            &&& r.seq == seq
            &&& r.key == i.key
            &&& r.value == i.value
            &&& rest_of(sent + rest) == rest
        }),
{
    let b = record_bytes(i.source_id, i.ts, seq, encode_utf8(i.key), encode_utf8(i.value));
    law_stored_record_told(i.source_id, i.ts, seq, i.key, i.value);
    let m = ServerModel::RangeRecord(record_model(b));
    lemma_be_bytes_len(i64_bits(i.source_id), 8);
    lemma_be_bytes_len(i64_bits(i.ts), 8);
    lemma_be_bytes_len(seq as nat, 8);
    lemma_be_bytes_len(encode_utf8(i.key).len(), 4);
    lemma_be_bytes_len(encode_utf8(i.value).len(), 4);
    law_server_round_trip(m, rest);
}

proof fn lemma_int_bytes(n: i64)
    ensures
        be_bytes(i64_bits(n), 8).len() == 8,
        be_nat(be_bytes(i64_bits(n), 8)) == i64_bits(n),
{
    lemma_byte_caps();
    law_i64_bits_round_trip(n, 0);
    law_be_round_trip(i64_bits(n), 8);
}

proof fn lemma_text_bytes(s: Seq<char>)
    requires
        text_fits(s),
    ensures
        text_bytes(s).len() == 4 + encode_utf8(s).len(),
        be_nat(text_bytes(s).subrange(0, 4)) == encode_utf8(s).len(),
        text_bytes(s).skip(4) == encode_utf8(s),
        text_bytes(s).subrange(4, text_bytes(s).len() as int) == encode_utf8(s),
{
    let b = encode_utf8(s);
    lemma_byte_caps();
    law_be_round_trip(b.len(), 4);
    assert(text_bytes(s).subrange(0, 4) =~= be_bytes(b.len(), 4));
    assert(text_bytes(s).skip(4) =~= b);
    assert(text_bytes(s).subrange(4, text_bytes(s).len() as int) =~= b);
}

/// A message is four bytes that tell how long its frame is, then the frame.
pub proof fn law_delimited_layout(frame: Seq<u8>)
    requires
        frame.len() <= u32::MAX,
    ensures
        delimited(frame).len() == 4 + frame.len(),
        be_nat(delimited(frame).take(4)) == frame.len(),
        delimited(frame).skip(4) == frame,
{
    lemma_byte_caps();
    law_be_round_trip(frame.len(), 4);
    assert(delimited(frame).take(4) =~= be_bytes(frame.len(), 4));
    assert(delimited(frame).skip(4) =~= frame);
}

/// Where the fields of a record to be stored stand in its frame.
pub proof fn law_insert_layout(m: InsertModel)
    requires
        text_fits(m.key),
        text_fits(m.value),
    ensures
        ({
            let f = client_frame(ClientModel::Insert(m));
            let k = encode_utf8(m.key).len() as int;
            let v = encode_utf8(m.value).len() as int;
            &&& f.len() == 25 + k + v
            &&& f[0] == 0x01
            &&& be_nat(f.subrange(1, 9)) == i64_bits(m.source_id)
            &&& be_nat(f.subrange(9, 17)) == i64_bits(m.ts)
            &&& be_nat(f.subrange(17, 21)) == k
            &&& f.subrange(21, 21 + k) == encode_utf8(m.key)
            &&& be_nat(f.subrange(21 + k, 25 + k)) == v
            &&& f.subrange(25 + k, 25 + k + v) == encode_utf8(m.value)
        }),
{
    let f = client_frame(ClientModel::Insert(m));
    let k = encode_utf8(m.key).len() as int;
    let v = encode_utf8(m.value).len() as int;
    lemma_int_bytes(m.source_id);
    lemma_int_bytes(m.ts);
    lemma_text_bytes(m.key);
    lemma_text_bytes(m.value);
    assert(f.subrange(1, 9) =~= be_bytes(i64_bits(m.source_id), 8));
    assert(f.subrange(9, 17) =~= be_bytes(i64_bits(m.ts), 8));
    assert(f.subrange(17, 21) =~= text_bytes(m.key).subrange(0, 4));
    assert(f.subrange(21, 21 + k) =~= text_bytes(m.key).skip(4));
    assert(f.subrange(21 + k, 25 + k) =~= text_bytes(m.value).subrange(0, 4));
    assert(f.subrange(25 + k, 25 + k + v) =~= text_bytes(m.value).skip(4));
}

/// Where the fields of a query stand in its frame.
pub proof fn law_range_layout(m: RangeModel)
    requires
        text_fits(m.key),
        text_fits(m.filter),
    ensures
        ({
            let f = client_frame(ClientModel::Range(m));
            let k = encode_utf8(m.key).len() as int;
            let v = encode_utf8(m.filter).len() as int;
            &&& f.len() == 33 + k + v
            &&& f[0] == 0x02
            &&& be_nat(f.subrange(1, 9)) == i64_bits(m.source_id)
            &&& be_nat(f.subrange(9, 13)) == k
            &&& f.subrange(13, 13 + k) == encode_utf8(m.key)
            &&& be_nat(f.subrange(13 + k, 21 + k)) == i64_bits(m.start_ts)
            &&& be_nat(f.subrange(21 + k, 29 + k)) == i64_bits(m.end_ts)
            &&& be_nat(f.subrange(29 + k, 33 + k)) == v
            &&& f.subrange(33 + k, 33 + k + v) == encode_utf8(m.filter)
        }),
{
    let f = client_frame(ClientModel::Range(m));
    let k = encode_utf8(m.key).len() as int;
    let v = encode_utf8(m.filter).len() as int;
    lemma_int_bytes(m.source_id);
    lemma_int_bytes(m.start_ts);
    lemma_int_bytes(m.end_ts);
    lemma_text_bytes(m.key);
    lemma_text_bytes(m.filter);
    assert(f.subrange(1, 9) =~= be_bytes(i64_bits(m.source_id), 8));
    assert(f.subrange(9, 13) =~= text_bytes(m.key).subrange(0, 4));
    assert(f.subrange(13, 13 + k) =~= text_bytes(m.key).skip(4));
    assert(f.subrange(13 + k, 21 + k) =~= be_bytes(i64_bits(m.start_ts), 8));
    assert(f.subrange(21 + k, 29 + k) =~= be_bytes(i64_bits(m.end_ts), 8));
    assert(f.subrange(29 + k, 33 + k) =~= text_bytes(m.filter).subrange(0, 4));
    assert(f.subrange(33 + k, 33 + k + v) =~= text_bytes(m.filter).skip(4));
}

/// A batch is told by how many records it has, then each record, one after the other, as in a
/// message of its own.
pub proof fn law_batch_layout(ms: Seq<InsertModel>, last: InsertModel)
    requires
        ms.len() < u32::MAX,
    ensures
        ({
            let f = client_frame(ClientModel::BatchInsert(ms));
            let g = client_frame(ClientModel::BatchInsert(ms.push(last)));
            &&& f.len() >= 5
            &&& f[0] == 0x03
            &&& be_nat(f.subrange(1, 5)) == ms.len()
            &&& be_nat(g.subrange(1, 5)) == ms.len() + 1
            &&& g.skip(5) == f.skip(5) + client_frame(ClientModel::Insert(last)).skip(1)
            &&& ms.len() == 0 ==> f.len() == 5
        }),
{
    let f = client_frame(ClientModel::BatchInsert(ms));
    let all = ms.push(last);
    let g = client_frame(ClientModel::BatchInsert(all));
    lemma_byte_caps();
    law_be_round_trip(ms.len(), 4);
    law_be_round_trip(all.len(), 4);
    assert(f.subrange(1, 5) =~= be_bytes(ms.len(), 4));
    assert(g.subrange(1, 5) =~= be_bytes(all.len(), 4));
    assert(all.drop_last() =~= ms);
    assert(f.skip(5) =~= inserts_payload(ms));
    assert(g.skip(5) =~= inserts_payload(all));
    assert(client_frame(ClientModel::Insert(last)).skip(1) =~= insert_payload(last));
}

/// Where the fields of a stored record stand in the frame that tells it.
pub proof fn law_record_layout(m: RecordModel)
    requires
        text_fits(m.key),
        text_fits(m.value),
    ensures
        ({
            let f = server_frame(ServerModel::RangeRecord(m));
            let k = encode_utf8(m.key).len() as int;
            let v = encode_utf8(m.value).len() as int;
            &&& f.len() == 33 + k + v
            &&& f[0] == 0x82
            &&& be_nat(f.subrange(1, 9)) == i64_bits(m.source_id)
            &&& be_nat(f.subrange(9, 17)) == i64_bits(m.ts)
            &&& be_nat(f.subrange(17, 25)) == m.seq
            &&& be_nat(f.subrange(25, 29)) == k
            &&& f.subrange(29, 29 + k) == encode_utf8(m.key)
            &&& be_nat(f.subrange(29 + k, 33 + k)) == v
            &&& f.subrange(33 + k, 33 + k + v) == encode_utf8(m.value)
        }),
{
    let f = server_frame(ServerModel::RangeRecord(m));
    let k = encode_utf8(m.key).len() as int;
    let v = encode_utf8(m.value).len() as int;
    lemma_int_bytes(m.source_id);
    lemma_int_bytes(m.ts);
    lemma_byte_caps();
    law_be_round_trip(m.seq as nat, 8);
    lemma_text_bytes(m.key);
    lemma_text_bytes(m.value);
    assert(f.subrange(1, 9) =~= be_bytes(i64_bits(m.source_id), 8));
    assert(f.subrange(9, 17) =~= be_bytes(i64_bits(m.ts), 8));
    assert(f.subrange(17, 25) =~= be_bytes(m.seq as nat, 8));
    assert(f.subrange(25, 29) =~= text_bytes(m.key).subrange(0, 4));
    assert(f.subrange(29, 29 + k) =~= text_bytes(m.key).skip(4));
    assert(f.subrange(29 + k, 33 + k) =~= text_bytes(m.value).subrange(0, 4));
    assert(f.subrange(33 + k, 33 + k + v) =~= text_bytes(m.value).skip(4));
}

/// The frames of a message with a text alone, and of those with nothing: what they begin with.
pub proof fn law_plain_layout(s: Seq<char>)
    requires
        text_fits(s),
    ensures
        ({
            let e = server_frame(ServerModel::Error(s));
            let j = server_frame(ServerModel::Metrics(s));
            &&& e.len() == 5 + encode_utf8(s).len()
            &&& e[0] == 0xFF
            &&& be_nat(e.subrange(1, 5)) == encode_utf8(s).len()
            &&& e.skip(5) == encode_utf8(s)
            &&& j.len() == 5 + encode_utf8(s).len()
            &&& j[0] == 0x84
            &&& be_nat(j.subrange(1, 5)) == encode_utf8(s).len()
            &&& j.skip(5) == encode_utf8(s)
            &&& server_frame(ServerModel::InsertOk) == seq![0x81u8]
            &&& server_frame(ServerModel::RangeEnd) == seq![0x83u8]
            &&& server_frame(ServerModel::Pong) == seq![0x85u8]
            &&& client_frame(ClientModel::Metrics) == seq![0x04u8]
            &&& client_frame(ClientModel::Ping) == seq![0x05u8]
        }),
{
    let e = server_frame(ServerModel::Error(s));
    let j = server_frame(ServerModel::Metrics(s));
    lemma_text_bytes(s);
    assert(e.subrange(1, 5) =~= text_bytes(s).subrange(0, 4));
    assert(j.subrange(1, 5) =~= text_bytes(s).subrange(0, 4));
    assert(e.skip(5) =~= text_bytes(s).skip(4));
    assert(j.skip(5) =~= text_bytes(s).skip(4));
}

/// A frame that begins with no known type is no message, whatever follows; an empty frame is
/// none either.
pub proof fn law_unknown_frames(t: u8, payload: Seq<u8>)
    ensures
        !(0x01 <= t <= 0x05) ==> client_of(seq![t] + payload) == Err::<ClientModel, ProtoError>(
            ProtoError::UnknownType(t),
        ),
        !(0x81 <= t <= 0x85) && t != 0xFF ==> server_of(seq![t] + payload) == Err::<
            ServerModel,
            ProtoError,
        >(ProtoError::UnknownType(t)),
        client_of(Seq::empty()) == Err::<ClientModel, ProtoError>(ProtoError::Empty),
        server_of(Seq::empty()) == Err::<ServerModel, ProtoError>(ProtoError::Empty),
{
}

/// A text is read only where its length and all its bytes are there and they are UTF-8; then
/// it is just the text that those bytes spell, and reading goes on behind them.
pub proof fn law_text_read(front: Seq<u8>, text: Seq<u8>, said: nat, back: Seq<u8>)
    requires
        said <= u32::MAX,
    ensures
        ({
            let p = front + be_bytes(said, 4) + text + back;
            let at = front.len();
            &&& said == text.len() && valid_utf8(text) ==> text_at(p, at) == Ok::<
                (Seq<char>, nat),
                ProtoError,
            >((decode_utf8(text), at + 4 + said))
            &&& said == text.len() && !valid_utf8(text) ==> text_at(p, at) == Err::<
                (Seq<char>, nat),
                ProtoError,
            >(ProtoError::Utf8)
            &&& said > text.len() + back.len() ==> text_at(p, at) == Err::<
                (Seq<char>, nat),
                ProtoError,
            >(ProtoError::Overrun)
            &&& text_at(p, (p.len() - 3) as nat) == Err::<(Seq<char>, nat), ProtoError>(
                ProtoError::Truncated,
            )
        }),
{
    let p = front + be_bytes(said, 4) + text + back;
    let at = front.len() as int;
    lemma_byte_caps();
    law_be_round_trip(said, 4);
    assert(p.subrange(at, at + 4) =~= be_bytes(said, 4));
    if said == text.len() {
        assert(p.subrange(at + 4, at + 4 + said) =~= text);
    }
}

/// A text of which a byte is missing at the end is not read.
proof fn lemma_text_cut(s: Seq<u8>, have: nat, at: nat, t: Seq<char>, end: nat)
    requires
        text_at(s, at) == Ok::<(Seq<char>, nat), ProtoError>((t, end)),
        have <= s.len(),
    ensures
        have < end ==> text_at(s.take(have as int), at) is Err,
        have >= end ==> text_at(s.take(have as int), at) == text_at(s, at),
{
    let c = s.take(have as int);
    if at + 4 <= have {
        assert(c.subrange(at as int, at as int + 4) =~= s.subrange(at as int, at as int + 4));
        if have >= end {
            assert(c.subrange(at as int + 4, end as int) =~= s.subrange(at as int + 4, end as int));
        }
    }
}

proof fn lemma_uint_cut(s: Seq<u8>, have: nat, at: nat, n: nat)
    requires
        have <= s.len(),
    ensures
        have < at + n ==> uint_at(s.take(have as int), at, n) is Err,
        have >= at + n ==> uint_at(s.take(have as int), at, n) == uint_at(s, at, n),
{
    if have >= at + n {
        assert(s.take(have as int).subrange(at as int, (at + n) as int) =~= s.subrange(
            at as int,
            (at + n) as int,
        ));
    }
}

/// No part of a record to be stored is taken for one: with any number of bytes missing at the
/// end of the frame it is refused.
pub proof fn law_cut_insert(i: InsertModel, have: nat)
    requires
        text_fits(i.key),
        text_fits(i.value),
        have < client_frame(ClientModel::Insert(i)).len(),
    ensures
        client_of(client_frame(ClientModel::Insert(i)).take(have as int)) is Err,
{
    let f = client_frame(ClientModel::Insert(i));
    if have > 0 {
        let n = (have - 1) as nat;
        let p = f.skip(1);
        let k = encode_utf8(i.key);
        let v = encode_utf8(i.value);
        law_insert_layout(i);
        assert(f.take(have as int).skip(1) =~= p.take(n as int));
        lemma_uint_cut(p, n, 0, 8);
        lemma_uint_cut(p, n, 8, 8);
        lemma_text_part(p, 16, i.key, f);
        lemma_text_cut(p, n, 16, i.key, 20 + k.len());
        lemma_text_part(p, 20 + k.len(), i.value, f);
        lemma_text_cut(p, n, 20 + k.len(), i.value, 24 + k.len() + v.len());
    }
}

/// No part of a query is taken for one.
pub proof fn law_cut_range(r: RangeModel, have: nat)
    requires
        text_fits(r.key),
        text_fits(r.filter),
        have < client_frame(ClientModel::Range(r)).len(),
    ensures
        client_of(client_frame(ClientModel::Range(r)).take(have as int)) is Err,
{
    let f = client_frame(ClientModel::Range(r));
    if have > 0 {
        let n = (have - 1) as nat;
        let p = f.skip(1);
        let k = encode_utf8(r.key);
        let v = encode_utf8(r.filter);
        law_range_layout(r);
        assert(f.take(have as int).skip(1) =~= p.take(n as int));
        lemma_uint_cut(p, n, 0, 8);
        lemma_text_part(p, 8, r.key, f);
        lemma_text_cut(p, n, 8, r.key, 12 + k.len());
        lemma_uint_cut(p, n, 12 + k.len(), 8);
        lemma_uint_cut(p, n, 20 + k.len(), 8);
        lemma_text_part(p, 28 + k.len(), r.filter, f);
        lemma_text_cut(p, n, 28 + k.len(), r.filter, 32 + k.len() + v.len());
    }
}

/// No part of a stored record is taken for one.
pub proof fn law_cut_record(m: RecordModel, have: nat)
    requires
        text_fits(m.key),
        text_fits(m.value),
        have < server_frame(ServerModel::RangeRecord(m)).len(),
    ensures
        server_of(server_frame(ServerModel::RangeRecord(m)).take(have as int)) is Err,
{
    let f = server_frame(ServerModel::RangeRecord(m));
    if have > 0 {
        let n = (have - 1) as nat;
        let p = f.skip(1);
        let k = encode_utf8(m.key);
        let v = encode_utf8(m.value);
        law_record_layout(m);
        assert(f.take(have as int).skip(1) =~= p.take(n as int));
        lemma_uint_cut(p, n, 0, 8);
        lemma_uint_cut(p, n, 8, 8);
        lemma_uint_cut(p, n, 16, 8);
        lemma_text_part(p, 24, m.key, f);
        lemma_text_cut(p, n, 24, m.key, 28 + k.len());
        lemma_text_part(p, 28 + k.len(), m.value, f);
        lemma_text_cut(p, n, 28 + k.len(), m.value, 32 + k.len() + v.len());
    }
}

/// No part of an error or of the metrics is taken for the whole.
pub proof fn law_cut_text(e: Seq<char>, have: nat)
    requires
        text_fits(e),
        have < 5 + encode_utf8(e).len(),
    ensures
        server_of(server_frame(ServerModel::Error(e)).take(have as int)) is Err,
        server_of(server_frame(ServerModel::Metrics(e)).take(have as int)) is Err,
{
    law_plain_layout(e);
    let f = server_frame(ServerModel::Error(e));
    let g = server_frame(ServerModel::Metrics(e));
    if have > 0 {
        let n = (have - 1) as nat;
        let p = f.skip(1);
        assert(f.take(have as int).skip(1) =~= p.take(n as int));
        assert(g.take(have as int).skip(1) =~= p.take(n as int));
        assert(f.subrange(5, 5 + encode_utf8(e).len() as int) =~= f.skip(5));
        lemma_text_part(p, 0, e, f);
        lemma_text_cut(p, n, 0, e, 4 + encode_utf8(e).len());
    }
}

proof fn lemma_text_part(p: Seq<u8>, at: nat, s: Seq<char>, f: Seq<u8>)
    requires
        f.len() >= 1,
        p == f.skip(1),
        at + 4 + encode_utf8(s).len() <= p.len(),
        be_nat(f.subrange(at as int + 1, at as int + 5)) == encode_utf8(s).len(),
        f.subrange(at as int + 5, at as int + 5 + encode_utf8(s).len()) == encode_utf8(s),
    ensures
        text_at(p, at) == Ok::<(Seq<char>, nat), ProtoError>((s, at + 4 + encode_utf8(s).len())),
{
    let b = encode_utf8(s);
    assert(p.subrange(at as int, at as int + 4) =~= f.subrange(at as int + 1, at as int + 5));
    assert(p.subrange(at as int + 4, at as int + 4 + b.len()) =~= f.subrange(at as int + 5, at as int + 5 + b.len()));
    encode_utf8_valid_utf8(s);
    encode_utf8_decode_utf8(s);
}

/// As long as fewer bytes are there than a message says that it has, nothing is taken and
/// nothing is lost; what follows a message does not change it.
pub proof fn law_message_waits(b: Seq<u8>, more: Seq<u8>)
    ensures
        b.len() < 4 ==> decode_client(b) == Ok::<Option<ClientModel>, ProtoError>(None)
            && decode_server(b) == Ok::<Option<ServerModel>, ProtoError>(None) && rest_of(b) == b,
        b.len() >= 4 && b.len() < 4 + be_nat(b.subrange(0, 4)) ==> decode_client(b) == Ok::<
            Option<ClientModel>,
            ProtoError,
        >(None) && decode_server(b) == Ok::<Option<ServerModel>, ProtoError>(None) && rest_of(b)
            == b,
        b.len() >= 4 && b.len() >= 4 + be_nat(b.subrange(0, 4)) ==> {
            &&& decode_client(b) != Ok::<Option<ClientModel>, ProtoError>(None)
            &&& decode_server(b) != Ok::<Option<ServerModel>, ProtoError>(None)
            &&& decode_client(b + more) == decode_client(b)
            &&& decode_server(b + more) == decode_server(b)
            &&& rest_of(b) == b.skip(4 + be_nat(b.subrange(0, 4)) as int)
            &&& rest_of(b + more) == rest_of(b) + more
        },
{
    if b.len() >= 4 && b.len() >= 4 + be_nat(b.subrange(0, 4)) {
        let n = 4 + be_nat(b.subrange(0, 4)) as int;
        let c = b + more;
        assert(c.subrange(0, 4) =~= b.subrange(0, 4));
        assert(message_len(c) == message_len(b));
        assert(c.subrange(4, n) =~= b.subrange(4, n));
        assert(c.skip(n) =~= b.skip(n) + more);
    }
}

/// A stored record is taken apart into just the fields that it was made of.
pub proof fn law_record_taken_apart(
    rec: crate::storage::record::Record,
    r: Result<Record, RecordError>,
    source_id: i64,
    ts: i64,
    seq: u64,
    key: Seq<char>,
    value: Seq<char>,
)
    requires
        call_ensures(Record::try_from, (&rec,), r),
        rec@ == record_bytes(source_id, ts, seq, encode_utf8(key), encode_utf8(value)),
        encode_utf8(key).len() <= usize::MAX,
        encode_utf8(value).len() <= usize::MAX,
    ensures
        r matches Ok(m) && m.source_id == source_id && m.ts == ts && m.seq == seq && m.key@ == key
            && m.value@ == value,
{
    law_stored_record_told(source_id, ts, seq, key, value);
}

/// What a client writes the server reads, whatever else stands in its buffer behind it.
pub proof fn law_client_to_server(
    client: &mut ClientCodec,
    server: &mut ServerCodec,
    msg: ClientMessage,
    out: &mut BytesMut,
    src: &mut BytesMut,
    rest: Seq<u8>,
    r: Result<Option<ClientMessage>, ProtoError>,
)
    requires
        client_fits(msg@),
        call_ensures(ClientCodec::encode, (client, msg, out), ()),
        call_ensures(ServerCodec::decode, (server, src), r),
        buffered(*old(out)).len() == 0,
        buffered(*old(src)) == buffered(*final(out)) + rest,
    ensures
        r matches Ok(Some(m)) && m@ == msg@,
        buffered(*final(src)) == rest,
{
    assert(buffered(*old(out)) =~= Seq::<u8>::empty());
    assert(buffered(*final(out)) =~= delimited(client_frame(msg@)));
    law_client_round_trip(msg@, rest);
}

/// What the server writes a client reads, whatever else stands in its buffer behind it.
pub proof fn law_server_to_client(
    server: &mut ServerCodec,
    client: &mut ClientCodec,
    msg: ServerMessage,
    out: &mut BytesMut,
    src: &mut BytesMut,
    rest: Seq<u8>,
    r: Result<Option<ServerMessage>, ProtoError>,
)
    requires
        server_fits(msg@),
        call_ensures(ServerCodec::encode, (server, msg, out), ()),
        call_ensures(ClientCodec::decode, (client, src), r),
        buffered(*old(out)).len() == 0,
        buffered(*old(src)) == buffered(*final(out)) + rest,
    ensures
        r matches Ok(Some(m)) && m@ == msg@,
        buffered(*final(src)) == rest,
{
    assert(buffered(*old(out)) =~= Seq::<u8>::empty());
    assert(buffered(*final(out)) =~= delimited(server_frame(msg@)));
    law_server_round_trip(msg@, rest);
}

/// What a message says is what its fields hold, each under its own name.
pub proof fn law_message_views(
    i: Insert,
    r: Range,
    m: Record,
    b: BatchInsert,
    k: int,
    text: String,
)
    ensures
        i@.source_id == i.source_id && i@.ts == i.ts && i@.key == i.key@ && i@.value == i.value@,
        r@.source_id == r.source_id && r@.key == r.key@ && r@.start_ts == r.start_ts && r@.end_ts
            == r.end_ts && r@.filter == r.filter@,
        m@.source_id == m.source_id && m@.ts == m.ts && m@.seq == m.seq && m@.key == m.key@
            && m@.value == m.value@,
        ClientMessage::Insert(i)@ == ClientModel::Insert(i@),
        ClientMessage::Range(r)@ == ClientModel::Range(r@),
        ClientMessage::BatchInsert(b)@ matches ClientModel::BatchInsert(ms) && ms.len()
            == b.records@.len() && (0 <= k < ms.len() ==> ms[k] == b.records@[k]@),
        ClientMessage::Metrics@ == ClientModel::Metrics,
        ClientMessage::Ping@ == ClientModel::Ping,
        ServerMessage::InsertOk@ == ServerModel::InsertOk,
        ServerMessage::RangeRecord(m)@ == ServerModel::RangeRecord(m@),
        ServerMessage::RangeEnd@ == ServerModel::RangeEnd,
        ServerMessage::Metrics(text)@ == ServerModel::Metrics(text@),
        ServerMessage::Pong@ == ServerModel::Pong,
        ServerMessage::Error(text)@ == ServerModel::Error(text@),
{
}

} // verus!
