//! Log records: one entry of a table as one string of bytes.
use std::cmp::Ordering;
use vstd::prelude::*;
use vstd::slice::slice_subrange;
use vstd::utf8::{decode_utf8, encode_utf8, valid_utf8};

use crate::codec::{
    be_bytes, be_nat, bits_of_i64, bytes_before, bytes_lt, get_be, i64_bits, i64_from_bits,
    i64_of_bits, law_be_round_trip, law_bytes_lt_total, law_bytes_lt_transitive,
    law_i64_bits_round_trip, lemma_be_bytes_len, lemma_byte_caps, put_be,
};
use crate::text::{checked_text, fault_message, text, utf8_fault, Utf8Fault};

verus! {

/// Why a field could not be taken out of a record.
#[derive(Clone, Copy, Debug, PartialEq, Eq, Structural)]
pub enum RecordError {
    /// There are fewer than the eight bytes of the source id.
    SourceId,
    /// The record ends before its timestamp does.
    Timestamp,
    /// The record ends before its sequence number does.
    SeqNum,
    /// The record ends before the length of its key does.
    KeyLength,
    /// The record ends before its key does.
    KeyContents,
    /// The record ends before the length of its value does.
    ValueLength,
    /// The record ends before its value does.
    ValueContents,
    /// All fields were asked for and the three leading integers are not complete.
    AllIntegers,
    /// All fields were asked for and the length of the key is not complete.
    AllKeyLength,
    /// All fields were asked for and the key is not complete.
    AllKeyContents,
    /// All fields were asked for and the length of the value is not complete.
    AllValueLength,
    /// All fields were asked for and the value is not complete.
    AllValueContents,
    /// The key or the value is not UTF-8.
    Utf8(Utf8Fault),
}

/// What is told of a field that could not be taken out of a record.
pub open spec fn record_message(e: RecordError) -> Seq<char> {
    match e {
        RecordError::SourceId => "record.extract: not enough bytes for source_id"@,
        RecordError::Timestamp => "record.extract: not enough bytes for timestamp"@,
        RecordError::SeqNum => "record.extract: not enough bytes for seq_num"@,
        RecordError::KeyLength => "record.extract: not enough bytes for key length"@,
        RecordError::KeyContents => "record.extract: not enough bytes for key contents"@,
        RecordError::ValueLength => "record.extract: not enough bytes for value length"@,
        RecordError::ValueContents => "record.extract: not enough bytes for value contents"@,
        RecordError::AllIntegers => "record.extract_all: not enough bytes for integer fields"@,
        RecordError::AllKeyLength => "record.extract_all: not enough bytes for key length"@,
        RecordError::AllKeyContents => "record.extract_all: not enough bytes for key contents"@,
        RecordError::AllValueLength => "record.extract_all: not enough bytes for value length"@,
        RecordError::AllValueContents => "record.extract_all: not enough bytes for value contents"@,
        RecordError::Utf8(f) => fault_message(f),
    }
}

impl RecordError {
    /// What is told of a field that could not be taken out of a record.
    pub fn message(&self) -> (s: String)
        ensures
            s@ == record_message(*self),
    {
        match self {
            RecordError::SourceId => text("record.extract: not enough bytes for source_id"),
            RecordError::Timestamp => text("record.extract: not enough bytes for timestamp"),
            RecordError::SeqNum => text("record.extract: not enough bytes for seq_num"),
            RecordError::KeyLength => text("record.extract: not enough bytes for key length"),
            RecordError::KeyContents => text("record.extract: not enough bytes for key contents"),
            RecordError::ValueLength => text("record.extract: not enough bytes for value length"),
            RecordError::ValueContents => text(
                "record.extract: not enough bytes for value contents",
            ),
            RecordError::AllIntegers => text(
                "record.extract_all: not enough bytes for integer fields",
            ),
            RecordError::AllKeyLength => text(
                "record.extract_all: not enough bytes for key length",
            ),
            RecordError::AllKeyContents => text(
                "record.extract_all: not enough bytes for key contents",
            ),
            RecordError::AllValueLength => text(
                "record.extract_all: not enough bytes for value length",
            ),
            RecordError::AllValueContents => text(
                "record.extract_all: not enough bytes for value contents",
            ),
            RecordError::Utf8(f) => f.message(),
        }
    }
}

/// One entry of the tables as a byte vector:
///
/// `[source_id: i64][timestamp: i64][seq_num: u64][key_len: u64][key][value_len: u64][value]`
///
/// with the integers big-endian.
///
/// - `source_id` is the id of the client that produced the log
/// - `timestamp` is the unix timestamp in nanoseconds
/// - `seq_num` is the global monotonic revision number issued by the storage engine
/// - `key` and `value` are the log's key and value
#[derive(Debug)]
pub struct Record(Vec<u8>);

impl View for Record {
    type V = Seq<u8>;

    closed spec fn view(&self) -> Seq<u8> {
        self.0@
    }
}

/// The bytes of a record with the given fields.
pub open spec fn record_bytes(
    source_id: i64,
    timestamp: i64,
    seq_num: u64,
    key: Seq<u8>,
    value: Seq<u8>,
) -> Seq<u8> {
    be_bytes(i64_bits(source_id), 8) + be_bytes(i64_bits(timestamp), 8) + be_bytes(
        seq_num as nat,
        8,
    ) + be_bytes(key.len(), 8) + key + be_bytes(value.len(), 8) + value
}

/// The bit pattern of the source id of the record `b`.
pub open spec fn source_bits(b: Seq<u8>) -> nat {
    be_nat(b.subrange(0, 8))
}

/// The bit pattern of the timestamp of the record `b`.
pub open spec fn time_bits(b: Seq<u8>) -> nat {
    be_nat(b.subrange(8, 16))
}

/// The source id of the record `b`.
pub open spec fn source_of(b: Seq<u8>) -> i64 {
    i64_of_bits(source_bits(b))
}

/// The timestamp of the record `b`.
pub open spec fn time_of(b: Seq<u8>) -> i64 {
    i64_of_bits(time_bits(b))
}

/// The sequence number of the record `b`.
pub open spec fn seq_of(b: Seq<u8>) -> nat {
    be_nat(b.subrange(16, 24))
}

/// How long the record `b` says its key is.
pub open spec fn key_len(b: Seq<u8>) -> nat {
    be_nat(b.subrange(24, 32))
}

/// Whether the record `b` holds the whole of its key.
pub open spec fn has_key(b: Seq<u8>) -> bool {
    b.len() >= 32 && b.len() >= 32 + key_len(b)
}

/// The key of the record `b`.
pub open spec fn key_of(b: Seq<u8>) -> Seq<u8> {
    b.subrange(32, 32 + key_len(b) as int)
}

/// How long the record `b` says its value is.
pub open spec fn value_len(b: Seq<u8>) -> nat {
    be_nat(b.subrange(32 + key_len(b) as int, 40 + key_len(b) as int))
}

/// Whether the record `b` holds the whole of its key and the length of its value.
pub open spec fn has_value_len(b: Seq<u8>) -> bool {
    has_key(b) && b.len() >= 40 + key_len(b)
}

/// Whether the record `b` holds the whole of its key and of its value.
pub open spec fn has_value(b: Seq<u8>) -> bool {
    has_value_len(b) && b.len() >= 40 + key_len(b) + value_len(b)
}

/// The value of the record `b`.
pub open spec fn value_of(b: Seq<u8>) -> Seq<u8> {
    b.subrange(40 + key_len(b) as int, 40 + key_len(b) as int + value_len(b) as int)
}

/// The order of records: by source id, timestamp, sequence number and key, in this order.
pub open spec fn rec_lt(a: Seq<u8>, b: Seq<u8>) -> bool {
    ||| source_of(a) < source_of(b)
    ||| source_of(a) == source_of(b) && time_of(a) < time_of(b)
    ||| source_of(a) == source_of(b) && time_of(a) == time_of(b) && seq_of(a) < seq_of(b)
    ||| source_of(a) == source_of(b) && time_of(a) == time_of(b) && seq_of(a) == seq_of(b)
        && bytes_lt(key_of(a), key_of(b))
}

/// Whether two records have the same place in the order: all but the value agrees.
pub open spec fn rec_eq(a: Seq<u8>, b: Seq<u8>) -> bool {
    &&& source_of(a) == source_of(b)
    &&& time_of(a) == time_of(b)
    &&& seq_of(a) == seq_of(b)
    &&& key_of(a) == key_of(b)
}

/// Why `extract_key` fails on the record `b`, if it does.
pub open spec fn key_error(b: Seq<u8>) -> Option<RecordError> {
    if b.len() < 32 {
        Some(RecordError::KeyLength)
    } else if !has_key(b) {
        Some(RecordError::KeyContents)
    } else {
        None
    }
}

/// Why `extract_value` fails on the record `b`, if it does.
pub open spec fn value_error(b: Seq<u8>) -> Option<RecordError> {
    if key_error(b) is Some {
        key_error(b)
    } else if !has_value_len(b) {
        Some(RecordError::ValueLength)
    } else if !has_value(b) {
        Some(RecordError::ValueContents)
    } else {
        None
    }
}

/// Why the fields of the record `b` up to its key cannot be taken out, if they cannot.
pub open spec fn head_error(b: Seq<u8>) -> Option<RecordError> {
    if b.len() < 24 {
        Some(RecordError::AllIntegers)
    } else if b.len() < 32 {
        Some(RecordError::AllKeyLength)
    } else if !has_key(b) {
        Some(RecordError::AllKeyContents)
    } else {
        None
    }
}

/// Why the fields of the record `b` cannot all be taken out as bytes, if they cannot.
pub open spec fn fields_error(b: Seq<u8>) -> Option<RecordError> {
    if head_error(b) is Some {
        head_error(b)
    } else if !has_value_len(b) {
        Some(RecordError::AllValueLength)
    } else if !has_value(b) {
        Some(RecordError::AllValueContents)
    } else {
        None
    }
}

/// Why `extract_all_fields` fails on the record `b`, if it does.
pub open spec fn all_fields_error(b: Seq<u8>) -> Option<RecordError> {
    if head_error(b) is Some {
        head_error(b)
    } else if !valid_utf8(key_of(b)) {
        Some(RecordError::Utf8(utf8_fault(key_of(b))))
    } else if fields_error(b) is Some {
        fields_error(b)
    } else if !valid_utf8(value_of(b)) {
        Some(RecordError::Utf8(utf8_fault(value_of(b))))
    } else {
        None
    }
}

pub proof fn lemma_record_len(
    source_id: i64,
    timestamp: i64,
    seq_num: u64,
    key: Seq<u8>,
    value: Seq<u8>,
)
    ensures
        record_bytes(source_id, timestamp, seq_num, key, value).len() == 40 + key.len()
            + value.len(),
{
    lemma_be_bytes_len(i64_bits(source_id), 8);
    lemma_be_bytes_len(i64_bits(timestamp), 8);
    lemma_be_bytes_len(seq_num as nat, 8);
    lemma_be_bytes_len(key.len(), 8);
    lemma_be_bytes_len(value.len(), 8);
}

/// Every field of a record comes back out of it as it was put in.
pub proof fn law_record_round_trip(
    source_id: i64,
    timestamp: i64,
    seq_num: u64,
    key: Seq<u8>,
    value: Seq<u8>,
)
    requires
        key.len() <= usize::MAX,
        value.len() <= usize::MAX,
    ensures
        ({
            let b = record_bytes(source_id, timestamp, seq_num, key, value);
            &&& b.len() == 40 + key.len() + value.len()
            &&& source_bits(b) == i64_bits(source_id)
            &&& time_bits(b) == i64_bits(timestamp)
            &&& source_of(b) == source_id
            &&& time_of(b) == timestamp
            &&& seq_of(b) == seq_num
            &&& has_value(b)
            &&& key_of(b) == key
            &&& value_of(b) == value
        }),
{
    let b = record_bytes(source_id, timestamp, seq_num, key, value);
    lemma_byte_caps();
    law_i64_bits_round_trip(source_id, 0);
    law_i64_bits_round_trip(timestamp, 0);
    law_be_round_trip(i64_bits(source_id), 8);
    law_be_round_trip(i64_bits(timestamp), 8);
    law_be_round_trip(seq_num as nat, 8);
    law_be_round_trip(key.len(), 8);
    law_be_round_trip(value.len(), 8);
    let k = key.len() as int;
    assert(b.subrange(0, 8) =~= be_bytes(i64_bits(source_id), 8));
    assert(b.subrange(8, 16) =~= be_bytes(i64_bits(timestamp), 8));
    assert(b.subrange(16, 24) =~= be_bytes(seq_num as nat, 8));
    assert(b.subrange(24, 32) =~= be_bytes(key.len(), 8));
    assert(b.subrange(32, 32 + k) =~= key);
    assert(b.subrange(32 + k, 40 + k) =~= be_bytes(value.len(), 8));
    assert(b.subrange(40 + k, 40 + k + value.len() as int) =~= value);
}

/// Of two records exactly one comes first, or they have the same place.
pub proof fn law_record_order_total(a: Seq<u8>, b: Seq<u8>)
    ensures
        rec_lt(a, b) || rec_lt(b, a) || rec_eq(a, b),
        !(rec_lt(a, b) && rec_lt(b, a)),
        !(rec_lt(a, b) && rec_eq(a, b)),
        !(rec_lt(b, a) && rec_eq(a, b)),
{
    law_bytes_lt_total(key_of(a), key_of(b));
}

/// The order of records is transitive, and records with the same place stand in the same
/// relation to any third one.
pub proof fn law_record_order_transitive(a: Seq<u8>, b: Seq<u8>, c: Seq<u8>)
    ensures
        rec_lt(a, b) && rec_lt(b, c) ==> rec_lt(a, c),
        rec_eq(a, b) && rec_lt(b, c) ==> rec_lt(a, c),
        rec_lt(a, b) && rec_eq(b, c) ==> rec_lt(a, c),
        rec_eq(a, b) && rec_eq(b, c) ==> rec_eq(a, c),
{
    if bytes_lt(key_of(a), key_of(b)) && bytes_lt(key_of(b), key_of(c)) {
        law_bytes_lt_transitive(key_of(a), key_of(b), key_of(c));
    }
}

impl Record {
    /// The record with the given fields.
    pub fn from_raw_parts(
        source_id: i64,
        timestamp: i64,
        seq_num: u64,
        key: &str,
        value: &str,
    ) -> (r: Self)
        ensures
            r@ == record_bytes(
                source_id,
                timestamp,
                seq_num,
                encode_utf8(key@),
                encode_utf8(value@),
            ),
    {
        let k = key.as_bytes();
        let w = value.as_bytes();
        let mut v: Vec<u8> = Vec::new();
        put_be(&mut v, bits_of_i64(source_id), 8);
        put_be(&mut v, bits_of_i64(timestamp), 8);
        put_be(&mut v, seq_num, 8);
        put_be(&mut v, k.len() as u64, 8);
        v.extend_from_slice(k);
        put_be(&mut v, w.len() as u64, 8);
        v.extend_from_slice(w);
        let r = Record(v);
        assert(r@ =~= record_bytes(
            source_id,
            timestamp,
            seq_num,
            encode_utf8(key@),
            encode_utf8(value@),
        ));
        r
    }

    /// The record with the given bytes, whatever they are.
    pub fn from_vec(bytes: Vec<u8>) -> (r: Self)
        ensures
            r@ == bytes@,
    {
        Record(bytes)
    }

    /// The record's bytes.
    pub fn as_bytes(&self) -> (s: &[u8])
        ensures
            s@ == self@,
    {
        self.0.as_slice()
    }

    /// How many bytes the record has.
    pub fn len(&self) -> (n: usize)
        ensures
            n == self@.len(),
    {
        self.0.len()
    }

    /// The record's source id.
    pub fn extract_source_id(&self) -> (r: Result<i64, RecordError>)
        ensures
            r is Err <==> self@.len() < 8,
            r matches Err(e) ==> e == RecordError::SourceId,
            r matches Ok(i) ==> i == source_of(self@),
    {
        if self.0.len() < 8 {
            return Err(RecordError::SourceId);
        }
        Ok(i64_from_bits(get_be(self.0.as_slice(), 0, 8)))
    }

    /// The record's timestamp.
    pub fn extract_timestamp(&self) -> (r: Result<i64, RecordError>)
        ensures
            r is Err <==> self@.len() < 16,
            r matches Err(e) ==> e == RecordError::Timestamp,
            r matches Ok(i) ==> i == time_of(self@),
    {
        if self.0.len() < 16 {
            return Err(RecordError::Timestamp);
        }
        Ok(i64_from_bits(get_be(self.0.as_slice(), 8, 8)))
    }

    /// The record's sequence number.
    pub fn extract_seq_num(&self) -> (r: Result<u64, RecordError>)
        ensures
            r is Err <==> self@.len() < 24,
            r matches Err(e) ==> e == RecordError::SeqNum,
            r matches Ok(n) ==> n == seq_of(self@),
    {
        if self.0.len() < 24 {
            return Err(RecordError::SeqNum);
        }
        Ok(get_be(self.0.as_slice(), 16, 8))
    }

    /// Where the record's key ends, if the record holds the whole of it.
    fn key_end(&self) -> (r: Result<usize, RecordError>)
        ensures
            r matches Ok(e) ==> key_error(self@) is None && e == 32 + key_len(self@) && e
                <= self@.len(),
            r matches Err(e) ==> key_error(self@) == Some(e),
    {
        let n: usize = self.0.len();
        if n < 32 {
            return Err(RecordError::KeyLength);
        }
        let len: u64 = get_be(self.0.as_slice(), 24, 8);
        if len > (n - 32) as u64 {
            return Err(RecordError::KeyContents);
        }
        Ok(32 + len as usize)
    }

    /// Where the record's value begins and ends, if the record holds the whole of it.
    fn value_span(&self) -> (r: Result<(usize, usize), RecordError>)
        ensures
            r matches Ok((s, e)) ==> value_error(self@) is None && s == 40 + key_len(self@) && e
                == s + value_len(self@) && e <= self@.len(),
            r matches Err(e) ==> value_error(self@) == Some(e),
    {
        let end: usize = match self.key_end() {
            Ok(end) => end,
            Err(e) => {
                return Err(e);
            },
        };
        let n: usize = self.0.len();
        if n - end < 8 {
            return Err(RecordError::ValueLength);
        }
        let len: u64 = get_be(self.0.as_slice(), end, 8);
        if len > (n - end - 8) as u64 {
            return Err(RecordError::ValueContents);
        }
        Ok((end + 8, end + 8 + len as usize))
    }

    /// The bytes of the record's key.
    pub fn extract_key(&self) -> (r: Result<&[u8], RecordError>)
        ensures
            r matches Ok(k) ==> key_error(self@) is None && k@ == key_of(self@),
            r matches Err(e) ==> key_error(self@) == Some(e),
    {
        match self.key_end() {
            Ok(end) => Ok(slice_subrange(self.0.as_slice(), 32, end)),
            Err(e) => Err(e),
        }
    }

    /// The bytes of the record's value.
    pub fn extract_value(&self) -> (r: Result<&[u8], RecordError>)
        ensures
            r matches Ok(v) ==> value_error(self@) is None && v@ == value_of(self@),
            r matches Err(e) ==> value_error(self@) == Some(e),
    {
        match self.value_span() {
            Ok((start, end)) => Ok(slice_subrange(self.0.as_slice(), start, end)),
            Err(e) => Err(e),
        }
    }

    /// The source id, timestamp, sequence number and key of the record.
    pub fn extract_all_fields_no_value_ref(&self) -> (r: Result<
        (i64, i64, u64, &[u8]),
        RecordError,
    >)
        ensures
            r matches Ok((source_id, timestamp, seq_num, key)) ==> (head_error(self@) is None
                && source_id == source_of(self@) && timestamp == time_of(self@) && seq_num
                == seq_of(self@) && key@ == key_of(self@)),
            r matches Err(e) ==> head_error(self@) == Some(e),
    {
        let s = self.0.as_slice();
        if s.len() < 24 {
            return Err(RecordError::AllIntegers);
        }
        let source_id: i64 = i64_from_bits(get_be(s, 0, 8));
        let timestamp: i64 = i64_from_bits(get_be(s, 8, 8));
        let seq_num: u64 = get_be(s, 16, 8);
        match self.key_end() {
            Ok(end) => Ok((source_id, timestamp, seq_num, slice_subrange(s, 32, end))),
            Err(RecordError::KeyLength) => Err(RecordError::AllKeyLength),
            Err(_) => Err(RecordError::AllKeyContents),
        }
    }

    /// All fields of the record, key and value as bytes.
    pub fn extract_all_fields_ref(&self) -> (r: Result<
        (i64, i64, u64, &[u8], &[u8]),
        RecordError,
    >)
        ensures
            r matches Ok((source_id, timestamp, seq_num, key, value)) ==> (fields_error(self@)
                is None && source_id == source_of(self@) && timestamp == time_of(self@) && seq_num
                == seq_of(self@) && key@ == key_of(self@) && value@ == value_of(self@)),
            r matches Err(e) ==> fields_error(self@) == Some(e),
    {
        let (source_id, timestamp, seq_num, key) = match self.extract_all_fields_no_value_ref() {
            Ok(head) => head,
            Err(e) => {
                return Err(e);
            },
        };
        match self.value_span() {
            Ok((start, end)) => Ok(
                (source_id, timestamp, seq_num, key, slice_subrange(self.0.as_slice(), start, end)),
            ),
            Err(RecordError::ValueLength) => Err(RecordError::AllValueLength),
            Err(_) => Err(RecordError::AllValueContents),
        }
    }

    /// All fields of the record, key and value as text.
    pub fn extract_all_fields(&self) -> (r: Result<(i64, i64, u64, String, String), RecordError>)
        ensures
            r matches Ok((source_id, timestamp, seq_num, key, value)) ==> (all_fields_error(self@)
                is None && source_id == source_of(self@) && timestamp == time_of(self@) && seq_num
                == seq_of(self@) && key@ == decode_utf8(key_of(self@)) && value@ == decode_utf8(
                value_of(self@),
            )),
            r matches Err(e) ==> all_fields_error(self@) == Some(e),
    {
        let (source_id, timestamp, seq_num, key) = match self.extract_all_fields_no_value_ref() {
            Ok(head) => head,
            Err(e) => {
                return Err(e);
            },
        };
        let key = match checked_text(key) {
            Ok(key) => key,
            Err(f) => {
                return Err(RecordError::Utf8(f));
            },
        };
        match self.extract_all_fields_ref() {
            Ok((_, _, _, _, value)) => match checked_text(value) {
                Ok(value) => Ok((source_id, timestamp, seq_num, key, value)),
                Err(f) => Err(RecordError::Utf8(f)),
            },
            Err(e) => Err(e),
        }
    }

    /// Whether the record can be ordered: it holds the whole of its key.
    pub fn is_comparable(&self) -> (r: bool)
        ensures
            r == has_key(self@),
    {
        self.key_end().is_ok()
    }

    /// How the record stands to `other` in the order of records.
    pub fn cmp(&self, other: &Self) -> (r: Ordering)
        requires
            has_key(self@),
            has_key(other@),
        ensures
            r == Ordering::Less <==> rec_lt(self@, other@),
            r == Ordering::Equal <==> rec_eq(self@, other@),
            r == Ordering::Greater <==> rec_lt(other@, self@),
    {
        proof {
            law_record_order_total(self@, other@);
        }
        if self.before(other) {
            Ordering::Less
        } else if other.before(self) {
            Ordering::Greater
        } else {
            Ordering::Equal
        }
    }

    /// Whether the record comes before `other` in the order of records.
    pub fn before(&self, other: &Self) -> (r: bool)
        requires
            has_key(self@),
            has_key(other@),
        ensures
            r == rec_lt(self@, other@),
    {
        let a = self.0.as_slice();
        let b = other.0.as_slice();
        let sa: i64 = i64_from_bits(get_be(a, 0, 8));
        let sb: i64 = i64_from_bits(get_be(b, 0, 8));
        if sa != sb {
            return sa < sb;
        }
        let ta: i64 = i64_from_bits(get_be(a, 8, 8));
        let tb: i64 = i64_from_bits(get_be(b, 8, 8));
        if ta != tb {
            return ta < tb;
        }
        let (qa, qb): (u64, u64) = (get_be(a, 16, 8), get_be(b, 16, 8));
        if qa != qb {
            return qa < qb;
        }
        match (self.extract_key(), other.extract_key()) {
            (Ok(ka), Ok(kb)) => bytes_before(ka, kb),
            _ => false,
        }
    }

    /// Whether the record has the same place in the order as `other`.
    pub fn same_place(&self, other: &Self) -> (r: bool)
        requires
            has_key(self@),
            has_key(other@),
        ensures
            r == rec_eq(self@, other@),
    {
        match self.cmp(other) {
            Ordering::Equal => true,
            _ => false,
        }
    }
}

impl Clone for Record {
    fn clone(&self) -> (r: Self)
        ensures
            r@ == self@,
    {
        Record(self.0.clone())
    }
}

} // verus!
