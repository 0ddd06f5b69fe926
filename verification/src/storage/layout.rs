//! What holds of the bytes that the store keeps: where the fields of a record, of a table and of
//! a log stand, and what is refused when bytes are missing.
use vstd::prelude::*;
use vstd::utf8::{encode_utf8, is_ascii_chars_encode_utf8, valid_utf8};

use crate::codec::{
    be_bytes, be_nat, bytes_lt, i64_bits, law_be_round_trip, law_i64_bits_round_trip,
    law_le_round_trip, le_bytes, le_nat, lemma_byte_caps, lemma_le_bytes_len,
};
use crate::storage::bloom::{
    bit_at, bloom_at, bloom_bytes, hash_input, probe, salt_one, salt_two, BloomError, BloomModel,
};
use crate::storage::compactor::{collected, large, latest, law_latest, same_moment};
use crate::storage::compaction::records_total;
use crate::storage::engine::{file_error, files_error, NamedFile, OpenError};
use crate::storage::frames::{frame, framed, lemma_framed_concat};
use crate::storage::index::{
    entries_at, entries_bytes, entries_sorted, entry_at, entry_before, entry_bytes, index_at,
    index_bytes, index_storable, law_index_round_trip, number_at, parts_at, seek_offset,
    IndexEntry, IndexError,
};
use crate::storage::iter::{range_error, RangeError};
use crate::storage::record::{
    all_fields_error, fields_error, has_key, head_error, key_error, key_of,
    law_record_round_trip, rec_eq, rec_lt, record_bytes, record_message, seq_of, source_of,
    time_of, value_error, RecordError,
};
use crate::storage::sorted::{all_keyed, strictly_sorted};
use crate::storage::sstable::{
    index_of, is_table_name, join_path, max_seq, numbered, record_error, table_bytes, table_name,
    table_name_id, write_error, SSTableMeta,
};
use crate::storage::wal::{active_name, counted_after, inactive_name, wal_dir};
use crate::text::{bad_len, decimal, fault_message, padded, valid_len, Utf8Fault};

verus! {

/// Where the fields of a record stand in its bytes.
pub proof fn law_record_fields_at(
    source_id: i64,
    ts: i64,
    seq: u64,
    key: Seq<u8>,
    value: Seq<u8>,
)
    requires
        key.len() <= usize::MAX,
        value.len() <= usize::MAX,
    ensures
        ({
            let b = record_bytes(source_id, ts, seq, key, value);
            let k = key.len() as int;
            let v = value.len() as int;
            &&& b.len() == 40 + k + v
            &&& be_nat(b.subrange(0, 8)) == i64_bits(source_id)
            &&& be_nat(b.subrange(8, 16)) == i64_bits(ts)
            &&& be_nat(b.subrange(16, 24)) == seq
            &&& be_nat(b.subrange(24, 32)) == k
            &&& b.subrange(32, 32 + k) == key
            &&& be_nat(b.subrange(32 + k, 40 + k)) == v
            &&& b.subrange(40 + k, 40 + k + v) == value
        }),
{
    let b = record_bytes(source_id, ts, seq, key, value);
    let k = key.len() as int;
    lemma_byte_caps();
    law_record_round_trip(source_id, ts, seq, key, value);
    law_be_round_trip(key.len(), 8);
    law_be_round_trip(value.len(), 8);
    law_be_round_trip(seq as nat, 8);
    law_i64_bits_round_trip(source_id, 0);
    law_i64_bits_round_trip(ts, 0);
    law_be_round_trip(i64_bits(source_id), 8);
    law_be_round_trip(i64_bits(ts), 8);
    assert(b.subrange(0, 8) =~= be_bytes(i64_bits(source_id), 8));
    assert(b.subrange(8, 16) =~= be_bytes(i64_bits(ts), 8));
    assert(b.subrange(16, 24) =~= be_bytes(seq as nat, 8));
    assert(b.subrange(24, 32) =~= be_bytes(key.len(), 8));
    assert(b.subrange(32, 32 + k) =~= key);
    assert(b.subrange(32 + k, 40 + k) =~= be_bytes(value.len(), 8));
    assert(b.subrange(40 + k, 40 + k + value.len() as int) =~= value);
}

/// Records come in the order of their sources, then of their times, then of their sequence
/// numbers, then of their keys; what they say does not matter. Two have the same place only
/// where all four are the same.
pub proof fn law_record_order_of_fields(
    a: (i64, i64, u64, Seq<u8>, Seq<u8>),
    b: (i64, i64, u64, Seq<u8>, Seq<u8>),
)
    requires
        a.3.len() <= usize::MAX && a.4.len() <= usize::MAX,
        b.3.len() <= usize::MAX && b.4.len() <= usize::MAX,
    ensures
        ({
            let x = record_bytes(a.0, a.1, a.2, a.3, a.4);
            let y = record_bytes(b.0, b.1, b.2, b.3, b.4);
            &&& a.0 < b.0 ==> rec_lt(x, y) && !rec_lt(y, x)
            &&& a.0 == b.0 && a.1 < b.1 ==> rec_lt(x, y) && !rec_lt(y, x)
            &&& a.0 == b.0 && a.1 == b.1 && a.2 < b.2 ==> rec_lt(x, y) && !rec_lt(y, x)
            &&& a.0 == b.0 && a.1 == b.1 && a.2 == b.2 ==> (rec_lt(x, y) <==> bytes_lt(a.3, b.3))
            &&& rec_eq(x, y) <==> a.0 == b.0 && a.1 == b.1 && a.2 == b.2 && a.3 == b.3
        }),
{
    law_record_round_trip(a.0, a.1, a.2, a.3, a.4);
    law_record_round_trip(b.0, b.1, b.2, b.3, b.4);
}

/// Of a record of which bytes are missing at the end, what is missing is told: the first field
/// that is not all there.
pub proof fn law_cut_record_refused(
    source_id: i64,
    ts: i64,
    seq: u64,
    key: Seq<u8>,
    value: Seq<u8>,
    have: nat,
)
    requires
        key.len() <= usize::MAX,
        value.len() <= usize::MAX,
        have < record_bytes(source_id, ts, seq, key, value).len(),
    ensures
        ({
            let c = record_bytes(source_id, ts, seq, key, value).take(have as int);
            let k = key.len();
            &&& have < 24 ==> fields_error(c) == Some(RecordError::AllIntegers)
            &&& 24 <= have < 32 ==> fields_error(c) == Some(RecordError::AllKeyLength)
            &&& 32 <= have < 32 + k ==> fields_error(c) == Some(RecordError::AllKeyContents)
            &&& 32 + k <= have < 40 + k ==> fields_error(c) == Some(RecordError::AllValueLength)
            &&& 40 + k <= have ==> fields_error(c) == Some(RecordError::AllValueContents)
            &&& have < 32 ==> key_error(c) == Some(RecordError::KeyLength)
            &&& 32 <= have < 32 + k ==> key_error(c) == Some(RecordError::KeyContents)
            &&& 32 + k <= have ==> key_error(c) is None && head_error(c) is None
            &&& have < 32 + k ==> value_error(c) == key_error(c)
            &&& 32 + k <= have < 40 + k ==> value_error(c) == Some(RecordError::ValueLength)
            &&& 40 + k <= have ==> value_error(c) == Some(RecordError::ValueContents)
        }),
{
    let b = record_bytes(source_id, ts, seq, key, value);
    let c = b.take(have as int);
    let k = key.len() as int;
    law_record_fields_at(source_id, ts, seq, key, value);
    if have >= 32 {
        assert(c.subrange(24, 32) =~= b.subrange(24, 32));
    }
    if have >= 40 + k {
        assert(c.subrange(32 + k, 40 + k) =~= b.subrange(32 + k, 40 + k));
    }
}

/// A record in a file is eight bytes that tell its length, the least significant first, and then
/// its bytes. Records follow each other with nothing between them.
pub proof fn law_framed_layout(b: Seq<u8>, s: Seq<Seq<u8>>, t: Seq<Seq<u8>>)
    requires
        b.len() <= u64::MAX,
    ensures
        frame(b).len() == 8 + b.len(),
        le_nat(frame(b).take(8)) == b.len(),
        frame(b).skip(8) == b,
        framed(seq![b]) == frame(b),
        framed(s + t) == framed(s) + framed(t),
        framed(Seq::empty()).len() == 0,
{
    lemma_byte_caps();
    law_le_round_trip(b.len(), 8);
    assert(frame(b).take(8) =~= le_bytes(b.len(), 8));
    assert(frame(b).skip(8) =~= b);
    assert(seq![b].drop_last() =~= Seq::<Seq<u8>>::empty());
    assert(framed(Seq::<Seq<u8>>::empty()) =~= Seq::<u8>::empty());
    assert(framed(seq![b]) =~= Seq::<u8>::empty() + frame(b));
    lemma_framed_concat(s, t);
}

/// A table is its records, its index, its filter, and then the places where the index and the
/// filter begin.
pub proof fn law_table_layout(s: Seq<Seq<u8>>, bloom: BloomModel)
    requires
        table_bytes(s, bloom).len() <= u64::MAX,
    ensures
        ({
            let file = table_bytes(s, bloom);
            let n = file.len() as int;
            let r = framed(s).len() as int;
            let i = index_bytes(index_of(s)).len() as int;
            let b = bloom_bytes(bloom).len() as int;
            &&& n == r + i + b + 16
            &&& file.subrange(0, r) == framed(s)
            &&& file.subrange(r, r + i) == index_bytes(index_of(s))
            &&& file.subrange(r + i, r + i + b) == bloom_bytes(bloom)
            &&& le_nat(file.subrange(n - 16, n - 8)) == r
            &&& le_nat(file.subrange(n - 8, n)) == r + i
        }),
{
    let file = table_bytes(s, bloom);
    let n = file.len() as int;
    let r = framed(s).len() as int;
    let i = index_bytes(index_of(s)).len() as int;
    let b = bloom_bytes(bloom).len() as int;
    lemma_byte_caps();
    lemma_le_bytes_len(r as nat, 8);
    lemma_le_bytes_len((r + i) as nat, 8);
    law_le_round_trip(r as nat, 8);
    law_le_round_trip((r + i) as nat, 8);
    assert(file.subrange(0, r) =~= framed(s));
    assert(file.subrange(r, r + i) =~= index_bytes(index_of(s)));
    assert(file.subrange(r + i, r + i + b) =~= bloom_bytes(bloom));
    assert(file.subrange(n - 16, n - 8) =~= le_bytes(r as nat, 8));
    assert(file.subrange(n - 8, n) =~= le_bytes((r + i) as nat, 8));
}

/// Where the fields of an entry of an index stand, and that an index is the number of its
/// entries and then the entries.
pub proof fn law_index_layout(es: Seq<IndexEntry>, e: IndexEntry)
    requires
        es.len() < u32::MAX,
        e.key.len() <= u32::MAX,
    ensures
        ({
            let b = entry_bytes(e);
            let k = e.key.len() as int;
            &&& b.len() == 36 + k
            &&& le_nat(b.subrange(0, 8)) == i64_bits(e.source_id)
            &&& le_nat(b.subrange(8, 16)) == i64_bits(e.timestamp)
            &&& le_nat(b.subrange(16, 24)) == e.seq_num
            &&& le_nat(b.subrange(24, 28)) == k
            &&& b.subrange(28, 28 + k) == e.key
            &&& le_nat(b.subrange(28 + k, 36 + k)) == e.offset
            &&& le_nat(index_bytes(es).take(4)) == es.len()
            &&& le_nat(index_bytes(es.push(e)).take(4)) == es.len() + 1
            &&& index_bytes(es.push(e)).skip(4) == index_bytes(es).skip(4) + b
            &&& es.len() == 0 ==> index_bytes(es).len() == 4
        }),
{
    let b = entry_bytes(e);
    let k = e.key.len() as int;
    let all = es.push(e);
    lemma_byte_caps();
    law_i64_bits_round_trip(e.source_id, 0);
    law_i64_bits_round_trip(e.timestamp, 0);
    law_le_round_trip(i64_bits(e.source_id), 8);
    law_le_round_trip(i64_bits(e.timestamp), 8);
    law_le_round_trip(e.seq_num as nat, 8);
    law_le_round_trip(e.key.len(), 4);
    law_le_round_trip(e.offset as nat, 8);
    law_le_round_trip(es.len(), 4);
    law_le_round_trip(all.len(), 4);
    assert(b.subrange(0, 8) =~= le_bytes(i64_bits(e.source_id), 8));
    assert(b.subrange(8, 16) =~= le_bytes(i64_bits(e.timestamp), 8));
    assert(b.subrange(16, 24) =~= le_bytes(e.seq_num as nat, 8));
    assert(b.subrange(24, 28) =~= le_bytes(e.key.len(), 4));
    assert(b.subrange(28, 28 + k) =~= e.key);
    assert(b.subrange(28 + k, 36 + k) =~= le_bytes(e.offset as nat, 8));
    assert(all.drop_last() =~= es);
    assert(index_bytes(es).take(4) =~= le_bytes(es.len(), 4));
    assert(index_bytes(all).take(4) =~= le_bytes(all.len(), 4));
    assert(index_bytes(es).skip(4) =~= entries_bytes(es));
    assert(index_bytes(all).skip(4) =~= entries_bytes(all));
}

/// The index of a table has an entry for the first record, and then for every sixteenth one.
pub proof fn law_index_density(s: Seq<Seq<u8>>)
    ensures
        16 * index_of(s).len() >= s.len(),
        s.len() > 0 ==> 16 * (index_of(s).len() - 1) < s.len(),
        s.len() == 0 ==> index_of(s).len() == 0,
    decreases s.len(),
{
    if s.len() > 0 {
        law_index_density(s.drop_last());
    }
}

/// Where the parts of a filter stand: how many bits it has, how many places each record has in
/// it, how many bytes follow, and those bytes.
pub proof fn law_bloom_layout(m: BloomModel)
    requires
        m.n_bits <= u64::MAX,
        m.n_hashes <= u64::MAX,
        m.bitmap.len() <= u64::MAX,
    ensures
        bloom_bytes(m).len() == 24 + m.bitmap.len(),
        le_nat(bloom_bytes(m).subrange(0, 8)) == m.n_bits,
        le_nat(bloom_bytes(m).subrange(8, 16)) == m.n_hashes,
        le_nat(bloom_bytes(m).subrange(16, 24)) == m.bitmap.len(),
        bloom_bytes(m).skip(24) == m.bitmap,
{
    lemma_byte_caps();
    law_le_round_trip(m.n_bits, 8);
    law_le_round_trip(m.n_hashes, 8);
    law_le_round_trip(m.bitmap.len(), 8);
    assert(bloom_bytes(m).subrange(0, 8) =~= le_bytes(m.n_bits, 8));
    assert(bloom_bytes(m).subrange(8, 16) =~= le_bytes(m.n_hashes, 8));
    assert(bloom_bytes(m).subrange(16, 24) =~= le_bytes(m.bitmap.len(), 8));
    assert(bloom_bytes(m).skip(24) =~= m.bitmap);
}

/// What is hashed for a record is its source, the least significant byte first, and its key.
/// So records of different sources or keys are told apart before they are hashed.
pub proof fn law_hash_input(source_id: i64, key: Seq<u8>)
    ensures
        hash_input(source_id, key).len() == 8 + key.len(),
        le_nat(hash_input(source_id, key).take(8)) == i64_bits(source_id),
        hash_input(source_id, key).skip(8) == key,
{
    lemma_byte_caps();
    law_i64_bits_round_trip(source_id, 0);
    law_le_round_trip(i64_bits(source_id), 8);
    assert(hash_input(source_id, key).take(8) =~= le_bytes(i64_bits(source_id), 8));
    assert(hash_input(source_id, key).skip(8) =~= key);
}

/// The first place of a record in a filter comes from its first hash, and each further one from
/// adding the second hash once more, without the carry out of 64 bits. All are in the filter.
pub proof fn law_probes(h1: u64, h2: u64, n_bits: nat, i: nat)
    requires
        n_bits > 0,
    ensures
        probe(h1, h2, n_bits, 0) == h1 as int % n_bits as int,
        probe(h1, h2, n_bits, i as int + 1) == probe(
            ((h1 + h2) % 0x1_0000_0000_0000_0000) as u64,
            h2,
            n_bits,
            i as int,
        ),
        0 <= probe(h1, h2, n_bits, i as int) < n_bits,
{
    let m = 0x1_0000_0000_0000_0000int;
    assert(0 * h2 == 0) by (nonlinear_arith);
    assert((h1 as int) % m == h1);
    let next = (h1 + h2) % m;
    assert((i + 1) * h2 == i * h2 + h2) by (nonlinear_arith);
    vstd::arithmetic::div_mod::lemma_add_mod_noop(h1 + h2, i * h2, m);
    vstd::arithmetic::div_mod::lemma_add_mod_noop(next, i * h2, m);
    vstd::arithmetic::div_mod::lemma_mod_twice(h1 + h2, m);
    vstd::arithmetic::div_mod::lemma_mod_bound((h1 + i * h2) % m, n_bits as int);
}

/// What is counted of a log goes up by the records and the bytes that are written.
pub proof fn law_log_counted(n: u64, m: u64, records: nat, bytes: nat)
    requires
        n + records <= u64::MAX,
        m + bytes <= u64::MAX,
    ensures
        counted_after(Some((n, m)), records, bytes) == Some(
            ((n + records) as u64, (m + bytes) as u64),
        ),
        counted_after(None, records, bytes) is None,
{
}

/// A range of times is refused where it ends before it starts, and otherwise where it starts
/// before zero; one that starts where it ends is none of these.
pub proof fn law_range_refused(start_ts: i64, end_ts: i64)
    ensures
        range_error(start_ts, end_ts) is None <==> 0 <= start_ts <= end_ts,
        end_ts < start_ts ==> range_error(start_ts, end_ts) == Some(RangeError::EndBeforeStart),
        start_ts <= end_ts && start_ts < 0 ==> range_error(start_ts, end_ts) == Some(
            RangeError::NegativeStart,
        ),
{
}

/// The highest sequence number is that of one of the records, and none has a higher one.
pub proof fn law_highest_number(s: Seq<Seq<u8>>)
    ensures
        forall|i: int|
            0 <= i < s.len() && s[i].len() >= 24 ==> seq_of(#[trigger] s[i]) <= max_seq(s),
        max_seq(s) > 0 ==> exists|i: int|
            0 <= i < s.len() && s[i].len() >= 24 && seq_of(#[trigger] s[i]) == max_seq(s),
    decreases s.len(),
{
    if s.len() > 0 {
        let front = s.drop_last();
        law_highest_number(front);
        assert forall|i: int| 0 <= i < s.len() && s[i].len() >= 24 implies seq_of(#[trigger] s[i])
            <= max_seq(s) by {
            if i < front.len() {
                assert(front[i] == s[i]);
            }
        }
        if max_seq(s) > 0 {
            if max_seq(s) == max_seq(front) {
                let i = choose|i: int|
                    0 <= i < front.len() && front[i].len() >= 24 && seq_of(#[trigger] front[i])
                        == max_seq(front);
                assert(s[i] == front[i]);
            } else {
                assert(seq_of(s[s.len() - 1]) == max_seq(s));
            }
        }
    }
}

/// As many records are numbered as have room for a sequence number.
pub proof fn law_numbered(s: Seq<Seq<u8>>)
    ensures
        numbered(s) == s.filter(|b: Seq<u8>| b.len() >= 24).len(),
    decreases s.len(),
{
    reveal(Seq::filter);
    if s.len() > 0 {
        law_numbered(s.drop_last());
    }
}

/// Records can be written to a table just where each has a source and a key, and the key of
/// every sixteenth, which goes into the index, is UTF-8.
pub proof fn law_writable(s: Seq<Seq<u8>>)
    ensures
        write_error(s) is None <==> forall|i: int|
            0 <= i < s.len() ==> s[i].len() >= 32 && has_key(#[trigger] s[i]) && (i % 16 == 0
                ==> valid_utf8(key_of(s[i]))),
    decreases s.len(),
{
    if s.len() > 0 {
        let front = s.drop_last();
        law_writable(front);
        let ok = |t: Seq<Seq<u8>>, i: int|
            t[i].len() >= 32 && has_key(t[i]) && (i % 16 == 0 ==> valid_utf8(key_of(t[i])));
        if write_error(s) is None {
            assert forall|i: int| 0 <= i < s.len() implies s[i].len() >= 32 && has_key(
                #[trigger] s[i],
            ) && (i % 16 == 0 ==> valid_utf8(key_of(s[i]))) by {
                if i < front.len() {
                    assert(has_key(front[i]));
                    assert(front[i] == s[i]);
                } else {
                    assert(record_error(s.last(), s.len() - 1) is None);
                }
            }
        }
        if forall|i: int|
            0 <= i < s.len() ==> s[i].len() >= 32 && has_key(#[trigger] s[i]) && (i % 16 == 0
                ==> valid_utf8(key_of(s[i]))) {
            assert forall|i: int| 0 <= i < front.len() implies front[i].len() >= 32 && has_key(
                #[trigger] front[i],
            ) && (i % 16 == 0 ==> valid_utf8(key_of(front[i]))) by {
                assert(has_key(s[i]));
            }
            assert(has_key(s[s.len() - 1]));
        }
    }
}

/// Of the records of one source, one time and one key a merge that keeps the latest keeps the
/// one with the highest sequence number, and no other; every other record it keeps.
pub proof fn law_latest_kept(s: Seq<Seq<u8>>)
    requires
        strictly_sorted(s),
        all_keyed(s),
    ensures
        strictly_sorted(latest(s)),
        forall|x: Seq<u8>| #[trigger]
            latest(s).contains(x) <==> s.contains(x) && forall|y: Seq<u8>| #[trigger]
                s.contains(y) && source_of(y) == source_of(x) && time_of(y) == time_of(x)
                    && key_of(y) == key_of(x) ==> seq_of(y) <= seq_of(x),
{
    law_latest(s);
    assert forall|x: Seq<u8>| #[trigger]
        latest(s).contains(x) <==> s.contains(x) && forall|y: Seq<u8>| #[trigger]
            s.contains(y) && source_of(y) == source_of(x) && time_of(y) == time_of(x) && key_of(y)
                == key_of(x) ==> seq_of(y) <= seq_of(x) by {
        crate::codec::law_bytes_lt_total(key_of(x), key_of(x));
        if latest(s).contains(x) {
            assert forall|y: Seq<u8>| #[trigger]
                s.contains(y) && source_of(y) == source_of(x) && time_of(y) == time_of(x)
                    && key_of(y) == key_of(x) implies seq_of(y) <= seq_of(x) by {
                assert(same_moment(y, x));
                assert(!rec_lt(x, y));
            }
        }
        if s.contains(x) && forall|y: Seq<u8>| #[trigger]
            s.contains(y) && source_of(y) == source_of(x) && time_of(y) == time_of(x) && key_of(y)
                == key_of(x) ==> seq_of(y) <= seq_of(x) {
            assert forall|y: Seq<u8>| #[trigger]
                s.contains(y) && same_moment(y, x) && key_of(y) == key_of(x) implies !rec_lt(
                x,
                y,
            ) by {}
        }
    }
}

/// The tables that are worth compacting are those whose files are larger than the limit, in
/// their order.
pub proof fn law_large_tables(tables: Seq<SSTableMeta>, limit: u64)
    ensures
        forall|k: int|
            0 <= k < large(tables, limit).len() ==> 0 <= #[trigger] large(tables, limit)[k]
                < tables.len() && tables[large(tables, limit)[k]].file_size > limit,
        forall|k: int, l: int|
            0 <= k < l < large(tables, limit).len() ==> #[trigger] large(tables, limit)[k]
                < #[trigger] large(tables, limit)[l],
        forall|i: int|
            0 <= i < tables.len() && (#[trigger] tables[i]).file_size > limit ==> large(
                tables,
                limit,
            ).contains(i),
    decreases tables.len(),
{
    if tables.len() > 0 {
        let front = tables.drop_last();
        law_large_tables(front, limit);
        let g = large(front, limit);
        let o = large(tables, limit);
        assert forall|i: int|
            0 <= i < tables.len() && (#[trigger] tables[i]).file_size > limit implies o.contains(
            i,
        ) by {
            if i < front.len() {
                assert(front[i] == tables[i]);
                let k = choose|k: int| 0 <= k < g.len() && g[k] == i;
                assert(o[k] == i);
            } else {
                assert(o[o.len() - 1] == i);
            }
        }
    }
}

/// So many of the large tables are taken as are asked for, the first ones.
pub proof fn law_collected(tables: Seq<SSTableMeta>, num_limit: u64, sz_limit: u64)
    requires
        num_limit > 0,
        large(tables, sz_limit).len() >= num_limit,
    ensures
        collected(tables, num_limit, sz_limit).len() == num_limit,
        forall|k: int|
            0 <= k < num_limit ==> tables[#[trigger] collected(
                tables,
                num_limit,
                sz_limit,
            )[k]].file_size > sz_limit,
        forall|i: int, k: int|
            0 <= i < tables.len() && (#[trigger] tables[i]).file_size > sz_limit && !collected(
                tables,
                num_limit,
                sz_limit,
            ).contains(i) && 0 <= k < num_limit ==> #[trigger] collected(
                tables,
                num_limit,
                sz_limit,
            )[k] < i,
{
    law_large_tables(tables, sz_limit);
    let l = large(tables, sz_limit);
    let c = collected(tables, num_limit, sz_limit);
    assert forall|i: int, k: int|
        0 <= i < tables.len() && (#[trigger] tables[i]).file_size > sz_limit && !c.contains(i) && 0
            <= k < num_limit implies #[trigger] c[k] < i by {
        let n = choose|n: int| 0 <= n < l.len() && l[n] == i;
        if n < num_limit {
            assert(c[n] == i);
        }
        assert(l[k] < l[n]);
    }
}

/// As many records are expected of a merge as the tables have together.
pub proof fn law_records_expected(tables: Seq<SSTableMeta>)
    ensures
        records_total(tables) == tables.fold_left(
            0,
            |sum: int, t: SSTableMeta| sum + t.num_records,
        ),
    decreases tables.len(),
{
    reveal_with_fuel(Seq::fold_left, 2);
    if tables.len() > 0 {
        law_records_expected(tables.drop_last());
    }
}

/// Looking a record up in an index that is in order gives the place of the first entry with its
/// source, time and key; where there is none, that of the last entry before it; and where there
/// is none of these either, the beginning.
pub proof fn law_seek(es: Seq<IndexEntry>, b: Seq<u8>, p: int, i: int)
    requires
        entries_sorted(es),
        parts_at(es, b, p),
    ensures
        0 <= i < es.len() && es[i].source_id == source_of(b) && es[i].timestamp == time_of(b)
            && es[i].key == key_of(b) && (i > 0 ==> !(es[i - 1].source_id == source_of(b) && es[i
            - 1].timestamp == time_of(b) && es[i - 1].key == key_of(b))) ==> seek_offset(es, b, p)
            == es[i].offset,
        (forall|j: int|
            0 <= j < es.len() ==> !((#[trigger] es[j]).source_id == source_of(b)
                && es[j].timestamp == time_of(b) && es[j].key == key_of(b))) ==> {
            &&& 0 <= i < es.len() && entry_before(es[i], source_of(b), time_of(b), key_of(b)) && (i
                + 1 < es.len() ==> !entry_before(
                es[i + 1],
                source_of(b),
                time_of(b),
                key_of(b),
            )) ==> seek_offset(es, b, p) == es[i].offset
            &&& (forall|j: int|
                0 <= j < es.len() ==> !entry_before(
                    #[trigger] es[j],
                    source_of(b),
                    time_of(b),
                    key_of(b),
                )) ==> seek_offset(es, b, p) == 0
        },
{
    let (s, t, k) = (source_of(b), time_of(b), key_of(b));
    crate::codec::law_bytes_lt_total(k, k);
    assert forall|j: int| 0 <= j < p implies entry_before(#[trigger] es[j], s, t, k) by {
        if j < p - 1 {
            lemma_entry_before_chain(es, j, p - 1, s, t, k);
        }
    }
    assert forall|j: int| p <= j < es.len() implies !entry_before(#[trigger] es[j], s, t, k) by {
        if j > p && entry_before(es[j], s, t, k) {
            lemma_entry_before_chain(es, p, j, s, t, k);
        }
    }
    if 0 <= i < es.len() && es[i].source_id == s && es[i].timestamp == t && es[i].key == k {
        assert(i >= p);
        if i > p {
            lemma_entry_between(es, p, i, s, t, k);
            if i - 1 > p {
                lemma_entry_between(es, i - 1, i, s, t, k);
            }
        }
    }
}

proof fn lemma_entry_before_chain(
    es: Seq<IndexEntry>,
    i: int,
    j: int,
    s: i64,
    t: i64,
    k: Seq<u8>,
)
    requires
        entries_sorted(es),
        0 <= i < j < es.len(),
        entry_before(es[j], s, t, k),
    ensures
        entry_before(es[i], s, t, k),
{
    assert(!entry_before(es[j], es[i].source_id, es[i].timestamp, es[i].key));
    crate::codec::law_bytes_lt_total(es[i].key, es[j].key);
    if bytes_lt(es[i].key, es[j].key) && bytes_lt(es[j].key, k) {
        crate::codec::law_bytes_lt_transitive(es[i].key, es[j].key, k);
    }
}

proof fn lemma_entry_between(es: Seq<IndexEntry>, i: int, j: int, s: i64, t: i64, k: Seq<u8>)
    requires
        entries_sorted(es),
        0 <= i < j < es.len(),
        !entry_before(es[i], s, t, k),
        es[j].source_id == s,
        es[j].timestamp == t,
        es[j].key == k,
    ensures
        es[i].source_id == s,
        es[i].timestamp == t,
        es[i].key == k,
{
    assert(!entry_before(es[j], es[i].source_id, es[i].timestamp, es[i].key));
    crate::codec::law_bytes_lt_total(es[i].key, k);
}

/// A byte of a filter holds eight places, the first in its lowest bit.
pub proof fn law_bit_places(bitmap: Seq<u8>, byte: int)
    requires
        0 <= byte < bitmap.len(),
    ensures
        bit_at(bitmap, 8 * byte) <==> bitmap[byte] % 2 == 1,
        bit_at(bitmap, 8 * byte + 7) <==> bitmap[byte] >= 128,
        bitmap[byte] == 0 ==> forall|i: int|
            8 * byte <= i < 8 * byte + 8 ==> !#[trigger] bit_at(bitmap, i),
        bitmap[byte] == 255 ==> forall|i: int|
            8 * byte <= i < 8 * byte + 8 ==> #[trigger] bit_at(bitmap, i),
{
    let x = bitmap[byte];
    assert((x >> 0u8) & 1u8 == 1u8 <==> x % 2 == 1) by (bit_vector);
    assert((x >> 7u8) & 1u8 == 1u8 <==> x >= 128) by (bit_vector);
    assert forall|i: int| 8 * byte <= i < 8 * byte + 8 implies (x == 0 ==> !#[trigger] bit_at(
        bitmap,
        i,
    )) && (x == 255 ==> bit_at(bitmap, i)) by {
        let k = (i % 8) as u8;
        assert(i / 8 == byte);
        assert(k < 8);
        assert(x == 0 ==> (x >> k) & 1u8 != 1u8) by (bit_vector);
        assert(k < 8 && x == 255 ==> (x >> k) & 1u8 == 1u8) by (bit_vector);
    }
}

/// The names of the files of a store: the logs are in a directory of their own, and the number of
/// a table stands in its name and in that of its log with ten digits or more.
pub proof fn law_file_names(id: u64)
    ensures
        wal_dir() == "wals"@,
        active_name() == "__active_wal.log"@,
        inactive_name(id) == "wals/wal_"@ + padded(decimal(id as nat), 10, '0') + ".log"@,
        table_name(id) == padded(decimal(id as nat), 10, '0') + ".sst"@,
{
    reveal_strlit("wals");
    reveal_strlit("__active_wal.log");
    reveal_strlit("wals/wal_");
    reveal_strlit(".log");
    reveal_strlit(".sst");
    assert(wal_dir() =~= "wals"@);
    assert(active_name() =~= "__active_wal.log"@);
    assert(inactive_name(id) =~= "wals/wal_"@ + padded(decimal(id as nat), 10, '0') + ".log"@);
    assert(table_name(id) =~= padded(decimal(id as nat), 10, '0') + ".sst"@);
}

/// A name is put behind a directory with one slash between them.
pub proof fn law_path(base: Seq<char>, name: Seq<char>)
    ensures
        base.len() > 0 && base.last() != '/' ==> join_path(base, name) == base + "/"@ + name,
        base.len() == 0 || base.last() == '/' ==> join_path(base, name) == base + name,
{
    reveal_strlit("/");
    if base.len() > 0 && base.last() != '/' {
        assert(join_path(base, name) =~= base + "/"@ + name);
    }
}

/// The two hashes of a record differ in what is hashed with it.
pub proof fn law_salts()
    ensures
        salt_one() == encode_utf8("bloom_salt_1"@),
        salt_two() == encode_utf8("bloom_salt_2"@),
{
    reveal_strlit("bloom_salt_1");
    reveal_strlit("bloom_salt_2");
    is_ascii_chars_encode_utf8("bloom_salt_1"@);
    is_ascii_chars_encode_utf8("bloom_salt_2"@);
    assert(encode_utf8("bloom_salt_1"@) =~= salt_one());
    assert(encode_utf8("bloom_salt_2"@) =~= salt_two());
}

proof fn lemma_number_kept(file: Seq<u8>, have: nat, pos: nat, n: nat)
    requires
        pos + n <= have <= file.len(),
    ensures
        number_at(file.take(have as int), pos, n) == number_at(file, pos, n),
{
    assert(file.take(have as int).subrange(pos as int, (pos + n) as int) =~= file.subrange(
        pos as int,
        (pos + n) as int,
    ));
}

proof fn lemma_entry_kept(file: Seq<u8>, have: nat, pos: nat)
    requires
        have <= file.len(),
        entry_at(file.take(have as int), pos) is Ok,
    ensures
        entry_at(file.take(have as int), pos) == entry_at(file, pos),
        entry_at(file, pos)->Ok_0.1 <= have,
{
    let c = file.take(have as int);
    lemma_number_kept(file, have, pos, 8);
    lemma_number_kept(file, have, pos + 8, 8);
    lemma_number_kept(file, have, pos + 16, 8);
    lemma_number_kept(file, have, pos + 24, 4);
    let len = number_at(file, pos + 24, 4);
    lemma_number_kept(file, have, pos + 28 + len, 8);
    assert(c.subrange((pos + 28) as int, (pos + 28 + len) as int) =~= file.subrange(
        (pos + 28) as int,
        (pos + 28 + len) as int,
    ));
}

proof fn lemma_entries_kept(file: Seq<u8>, have: nat, pos: nat, n: nat)
    requires
        pos <= have <= file.len(),
        entries_at(file.take(have as int), pos, n) is Ok,
    ensures
        entries_at(file.take(have as int), pos, n) == entries_at(file, pos, n),
        entries_at(file, pos, n)->Ok_0.1 <= have,
    decreases n,
{
    if n > 0 {
        let m = (n - 1) as nat;
        lemma_entries_kept(file, have, pos, m);
        lemma_entry_kept(file, have, entries_at(file, pos, m)->Ok_0.1);
    }
}

/// No part of an index is taken for one: with any number of bytes missing at its end it is
/// refused.
pub proof fn law_cut_index(es: Seq<IndexEntry>, have: nat)
    requires
        index_storable(es),
        have < index_bytes(es).len(),
    ensures
        index_at(index_bytes(es).take(have as int), 0) is Err,
{
    let file = index_bytes(es);
    let none = Seq::<u8>::empty();
    law_index_round_trip(none, es, none);
    assert(none + file + none =~= file);
    if have >= 4 {
        lemma_number_kept(file, have, 0, 4);
        let n = number_at(file, 0, 4);
        if entries_at(file.take(have as int), 4, n) is Ok {
            lemma_entries_kept(file, have, 4, n);
        }
    }
}

/// Of a filter of which bytes are missing it is told what is: how many bits it has, how many
/// places each record has in it, how many bytes follow, or those bytes.
pub proof fn law_cut_bloom(m: BloomModel, have: nat)
    requires
        m.n_bits <= u64::MAX,
        m.n_hashes <= u64::MAX,
        m.bitmap.len() <= u64::MAX,
        have < bloom_bytes(m).len(),
    ensures
        ({
            let c = bloom_bytes(m).take(have as int);
            &&& have < 8 ==> bloom_at(c, 0) == Err::<BloomModel, BloomError>(BloomError::Bits)
            &&& 8 <= have < 16 ==> bloom_at(c, 0) == Err::<BloomModel, BloomError>(
                BloomError::Hashes,
            )
            &&& 16 <= have < 24 ==> bloom_at(c, 0) == Err::<BloomModel, BloomError>(
                BloomError::Length,
            )
            &&& 24 <= have ==> bloom_at(c, 0) == Err::<BloomModel, BloomError>(
                BloomError::Contents,
            )
        }),
{
    law_bloom_layout(m);
    if have >= 24 {
        lemma_number_kept(bloom_bytes(m), have, 16, 8);
    }
}

/// A file that is no table is passed over, and a table that is too short to end as tables do is
/// refused.
pub proof fn law_file_refused(f: NamedFile)
    ensures
        !is_table_name(encode_utf8(f.name@)) ==> file_error(f) is None,
        is_table_name(encode_utf8(f.name@)) && f.bytes@.len() < 16 ==> file_error(f) is Some,
        is_table_name(encode_utf8(f.name@)) && table_name_id(encode_utf8(f.name@)) is None
            ==> file_error(f) == Some(OpenError::FileName),
{
}

/// The first error among those of several files.
pub open spec fn first_error(errors: Seq<Option<OpenError>>) -> Option<OpenError>
    decreases errors.len(),
{
    if errors.len() == 0 {
        None
    } else if errors[0] is Some {
        errors[0]
    } else {
        first_error(errors.drop_first())
    }
}

proof fn lemma_first_error(errors: Seq<Option<OpenError>>, i: int)
    ensures
        first_error(errors) is None <==> forall|j: int|
            0 <= j < errors.len() ==> (#[trigger] errors[j]) is None,
        0 <= i < errors.len() && errors[i] is Some && (forall|j: int|
            0 <= j < i ==> (#[trigger] errors[j]) is None) ==> first_error(errors) == errors[i],
    decreases errors.len(),
{
    if errors.len() > 0 {
        let rest = errors.drop_first();
        lemma_first_error(rest, i - 1);
        assert forall|j: int| 0 <= j < rest.len() implies #[trigger] rest[j] == errors[j + 1] by {}
        if errors[0] is None {
            if first_error(rest) is None {
                assert forall|j: int| 0 <= j < errors.len() implies (
                #[trigger] errors[j]) is None by {
                    if j > 0 {
                        assert(rest[j - 1] is None);
                    }
                }
            }
            if 0 < i < errors.len() && errors[i] is Some && (forall|j: int|
                0 <= j < i ==> (#[trigger] errors[j]) is None) {
                assert(rest[i - 1] == errors[i]);
            }
        }
    }
}

proof fn lemma_first_error_last(errors: Seq<Option<OpenError>>)
    requires
        errors.len() > 0,
    ensures
        first_error(errors) == (if first_error(errors.drop_last()) is Some {
            first_error(errors.drop_last())
        } else {
            errors.last()
        }),
    decreases errors.len(),
{
    if errors.len() == 1 {
        assert(errors.drop_first() =~= Seq::<Option<OpenError>>::empty());
        assert(errors.drop_last() =~= Seq::<Option<OpenError>>::empty());
    } else {
        let rest = errors.drop_first();
        lemma_first_error_last(rest);
        assert(rest.drop_last() =~= errors.drop_last().drop_first());
        assert(rest.last() == errors.last());
        assert(errors.drop_last()[0] == errors[0]);
    }
}

/// What is wrong with each file, as it is told.
pub open spec fn errors_of(files: Seq<NamedFile>) -> Seq<Option<OpenError>> {
    Seq::new(files.len(), |i: int| file_error(files[i]))
}

/// A store can be opened just where each of its tables can, and else the error is that of the
/// first table that cannot.
pub proof fn law_store_refused(files: Seq<NamedFile>, i: int)
    ensures
        files_error(files) is None <==> forall|j: int|
            0 <= j < files.len() ==> (#[trigger] errors_of(files)[j]) is None,
        0 <= i < files.len() && errors_of(files)[i] is Some && (forall|j: int|
            0 <= j < i ==> (#[trigger] errors_of(files)[j]) is None) ==> files_error(files)
            == errors_of(files)[i],
{
    lemma_files_error(files);
    lemma_first_error(errors_of(files), i);
}

proof fn lemma_files_error(files: Seq<NamedFile>)
    ensures
        files_error(files) == first_error(errors_of(files)),
    decreases files.len(),
{
    if files.len() > 0 {
        let front = files.drop_last();
        lemma_files_error(front);
        lemma_first_error_last(errors_of(files));
        assert(errors_of(files).drop_last() =~= errors_of(front));
    }
}

/// Of an entry of an index of which bytes are missing it is told which field is not all there; a
/// key that is not UTF-8 is told as such.
pub proof fn law_cut_entry(e: IndexEntry, have: nat)
    requires
        e.key.len() <= u32::MAX,
        have <= entry_bytes(e).len(),
    ensures
        ({
            let c = entry_bytes(e).take(have as int);
            let k = e.key.len();
            let fails = |x: IndexError|
                entry_at(c, 0) == Err::<(IndexEntry, nat), IndexError>(x);
            &&& have < 8 ==> fails(IndexError::SourceId)
            &&& 8 <= have < 16 ==> fails(IndexError::Timestamp)
            &&& 16 <= have < 24 ==> fails(IndexError::SeqNum)
            &&& 24 <= have < 28 ==> fails(IndexError::KeyLength)
            &&& 28 <= have < 28 + k ==> fails(IndexError::Key)
            &&& 28 + k <= have && !valid_utf8(e.key) ==> fails(IndexError::Utf8)
            &&& 28 + k <= have < 36 + k && valid_utf8(e.key) ==> fails(IndexError::Offset)
            &&& have == 36 + k && valid_utf8(e.key) ==> entry_at(c, 0) == Ok::<
                (IndexEntry, nat),
                IndexError,
            >((e, 36 + k))
        }),
{
    let f = entry_bytes(e);
    let c = f.take(have as int);
    let k = e.key.len() as int;
    law_index_layout(Seq::empty(), e);
    law_i64_bits_round_trip(e.source_id, 0);
    law_i64_bits_round_trip(e.timestamp, 0);
    if have >= 28 {
        lemma_number_kept(f, have, 0, 8);
        lemma_number_kept(f, have, 8, 8);
        lemma_number_kept(f, have, 16, 8);
        lemma_number_kept(f, have, 24, 4);
    }
    if have >= 28 + k {
        assert(c.subrange(28, 28 + k) =~= f.subrange(28, 28 + k));
    }
    if have == 36 + k {
        assert(c =~= f);
    }
}

/// A record whose key or value is not UTF-8 is not taken apart into texts: it is told where the
/// key stops being so, or else where the value does.
pub proof fn law_bad_text(source_id: i64, ts: i64, seq: u64, key: Seq<u8>, value: Seq<u8>)
    requires
        key.len() <= usize::MAX,
        value.len() <= usize::MAX,
    ensures
        ({
            let b = record_bytes(source_id, ts, seq, key, value);
            &&& !valid_utf8(key) ==> all_fields_error(b) == Some(
                RecordError::Utf8(Utf8Fault { valid: valid_len(key) as usize, bad: bad_len(key) }),
            )
            &&& valid_utf8(key) && !valid_utf8(value) ==> all_fields_error(b) == Some(
                RecordError::Utf8(
                    Utf8Fault { valid: valid_len(value) as usize, bad: bad_len(value) },
                ),
            )
            &&& valid_utf8(key) && valid_utf8(value) ==> all_fields_error(b) is None
        }),
{
    law_record_round_trip(source_id, ts, seq, key, value);
}

/// What is said of a record that is cut off: whether one field or all were asked for, and which
/// field is not all there.
pub proof fn law_record_messages(f: Utf8Fault)
    ensures
        record_message(RecordError::SourceId) == "record.extract: not enough bytes for "@ + "source_id"@,
        record_message(RecordError::Timestamp) == "record.extract: not enough bytes for "@ + "timestamp"@,
        record_message(RecordError::SeqNum) == "record.extract: not enough bytes for "@ + "seq_num"@,
        record_message(RecordError::KeyLength) == "record.extract: not enough bytes for "@ + "key length"@,
        record_message(RecordError::KeyContents) == "record.extract: not enough bytes for "@ + "key contents"@,
        record_message(RecordError::ValueLength) == "record.extract: not enough bytes for "@ + "value length"@,
        record_message(RecordError::ValueContents) == "record.extract: not enough bytes for "@ + "value contents"@,
        record_message(RecordError::AllIntegers) == "record.extract_all: not enough bytes for "@ + "integer fields"@,
        record_message(RecordError::AllKeyLength) == "record.extract_all: not enough bytes for "@ + "key length"@,
        record_message(RecordError::AllKeyContents) == "record.extract_all: not enough bytes for "@ + "key contents"@,
        record_message(RecordError::AllValueLength) == "record.extract_all: not enough bytes for "@ + "value length"@,
        record_message(RecordError::AllValueContents) == "record.extract_all: not enough bytes for "@ + "value contents"@,
        record_message(RecordError::Utf8(f)) == fault_message(f),
{
    reveal_strlit("record.extract: not enough bytes for ");
    reveal_strlit("record.extract_all: not enough bytes for ");
    reveal_strlit("record.extract: not enough bytes for source_id");
    reveal_strlit("source_id");
    reveal_strlit("record.extract: not enough bytes for timestamp");
    reveal_strlit("timestamp");
    reveal_strlit("record.extract: not enough bytes for seq_num");
    reveal_strlit("seq_num");
    reveal_strlit("record.extract: not enough bytes for key length");
    reveal_strlit("key length");
    reveal_strlit("record.extract: not enough bytes for key contents");
    reveal_strlit("key contents");
    reveal_strlit("record.extract: not enough bytes for value length");
    reveal_strlit("value length");
    reveal_strlit("record.extract: not enough bytes for value contents");
    reveal_strlit("value contents");
    reveal_strlit("record.extract_all: not enough bytes for integer fields");
    reveal_strlit("integer fields");
    reveal_strlit("record.extract_all: not enough bytes for key length");
    reveal_strlit("record.extract_all: not enough bytes for key contents");
    reveal_strlit("record.extract_all: not enough bytes for value length");
    reveal_strlit("record.extract_all: not enough bytes for value contents");
    assert(record_message(RecordError::SourceId) =~= "record.extract: not enough bytes for "@ + "source_id"@);
    assert(record_message(RecordError::Timestamp) =~= "record.extract: not enough bytes for "@ + "timestamp"@);
    assert(record_message(RecordError::SeqNum) =~= "record.extract: not enough bytes for "@ + "seq_num"@);
    assert(record_message(RecordError::KeyLength) =~= "record.extract: not enough bytes for "@ + "key length"@);
    assert(record_message(RecordError::KeyContents) =~= "record.extract: not enough bytes for "@ + "key contents"@);
    assert(record_message(RecordError::ValueLength) =~= "record.extract: not enough bytes for "@ + "value length"@);
    assert(record_message(RecordError::ValueContents) =~= "record.extract: not enough bytes for "@ + "value contents"@);
    assert(record_message(RecordError::AllIntegers) =~= "record.extract_all: not enough bytes for "@ + "integer fields"@);
    assert(record_message(RecordError::AllKeyLength) =~= "record.extract_all: not enough bytes for "@ + "key length"@);
    assert(record_message(RecordError::AllKeyContents) =~= "record.extract_all: not enough bytes for "@ + "key contents"@);
    assert(record_message(RecordError::AllValueLength) =~= "record.extract_all: not enough bytes for "@ + "value length"@);
    assert(record_message(RecordError::AllValueContents) =~= "record.extract_all: not enough bytes for "@ + "value contents"@);
}

} // verus!
