//! The index block of a table: where every so many records begin.
use std::cmp::Ordering;
use vstd::prelude::*;
use vstd::utf8::{decode_utf8_encode_utf8, encode_utf8, valid_utf8};

use crate::codec::{
    bits_of_i64, bytes_before, bytes_equal, bytes_lt, get_le, i64_bits, i64_from_bits, i64_of_bits,
    law_bytes_lt_total, law_bytes_lt_transitive, law_i64_bits_round_trip, law_le_round_trip,
    le_bytes, le_nat, lemma_byte_caps, put_le,
};
use crate::storage::record::{
    head_error, key_of, seq_of, source_of, time_of, Record, RecordError,
};
use crate::text::{copy_range, string_from_utf8, text_of};

verus! {

/// Why an index block could not be read or added to.
#[derive(Clone, Copy, Debug, PartialEq, Eq, Structural)]
pub enum IndexError {
    /// The file ends before the position of the index block does.
    Position,
    /// The file ends before the number of entries does.
    Length,
    /// The file ends before the source id of an entry does.
    SourceId,
    /// The file ends before the timestamp of an entry does.
    Timestamp,
    /// The file ends before the sequence number of an entry does.
    SeqNum,
    /// The file ends before the key length of an entry does.
    KeyLength,
    /// The file ends before the key of an entry does.
    Key,
    /// The key of an entry is not UTF-8.
    Utf8,
    /// The file ends before the record position of an entry does.
    Offset,
    /// The fields of a record could not be taken out of it.
    Fields(RecordError),
}

/// What an index entry says: the fields of a record but its value, and where it begins.
pub struct IndexEntry {
    pub source_id: i64,
    pub timestamp: i64,
    pub seq_num: u64,
    pub key: Seq<u8>,
    pub offset: u64,
}

/// A pointer to a record in a table file, with the fields by which it is found:
///
/// `[source_id: i64][timestamp: i64][seq_num: u64][key_len: u32][key][offset: u64]`
///
/// with the integers little-endian.
#[derive(Debug)]
pub struct RecordIndex {
    pub source_id: i64,
    pub timestamp: i64,
    pub seq_num: u64,
    pub key: String,
    pub offset: u64,
}

impl View for RecordIndex {
    type V = IndexEntry;

    open spec fn view(&self) -> IndexEntry {
        IndexEntry {
            source_id: self.source_id,
            timestamp: self.timestamp,
            seq_num: self.seq_num,
            key: encode_utf8(self.key@),
            offset: self.offset,
        }
    }
}

/// The index block of a table: its number of entries as a little-endian 32-bit number and then
/// the entries, which point to every `PERIOD_SZ`-th record.
#[derive(Debug)]
pub struct IndexBlock {
    /// Sorted, since the records that are inserted come in their order.
    pub inner: Vec<RecordIndex>,
}

impl View for IndexBlock {
    type V = Seq<IndexEntry>;

    open spec fn view(&self) -> Seq<IndexEntry> {
        Seq::new(self.inner@.len(), |i: int| self.inner@[i]@)
    }
}

impl Default for IndexBlock {
    /// An empty index block.
    fn default() -> (r: Self)
        ensures
            r@ == Seq::<IndexEntry>::empty(),
    {
        IndexBlock::with_capacity(0)
    }
}

impl Clone for RecordIndex {
    fn clone(&self) -> (r: Self)
        ensures
            r@ == self@,
    {
        RecordIndex {
            source_id: self.source_id,
            timestamp: self.timestamp,
            seq_num: self.seq_num,
            key: self.key.clone(),
            offset: self.offset,
        }
    }
}

impl Clone for IndexBlock {
    fn clone(&self) -> (r: Self)
        ensures
            r@ == self@,
    {
        let mut inner: Vec<RecordIndex> = Vec::new();
        let mut i: usize = 0;
        while i < self.inner.len()
            invariant
                i <= self.inner@.len(),
                inner@.len() == i,
                forall|j: int| 0 <= j < i ==> (#[trigger] inner@[j])@ == self.inner@[j]@,
            decreases self.inner@.len() - i,
        {
            let entry = self.inner[i].clone();
            inner.push(entry);
            i += 1;
        }
        let r = IndexBlock { inner };
        assert(r@ =~= self@);
        r
    }
}

/// The bytes of an entry. Of a key length that needs more than four bytes the last four stand.
pub open spec fn entry_bytes(e: IndexEntry) -> Seq<u8> {
    le_bytes(i64_bits(e.source_id), 8) + le_bytes(i64_bits(e.timestamp), 8) + le_bytes(
        e.seq_num as nat,
        8,
    ) + le_bytes(e.key.len(), 4) + e.key + le_bytes(e.offset as nat, 8)
}

/// The bytes of the entries one after the other.
pub open spec fn entries_bytes(es: Seq<IndexEntry>) -> Seq<u8>
    decreases es.len(),
{
    if es.len() == 0 {
        Seq::empty()
    } else {
        entries_bytes(es.drop_last()) + entry_bytes(es.last())
    }
}

/// The bytes of an index block.
pub open spec fn index_bytes(es: Seq<IndexEntry>) -> Seq<u8> {
    le_bytes(es.len(), 4) + entries_bytes(es)
}

/// The little-endian number in the `n` bytes of `file` from `pos` on.
pub open spec fn number_at(file: Seq<u8>, pos: nat, n: nat) -> nat {
    le_nat(file.subrange(pos as int, (pos + n) as int))
}

/// The entry that stands in `file` at `pos` and the position behind it.
pub open spec fn entry_at(file: Seq<u8>, pos: nat) -> Result<(IndexEntry, nat), IndexError> {
    if pos + 8 > file.len() {
        Err(IndexError::SourceId)
    } else if pos + 16 > file.len() {
        Err(IndexError::Timestamp)
    } else if pos + 24 > file.len() {
        Err(IndexError::SeqNum)
    } else if pos + 28 > file.len() {
        Err(IndexError::KeyLength)
    } else {
        let len = number_at(file, pos + 24, 4);
        let key = file.subrange((pos + 28) as int, (pos + 28 + len) as int);
        if pos + 28 + len > file.len() {
            Err(IndexError::Key)
        } else if !valid_utf8(key) {
            Err(IndexError::Utf8)
        } else if pos + 36 + len > file.len() {
            Err(IndexError::Offset)
        } else {
            Ok(
                (
                    IndexEntry {
                        source_id: i64_of_bits(number_at(file, pos, 8)),
                        timestamp: i64_of_bits(number_at(file, pos + 8, 8)),
                        seq_num: number_at(file, pos + 16, 8) as u64,
                        key,
                        offset: number_at(file, pos + 28 + len, 8) as u64,
                    },
                    pos + 36 + len,
                ),
            )
        }
    }
}

/// The `n` entries that stand in `file` from `pos` on and the position behind them.
pub open spec fn entries_at(file: Seq<u8>, pos: nat, n: nat) -> Result<
    (Seq<IndexEntry>, nat),
    IndexError,
>
    decreases n,
{
    if n == 0 {
        Ok((Seq::empty(), pos))
    } else {
        match entries_at(file, pos, (n - 1) as nat) {
            Err(e) => Err(e),
            Ok((front, next)) => match entry_at(file, next) {
                Err(e) => Err(e),
                Ok((last, end)) => Ok((front.push(last), end)),
            },
        }
    }
}

/// The entries of the index block that stands in `file` at `pos` and the position behind it.
pub open spec fn index_at(file: Seq<u8>, pos: nat) -> Result<(Seq<IndexEntry>, nat), IndexError> {
    if pos + 4 > file.len() {
        Err(IndexError::Length)
    } else {
        entries_at(file, pos + 4, number_at(file, pos, 4))
    }
}

/// Whether the entry points to a record before the given source, time and key. The sequence
/// number does not count.
pub open spec fn entry_before(e: IndexEntry, source_id: i64, timestamp: i64, key: Seq<u8>) -> bool {
    ||| e.source_id < source_id
    ||| e.source_id == source_id && e.timestamp < timestamp
    ||| e.source_id == source_id && e.timestamp == timestamp && bytes_lt(e.key, key)
}

/// Whether the entry points to a record of the given source, time and key.
pub open spec fn entry_meets(e: IndexEntry, source_id: i64, timestamp: i64, key: Seq<u8>) -> bool {
    e.source_id == source_id && e.timestamp == timestamp && e.key == key
}

/// Whether the entries do not go back in source, time and key.
pub open spec fn entries_sorted(es: Seq<IndexEntry>) -> bool {
    forall|i: int, j: int|
        0 <= i < j < es.len() ==> !entry_before(
            #[trigger] es[j],
            (#[trigger] es[i]).source_id,
            es[i].timestamp,
            es[i].key,
        )
}

/// Whether what lies left of position `p` comes before the source, time and key of the record
/// `b`, and what lies right of it does not.
pub open spec fn parts_at(es: Seq<IndexEntry>, b: Seq<u8>, p: int) -> bool {
    &&& 0 <= p <= es.len()
    &&& p > 0 ==> entry_before(es[p - 1], source_of(b), time_of(b), key_of(b))
    &&& p < es.len() ==> !entry_before(es[p], source_of(b), time_of(b), key_of(b))
}

/// The record position to start from when the entries part at `p` for the record `b`: that of
/// the entry there if it has the same source, time and key, else that of the entry before it,
/// else the beginning.
pub open spec fn seek_offset(es: Seq<IndexEntry>, b: Seq<u8>, p: int) -> u64 {
    if p < es.len() && entry_meets(es[p], source_of(b), time_of(b), key_of(b)) {
        es[p].offset
    } else if p == 0 {
        0
    } else {
        es[p - 1].offset
    }
}

/// Whether the entry points to a record of a source before the given one, or of that source at
/// an earlier time.
pub open spec fn entry_earlier(e: IndexEntry, source_id: i64, timestamp: i64) -> bool {
    e.source_id < source_id || (e.source_id == source_id && e.timestamp < timestamp)
}

/// Whether what lies left of position `p` is earlier than the source and the time, and what lies
/// right of it is not.
pub open spec fn starts_at(es: Seq<IndexEntry>, source_id: i64, timestamp: i64, p: int) -> bool {
    &&& 0 <= p <= es.len()
    &&& p > 0 ==> entry_earlier(es[p - 1], source_id, timestamp)
    &&& p < es.len() ==> !entry_earlier(es[p], source_id, timestamp)
}

/// The record position from which to read when the entries part at `p`: that of the entry before
/// it, or the beginning.
pub open spec fn start_offset(es: Seq<IndexEntry>, p: int) -> u64 {
    if p == 0 {
        0
    } else {
        es[p - 1].offset
    }
}

/// In a sorted index there is one position at which the entries part: all that lies left of it
/// comes before the record, and nothing right of it does.
pub proof fn law_seek_unique(es: Seq<IndexEntry>, b: Seq<u8>, p: int, i: int)
    requires
        entries_sorted(es),
        parts_at(es, b, p),
        0 <= i < es.len(),
    ensures
        i < p <==> entry_before(es[i], source_of(b), time_of(b), key_of(b)),
        forall|q: int| parts_at(es, b, q) ==> p == q,
{
    lemma_seek_side(es, b, p, i);
    assert forall|q: int| parts_at(es, b, q) implies p == q by {
        if p < q {
            lemma_seek_side(es, b, q, p);
        }
        if q < p {
            lemma_seek_side(es, b, p, q);
        }
    }
}

proof fn lemma_seek_side(es: Seq<IndexEntry>, b: Seq<u8>, p: int, i: int)
    requires
        entries_sorted(es),
        parts_at(es, b, p),
        0 <= i < es.len(),
    ensures
        i < p <==> entry_before(es[i], source_of(b), time_of(b), key_of(b)),
{
    if i < p - 1 {
        let (x, y) = (es[i], es[p - 1]);
        assert(!entry_before(y, x.source_id, x.timestamp, x.key));
        law_bytes_lt_total(x.key, y.key);
        if bytes_lt(x.key, y.key) && bytes_lt(y.key, key_of(b)) {
            law_bytes_lt_transitive(x.key, y.key, key_of(b));
        }
    } else if i > p {
        let (x, y) = (es[p], es[i]);
        assert(!entry_before(y, x.source_id, x.timestamp, x.key));
        law_bytes_lt_total(x.key, y.key);
        if bytes_lt(x.key, y.key) && bytes_lt(y.key, key_of(b)) {
            law_bytes_lt_transitive(x.key, y.key, key_of(b));
        }
    }
}

/// Whether the entry comes back as it is out of its bytes: its key is UTF-8 and its length
/// takes no more than four bytes.
pub open spec fn entry_storable(e: IndexEntry) -> bool {
    valid_utf8(e.key) && e.key.len() <= u32::MAX
}

proof fn lemma_entry_round_trip(file: Seq<u8>, pos: nat, e: IndexEntry)
    requires
        entry_storable(e),
        pos + entry_bytes(e).len() <= file.len(),
        file.subrange(pos as int, (pos + entry_bytes(e).len()) as int) == entry_bytes(e),
    ensures
        entry_at(file, pos) == Ok::<(IndexEntry, nat), IndexError>(
            (e, pos + entry_bytes(e).len()),
        ),
{
    lemma_byte_caps();
    law_i64_bits_round_trip(e.source_id, 0);
    law_i64_bits_round_trip(e.timestamp, 0);
    law_le_round_trip(i64_bits(e.source_id), 8);
    law_le_round_trip(i64_bits(e.timestamp), 8);
    law_le_round_trip(e.seq_num as nat, 8);
    law_le_round_trip(e.key.len(), 4);
    law_le_round_trip(e.offset as nat, 8);
    let b = entry_bytes(e);
    let k = e.key.len();
    let part = file.subrange(pos as int, (pos + b.len()) as int);
    assert(forall|i: int| 0 <= i < b.len() ==> file[pos + i] == #[trigger] part[i]);
    assert(b.len() == 36 + k);
    assert(file.subrange(pos as int, (pos + 8) as int) =~= b.subrange(0, 8));
    assert(b.subrange(0, 8) =~= le_bytes(i64_bits(e.source_id), 8));
    assert(file.subrange((pos + 8) as int, (pos + 16) as int) =~= b.subrange(8, 16));
    assert(b.subrange(8, 16) =~= le_bytes(i64_bits(e.timestamp), 8));
    assert(file.subrange((pos + 16) as int, (pos + 24) as int) =~= b.subrange(16, 24));
    assert(b.subrange(16, 24) =~= le_bytes(e.seq_num as nat, 8));
    assert(file.subrange((pos + 24) as int, (pos + 28) as int) =~= b.subrange(24, 28));
    assert(b.subrange(24, 28) =~= le_bytes(k, 4));
    assert(file.subrange((pos + 28) as int, (pos + 28 + k) as int) =~= b.subrange(
        28,
        28 + k as int,
    ));
    assert(b.subrange(28, 28 + k as int) =~= e.key);
    assert(file.subrange((pos + 28 + k) as int, (pos + 36 + k) as int) =~= b.subrange(
        28 + k as int,
        36 + k as int,
    ));
    assert(b.subrange(28 + k as int, 36 + k as int) =~= le_bytes(e.offset as nat, 8));
}

pub proof fn lemma_entries_bytes_step(es: Seq<IndexEntry>, i: int)
    requires
        0 <= i < es.len(),
    ensures
        entries_bytes(es.take(i + 1)) == entries_bytes(es.take(i)) + entry_bytes(es[i]),
{
    assert(es.take(i + 1).drop_last() =~= es.take(i));
}

proof fn lemma_entries_round_trip(file: Seq<u8>, pos: nat, es: Seq<IndexEntry>)
    requires
        forall|i: int| 0 <= i < es.len() ==> entry_storable(#[trigger] es[i]),
        pos + entries_bytes(es).len() <= file.len(),
        file.subrange(pos as int, (pos + entries_bytes(es).len()) as int) == entries_bytes(es),
    ensures
        entries_at(file, pos, es.len()) == Ok::<(Seq<IndexEntry>, nat), IndexError>(
            (es, pos + entries_bytes(es).len()),
        ),
    decreases es.len(),
{
    if es.len() == 0 {
        assert(es =~= Seq::<IndexEntry>::empty());
    } else {
        let front = es.drop_last();
        let n = entries_bytes(front).len();
        let m = entry_bytes(es.last()).len();
        let whole = file.subrange(pos as int, (pos + n + m) as int);
        assert(forall|i: int| 0 <= i < n + m ==> file[pos + i] == #[trigger] whole[i]);
        assert(forall|i: int|
            0 <= i < n + m ==> #[trigger] whole[i] == entries_bytes(es)[i]);
        assert(file.subrange(pos as int, (pos + n) as int) =~= entries_bytes(front));
        assert(file.subrange((pos + n) as int, (pos + n + m) as int) =~= entry_bytes(es.last()))
            by {
            assert forall|i: int| 0 <= i < m implies file[pos + n + i] == entry_bytes(
                es.last(),
            )[i] by {
                assert(whole[n + i] == entries_bytes(es)[n + i]);
            }
        }
        assert forall|i: int| 0 <= i < front.len() implies entry_storable(#[trigger] front[i]) by {
            assert(front[i] == es[i]);
        }
        assert(entry_storable(es[es.len() - 1]));
        lemma_entries_round_trip(file, pos, front);
        lemma_entry_round_trip(file, pos + n, es.last());
        assert(front.push(es.last()) =~= es);
    }
}

/// Whether the index block comes back as it is out of its bytes.
pub open spec fn index_storable(es: Seq<IndexEntry>) -> bool {
    es.len() <= u32::MAX && forall|i: int| 0 <= i < es.len() ==> entry_storable(#[trigger] es[i])
}

/// Reading an index block back, from wherever it was written in a file, gives its entries.
pub proof fn law_index_round_trip(front: Seq<u8>, es: Seq<IndexEntry>, back: Seq<u8>)
    requires
        index_storable(es),
    ensures
        index_at(front + index_bytes(es) + back, front.len()) == Ok::<
            (Seq<IndexEntry>, nat),
            IndexError,
        >((es, front.len() + index_bytes(es).len())),
{
    let file = front + index_bytes(es) + back;
    let pos = front.len();
    lemma_byte_caps();
    law_le_round_trip(es.len(), 4);
    assert(file.subrange(pos as int, (pos + 4) as int) =~= le_bytes(es.len(), 4));
    let n = entries_bytes(es).len();
    assert(file.subrange((pos + 4) as int, (pos + 4 + n) as int) =~= entries_bytes(es));
    lemma_entries_round_trip(file, pos + 4, es);
}

/// Reads the little-endian number in the `n` bytes of `file` from `pos` on, if they are there.
fn read_number(file: &[u8], pos: usize, n: usize) -> (r: Option<u64>)
    requires
        n <= 8,
    ensures
        r is Some <==> pos + n <= file@.len(),
        r matches Some(x) ==> x == number_at(file@, pos as nat, n as nat),
{
    let total: usize = file.len();
    if total < n || pos > total - n {
        None
    } else {
        Some(get_le(file, pos, n))
    }
}

/// Reads the entry that stands in `file` at `pos`.
fn read_entry(file: &[u8], pos: usize) -> (r: Result<(RecordIndex, usize), IndexError>)
    requires
        pos <= file@.len(),
    ensures
        r matches Ok((e, end)) ==> end <= file@.len() && entry_at(file@, pos as nat) == Ok::<
            (IndexEntry, nat),
            IndexError,
        >((e@, end as nat)),
        r matches Err(x) ==> entry_at(file@, pos as nat) == Err::<(IndexEntry, nat), IndexError>(x),
{
    let total: usize = file.len();
    if total - pos < 8 {
        return Err(IndexError::SourceId);
    }
    let source_id: i64 = i64_from_bits(get_le(file, pos, 8));
    if total - pos < 16 {
        return Err(IndexError::Timestamp);
    }
    let timestamp: i64 = i64_from_bits(get_le(file, pos + 8, 8));
    if total - pos < 24 {
        return Err(IndexError::SeqNum);
    }
    let seq_num: u64 = get_le(file, pos + 16, 8);
    if total - pos < 28 {
        return Err(IndexError::KeyLength);
    }
    let len: u64 = get_le(file, pos + 24, 4);
    if len > (total - pos - 28) as u64 {
        return Err(IndexError::Key);
    }
    let key_end: usize = pos + 28 + len as usize;
    let key_bytes = copy_range(file, pos + 28, key_end);
    let ghost kb = key_bytes@;
    let key = match string_from_utf8(key_bytes) {
        Ok(key) => key,
        Err(_) => {
            return Err(IndexError::Utf8);
        },
    };
    if total - key_end < 8 {
        return Err(IndexError::Offset);
    }
    let offset: u64 = get_le(file, key_end, 8);
    proof {
        decode_utf8_encode_utf8(kb);
    }
    Ok((RecordIndex { source_id, timestamp, seq_num, key, offset }, key_end + 8))
}

impl IndexBlock {
    /// How many records lie from one that the index points to up to the next.
    pub const PERIOD_SZ: usize = 16;

    /// An empty index block with room for `cap` entries.
    pub fn with_capacity(cap: usize) -> (r: Self)
        ensures
            r@ == Seq::<IndexEntry>::empty(),
    {
        let r = IndexBlock { inner: Vec::with_capacity(cap) };
        assert(r@ =~= Seq::<IndexEntry>::empty());
        r
    }

    /// Adds an entry for the record `rec`, the `idx`-th of its table, which begins at `offset`,
    /// if `idx` is a multiple of `PERIOD_SZ`. Returns whether it did.
    pub fn try_insert(&mut self, idx: usize, rec: &Record, offset: u64) -> (r: Result<
        bool,
        IndexError,
    >)
        ensures
            r == Ok::<bool, IndexError>(false) <==> idx % IndexBlock::PERIOD_SZ != 0,
            (r matches Err(IndexError::Fields(e)) && head_error(rec@) == Some(e)) <==> idx
                % IndexBlock::PERIOD_SZ == 0 && head_error(rec@) is Some,
            r == Err::<bool, IndexError>(IndexError::Utf8) <==> idx % IndexBlock::PERIOD_SZ == 0 && head_error(
                rec@,
            ) is None && !valid_utf8(key_of(rec@)),
            r == Ok::<bool, IndexError>(true) <==> idx % IndexBlock::PERIOD_SZ == 0 && head_error(rec@) is None
                && valid_utf8(key_of(rec@)),
            r != Ok::<bool, IndexError>(true) ==> final(self)@ == old(self)@,
            r == Ok::<bool, IndexError>(true) ==> final(self)@ == old(self)@.push(
                entry_of(rec@, offset),
            ),
    {
        if idx % IndexBlock::PERIOD_SZ != 0 {
            return Ok(false);
        }
        let (source_id, timestamp, seq_num, key) = match rec.extract_all_fields_no_value_ref() {
            Ok(fields) => fields,
            Err(e) => {
                return Err(IndexError::Fields(e));
            },
        };
        let key = match text_of(key) {
            Some(key) => key,
            None => {
                return Err(IndexError::Utf8);
            },
        };
        let ghost before = self@;
        proof {
            decode_utf8_encode_utf8(key_of(rec@));
        }
        let entry = RecordIndex { source_id, timestamp, seq_num, key, offset };
        self.inner.push(entry);
        assert(self@ =~= before.push(entry_of(rec@, offset)));
        Ok(true)
    }

    /// Reads the position of the index block that stands in `file` at `at`, and the block from
    /// there. Returns the block, its position and the position behind it.
    pub fn read_from_unchecked(file: &[u8], at: usize) -> (r: Result<
        (Self, u64, usize),
        IndexError,
    >)
        ensures
            r == Err::<(Self, u64, usize), IndexError>(IndexError::Position) <==> at + 8
                > file@.len(),
            r matches Err(e) ==> e == IndexError::Position || index_at(
                file@,
                number_at(file@, at as nat, 8),
            ) == Err::<(Seq<IndexEntry>, nat), IndexError>(e),
            r matches Ok((b, offset, end)) ==> at + 8 <= file@.len() && offset == number_at(
                file@,
                at as nat,
                8,
            ) && end <= file@.len() && index_at(file@, offset as nat) == Ok::<
                (Seq<IndexEntry>, nat),
                IndexError,
            >((b@, end as nat)),
    {
        let offset: u64 = match read_number(file, at, 8) {
            Some(offset) => offset,
            None => {
                return Err(IndexError::Position);
            },
        };
        proof {
            lemma_index_not_position(file@, offset as nat);
        }
        if offset > file.len() as u64 {
            return Err(IndexError::Length);
        }
        match IndexBlock::decode(file, offset as usize) {
            Ok((block, end)) => Ok((block, offset, end)),
            Err(e) => Err(e),
        }
    }

    /// Reads the index block that stands in `file` at `pos`, and the position behind it.
    pub fn decode(file: &[u8], pos: usize) -> (r: Result<(Self, usize), IndexError>)
        ensures
            r matches Ok((b, end)) ==> end <= file@.len() && index_at(file@, pos as nat) == Ok::<
                (Seq<IndexEntry>, nat),
                IndexError,
            >((b@, end as nat)),
            r matches Err(e) ==> index_at(file@, pos as nat) == Err::<
                (Seq<IndexEntry>, nat),
                IndexError,
            >(e),
    {
        let total: usize = file.len();
        let n: u64 = match read_number(file, pos, 4) {
            Some(n) => n,
            None => {
                return Err(IndexError::Length);
            },
        };
        let mut block = IndexBlock { inner: Vec::new() };
        assert(pos + 4 <= total);
        let mut next: usize = pos + 4;
        let mut i: u64 = 0;
        assert(block@ =~= Seq::<IndexEntry>::empty());
        while i < n
            invariant
                i <= n,
                pos + 4 <= file@.len(),
                next <= file@.len(),
                n == number_at(file@, pos as nat, 4),
                entries_at(file@, (pos + 4) as nat, i as nat) == Ok::<
                    (Seq<IndexEntry>, nat),
                    IndexError,
                >((block@, next as nat)),
            decreases n - i,
        {
            let ghost before = block@;
            match read_entry(file, next) {
                Ok((entry, end)) => {
                    let ghost e = entry@;
                    block.inner.push(entry);
                    next = end;
                    assert(block@ =~= before.push(e));
                },
                Err(e) => {
                    proof {
                        lemma_entries_fail(file@, (pos + 4) as nat, (i + 1) as nat, n as nat, e);
                    }
                    return Err(e);
                },
            }
            i += 1;
        }
        Ok((block, next))
    }

    /// Appends the bytes of the index block.
    pub fn encode(&self, out: &mut Vec<u8>)
        ensures
            final(out)@ == old(out)@ + index_bytes(self@),
    {
        let ghost es = self@;
        let ghost start = out@;
        put_le(out, self.inner.len() as u64, 4);
        let mut i: usize = 0;
        assert(es.take(0) =~= Seq::<IndexEntry>::empty());
        assert(out@ =~= start + le_bytes(es.len(), 4) + entries_bytes(es.take(0)));
        while i < self.inner.len()
            invariant
                es == self@,
                i <= self.inner@.len(),
                out@ == start + le_bytes(es.len(), 4) + entries_bytes(es.take(i as int)),
            decreases self.inner@.len() - i,
        {
            let entry = &self.inner[i];
            let key = entry.key.as_str().as_bytes();
            let ghost before = out@;
            put_le(out, bits_of_i64(entry.source_id), 8);
            put_le(out, bits_of_i64(entry.timestamp), 8);
            put_le(out, entry.seq_num, 8);
            put_le(out, key.len() as u64, 4);
            out.extend_from_slice(key);
            put_le(out, entry.offset, 8);
            proof {
                assert(es[i as int] == entry@);
                lemma_entries_bytes_step(es, i as int);
                assert(out@ =~= before + entry_bytes(entry@));
                assert(out@ =~= start + le_bytes(es.len(), 4) + entries_bytes(es.take(i + 1)));
            }
            i += 1;
        }
        assert(es.take(es.len() as int) =~= es);
        assert(out@ =~= start + index_bytes(es));
    }

    /// The position from which to read in order to come to `target`: that of an entry of the
    /// same source, time and key, else that of the last entry before it. The sequence number
    /// does not count, since the start of a range carries none. It is the beginning if the
    /// index is empty, if all entries come after `target`, or if `target` has no key.
    pub fn binary_seek(&self, target: &Record) -> (r: u64)
        ensures
            head_error(target@) is Some ==> r == 0,
            head_error(target@) is None ==> exists|p: int| #[trigger]
                parts_at(self@, target@, p) && r == seek_offset(self@, target@, p),
    {
        let (source_id, timestamp, _, key) = match target.extract_all_fields_no_value_ref() {
            Ok(fields) => fields,
            Err(_) => {
                return 0;
            },
        };
        let ghost es = self@;
        let ghost b = target@;
        let mut lo: usize = 0;
        let mut hi: usize = self.inner.len();
        while lo < hi
            invariant
                es == self@,
                source_id == source_of(b),
                timestamp == time_of(b),
                key@ == key_of(b),
                lo <= hi <= self.inner@.len(),
                lo > 0 ==> entry_before(es[lo - 1], source_of(b), time_of(b), key_of(b)),
                hi < es.len() ==> !entry_before(
                    es[hi as int],
                    source_of(b),
                    time_of(b),
                    key_of(b),
                ),
            decreases hi - lo,
        {
            let mid: usize = lo + (hi - lo) / 2;
            let e = &self.inner[mid];
            assert(es[mid as int] == e@);
            if e.is_before(source_id, timestamp, key) {
                lo = mid + 1;
            } else {
                hi = mid;
            }
        }
        assert(parts_at(es, b, lo as int));
        if lo < self.inner.len() {
            let e = &self.inner[lo];
            assert(es[lo as int] == e@);
            if e.meets(source_id, timestamp, key) {
                return e.offset;
            }
        }
        if lo == 0 {
            0
        } else {
            assert(es[lo - 1] == self.inner@[lo - 1]@);
            self.inner[lo - 1].offset
        }
    }

    /// The position from which to read in order to come to all records of the source from the
    /// time on: that of the last entry strictly before the source and the time, or the beginning
    /// if there is none. Neither the sequence number nor the key counts, since records of one
    /// source and time stand in the order of their sequence numbers.
    pub fn range_seek(&self, source_id: i64, timestamp: i64) -> (r: u64)
        ensures
            exists|p: int| #[trigger]
                starts_at(self@, source_id, timestamp, p) && r == start_offset(self@, p),
    {
        let ghost es = self@;
        let mut lo: usize = 0;
        let mut hi: usize = self.inner.len();
        while lo < hi
            invariant
                es == self@,
                lo <= hi <= self.inner@.len(),
                lo > 0 ==> entry_earlier(es[lo - 1], source_id, timestamp),
                hi < es.len() ==> !entry_earlier(es[hi as int], source_id, timestamp),
            decreases hi - lo,
        {
            let mid: usize = lo + (hi - lo) / 2;
            let e = &self.inner[mid];
            assert(es[mid as int] == e@);
            if e.is_earlier(source_id, timestamp) {
                lo = mid + 1;
            } else {
                hi = mid;
            }
        }
        assert(starts_at(es, source_id, timestamp, lo as int));
        if lo == 0 {
            0
        } else {
            assert(es[lo - 1] == self.inner@[lo - 1]@);
            self.inner[lo - 1].offset
        }
    }

    /// The position from which to read in order to come to all records of the source from the
    /// time on, if the entries part at `p` for them.
    pub fn start_at(&self, source_id: i64, timestamp: i64, p: usize) -> (r: Option<u64>)
        ensures
            r is Some <==> starts_at(self@, source_id, timestamp, p as int),
            r matches Some(offset) ==> offset == start_offset(self@, p as int),
    {
        let ghost es = self@;
        if p > self.inner.len() {
            return None;
        }
        if p < self.inner.len() {
            assert(es[p as int] == self.inner@[p as int]@);
            if self.inner[p].is_earlier(source_id, timestamp) {
                return None;
            }
        }
        if p == 0 {
            return Some(0);
        }
        assert(es[p - 1] == self.inner@[p - 1]@);
        if self.inner[p - 1].is_earlier(source_id, timestamp) {
            Some(self.inner[p - 1].offset)
        } else {
            None
        }
    }
}

/// The entry for the record `b` that begins at `offset`.
pub open spec fn entry_of(b: Seq<u8>, offset: u64) -> IndexEntry {
    IndexEntry {
        source_id: source_of(b),
        timestamp: time_of(b),
        seq_num: seq_of(b) as u64,
        key: key_of(b),
        offset,
    }
}

proof fn lemma_entries_fail(file: Seq<u8>, pos: nat, i: nat, n: nat, e: IndexError)
    requires
        i <= n,
        entries_at(file, pos, i) == Err::<(Seq<IndexEntry>, nat), IndexError>(e),
    ensures
        entries_at(file, pos, n) == Err::<(Seq<IndexEntry>, nat), IndexError>(e),
    decreases n - i,
{
    if i < n {
        lemma_entries_fail(file, pos, i + 1, n, e);
    }
}

proof fn lemma_index_not_position(file: Seq<u8>, pos: nat)
    ensures
        index_at(file, pos) matches Err(e) ==> e != IndexError::Position,
{
    if pos + 4 <= file.len() {
        lemma_entries_not_position(file, pos + 4, number_at(file, pos, 4));
    }
}

proof fn lemma_entries_not_position(file: Seq<u8>, pos: nat, n: nat)
    ensures
        entries_at(file, pos, n) matches Err(e) ==> e != IndexError::Position,
    decreases n,
{
    if n > 0 {
        lemma_entries_not_position(file, pos, (n - 1) as nat);
    }
}

/// How the record that the entry points to stands to a record with the given fields: by source
/// and timestamp as signed numbers, then by sequence number and key.
pub open spec fn fields_lt(
    a: (i64, i64, u64, Seq<u8>),
    b: (i64, i64, u64, Seq<u8>),
) -> bool {
    ||| a.0 < b.0
    ||| a.0 == b.0 && a.1 < b.1
    ||| a.0 == b.0 && a.1 == b.1 && a.2 < b.2
    ||| a.0 == b.0 && a.1 == b.1 && a.2 == b.2 && bytes_lt(a.3, b.3)
}

/// The fields by which the entry is compared with a record.
pub open spec fn entry_fields(e: IndexEntry) -> (i64, i64, u64, Seq<u8>) {
    (e.source_id, e.timestamp, e.seq_num, e.key)
}

/// The fields by which the record `b` is compared with an entry.
pub open spec fn record_fields(b: Seq<u8>) -> (i64, i64, u64, Seq<u8>) {
    (source_of(b), time_of(b), seq_of(b) as u64, key_of(b))
}

impl RecordIndex {
    /// Whether the entry points to a record before the source, time and key.
    fn is_before(&self, source_id: i64, timestamp: i64, key: &[u8]) -> (r: bool)
        ensures
            r == entry_before(self@, source_id, timestamp, key@),
    {
        if self.source_id != source_id {
            self.source_id < source_id
        } else if self.timestamp != timestamp {
            self.timestamp < timestamp
        } else {
            bytes_before(self.key.as_str().as_bytes(), key)
        }
    }

    /// Whether the entry points to a record of a source before the given one, or of that source
    /// at an earlier time.
    fn is_earlier(&self, source_id: i64, timestamp: i64) -> (r: bool)
        ensures
            r == entry_earlier(self@, source_id, timestamp),
    {
        self.source_id < source_id || (self.source_id == source_id && self.timestamp < timestamp)
    }

    /// Whether the entry points to a record of the source, time and key.
    fn meets(&self, source_id: i64, timestamp: i64, key: &[u8]) -> (r: bool)
        ensures
            r == entry_meets(self@, source_id, timestamp, key@),
    {
        self.source_id == source_id && self.timestamp == timestamp && bytes_equal(
            self.key.as_str().as_bytes(),
            key,
        )
    }

    /// How the entry stands to the record `other`, unless that has no key.
    pub fn cmp_record(&self, other: &Record) -> (r: Option<Ordering>)
        ensures
            r is None <==> head_error(other@) is Some,
            r == Some(Ordering::Less) <==> head_error(other@) is None && fields_lt(
                entry_fields(self@),
                record_fields(other@),
            ),
            r == Some(Ordering::Greater) <==> head_error(other@) is None && fields_lt(
                record_fields(other@),
                entry_fields(self@),
            ),
            r == Some(Ordering::Equal) <==> head_error(other@) is None && entry_fields(self@)
                == record_fields(other@),
    {
        let (source_id, timestamp, seq_num, key) = match other.extract_all_fields_no_value_ref() {
            Ok(fields) => fields,
            Err(_) => {
                return None;
            },
        };
        let own = self.key.as_str().as_bytes();
        proof {
            law_bytes_lt_total(own@, key@);
        }
        if self.source_id < source_id {
            Some(Ordering::Less)
        } else if self.source_id > source_id {
            Some(Ordering::Greater)
        } else if self.timestamp < timestamp {
            Some(Ordering::Less)
        } else if self.timestamp > timestamp {
            Some(Ordering::Greater)
        } else if self.seq_num < seq_num {
            Some(Ordering::Less)
        } else if self.seq_num > seq_num {
            Some(Ordering::Greater)
        } else if bytes_before(own, key) {
            Some(Ordering::Less)
        } else if bytes_before(key, own) {
            Some(Ordering::Greater)
        } else {
            Some(Ordering::Equal)
        }
    }
}

/// An entry of the index is compared with a record by source, then time, then number, then key:
/// the first of these that differs decides, and where none does the two are equal.
pub proof fn law_entry_ordered(e: RecordIndex, rec: Record, r: Option<Ordering>)
    requires
        call_ensures(RecordIndex::cmp_record, (&e, &rec), r),
        head_error(rec@) is None,
        seq_of(rec@) <= u64::MAX,
    ensures
        e.source_id < source_of(rec@) ==> r == Some(Ordering::Less),
        e.source_id > source_of(rec@) ==> r == Some(Ordering::Greater),
        e.source_id == source_of(rec@) ==> {
            &&& e.timestamp < time_of(rec@) ==> r == Some(Ordering::Less)
            &&& e.timestamp > time_of(rec@) ==> r == Some(Ordering::Greater)
            &&& e.timestamp == time_of(rec@) ==> {
                &&& e.seq_num < seq_of(rec@) ==> r == Some(Ordering::Less)
                &&& e.seq_num > seq_of(rec@) ==> r == Some(Ordering::Greater)
                &&& e.seq_num == seq_of(rec@) ==> {
                    let key = encode_utf8(e.key@);
                    &&& bytes_lt(key, key_of(rec@)) ==> r == Some(Ordering::Less)
                    &&& bytes_lt(key_of(rec@), key) ==> r == Some(Ordering::Greater)
                    &&& key == key_of(rec@) ==> r == Some(Ordering::Equal)
                }
            }
        },
{
}

} // verus!
