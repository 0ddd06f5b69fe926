//! Table files: sorted records with an index block and a bloom filter behind them, and the
//! metadata by which a table is found and read.
use vstd::prelude::*;
use vstd::string::{StrSliceExecFns, StringExecFns};
use vstd::utf8::{encode_utf8, is_ascii_chars, is_ascii_chars_encode_utf8, valid_utf8};

use crate::codec::{
    bytes_equal, bytes_lt, get_le, lemma_bytes_lt_extended, law_le_round_trip, le_bytes,
    lemma_byte_caps, lemma_le_bytes_len, put_le,
};
use crate::storage::bloom::{
    bit_at, bloom_at, bloom_bytes, law_bloom_round_trip, probe, probes, BloomError, BloomFilter,
    BloomModel,
};
use crate::storage::frames::{
    frameable, framed, frames_before, frames_in, law_frames_before_framed, law_frames_in_framed,
    lemma_frames_before, lemma_framed_step, put_frame, read_frames_before,
};
use crate::storage::index::{
    entry_of, entry_storable, index_at, index_bytes, index_storable, law_index_round_trip,
    number_at, IndexBlock, IndexEntry, IndexError,
};
use crate::storage::record::{
    has_key, key_error, key_of, seq_of, source_of, Record, RecordError,
};
use crate::storage::sorted::{all_keyed, rec_views};
use crate::text::{
    decimal, law_decimal_len, law_decimal_value, law_digits_order, law_padded_number, ten_to,
    number_of, padded, parse_number, run_of, zero_padded,
};

verus! {

/// Why a table could not be written or read.
#[derive(Clone, Copy, Debug, PartialEq, Eq, Structural)]
pub enum TableError {
    /// The source id of a record could not be taken out of it.
    SourceId(RecordError),
    /// The key of a record could not be taken out of it.
    Key(RecordError),
    /// A record could not be put into the index block.
    Entry(IndexError),
    /// The last record of the file is cut short.
    Record,
    /// The file is too short to have a footer.
    Footer,
    /// The index block could not be read.
    Index(IndexError),
    /// The bloom filter could not be read.
    Bloom(BloomError),
}

/// What is known of a table file without reading its records.
#[derive(Debug)]
pub struct SSTableMeta {
    pub id: u64,
    pub path: String,
    pub bloom: BloomFilter,
    pub bloom_offset: u64,
    pub index: IndexBlock,
    /// The position at which the records end.
    pub index_offset: u64,
    pub file_size: u64,
    pub num_records: usize,
}

impl Clone for SSTableMeta {
    fn clone(&self) -> (r: Self)
        ensures
            r.same(self),
    {
        SSTableMeta {
            id: self.id,
            path: self.path.clone(),
            bloom: self.bloom.clone(),
            bloom_offset: self.bloom_offset,
            index: self.index.clone(),
            index_offset: self.index_offset,
            file_size: self.file_size,
            num_records: self.num_records,
        }
    }
}

/// The path of `name` in the directory `base`.
pub open spec fn join_path(base: Seq<char>, name: Seq<char>) -> Seq<char> {
    if base.len() == 0 || base.last() == '/' {
        base + name
    } else {
        base.push('/') + name
    }
}

/// The path of `name`, which is relative, in the directory `base`.
pub fn join(base: &str, name: &str) -> (r: String)
    ensures
        r@ == join_path(base@, name@),
{
    let mut r = String::from_str(base);
    let n: usize = base.unicode_len();
    if n > 0 && base.get_char(n - 1) != '/' {
        r.append("/");
        proof {
            reveal_strlit("/");
            assert(r@ =~= base@.push('/'));
        }
    }
    r.append(name);
    r
}

/// The name of the file of table `id`.
pub open spec fn table_name(id: u64) -> Seq<char> {
    padded(decimal(id as nat), 10, '0') + seq!['.', 's', 's', 't']
}

/// Whether a file name has something before its last dot, and behind it the three letters of
/// `extension`.
pub open spec fn has_extension(name: Seq<u8>, extension: Seq<u8>) -> bool {
    name.len() > 4 && name.skip(name.len() - 4) == seq![46u8] + extension
}

/// Tests whether a file name has something before its last dot, and behind it the letters of
/// `extension`.
pub fn test_extension(name: &[u8], extension: &[u8; 3]) -> (r: bool)
    ensures
        r == has_extension(name@, extension@),
{
    let n: usize = name.len();
    if n <= 4 {
        return false;
    }
    let suffix: [u8; 4] = [46, extension[0], extension[1], extension[2]];
    let end = vstd::slice::slice_subrange(name, n - 4, n);
    assert(end@ =~= name@.skip(n - 4));
    assert(suffix@ =~= seq![46u8] + extension@);
    bytes_equal(end, suffix.as_slice())
}

/// Whether a file of this name is a table: its extension is `sst`.
pub open spec fn is_table_name(name: Seq<u8>) -> bool {
    has_extension(name, seq![115u8, 115, 116])
}

/// The id of the table whose file has this name.
pub open spec fn table_name_id(name: Seq<u8>) -> Option<u64> {
    number_of(name.take(name.len() - 4))
}

/// What the name of a file says of it.
#[derive(Clone, Copy, Debug, PartialEq, Eq, Structural)]
pub enum FileKind {
    /// It is no table.
    Other,
    /// It is named like a table, but not after a number.
    Unnumbered,
    /// It is the table with this id.
    Table(u64),
}

/// Tells from the name of a file which table it is.
pub fn file_kind(name: &str) -> (r: FileKind)
    ensures
        r is Other <==> !is_table_name(encode_utf8(name@)),
        r is Unnumbered <==> is_table_name(encode_utf8(name@)) && table_name_id(encode_utf8(name@))
            is None,
        r matches FileKind::Table(id) ==> is_table_name(encode_utf8(name@)) && table_name_id(
            encode_utf8(name@),
        ) == Some(id),
{
    let b = name.as_bytes();
    let n: usize = b.len();
    let extension: [u8; 3] = [115, 115, 116];
    assert(extension@ =~= seq![115u8, 115, 116]);
    if !test_extension(b, &extension) {
        return FileKind::Other;
    }
    let stem = vstd::slice::slice_subrange(b, 0, n - 4);
    assert(stem@ =~= b@.take(n - 4));
    match parse_number(stem) {
        Some(id) => FileKind::Table(id),
        None => FileKind::Unnumbered,
    }
}

/// The name that is given to the file of a table is read as the table's.
pub proof fn law_table_name(id: u64)
    ensures
        is_table_name(encode_utf8(table_name(id))),
        table_name_id(encode_utf8(table_name(id))) == Some(id),
{
    let digits = padded(decimal(id as nat), 10, '0');
    let suffix = seq!['.', 's', 's', 't'];
    let len = decimal(id as nat).len();
    let zeros = if len < 10 {
        (10 - len) as nat
    } else {
        0
    };
    assert(digits =~= run_of('0', zeros) + decimal(id as nat));
    law_decimal_value(id as nat, zeros);
    law_padded_number(id, 10);
    let name = table_name(id);
    lemma_padded_ascii(id as nat, zeros);
    assert(is_ascii_chars(digits));
    assert(is_ascii_chars(name)) by {
        assert forall|i: int| 0 <= i < name.len() implies '\0' <= #[trigger] name[i]
            <= '\u{7f}' by {
            if i < digits.len() {
                assert(name[i] == digits[i]);
            } else {
                assert(name[i] == suffix[i - digits.len()]);
            }
        }
    }
    is_ascii_chars_encode_utf8(name);
    is_ascii_chars_encode_utf8(digits);
    let b = encode_utf8(name);
    let n = digits.len() as int;
    assert(name[n] == '.' && name[n + 1] == 's' && name[n + 2] == 's' && name[n + 3] == 't');
    assert(b.skip(b.len() - 4) =~= seq![46u8] + seq![115u8, 115, 116]) by {
        assert(name[n] as u8 == b[n]);
        assert(name[n + 1] as u8 == b[n + 1]);
        assert(name[n + 2] as u8 == b[n + 2]);
        assert(name[n + 3] as u8 == b[n + 3]);
    }
    assert(b.take(b.len() - 4) =~= encode_utf8(digits)) by {
        assert forall|i: int| 0 <= i < n implies b[i] == encode_utf8(digits)[i] by {
            assert(name[i] == digits[i]);
            assert(name[i] as u8 == b[i]);
            assert(digits[i] as u8 == encode_utf8(digits)[i]);
        }
    }
}

proof fn lemma_padded_ascii(n: nat, zeros: nat)
    ensures
        is_ascii_chars(run_of('0', zeros) + decimal(n)),
    decreases n,
{
    if n >= 10 {
        lemma_padded_ascii(n / 10, zeros);
        let front = run_of('0', zeros) + decimal(n / 10);
        let s = run_of('0', zeros) + decimal(n);
        assert(s =~= front.push(crate::text::digit_char(n % 10)));
    }
}

proof fn lemma_table_name_bytes(id: u64)
    requires
        id < 10_000_000_000,
    ensures
        ({
            let zeros = (10 - decimal(id as nat).len()) as nat;
            let digits = run_of('0', zeros) + decimal(id as nat);
            &&& decimal(id as nat).len() <= 10
            &&& table_name(id) == digits + seq!['.', 's', 's', 't']
            &&& encode_utf8(table_name(id)) == encode_utf8(digits) + seq![46u8, 115, 115, 116]
        }),
{
    reveal_with_fuel(ten_to, 11);
    law_decimal_len(id as nat, 10);
    let zeros = (10 - decimal(id as nat).len()) as nat;
    let digits = run_of('0', zeros) + decimal(id as nat);
    let suffix = seq!['.', 's', 's', 't'];
    let name = digits + suffix;
    assert(padded(decimal(id as nat), 10, '0') =~= digits);
    assert(table_name(id) =~= name);
    lemma_padded_ascii(id as nat, zeros);
    assert(is_ascii_chars(name)) by {
        assert forall|i: int| 0 <= i < name.len() implies '\0' <= #[trigger] name[i]
            <= '\u{7f}' by {
            if i < digits.len() {
                assert(name[i] == digits[i]);
            } else {
                assert(name[i] == suffix[i - digits.len()]);
            }
        }
    }
    is_ascii_chars_encode_utf8(name);
    is_ascii_chars_encode_utf8(digits);
    let b = encode_utf8(name);
    let whole = encode_utf8(digits) + seq![46u8, 115, 115, 116];
    let n = digits.len() as int;
    assert(b =~= whole) by {
        assert forall|i: int| 0 <= i < b.len() implies b[i] == whole[i] by {
            assert(name[i] as u8 == b[i]);
            if i < n {
                assert(digits[i] as u8 == encode_utf8(digits)[i]);
            } else {
                assert(name[i] == suffix[i - n]);
            }
        }
    }
}

/// The names of the files of tables stand in the order of the ids, as long as these have no more
/// than ten digits.
pub proof fn law_table_names_sorted(id: u64, id2: u64)
    requires
        id < id2 < 10_000_000_000,
    ensures
        bytes_lt(encode_utf8(table_name(id)), encode_utf8(table_name(id2))),
{
    lemma_table_name_bytes(id);
    lemma_table_name_bytes(id2);
    let zeros = (10 - decimal(id as nat).len()) as nat;
    let zeros2 = (10 - decimal(id2 as nat).len()) as nat;
    law_decimal_value(id as nat, zeros);
    law_decimal_value(id2 as nat, zeros2);
    let a = encode_utf8(run_of('0', zeros) + decimal(id as nat));
    let b = encode_utf8(run_of('0', zeros2) + decimal(id2 as nat));
    law_digits_order(a, b);
    let suffix = seq![46u8, 115, 115, 116];
    lemma_bytes_lt_extended(a, b, suffix, suffix);
}

/// Why the `i`-th record of a table cannot be put into it, if it cannot.
pub open spec fn record_error(b: Seq<u8>, i: int) -> Option<TableError> {
    if b.len() < 8 {
        Some(TableError::SourceId(RecordError::SourceId))
    } else if key_error(b) is Some {
        Some(TableError::Key(key_error(b)->0))
    } else if i % IndexBlock::PERIOD_SZ as int == 0 && !valid_utf8(key_of(b)) {
        Some(TableError::Entry(IndexError::Utf8))
    } else {
        None
    }
}

/// Why the records of `s` cannot be written as a table, if they cannot: what is wrong with the
/// first that cannot be put in.
pub open spec fn write_error(s: Seq<Seq<u8>>) -> Option<TableError>
    decreases s.len(),
{
    if s.len() == 0 {
        None
    } else if write_error(s.drop_last()) is Some {
        write_error(s.drop_last())
    } else {
        record_error(s.last(), s.len() - 1)
    }
}

/// The index of a table with the records of `s`: an entry for every so many of them.
pub open spec fn index_of(s: Seq<Seq<u8>>) -> Seq<IndexEntry>
    decreases s.len(),
{
    if s.len() == 0 {
        Seq::empty()
    } else {
        let i = s.len() - 1;
        if i % IndexBlock::PERIOD_SZ as int == 0 {
            index_of(s.drop_last()).push(
                entry_of(s.last(), framed(s.drop_last()).len() as u64),
            )
        } else {
            index_of(s.drop_last())
        }
    }
}

/// The bits of the filter `m` that stand for the record `b`.
pub open spec fn record_probes(m: BloomModel, b: Seq<u8>) -> Seq<int> {
    let (h1, h2) = m.hashes(source_of(b), key_of(b));
    probes(h1, h2, m.n_bits, m.n_hashes)
}

/// Whether one of the records of `s` stands for bit `b` of the filter `m`.
pub open spec fn some_probe(m: BloomModel, s: Seq<Seq<u8>>, b: int) -> bool {
    exists|i: int| 0 <= i < s.len() && record_probes(m, #[trigger] s[i]).contains(b)
}

/// Whether `after` is the filter `before` with the sources and keys of the records of `s` put
/// in, and nothing else changed.
pub open spec fn fills(before: BloomModel, after: BloomModel, s: Seq<Seq<u8>>) -> bool {
    &&& after.bitmap.len() == before.bitmap.len()
    &&& after.n_bits == before.n_bits
    &&& after.n_hashes == before.n_hashes
    &&& forall|b: int|
        0 <= b < 8 * before.bitmap.len() ==> (#[trigger] bit_at(after.bitmap, b) <==> bit_at(
            before.bitmap,
            b,
        ) || some_probe(before, s, b))
}

/// The filter of a table holds the source and the key of every record of the table.
pub proof fn law_table_bloom(before: BloomModel, after: BloomModel, s: Seq<Seq<u8>>, i: int)
    requires
        before.usable(),
        fills(before, after, s),
        0 <= i < s.len(),
    ensures
        after.usable(),
        after.holds(source_of(s[i]), key_of(s[i])),
{
    let (h1, h2) = before.hashes(source_of(s[i]), key_of(s[i]));
    assert forall|j: int| 0 <= j < after.n_hashes implies bit_at(
        after.bitmap,
        #[trigger] probe(h1, h2, after.n_bits, j),
    ) by {
        let p = probe(h1, h2, before.n_bits, j);
        assert(record_probes(before, s[i])[j] == p);
        assert(some_probe(before, s, p));
        vstd::arithmetic::div_mod::lemma_mod_bound(
            (h1 + j * h2) % 0x1_0000_0000_0000_0000,
            before.n_bits as int,
        );
    }
}

/// The bytes of a table file: the framed records of `s`, the index block, the bloom filter,
/// and the positions of the two as little-endian 64-bit numbers.
pub open spec fn table_bytes(s: Seq<Seq<u8>>, bloom: BloomModel) -> Seq<u8> {
    let index_offset = framed(s).len();
    let bloom_offset = index_offset + index_bytes(index_of(s)).len();
    framed(s) + index_bytes(index_of(s)) + bloom_bytes(bloom) + le_bytes(index_offset, 8)
        + le_bytes(bloom_offset, 8)
}

/// The highest sequence number of the records that have one.
pub open spec fn max_seq(s: Seq<Seq<u8>>) -> nat
    decreases s.len(),
{
    if s.len() == 0 {
        0
    } else {
        let m = max_seq(s.drop_last());
        if s.last().len() >= 24 && seq_of(s.last()) > m {
            seq_of(s.last())
        } else {
            m
        }
    }
}

/// How many of the records have a sequence number.
pub open spec fn numbered(s: Seq<Seq<u8>>) -> nat
    decreases s.len(),
{
    if s.len() == 0 {
        0
    } else if s.last().len() >= 24 {
        numbered(s.drop_last()) + 1
    } else {
        numbered(s.drop_last())
    }
}

/// What the file of a table says at its end of the position of its index block.
pub open spec fn footer_index(file: Seq<u8>) -> nat {
    number_at(file, (file.len() - 16) as nat, 8)
}

/// The records in the file of a table: all that stands before its index block.
pub open spec fn table_records(file: Seq<u8>) -> Seq<Seq<u8>> {
    frames_in(file, 0, footer_index(file))
}

/// Why the file of a table cannot be opened, if it cannot.
pub open spec fn open_table_error(file: Seq<u8>) -> Option<TableError> {
    if file.len() < 16 {
        Some(TableError::Footer)
    } else if frames_before(file, 0, footer_index(file)) is None {
        Some(TableError::Record)
    } else {
        match index_at(file, footer_index(file)) {
            Err(e) => Some(TableError::Index(e)),
            Ok((_, end)) => match bloom_at(file, end) {
                Err(e) => Some(TableError::Bloom(e)),
                Ok(_) => None,
            },
        }
    }
}

impl SSTableMeta {
    /// Whether this is what the file of a table says of it.
    pub open spec fn opened(&self, id: u64, path: Seq<char>, file: Seq<u8>) -> bool {
        &&& self.id == id
        &&& self.path@ == path
        &&& self.index_offset == footer_index(file)
        &&& index_at(file, footer_index(file)) == Ok::<(Seq<IndexEntry>, nat), IndexError>(
            (self.index@, self.bloom_offset as nat),
        )
        &&& bloom_at(file, self.bloom_offset as nat) == Ok::<BloomModel, BloomError>(self.bloom@)
        &&& self.file_size == file.len()
        &&& self.num_records == numbered(table_records(file))
    }

    /// Opens the file of a table: reads where its index block stands, counts the records before
    /// it, finds the highest sequence number among them, and reads the index block and the bloom
    /// filter.
    pub fn open(id: u64, path: String, file: &[u8]) -> (r: Result<(Self, u64), TableError>)
        ensures
            r is Ok <==> open_table_error(file@) is None,
            r matches Err(e) ==> open_table_error(file@) == Some(e),
            r matches Ok((meta, seq)) ==> meta.opened(id, path@, file@) && seq == max_seq(
                table_records(file@),
            ),
    {
        let total: usize = file.len();
        if total < 16 {
            return Err(TableError::Footer);
        }
        let records_end: u64 = get_le(file, total - 16, 8);
        let recs = match read_frames_before(file, records_end) {
            Some(recs) => recs,
            None => {
                return Err(TableError::Record);
            },
        };
        proof {
            lemma_frames_before(file@, 0, records_end as nat);
        }
        let (seq, count) = scan_seq(&recs);
        let (index, index_offset, end) = match IndexBlock::read_from_unchecked(file, total - 16) {
            Ok(read) => read,
            Err(e) => {
                return Err(TableError::Index(e));
            },
        };
        let bloom = match BloomFilter::decode(file, end) {
            Ok(bloom) => bloom,
            Err(e) => {
                return Err(TableError::Bloom(e));
            },
        };
        let meta = SSTableMeta {
            id,
            path,
            bloom,
            bloom_offset: end as u64,
            index,
            index_offset,
            file_size: total as u64,
            num_records: count,
        };
        Ok((meta, seq))
    }

    /// Whether the two say the same of a table.
    pub open spec fn same(&self, other: &SSTableMeta) -> bool {
        &&& self.id == other.id
        &&& self.path@ == other.path@
        &&& self.bloom@ == other.bloom@
        &&& self.bloom_offset == other.bloom_offset
        &&& self.index@ == other.index@
        &&& self.index_offset == other.index_offset
        &&& self.file_size == other.file_size
        &&& self.num_records == other.num_records
    }

    /// Whether this is what is known of the table that holds the records of `s`.
    pub open spec fn describes(&self, s: Seq<Seq<u8>>) -> bool {
        &&& self.index@ == index_of(s)
        &&& self.index_offset == framed(s).len()
        &&& self.bloom_offset == framed(s).len() + index_bytes(index_of(s)).len()
        &&& self.file_size == table_bytes(s, self.bloom@).len()
        &&& self.num_records == s.len()
    }

    /// The path of the file of table `id` in the directory `base_path`.
    pub fn format_file_path(base_path: &str, id: u64) -> (r: String)
        ensures
            r@ == join_path(base_path@, table_name(id)),
    {
        let mut name = zero_padded(id, 10);
        name.append(".sst");
        proof {
            reveal_strlit(".sst");
            assert(name@ =~= table_name(id));
        }
        join(base_path, name.as_str())
    }

    /// The table with the records of `source`, and the bytes of its file at `path`. The filter
    /// `bloom` takes their sources and keys.
    pub fn write_to_file(path: String, id: u64, source: &[Record], bloom: BloomFilter) -> (r:
        Result<(Self, Vec<u8>), TableError>)
        requires
            source@.len() > 0 ==> bloom@.usable(),
        ensures
            r is Ok <==> write_error(rec_views(source@)) is None,
            r matches Err(e) ==> write_error(rec_views(source@)) == Some(e),
            r matches Ok((meta, bytes)) ==> meta.id == id && meta.path@ == path@ && fills(
                bloom@,
                meta.bloom@,
                rec_views(source@),
            ) && meta.describes(rec_views(source@)) && bytes@ == table_bytes(
                rec_views(source@),
                meta.bloom@,
            ),
    {
        let ghost s = rec_views(source@);
        let ghost start = bloom@;
        let mut bloom = bloom;
        let mut index = IndexBlock::with_capacity(source.len());
        let mut out: Vec<u8> = Vec::new();
        let mut i: usize = 0;
        proof {
            assert(s.take(0) =~= Seq::<Seq<u8>>::empty());
        }
        while i < source.len()
            invariant
                s == rec_views(source@),
                i <= source@.len(),
                source@.len() > 0 ==> start.usable(),
                out@ == framed(s.take(i as int)),
                index@ == index_of(s.take(i as int)),
                fills(start, bloom@, s.take(i as int)),
                write_error(s.take(i as int)) is None,
            decreases source@.len() - i,
        {
            let rec = &source[i];
            proof {
                lemma_framed_step(s, i as int);
                assert(s.take(i + 1).drop_last() =~= s.take(i as int));
                assert(s.take(i + 1).last() == s[i as int]);
                assert(rec@ == s[i as int]);
                assert(write_error(s.take(i + 1)) == record_error(s[i as int], i as int));
            }
            let ghost offset = out@.len();
            let record_offset: u64 = out.len() as u64;
            put_frame(&mut out, rec);
            let source_id: i64 = match rec.extract_source_id() {
                Ok(source_id) => source_id,
                Err(e) => {
                    proof {
                        lemma_write_error_first(s, i + 1);
                    }
                    return Err(TableError::SourceId(e));
                },
            };
            let key = match rec.extract_key() {
                Ok(key) => key,
                Err(e) => {
                    proof {
                        lemma_write_error_first(s, i + 1);
                    }
                    return Err(TableError::Key(e));
                },
            };
            let ghost before = bloom@;
            bloom.insert(source_id, key);
            proof {
                lemma_fills_step(start, before, bloom@, s, i as int);
            }
            match index.try_insert(i, rec, record_offset) {
                Ok(_) => {},
                Err(e) => {
                    proof {
                        lemma_write_error_first(s, i + 1);
                    }
                    return Err(TableError::Entry(e));
                },
            }
            i += 1;
        }
        proof {
            assert(s.take(s.len() as int) =~= s);
        }
        let index_offset: u64 = out.len() as u64;
        index.encode(&mut out);
        let bloom_offset: u64 = out.len() as u64;
        bloom.encode(&mut out);
        put_le(&mut out, index_offset, 8);
        put_le(&mut out, bloom_offset, 8);
        assert(out@ =~= table_bytes(s, bloom@));
        let file_size: u64 = out.len() as u64;
        let meta = SSTableMeta {
            id,
            path,
            bloom,
            bloom_offset,
            index,
            index_offset,
            file_size,
            num_records: source.len(),
        };
        Ok((meta, out))
    }
}

/// The highest sequence number of the records that have one, and how many have one.
pub fn scan_seq(recs: &Vec<Record>) -> (r: (u64, usize))
    ensures
        r.0 == max_seq(rec_views(recs@)),
        r.1 == numbered(rec_views(recs@)),
{
    let ghost s = rec_views(recs@);
    let mut seq: u64 = 0;
    let mut count: usize = 0;
    let mut i: usize = 0;
    assert(s.take(0) =~= Seq::<Seq<u8>>::empty());
    while i < recs.len()
        invariant
            s == rec_views(recs@),
            i <= recs@.len(),
            seq == max_seq(s.take(i as int)),
            count == numbered(s.take(i as int)),
            count <= i,
        decreases recs@.len() - i,
    {
        assert(s.take(i + 1).drop_last() =~= s.take(i as int));
        assert(s.take(i + 1).last() == s[i as int]);
        if let Ok(n) = recs[i].extract_seq_num() {
            if n > seq {
                seq = n;
            }
            count += 1;
        }
        i += 1;
    }
    assert(s.take(s.len() as int) =~= s);
    (seq, count)
}

proof fn lemma_write_error_first(s: Seq<Seq<u8>>, i: int)
    requires
        0 <= i <= s.len(),
        write_error(s.take(i)) is Some,
    ensures
        write_error(s) == write_error(s.take(i)),
    decreases s.len() - i,
{
    if i < s.len() {
        assert(s.take(i + 1).drop_last() =~= s.take(i));
        lemma_write_error_first(s, i + 1);
    } else {
        assert(s.take(i) =~= s);
    }
}

proof fn lemma_fills_step(
    start: BloomModel,
    before: BloomModel,
    after: BloomModel,
    s: Seq<Seq<u8>>,
    i: int,
)
    requires
        0 <= i < s.len(),
        fills(start, before, s.take(i)),
        before.adds(after, source_of(s[i]), key_of(s[i])),
    ensures
        fills(start, after, s.take(i + 1)),
{
    assert forall|b: int| 0 <= b < 8 * start.bitmap.len() implies (#[trigger] bit_at(
        after.bitmap,
        b,
    ) <==> bit_at(start.bitmap, b) || some_probe(start, s.take(i + 1), b)) by {
        assert(bit_at(before.bitmap, b) <==> bit_at(start.bitmap, b) || some_probe(
            start,
            s.take(i),
            b,
        ));
        if some_probe(start, s.take(i), b) {
            let k = choose|k: int|
                0 <= k < i && record_probes(start, #[trigger] s.take(i)[k]).contains(b);
            assert(s.take(i + 1)[k] == s.take(i)[k]);
        }
        if record_probes(start, s[i]).contains(b) {
            assert(s.take(i + 1)[i] == s[i]);
        }
        if some_probe(start, s.take(i + 1), b) {
            let k = choose|k: int|
                0 <= k < i + 1 && record_probes(start, #[trigger] s.take(i + 1)[k]).contains(b);
            if k < i {
                assert(s.take(i)[k] == s.take(i + 1)[k]);
            }
        }
    }
}

/// The records of a table file are read back from its beginning to where the index block
/// stands.
pub proof fn law_table_records(s: Seq<Seq<u8>>, bloom: BloomModel)
    requires
        frameable(s),
    ensures
        frames_in(table_bytes(s, bloom), 0, framed(s).len()) == s,
{
    assert(s.take(0) =~= Seq::<Seq<u8>>::empty());
    assert(s.skip(0) =~= s);
    assert(framed(s).is_prefix_of(table_bytes(s, bloom)));
    law_frames_in_framed(table_bytes(s, bloom), s, 0);
}

/// The footer of a table file gives back where the index block and the bloom filter stand, and
/// there they are read back.
pub proof fn law_table_footer(s: Seq<Seq<u8>>, bloom: BloomModel)
    requires
        index_storable(index_of(s)),
        table_bytes(s, bloom).len() <= u64::MAX,
        bloom.n_bits <= u64::MAX,
        bloom.n_hashes <= u64::MAX,
    ensures
        ({
            let file = table_bytes(s, bloom);
            let index_offset = framed(s).len();
            let bloom_offset = index_offset + index_bytes(index_of(s)).len();
            &&& file.len() >= 16
            &&& number_at(file, (file.len() - 16) as nat, 8) == index_offset
            &&& number_at(file, (file.len() - 8) as nat, 8) == bloom_offset
            &&& index_at(file, index_offset) == Ok::<(Seq<IndexEntry>, nat), IndexError>(
                (index_of(s), bloom_offset),
            )
            &&& bloom_at(file, bloom_offset) == Ok::<BloomModel, BloomError>(
                bloom,
            )
        }),
{
    let file = table_bytes(s, bloom);
    let index_offset = framed(s).len();
    let index = index_bytes(index_of(s));
    let bloom_offset = index_offset + index.len();
    let foot = le_bytes(index_offset, 8) + le_bytes(bloom_offset, 8);
    lemma_byte_caps();
    lemma_le_bytes_len(index_offset, 8);
    lemma_le_bytes_len(bloom_offset, 8);
    law_le_round_trip(index_offset, 8);
    law_le_round_trip(bloom_offset, 8);
    let n = file.len() as int;
    assert(file.subrange(n - 16, n - 8) =~= le_bytes(index_offset, 8));
    assert(file.subrange(n - 8, n) =~= le_bytes(bloom_offset, 8));
    assert(file =~= framed(s) + index + (bloom_bytes(bloom) + foot));
    law_index_round_trip(framed(s), index_of(s), bloom_bytes(bloom) + foot);
    assert(file =~= (framed(s) + index) + bloom_bytes(bloom) + foot);
    law_bloom_round_trip(framed(s) + index, bloom, foot);
}

proof fn lemma_numbered(s: Seq<Seq<u8>>)
    requires
        forall|i: int| 0 <= i < s.len() ==> (#[trigger] s[i]).len() >= 24,
    ensures
        numbered(s) == s.len(),
    decreases s.len(),
{
    if s.len() > 0 {
        let front = s.drop_last();
        assert forall|i: int| 0 <= i < front.len() implies (#[trigger] front[i]).len() >= 24 by {
            assert(front[i] == s[i]);
        }
        lemma_numbered(front);
        assert(s[s.len() - 1] == s.last());
    }
}

/// A table that was written can be opened, and what is then known of it is what was known when
/// it was written: the records, how many there are, the index and the filter.
pub proof fn law_table_opens(s: Seq<Seq<u8>>, bloom: BloomModel)
    requires
        frameable(s),
        all_keyed(s),
        index_storable(index_of(s)),
        table_bytes(s, bloom).len() <= u64::MAX,
        bloom.n_bits <= u64::MAX,
        bloom.n_hashes <= u64::MAX,
    ensures
        open_table_error(table_bytes(s, bloom)) is None,
        table_records(table_bytes(s, bloom)) == s,
        numbered(s) == s.len(),
        forall|meta: SSTableMeta, id: u64, path: Seq<char>| #[trigger]
            meta.opened(id, path, table_bytes(s, bloom)) ==> meta.describes(s) && meta.bloom@
                == bloom,
{
    let file = table_bytes(s, bloom);
    law_table_footer(s, bloom);
    law_table_records(s, bloom);
    assert(framed(s).is_prefix_of(file));
    law_frames_before_framed(file, s, 0);
    assert(s.take(0) =~= Seq::<Seq<u8>>::empty());
    assert forall|i: int| 0 <= i < s.len() implies (#[trigger] s[i]).len() >= 24 by {
        assert(has_key(s[i]));
    }
    lemma_numbered(s);
}

/// An index can be read back if no key is longer than its length can say, and there are no more
/// entries than can be counted.
pub proof fn law_index_storable(s: Seq<Seq<u8>>)
    requires
        write_error(s) is None,
        index_of(s).len() <= u32::MAX,
        forall|i: int| 0 <= i < s.len() ==> key_of(#[trigger] s[i]).len() <= u32::MAX,
    ensures
        index_storable(index_of(s)),
    decreases s.len(),
{
    if s.len() > 0 {
        let front = s.drop_last();
        assert(write_error(front) is None);
        assert forall|i: int| 0 <= i < front.len() implies key_of(#[trigger] front[i]).len()
            <= u32::MAX by {
            assert(front[i] == s[i]);
        }
        law_index_storable(front);
        assert(s[s.len() - 1] == s.last());
        assert(record_error(s.last(), s.len() - 1) is None);
        let es = index_of(s);
        assert forall|i: int| 0 <= i < es.len() implies entry_storable(#[trigger] es[i]) by {
            if i < index_of(front).len() {
                assert(es[i] == index_of(front)[i]);
            }
        }
    }
}

} // verus!
