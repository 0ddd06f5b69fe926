//! The bloom filter of a table: which sources and keys it may hold.
use std::collections::hash_map::DefaultHasher;
use std::hash::Hasher;
use vstd::prelude::*;
use vstd::std_specs::hash::DefaultHasherAdditionalSpecFns;

use crate::codec::{
    bits_of_i64, get_le, i64_bits, law_le_round_trip, le_bytes, lemma_byte_caps, put_le,
};
use crate::storage::index::number_at;
use crate::text::copy_range;

verus! {

/// The hash of `data` and then `salt`, as `DefaultHasher` gives it. Every hasher that is made with
/// `new` starts from the same keys, so one input has one hash.
pub open spec fn salted_hash(data: Seq<u8>, salt: Seq<u8>) -> u64 {
    DefaultHasher::spec_finish(seq![data, salt])
}

/// Why a bloom filter could not be read.
#[derive(Clone, Copy, Debug, PartialEq, Eq, Structural)]
pub enum BloomError {
    /// The file ends before the position of the filter does.
    Position,
    /// The file ends before the number of bits does.
    Bits,
    /// The file ends before the number of hashes does.
    Hashes,
    /// The file ends before the length of the bitmap does.
    Length,
    /// The file ends before the bitmap does.
    Contents,
}

/// A bloom filter over pairs of a source and a key:
///
/// `[n_bits: u64][n_hashes: u64][len: u64][bitmap]`
///
/// with the integers little-endian. The hash function has no state of its own, so a filter that
/// is read back holds what was put in before it was written.
#[derive(Debug)]
pub struct BloomFilter {
    bitmap: Vec<u8>,
    n_bits: u64,
    n_hashes: u64,
}

/// Whether bit `i` of the bitmap is set, the lowest bit of a byte first.
pub open spec fn bit_at(bitmap: Seq<u8>, i: int) -> bool {
    (bitmap[i / 8] >> (i % 8) as u8) & 1u8 == 1u8
}

/// What is hashed for a source and a key.
pub open spec fn hash_input(source_id: i64, key: Seq<u8>) -> Seq<u8> {
    le_bytes(i64_bits(source_id), 8) + key
}

/// The `i`-th of the bits that stand for the hashes `h1` and `h2` in a filter of `n_bits` bits.
pub open spec fn probe(h1: u64, h2: u64, n_bits: nat, i: int) -> int {
    (h1 + i * h2) % 0x1_0000_0000_0000_0000 % n_bits as int
}

/// The bits that stand for the hashes `h1` and `h2`.
pub open spec fn probes(h1: u64, h2: u64, n_bits: nat, n_hashes: nat) -> Seq<int> {
    Seq::new(n_hashes, |i: int| probe(h1, h2, n_bits, i))
}

/// The text that is hashed behind the input for the first hash.
pub open spec fn salt_one() -> Seq<u8> {
    seq![98u8, 108, 111, 111, 109, 95, 115, 97, 108, 116, 95, 49]
}

/// The text that is hashed behind the input for the second hash.
pub open spec fn salt_two() -> Seq<u8> {
    seq![98u8, 108, 111, 111, 109, 95, 115, 97, 108, 116, 95, 50]
}

/// What a bloom filter holds.
pub struct BloomModel {
    pub bitmap: Seq<u8>,
    pub n_bits: nat,
    pub n_hashes: nat,
}

impl BloomModel {
    /// Whether the filter has bits, and a bitmap that holds them all.
    pub open spec fn usable(self) -> bool {
        0 < self.n_bits <= 8 * self.bitmap.len()
    }

    /// The two hashes of a source and a key.
    pub open spec fn hashes(self, source_id: i64, key: Seq<u8>) -> (u64, u64) {
        (
            salted_hash(hash_input(source_id, key), salt_one()),
            salted_hash(hash_input(source_id, key), salt_two()),
        )
    }

    /// Whether the bits that stand for the hashes are all set.
    pub open spec fn holds_hashes(self, h1: u64, h2: u64) -> bool {
        forall|i: int|
            0 <= i < self.n_hashes ==> bit_at(self.bitmap, #[trigger] probe(h1, h2, self.n_bits, i))
    }

    /// Whether the bits that stand for the source and the key are all set.
    pub open spec fn holds(self, source_id: i64, key: Seq<u8>) -> bool {
        self.holds_hashes(self.hashes(source_id, key).0, self.hashes(source_id, key).1)
    }

    /// Whether `after` is this filter with the bits that stand for the hashes set, and nothing
    /// else changed.
    pub open spec fn adds_hashes(self, after: BloomModel, h1: u64, h2: u64) -> bool {
        &&& after.bitmap.len() == self.bitmap.len()
        &&& after.n_bits == self.n_bits
        &&& after.n_hashes == self.n_hashes
        &&& forall|b: int|
            0 <= b < 8 * self.bitmap.len() ==> (#[trigger] bit_at(after.bitmap, b) <==> bit_at(
                self.bitmap,
                b,
            ) || probes(h1, h2, self.n_bits, self.n_hashes).contains(b))
    }

    /// Whether `after` is this filter with the source and the key put in.
    pub open spec fn adds(self, after: BloomModel, source_id: i64, key: Seq<u8>) -> bool {
        self.adds_hashes(after, self.hashes(source_id, key).0, self.hashes(source_id, key).1)
    }
}

/// No false negatives: what was put in is held, and what was held before still is.
pub proof fn law_bloom_no_false_negatives(
    before: BloomModel,
    after: BloomModel,
    source_id: i64,
    key: Seq<u8>,
    other_source: i64,
    other_key: Seq<u8>,
)
    requires
        before.usable(),
        before.adds(after, source_id, key),
    ensures
        after.usable(),
        after.holds(source_id, key),
        before.holds(other_source, other_key) ==> after.holds(other_source, other_key),
{
    let (h1, h2) = before.hashes(source_id, key);
    assert forall|i: int| 0 <= i < after.n_hashes implies bit_at(
        after.bitmap,
        #[trigger] probe(h1, h2, after.n_bits, i),
    ) by {
        let p = probe(h1, h2, before.n_bits, i);
        assert(probes(h1, h2, before.n_bits, before.n_hashes)[i] == p);
        lemma_probe_bound(h1, h2, before.n_bits, i);
    }
    if before.holds(other_source, other_key) {
        let (g1, g2) = before.hashes(other_source, other_key);
        assert forall|i: int| 0 <= i < after.n_hashes implies bit_at(
            after.bitmap,
            #[trigger] probe(g1, g2, after.n_bits, i),
        ) by {
            lemma_probe_bound(g1, g2, before.n_bits, i);
        }
    }
}

proof fn lemma_probe_bound(h1: u64, h2: u64, n_bits: nat, i: int)
    requires
        n_bits > 0,
    ensures
        0 <= probe(h1, h2, n_bits, i) < n_bits,
{
    let x = (h1 + i * h2) % 0x1_0000_0000_0000_0000;
    vstd::arithmetic::div_mod::lemma_mod_bound(x, n_bits as int);
}

/// The bytes of a filter.
pub open spec fn bloom_bytes(m: BloomModel) -> Seq<u8> {
    le_bytes(m.n_bits, 8) + le_bytes(m.n_hashes, 8) + le_bytes(m.bitmap.len(), 8) + m.bitmap
}

/// The filter that stands in `file` at `pos`.
pub open spec fn bloom_at(file: Seq<u8>, pos: nat) -> Result<BloomModel, BloomError> {
    if pos + 8 > file.len() {
        Err(BloomError::Bits)
    } else if pos + 16 > file.len() {
        Err(BloomError::Hashes)
    } else if pos + 24 > file.len() {
        Err(BloomError::Length)
    } else {
        let len = number_at(file, pos + 16, 8);
        if pos + 24 + len > file.len() {
            Err(BloomError::Contents)
        } else {
            Ok(
                BloomModel {
                    bitmap: file.subrange((pos + 24) as int, (pos + 24 + len) as int),
                    n_bits: number_at(file, pos, 8),
                    n_hashes: number_at(file, pos + 8, 8),
                },
            )
        }
    }
}

/// Reading a filter back, from wherever it was written in a file, gives the same filter. So what
/// was put in before it was written is still held.
pub proof fn law_bloom_round_trip(front: Seq<u8>, m: BloomModel, back: Seq<u8>)
    requires
        m.n_bits <= u64::MAX,
        m.n_hashes <= u64::MAX,
        m.bitmap.len() <= u64::MAX,
    ensures
        bloom_at(front + bloom_bytes(m) + back, front.len()) == Ok::<BloomModel, BloomError>(m),
{
    let file = front + bloom_bytes(m) + back;
    let pos = front.len() as int;
    lemma_byte_caps();
    law_le_round_trip(m.n_bits, 8);
    law_le_round_trip(m.n_hashes, 8);
    law_le_round_trip(m.bitmap.len(), 8);
    assert(file.subrange(pos, pos + 8) =~= le_bytes(m.n_bits, 8));
    assert(file.subrange(pos + 8, pos + 16) =~= le_bytes(m.n_hashes, 8));
    assert(file.subrange(pos + 16, pos + 24) =~= le_bytes(m.bitmap.len(), 8));
    assert(file.subrange(pos + 24, pos + 24 + m.bitmap.len()) =~= m.bitmap);
}

/// The numbers of a filter, and the length of its bitmap, fit in the eight bytes in which they
/// are written.
pub proof fn law_bloom_bounds(f: &BloomFilter)
    ensures
        f@.n_bits <= u64::MAX,
        f@.n_hashes <= u64::MAX,
        f@.bitmap.len() <= u64::MAX,
{
    assert(f.bitmap.len() == f.bitmap@.len());
}

proof fn lemma_byte_set(b: u8, k: u8, j: u8)
    by (bit_vector)
    requires
        k < 8,
        j < 8,
    ensures
        ((b | (1u8 << k)) >> j) & 1u8 == 1u8 <==> (j == k || (b >> j) & 1u8 == 1u8),
{
}

impl View for BloomFilter {
    type V = BloomModel;

    closed spec fn view(&self) -> BloomModel {
        BloomModel {
            bitmap: self.bitmap@,
            n_bits: self.n_bits as nat,
            n_hashes: self.n_hashes as nat,
        }
    }
}

/// The hash of `data` and then `salt`.
fn hash_with_salt(data: &[u8], salt: &[u8]) -> (h: u64)
    ensures
        h == salted_hash(data@, salt@),
{
    let mut hasher = DefaultHasher::new();
    hasher.write(data);
    hasher.write(salt);
    assert(hasher@ =~= seq![data@, salt@]);
    hasher.finish()
}

impl BloomFilter {
    /// An empty filter of `n_bits` bits that sets `n_hashes` of them, but at least one, for
    /// each entry.
    pub fn new(n_bits: u64, n_hashes: u64) -> (r: Self)
        requires
            n_bits <= usize::MAX,
        ensures
            r@.bitmap == Seq::new(((n_bits + 7) / 8) as nat, |i: int| 0u8),
            r@.n_bits == n_bits,
            n_hashes == 0 ==> r@.n_hashes == 1,
            n_hashes > 0 ==> r@.n_hashes == n_hashes,
    {
        let len: u64 = if n_bits % 8 == 0 {
            n_bits / 8
        } else {
            n_bits / 8 + 1
        };
        let mut bitmap: Vec<u8> = Vec::new();
        bitmap.resize(len as usize, 0);
        let n_hashes: u64 = if n_hashes == 0 {
            1
        } else {
            n_hashes
        };
        let r = BloomFilter { bitmap, n_bits, n_hashes };
        assert(r@.bitmap =~= Seq::new(((n_bits + 7) / 8) as nat, |i: int| 0u8));
        r
    }

    /// Reads the position of the filter that stands in `file` at `at`, and the filter from
    /// there. Returns the filter and its position.
    pub fn read_from_unchecked(file: &[u8], at: usize) -> (r: Result<(Self, u64), BloomError>)
        ensures
            r == Err::<(Self, u64), BloomError>(BloomError::Position) <==> at + 8 > file@.len(),
            r matches Err(e) ==> e == BloomError::Position || bloom_at(
                file@,
                number_at(file@, at as nat, 8),
            ) == Err::<BloomModel, BloomError>(e),
            r matches Ok((b, offset)) ==> at + 8 <= file@.len() && offset == number_at(
                file@,
                at as nat,
                8,
            ) && bloom_at(file@, offset as nat) == Ok::<BloomModel, BloomError>(b@),
    {
        let total: usize = file.len();
        if total < 8 || at > total - 8 {
            return Err(BloomError::Position);
        }
        let offset: u64 = get_le(file, at, 8);
        if offset > total as u64 {
            return Err(BloomError::Bits);
        }
        match BloomFilter::decode(file, offset as usize) {
            Ok(filter) => Ok((filter, offset)),
            Err(e) => Err(e),
        }
    }

    /// The bits that stand for the hashes `h1` and `h2`.
    pub fn positions_of(&self, h1: u64, h2: u64) -> (v: Vec<u64>)
        requires
            self@.n_bits > 0,
        ensures
            v@.len() == self@.n_hashes,
            forall|i: int|
                0 <= i < v@.len() ==> #[trigger] v@[i] == probe(h1, h2, self@.n_bits, i),
    {
        let mut v: Vec<u64> = Vec::new();
        let mut i: u64 = 0;
        while i < self.n_hashes
            invariant
                self@.n_bits > 0,
                i <= self.n_hashes == self@.n_hashes,
                v@.len() == i,
                forall|j: int|
                    0 <= j < v@.len() ==> #[trigger] v@[j] == probe(h1, h2, self@.n_bits, j),
            decreases self.n_hashes - i,
        {
            let h: u64 = h1.wrapping_add(i.wrapping_mul(h2));
            proof {
                lemma_wrapped(h1 as int, i * h2);
            }
            v.push(h % self.n_bits);
            i += 1;
        }
        v
    }

    /// The bits that stand for a source and a key.
    pub fn positions(&self, source_id: i64, key: &[u8]) -> (v: Vec<u64>)
        requires
            self@.n_bits > 0,
        ensures
            v@.len() == self@.n_hashes,
            forall|i: int|
                0 <= i < v@.len() ==> #[trigger] v@[i] == probe(
                    self@.hashes(source_id, key@).0,
                    self@.hashes(source_id, key@).1,
                    self@.n_bits,
                    i,
                ),
    {
        let (h1, h2) = self.hashes(source_id, key);
        self.positions_of(h1, h2)
    }

    fn hashes(&self, source_id: i64, key: &[u8]) -> (r: (u64, u64))
        ensures
            r == self@.hashes(source_id, key@),
    {
        let mut input: Vec<u8> = Vec::new();
        put_le(&mut input, bits_of_i64(source_id), 8);
        input.extend_from_slice(key);
        assert(input@ =~= hash_input(source_id, key@));
        let one: [u8; 12] = [98, 108, 111, 111, 109, 95, 115, 97, 108, 116, 95, 49];
        let two: [u8; 12] = [98, 108, 111, 111, 109, 95, 115, 97, 108, 116, 95, 50];
        assert(one@ =~= salt_one());
        assert(two@ =~= salt_two());
        (
            hash_with_salt(input.as_slice(), one.as_slice()),
            hash_with_salt(input.as_slice(), two.as_slice()),
        )
    }

    /// Sets the bits that stand for the hashes `h1` and `h2`.
    pub fn insert_hashes(&mut self, h1: u64, h2: u64)
        requires
            old(self)@.usable(),
        ensures
            final(self)@.usable(),
            old(self)@.adds_hashes(final(self)@, h1, h2),
    {
        let v = self.positions_of(h1, h2);
        let ghost m = self@;
        let mut i: usize = 0;
        while i < v.len()
            invariant
                m.usable(),
                i <= v@.len() == m.n_hashes,
                forall|j: int|
                    0 <= j < v@.len() ==> #[trigger] v@[j] == probe(h1, h2, m.n_bits, j),
                self@.n_bits == m.n_bits,
                self@.n_hashes == m.n_hashes,
                self@.bitmap.len() == m.bitmap.len(),
                forall|b: int|
                    0 <= b < 8 * m.bitmap.len() ==> (#[trigger] bit_at(self@.bitmap, b) <==> bit_at(
                        m.bitmap,
                        b,
                    ) || hit(v@, i as int, b)),
            decreases v@.len() - i,
        {
            let pos: u64 = v[i];
            proof {
                lemma_probe_bound(h1, h2, m.n_bits, i as int);
            }
            let ghost before = self@;
            self.set_bit(pos);
            i += 1;
            assert forall|b: int| 0 <= b < 8 * m.bitmap.len() implies (#[trigger] bit_at(
                self@.bitmap,
                b,
            ) <==> bit_at(m.bitmap, b) || hit(v@, i as int, b)) by {
                assert(bit_at(before.bitmap, b) <==> bit_at(m.bitmap, b) || hit(v@, i - 1, b));
                if b == pos {
                    assert(v@[i - 1] == b);
                }
            }
        }
        proof {
            let ps = probes(h1, h2, m.n_bits, m.n_hashes);
            assert forall|b: int| 0 <= b < 8 * m.bitmap.len() implies (#[trigger] bit_at(
                self@.bitmap,
                b,
            ) <==> bit_at(m.bitmap, b) || ps.contains(b)) by {
                if hit(v@, v@.len() as int, b) {
                    let k = choose|k: int| 0 <= k < v@.len() && #[trigger] v@[k] == b;
                    assert(ps[k] == b);
                }
                if ps.contains(b) {
                    let k = choose|k: int| 0 <= k < ps.len() && ps[k] == b;
                    assert(v@[k] == b);
                }
            }
        }
    }

    /// Whether the bits that stand for the hashes `h1` and `h2` are all set.
    pub fn contains_hashes(&self, h1: u64, h2: u64) -> (r: bool)
        requires
            self@.usable(),
        ensures
            r == self@.holds_hashes(h1, h2),
    {
        let v = self.positions_of(h1, h2);
        let mut i: usize = 0;
        while i < v.len()
            invariant
                self@.usable(),
                i <= v@.len() == self@.n_hashes,
                forall|j: int|
                    0 <= j < v@.len() ==> #[trigger] v@[j] == probe(h1, h2, self@.n_bits, j),
                forall|j: int|
                    0 <= j < i ==> bit_at(
                        self@.bitmap,
                        #[trigger] probe(h1, h2, self@.n_bits, j),
                    ),
            decreases v@.len() - i,
        {
            proof {
                lemma_probe_bound(h1, h2, self@.n_bits, i as int);
            }
            if !self.get_bit(v[i]) {
                assert(!bit_at(self@.bitmap, probe(h1, h2, self@.n_bits, i as int)));
                return false;
            }
            i += 1;
        }
        true
    }

    /// Puts in a source and a key.
    pub fn insert(&mut self, source_id: i64, key: &[u8])
        requires
            old(self)@.usable(),
        ensures
            final(self)@.usable(),
            old(self)@.adds(final(self)@, source_id, key@),
    {
        let (h1, h2) = self.hashes(source_id, key);
        self.insert_hashes(h1, h2);
    }

    /// Whether the source and the key may have been put in.
    pub fn contains(&self, source_id: i64, key: &[u8]) -> (r: bool)
        requires
            self@.usable(),
        ensures
            r == self@.holds(source_id, key@),
    {
        let (h1, h2) = self.hashes(source_id, key);
        self.contains_hashes(h1, h2)
    }

    /// Whether the filter has bits, and a bitmap that holds them all.
    pub fn is_usable(&self) -> (r: bool)
        ensures
            r == self@.usable(),
    {
        self.n_bits > 0 && (self.n_bits - 1) / 8 < self.bitmap.len() as u64
    }

    /// Appends the bytes of the filter.
    pub fn encode(&self, out: &mut Vec<u8>)
        ensures
            final(out)@ == old(out)@ + bloom_bytes(self@),
    {
        put_le(out, self.n_bits, 8);
        put_le(out, self.n_hashes, 8);
        put_le(out, self.bitmap.len() as u64, 8);
        out.extend_from_slice(self.bitmap.as_slice());
        assert(out@ =~= old(out)@ + bloom_bytes(self@));
    }

    /// Reads the filter that stands in `file` at `pos`.
    pub fn decode(file: &[u8], pos: usize) -> (r: Result<Self, BloomError>)
        ensures
            r matches Ok(b) ==> bloom_at(file@, pos as nat) == Ok::<BloomModel, BloomError>(b@),
            r matches Err(e) ==> bloom_at(file@, pos as nat) == Err::<BloomModel, BloomError>(e),
    {
        let total: usize = file.len();
        if pos > total || total - pos < 8 {
            return Err(BloomError::Bits);
        }
        let n_bits: u64 = get_le(file, pos, 8);
        if total - pos < 16 {
            return Err(BloomError::Hashes);
        }
        let n_hashes: u64 = get_le(file, pos + 8, 8);
        if total - pos < 24 {
            return Err(BloomError::Length);
        }
        let len: u64 = get_le(file, pos + 16, 8);
        if len > (total - pos - 24) as u64 {
            return Err(BloomError::Contents);
        }
        let bitmap = copy_range(file, pos + 24, pos + 24 + len as usize);
        Ok(BloomFilter { bitmap, n_bits, n_hashes })
    }

    fn set_bit(&mut self, pos: u64)
        requires
            pos < 8 * old(self)@.bitmap.len(),
        ensures
            final(self)@.n_bits == old(self)@.n_bits,
            final(self)@.n_hashes == old(self)@.n_hashes,
            final(self)@.bitmap.len() == old(self)@.bitmap.len(),
            forall|b: int|
                0 <= b < 8 * old(self)@.bitmap.len() ==> (#[trigger] bit_at(final(self)@.bitmap, b)
                    <==> b == pos || bit_at(old(self)@.bitmap, b)),
    {
        let len: usize = self.bitmap.len();
        assert(pos / 8 < len);
        let at: usize = (pos / 8) as usize;
        let k: u8 = (pos % 8) as u8;
        let byte: u8 = self.bitmap[at];
        self.bitmap[at] = byte | (1u8 << k);
        proof {
            let m = old(self)@.bitmap;
            assert forall|b: int| 0 <= b < 8 * m.len() implies (#[trigger] bit_at(
                self@.bitmap,
                b,
            ) <==> b == pos || bit_at(m, b)) by {
                if b / 8 == at {
                    lemma_byte_set(byte, k, (b % 8) as u8);
                }
            }
        }
    }

    fn get_bit(&self, pos: u64) -> (r: bool)
        requires
            pos < 8 * self@.bitmap.len(),
        ensures
            r == bit_at(self@.bitmap, pos as int),
    {
        let len: usize = self.bitmap.len();
        assert(pos / 8 < len);
        let byte: u8 = self.bitmap[(pos / 8) as usize];
        let k: u8 = (pos % 8) as u8;
        (byte >> k) & 1u8 == 1u8
    }
}

impl Clone for BloomFilter {
    fn clone(&self) -> (r: Self)
        ensures
            r@ == self@,
    {
        BloomFilter {
            bitmap: self.bitmap.clone(),
            n_bits: self.n_bits,
            n_hashes: self.n_hashes,
        }
    }
}

spec fn hit(v: Seq<u64>, n: int, b: int) -> bool {
    exists|k: int| 0 <= k < n && #[trigger] v[k] == b
}

proof fn lemma_wrapped(h: int, x: int)
    ensures
        (h + x % 0x1_0000_0000_0000_0000) % 0x1_0000_0000_0000_0000 == (h + x)
            % 0x1_0000_0000_0000_0000,
{
    vstd::arithmetic::div_mod::lemma_add_mod_noop_right(h, x, 0x1_0000_0000_0000_0000);
}

/// A hash is made of the data and then of the salt, each as it stands: it is what a hasher gives
/// that was handed the one and then the other.
pub proof fn law_hash_made(data: Seq<u8>, salt: Seq<u8>)
    ensures
        salted_hash(data, salt) == DefaultHasher::spec_finish(
            Seq::<Seq<u8>>::empty().push(data).push(salt),
        ),
{
    assert(Seq::<Seq<u8>>::empty().push(data).push(salt) =~= seq![data, salt]);
}

} // verus!
