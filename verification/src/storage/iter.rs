//! Iterators over the records of tables, and the merge of several of them into one.
use vstd::prelude::*;
use vstd::utf8::encode_utf8;

use crate::codec::{bytes_equal, contains_bytes, find_bytes};
use crate::storage::frames::{frame_at, frames_in, FrameAt};
use crate::storage::index::{start_offset, starts_at};
use crate::storage::memtable::{in_span, lemma_empty_text};
use crate::storage::record::{
    fields_error, has_key, key_of, law_record_round_trip, rec_lt, record_bytes, value_of, Record,
};
use crate::storage::sorted::{all_keyed, rec_views};
use crate::storage::sstable::SSTableMeta;
use crate::text::copy_bytes;

verus! {

/// Why a range of records cannot be asked for.
#[derive(Clone, Copy, Debug, PartialEq, Eq, Structural)]
pub enum RangeError {
    /// The range ends before it starts.
    EndBeforeStart,
    /// The range starts at a negative time.
    NegativeStart,
}

/// What a client is told of a range that cannot be asked for.
pub open spec fn range_message(e: RangeError) -> Seq<char> {
    match e {
        RangeError::EndBeforeStart => "engine.range: end_ts cannot be smaller than start_ts"@,
        RangeError::NegativeStart => "engine.range: start_ts cannot be negative"@,
    }
}

impl RangeError {
    /// What a client is told of a range that cannot be asked for.
    pub fn message(&self) -> (s: &'static str)
        ensures
            s@ == range_message(*self),
    {
        match self {
            RangeError::EndBeforeStart => "engine.range: end_ts cannot be smaller than start_ts",
            RangeError::NegativeStart => "engine.range: start_ts cannot be negative",
        }
    }
}

/// Why the range from `start_ts` to `end_ts` cannot be asked for, if it cannot.
pub open spec fn range_error(start_ts: i64, end_ts: i64) -> Option<RangeError> {
    if start_ts > end_ts {
        Some(RangeError::EndBeforeStart)
    } else if start_ts < 0 {
        Some(RangeError::NegativeStart)
    } else {
        None
    }
}

/// Tests whether the range from `start_ts` to `end_ts` can be asked for.
pub fn check_range(start_ts: i64, end_ts: i64) -> (r: Result<(), RangeError>)
    ensures
        r is Ok <==> range_error(start_ts, end_ts) is None,
        r matches Err(e) ==> range_error(start_ts, end_ts) == Some(e),
{
    if start_ts > end_ts {
        Err(RangeError::EndBeforeStart)
    } else if start_ts < 0 {
        Err(RangeError::NegativeStart)
    } else {
        Ok(())
    }
}

/// The record before all others of the source and time under the key.
pub open spec fn bound_bytes(source_id: i64, timestamp: i64, key: Seq<u8>) -> Seq<u8> {
    record_bytes(source_id, timestamp, 0, key, Seq::empty())
}

/// Whether the record `b` has the key `key` and a value that holds `filter`.
pub open spec fn selected(b: Seq<u8>, key: Seq<u8>, filter: Seq<u8>) -> bool {
    fields_error(b) is None && key_of(b) == key && contains_bytes(value_of(b), filter)
}

/// The records of `s` that are selected, without those before `start`, up to the first that
/// is neither before `start` nor before `end`.
pub open spec fn pick(
    s: Seq<Seq<u8>>,
    start: Seq<u8>,
    end: Seq<u8>,
    key: Seq<u8>,
    filter: Seq<u8>,
) -> Seq<Seq<u8>>
    decreases s.len(),
{
    if s.len() == 0 {
        Seq::empty()
    } else if rec_lt(s[0], start) {
        pick(s.drop_first(), start, end, key, filter)
    } else if !rec_lt(s[0], end) {
        Seq::empty()
    } else if selected(s[0], key, filter) {
        seq![s[0]] + pick(s.drop_first(), start, end, key, filter)
    } else {
        pick(s.drop_first(), start, end, key, filter)
    }
}

/// Whether every record of `s` can be ordered up to the first that is neither before `start`
/// nor before `end`.
pub open spec fn orderable(s: Seq<Seq<u8>>, start: Seq<u8>, end: Seq<u8>) -> bool
    decreases s.len(),
{
    s.len() == 0 || (has_key(s[0]) && (rec_lt(s[0], start) || rec_lt(s[0], end) ==> orderable(
        s.drop_first(),
        start,
        end,
    )))
}

/// Reads the records of a table file within a time range, start inclusive and end exclusive.
/// The index block gives the position to start from; from there the file is read in order.
#[derive(Debug)]
pub struct SSTableIter {
    file: Vec<u8>,
    pos: u64,
    start: Record,
    end: Record,
    key: Vec<u8>,
    end_pos: u64,
    filter: Vec<u8>,
    done: bool,
}

impl SSTableIter {
    /// The records that are still to come.
    pub closed spec fn remaining(&self) -> Seq<Seq<u8>> {
        if self.done {
            Seq::empty()
        } else {
            pick(
                frames_in(self.file@, self.pos as nat, self.end_pos as nat),
                self.start@,
                self.end@,
                self.key@,
                self.filter@,
            )
        }
    }

    /// Every record that will be read can be ordered.
    pub closed spec fn wf(&self) -> bool {
        &&& has_key(self.start@)
        &&& has_key(self.end@)
        &&& !self.done ==> orderable(
            frames_in(self.file@, self.pos as nat, self.end_pos as nat),
            self.start@,
            self.end@,
        )
    }

    /// The records of the table file `file` from `source_id` under `key` at times from
    /// `start_ts` on and before `end_ts` whose values hold `filter`.
    pub fn new(
        meta: &SSTableMeta,
        file: Vec<u8>,
        source_id: i64,
        key: &str,
        start_ts: i64,
        end_ts: i64,
        filter: &str,
    ) -> (r: Result<Self, RangeError>)
        requires
            range_error(start_ts, end_ts) is None ==> table_orderable(
                meta,
                file@,
                source_id,
                encode_utf8(key@),
                start_ts,
                end_ts,
            ),
        ensures
            r is Ok <==> range_error(start_ts, end_ts) is None,
            r matches Err(e) ==> range_error(start_ts, end_ts) == Some(e),
            r matches Ok(it) ==> it.wf() && table_pick(
                meta,
                file@,
                source_id,
                encode_utf8(key@),
                start_ts,
                end_ts,
                encode_utf8(filter@),
                it.remaining(),
            ),
    {
        match check_range(start_ts, end_ts) {
            Ok(_) => {},
            Err(e) => {
                return Err(e);
            },
        }
        let ghost k = encode_utf8(key@);
        let key_len: usize = key.as_bytes().len();
        proof {
            lemma_empty_text();
            law_record_round_trip(source_id, start_ts, 0, k, Seq::empty());
            law_record_round_trip(source_id, end_ts, 0, k, Seq::empty());
        }
        let start = Record::from_raw_parts(source_id, start_ts, 0, key, "");
        let end = Record::from_raw_parts(source_id, end_ts, 0, key, "");
        let pos: u64 = meta.index.range_seek(source_id, start_ts);
        let ghost a = bound_bytes(source_id, start_ts, k);
        assert(start@ == a && end@ == bound_bytes(source_id, end_ts, k));
        let ghost p = choose|p: int| #[trigger]
            starts_at(meta.index@, source_id, start_ts, p) && pos == start_offset(meta.index@, p);
        assert(starts_at(meta.index@, source_id, start_ts, p));
        let r = SSTableIter {
            file,
            pos,
            start,
            end,
            key: copy_bytes(key.as_bytes()),
            end_pos: meta.index_offset,
            filter: copy_bytes(filter.as_bytes()),
            done: false,
        };
        assert(r.key@ =~= k);
        assert(r.filter@ =~= encode_utf8(filter@));
        Ok(r)
    }

    /// The next record.
    pub fn next(&mut self) -> (r: Option<Record>)
        requires
            old(self).wf(),
        ensures
            final(self).wf(),
            r matches Some(x) ==> old(self).remaining() == seq![x@] + final(self).remaining()
                && has_key(x@),
            r is None ==> old(self).remaining() == Seq::<Seq<u8>>::empty() &&
                final(self).remaining() == Seq::<Seq<u8>>::empty(),
    {
        let total: usize = self.file.len();
        if self.done {
            return None;
        }
        loop
            invariant
                self.wf(),
                !self.done,
                total == self.file@.len(),
                self.remaining() == old(self).remaining(),
            decreases self.file@.len() - self.pos,
        {
            if self.pos >= self.end_pos || self.pos > total as u64 {
                self.done = true;
                return None;
            }
            match frame_at(self.file.as_slice(), self.pos as usize) {
                FrameAt::Whole(rec, next) => {
                    let ghost s = frames_in(self.file@, self.pos as nat, self.end_pos as nat);
                    let ghost rest = frames_in(self.file@, next as nat, self.end_pos as nat);
                    assert(s == seq![rec@] + rest);
                    assert(s[0] == rec@ && s.drop_first() =~= rest);
                    self.pos = next as u64;
                    if rec.before(&self.start) {
                        continue ;
                    }
                    if !rec.before(&self.end) {
                        self.done = true;
                        return None;
                    }
                    let hit = match rec.extract_all_fields_ref() {
                        Ok((_, _, _, key, value)) => bytes_equal(key, self.key.as_slice())
                            && find_bytes(value, self.filter.as_slice()),
                        Err(_) => false,
                    };
                    if hit {
                        return Some(rec);
                    }
                },
                _ => {
                    self.done = true;
                    return None;
                },
            }
        }
    }
}

/// Whether every record of the table file `file` that a query reads can be ordered.
pub open spec fn table_orderable(
    meta: &SSTableMeta,
    file: Seq<u8>,
    source_id: i64,
    key: Seq<u8>,
    start_ts: i64,
    end_ts: i64,
) -> bool {
    let start = bound_bytes(source_id, start_ts, key);
    let end = bound_bytes(source_id, end_ts, key);
    forall|p: int| #[trigger]
        starts_at(meta.index@, source_id, start_ts, p) ==> orderable(
            frames_in(file, start_offset(meta.index@, p) as nat, meta.index_offset as nat),
            start,
            end,
        )
}

/// Whether every record of `file` from `from` on that a query between `start` and `end` reads
/// can be ordered.
fn is_orderable_from(file: &[u8], from: u64, end_pos: u64, start: &Record, end: &Record) -> (r: bool)
    requires
        has_key(start@),
        has_key(end@),
    ensures
        r == orderable(frames_in(file@, from as nat, end_pos as nat), start@, end@),
{
    let total: usize = file.len();
    let mut pos: u64 = from;
    loop
        invariant
            has_key(start@),
            has_key(end@),
            total == file@.len(),
            orderable(frames_in(file@, from as nat, end_pos as nat), start@, end@) == orderable(
                frames_in(file@, pos as nat, end_pos as nat),
                start@,
                end@,
            ),
        decreases file@.len() - pos,
    {
        if pos >= end_pos || pos > total as u64 {
            return true;
        }
        match frame_at(file, pos as usize) {
            FrameAt::Whole(rec, next) => {
                let ghost s = frames_in(file@, pos as nat, end_pos as nat);
                let ghost rest = frames_in(file@, next as nat, end_pos as nat);
                assert(s == seq![rec@] + rest);
                assert(s[0] == rec@ && s.drop_first() =~= rest);
                if !rec.is_comparable() {
                    return false;
                }
                if !rec.before(start) && !rec.before(end) {
                    return true;
                }
                pos = next as u64;
            },
            _ => {
                return true;
            },
        }
    }
}

/// Whether every record of the table file `file` that a query reads can be ordered.
pub fn is_table_orderable(
    meta: &SSTableMeta,
    file: &[u8],
    source_id: i64,
    key: &str,
    start_ts: i64,
    end_ts: i64,
) -> (r: bool)
    ensures
        r == table_orderable(meta, file@, source_id, encode_utf8(key@), start_ts, end_ts),
{
    let ghost k = encode_utf8(key@);
    let key_len: usize = key.as_bytes().len();
    proof {
        lemma_empty_text();
        law_record_round_trip(source_id, start_ts, 0, k, Seq::empty());
        law_record_round_trip(source_id, end_ts, 0, k, Seq::empty());
    }
    let start = Record::from_raw_parts(source_id, start_ts, 0, key, "");
    let end = Record::from_raw_parts(source_id, end_ts, 0, key, "");
    assert(start@ == bound_bytes(source_id, start_ts, k));
    assert(end@ == bound_bytes(source_id, end_ts, k));
    let mut p: usize = 0;
    while p < meta.index.inner.len()
        invariant
            p <= meta.index@.len(),
            meta.index@.len() == meta.index.inner@.len(),
            has_key(start@),
            has_key(end@),
            start@ == bound_bytes(source_id, start_ts, k),
            end@ == bound_bytes(source_id, end_ts, k),
            k == encode_utf8(key@),
            forall|q: int|
                0 <= q < p && #[trigger] starts_at(meta.index@, source_id, start_ts, q) ==> orderable(
                    frames_in(
                        file@,
                        start_offset(meta.index@, q) as nat,
                        meta.index_offset as nat,
                    ),
                    start@,
                    end@,
                ),
        decreases meta.index@.len() - p,
    {
        if let Some(from) = meta.index.start_at(source_id, start_ts, p) {
            if !is_orderable_from(file, from, meta.index_offset, &start, &end) {
                return false;
            }
        }
        p += 1;
    }
    if let Some(from) = meta.index.start_at(source_id, start_ts, p) {
        if !is_orderable_from(file, from, meta.index_offset, &start, &end) {
            return false;
        }
    }
    true
}

/// Whether `out` is what a query gives of the table file `file`: what is picked from the
/// position on at which the index block says that the range starts.
pub open spec fn table_pick(
    meta: &SSTableMeta,
    file: Seq<u8>,
    source_id: i64,
    key: Seq<u8>,
    start_ts: i64,
    end_ts: i64,
    filter: Seq<u8>,
    out: Seq<Seq<u8>>,
) -> bool {
    let start = bound_bytes(source_id, start_ts, key);
    let end = bound_bytes(source_id, end_ts, key);
    exists|p: int| #[trigger]
        starts_at(meta.index@, source_id, start_ts, p) && out == pick(
            frames_in(file, start_offset(meta.index@, p) as nat, meta.index_offset as nat),
            start,
            end,
            key,
            filter,
        )
}

proof fn lemma_picked(
    s: Seq<Seq<u8>>,
    start: Seq<u8>,
    end: Seq<u8>,
    key: Seq<u8>,
    filter: Seq<u8>,
)
    requires
        orderable(s, start, end),
    ensures
        all_keyed(pick(s, start, end, key, filter)),
    decreases s.len(),
{
    if s.len() > 0 && (rec_lt(s[0], start) || rec_lt(s[0], end)) {
        lemma_picked(s.drop_first(), start, end, key, filter);
        let rest = pick(s.drop_first(), start, end, key, filter);
        let out = pick(s, start, end, key, filter);
        assert forall|i: int| 0 <= i < out.len() implies has_key(#[trigger] out[i]) by {
            if out.len() > rest.len() && i > 0 {
                assert(out[i] == rest[i - 1]);
            }
        }
    }
}

/// What a query gives of a table can be ordered.
pub proof fn lemma_pick_keyed(
    meta: &SSTableMeta,
    file: Seq<u8>,
    source_id: i64,
    key: Seq<u8>,
    start_ts: i64,
    end_ts: i64,
    filter: Seq<u8>,
    out: Seq<Seq<u8>>,
)
    requires
        table_orderable(meta, file, source_id, key, start_ts, end_ts),
        table_pick(meta, file, source_id, key, start_ts, end_ts, filter, out),
    ensures
        all_keyed(out),
{
    let start = bound_bytes(source_id, start_ts, key);
    let end = bound_bytes(source_id, end_ts, key);
    let p = choose|p: int| #[trigger]
        starts_at(meta.index@, source_id, start_ts, p) && out == pick(
            frames_in(file, start_offset(meta.index@, p) as nat, meta.index_offset as nat),
            start,
            end,
            key,
            filter,
        );
    lemma_picked(
        frames_in(file, start_offset(meta.index@, p) as nat, meta.index_offset as nat),
        start,
        end,
        key,
        filter,
    );
}

/// Whether a query for the source, the key and the time range asks for the record `b`.
pub open spec fn asked_for(
    b: Seq<u8>,
    source_id: i64,
    key: Seq<u8>,
    start_ts: i64,
    end_ts: i64,
    filter: Seq<u8>,
) -> bool {
    in_span(b, source_id, start_ts, end_ts) && selected(b, key, filter)
}

/// Gives the records of a vector that a query asks for, in their order.
#[derive(Debug)]
pub struct MemTableIterOwned {
    inner: Vec<Record>,
    pos: usize,
    source_id: i64,
    key: Vec<u8>,
    start_ts: i64,
    end_ts: i64,
    filter: Vec<u8>,
}

impl MemTableIterOwned {
    /// Whether the query asks for the record `b`.
    closed spec fn wants(&self) -> spec_fn(Seq<u8>) -> bool {
        let (source_id, key, start_ts, end_ts, filter) = (
            self.source_id,
            self.key@,
            self.start_ts,
            self.end_ts,
            self.filter@,
        );
        |b: Seq<u8>| asked_for(b, source_id, key, start_ts, end_ts, filter)
    }

    /// The records that are still to come.
    pub closed spec fn remaining(&self) -> Seq<Seq<u8>> {
        rec_views(self.inner@).skip(self.pos as int).filter(self.wants())
    }

    pub closed spec fn wf(&self) -> bool {
        self.pos <= self.inner@.len()
    }

    /// The records of `memtable_records` from `source_id` under `key` at times from `start_ts`
    /// on and before `end_ts` whose values hold `filter`.
    pub fn filtered(
        memtable_records: Vec<Record>,
        source_id: i64,
        key: &[u8],
        start_ts: i64,
        end_ts: i64,
        filter: &str,
    ) -> (r: Self)
        ensures
            r.wf(),
            r.remaining() == rec_views(memtable_records@).filter(
                |b: Seq<u8>| asked_for(b, source_id, key@, start_ts, end_ts, encode_utf8(filter@)),
            ),
    {
        let ghost s = rec_views(memtable_records@);
        let r = MemTableIterOwned {
            inner: memtable_records,
            pos: 0,
            source_id,
            key: copy_bytes(key),
            start_ts,
            end_ts,
            filter: copy_bytes(filter.as_bytes()),
        };
        assert(s.skip(0) =~= s);
        assert(r.key@ =~= key@);
        assert(r.filter@ =~= encode_utf8(filter@));
        r
    }

    /// The next record.
    pub fn next(&mut self) -> (r: Option<Record>)
        requires
            old(self).wf(),
        ensures
            final(self).wf(),
            r matches Some(x) ==> old(self).remaining() == seq![x@] + final(self).remaining()
                && has_key(x@),
            r is None ==> old(self).remaining() == Seq::<Seq<u8>>::empty() &&
                final(self).remaining() == Seq::<Seq<u8>>::empty(),
    {
        while self.pos < self.inner.len()
            invariant
                self.wf(),
                self.remaining() == old(self).remaining(),
            decreases self.inner@.len() - self.pos,
        {
            let ghost all = rec_views(self.inner@);
            let ghost rest = all.skip(self.pos + 1);
            let rec = &self.inner[self.pos];
            proof {
                assert(all.skip(self.pos as int) =~= seq![rec@] + rest);
                Seq::filter_distributes_over_add(seq![rec@], rest, self.wants());
                lemma_filter_one(rec@, self.wants());
            }
            let hit = match rec.extract_all_fields_ref() {
                Ok((source_id, timestamp, _, key, value)) => source_id == self.source_id
                    && timestamp >= self.start_ts && timestamp < self.end_ts && bytes_equal(
                    key,
                    self.key.as_slice(),
                ) && find_bytes(value, self.filter.as_slice()),
                Err(_) => false,
            };
            let copy = if hit {
                Some(rec.clone())
            } else {
                None
            };
            self.pos = self.pos + 1;
            if let Some(rec) = copy {
                return Some(rec);
            }
            assert(Seq::<Seq<u8>>::empty() + self.remaining() =~= self.remaining());
        }
        proof {
            assert(rec_views(self.inner@).skip(self.pos as int) =~= Seq::<Seq<u8>>::empty());
            reveal(Seq::filter);
        }
        None
    }
}

proof fn lemma_filter_one(x: Seq<u8>, p: spec_fn(Seq<u8>) -> bool)
    ensures
        p(x) ==> seq![x].filter(p) == seq![x],
        !p(x) ==> seq![x].filter(p) == Seq::<Seq<u8>>::empty(),
{
    reveal(Seq::filter);
    assert(seq![x].drop_last() =~= Seq::<Seq<u8>>::empty());
    assert(Seq::<Seq<u8>>::empty().filter(p) =~= Seq::<Seq<u8>>::empty());
    assert(seq![x].last() == x);
    assert(Seq::<Seq<u8>>::empty().push(x) =~= seq![x]);
}

/// Reads all records of a table file.
#[derive(Debug)]
pub struct SSTableScaner {
    file: Vec<u8>,
    pos: u64,
    end_pos: u64,
}

impl SSTableScaner {
    /// The records that are still to come.
    pub closed spec fn remaining(&self) -> Seq<Seq<u8>> {
        frames_in(self.file@, self.pos as nat, self.end_pos as nat)
    }

    /// The records of the table file `file`.
    pub fn new(meta: &SSTableMeta, file: Vec<u8>) -> (r: Self)
        ensures
            r.remaining() == frames_in(file@, 0, meta.index_offset as nat),
    {
        SSTableScaner { file, pos: 0, end_pos: meta.index_offset }
    }

    /// The next record.
    pub fn next(&mut self) -> (r: Option<Record>)
        ensures
            r matches Some(x) ==> old(self).remaining() == seq![x@] + final(self).remaining(),
            r is None ==> old(self).remaining() == Seq::<Seq<u8>>::empty() &&
                final(self).remaining() == Seq::<Seq<u8>>::empty(),
    {
        let total: usize = self.file.len();
        if self.pos >= self.end_pos || self.pos > total as u64 {
            return None;
        }
        match frame_at(self.file.as_slice(), self.pos as usize) {
            FrameAt::Whole(rec, next) => {
                self.pos = next as u64;
                Some(rec)
            },
            _ => None,
        }
    }
}

} // verus!
