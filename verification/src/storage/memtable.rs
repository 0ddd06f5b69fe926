//! The in-memory table of the latest records.
use vstd::prelude::*;
use vstd::utf8::encode_utf8;

use crate::codec::{bytes_equal, law_bytes_lt_total};
use crate::storage::record::{
    has_key, key_of, law_record_order_transitive, law_record_round_trip,
    rec_lt, seq_of, source_of, time_of, Record,
};
use crate::storage::sorted::{
    all_keyed, insert_sorted, lemma_place_bounds, lower_bound, place,
    rec_views, strictly_sorted, with_record,
};

verus! {

/// A buffer of the latest log records, sorted and without duplicates. Each insertion fills it
/// up further and says whether the table has outgrown its limit and should be flushed.
#[derive(Debug)]
pub struct MemTable {
    current_sz: usize,
    limit: usize,
    recs: Vec<Record>,
}

/// Whether the record `b` is one of source `source_id` at time `timestamp` under the key `key`.
pub open spec fn is_log(b: Seq<u8>, source_id: i64, timestamp: i64, key: Seq<u8>) -> bool {
    source_of(b) == source_id && time_of(b) == timestamp && key_of(b) == key
}

/// Whether the record `b` is one of source `source_id` at a time from `start_ts` on and before
/// `end_ts`.
pub open spec fn in_span(b: Seq<u8>, source_id: i64, start_ts: i64, end_ts: i64) -> bool {
    source_of(b) == source_id && start_ts <= time_of(b) < end_ts
}

/// The records of `s` from source `source_id` at times from `start_ts` on and before `end_ts`.
pub open spec fn span_of(
    s: Seq<Seq<u8>>,
    source_id: i64,
    start_ts: i64,
    end_ts: i64,
) -> Seq<Seq<u8>> {
    s.filter(|b: Seq<u8>| in_span(b, source_id, start_ts, end_ts))
}

impl MemTable {
    /// The records of the table in their order.
    pub closed spec fn records(&self) -> Seq<Seq<u8>> {
        rec_views(self.recs@)
    }

    /// How many bytes have been inserted since the table was last empty.
    pub closed spec fn size(&self) -> nat {
        self.current_sz as nat
    }

    /// How many bytes the table takes before it should be flushed.
    pub closed spec fn bound(&self) -> nat {
        self.limit as nat
    }

    /// The records are sorted, no two share a place, and each can be ordered.
    pub open spec fn wf(&self) -> bool {
        strictly_sorted(self.records()) && all_keyed(self.records())
    }

    /// An empty table that takes `limit` bytes.
    pub fn new(limit: usize) -> (r: Self)
        ensures
            r.wf(),
            r.records() == Seq::<Seq<u8>>::empty(),
            r.size() == 0,
            r.bound() == limit,
    {
        let r = MemTable { current_sz: 0, limit, recs: Vec::new() };
        assert(r.records() =~= Seq::<Seq<u8>>::empty());
        r
    }

    /// Puts `rec` in at its place. A record that is already there with the same place stays.
    /// The size grows either way. Returns whether the table has outgrown its limit.
    pub fn insert(&mut self, rec: Record) -> (r: bool)
        requires
            old(self).wf(),
            has_key(rec@),
            old(self).size() + rec@.len() <= usize::MAX,
        ensures
            final(self).wf(),
            final(self).records() == with_record(old(self).records(), rec@),
            final(self).size() == old(self).size() + rec@.len(),
            final(self).bound() == old(self).bound(),
            r == (final(self).size() > final(self).bound()),
    {
        let rec_sz: usize = rec.len();
        insert_sorted(&mut self.recs, rec);
        self.current_sz = self.current_sz + rec_sz;
        self.current_sz > self.limit
    }

    /// The record with the highest sequence number among those of `source_id` at `timestamp`
    /// under `key`.
    pub fn get(&self, source_id: i64, timestamp: i64, key: &str) -> (r: Option<&Record>)
        requires
            self.wf(),
        ensures
            r is None <==> forall|i: int|
                0 <= i < self.records().len() ==> !is_log(
                    #[trigger] self.records()[i],
                    source_id,
                    timestamp,
                    encode_utf8(key@),
                ),
            self.records().len() == 0 ==> r is None,
            r matches Some(x) ==> self.records().contains(x@) && is_log(
                x@,
                source_id,
                timestamp,
                encode_utf8(key@),
            ) && forall|i: int|
                0 <= i < self.records().len() && is_log(
                    #[trigger] self.records()[i],
                    source_id,
                    timestamp,
                    encode_utf8(key@),
                ) ==> seq_of(self.records()[i]) <= seq_of(x@),
    {
        let ghost s = self.records();
        let ghost k = encode_utf8(key@);
        let key_bytes = key.as_bytes();
        let start = Record::from_raw_parts(source_id, timestamp, 0, key, "");
        let n: usize = key_bytes.len();
        proof {
            lemma_empty_text();
            law_record_round_trip(source_id, timestamp, 0, k, encode_utf8(""@));
        }
        let from: usize = lower_bound(&self.recs, &start);
        let mut found: Option<usize> = None;
        let mut i: usize = from;
        proof {
            lemma_place_bounds(s, start@);
            assert forall|j: int| 0 <= j < from implies !is_log(
                #[trigger] s[j],
                source_id,
                timestamp,
                k,
            ) by {
                if is_log(s[j], source_id, timestamp, k) {
                    assert(has_key(s[j]));
                    lemma_log_not_before(s[j], start@, source_id, timestamp, k);
                }
            }
        }
        while i < self.recs.len()
            invariant
                self.wf(),
                s == self.records(),
                s == rec_views(self.recs@),
                key_bytes@ == k,
                from <= i <= self.recs@.len(),
                from == place(s, start@),
                source_of(start@) == source_id,
                time_of(start@) == timestamp,
                forall|j: int|
                    0 <= j < i && is_log(#[trigger] s[j], source_id, timestamp, k) ==> found
                        is Some && j <= found->0,
                found matches Some(f) ==> f < i && is_log(s[f as int], source_id, timestamp, k),
            ensures
                i <= self.recs@.len(),
                forall|j: int|
                    0 <= j < s.len() && is_log(#[trigger] s[j], source_id, timestamp, k) ==> found
                        is Some && j <= found->0,
                found matches Some(f) ==> f < s.len() && is_log(
                    s[f as int],
                    source_id,
                    timestamp,
                    k,
                ),
            decreases self.recs@.len() - i,
        {
            let rec = &self.recs[i];
            assert(has_key(s[i as int]));
            let same = match (rec.extract_source_id(), rec.extract_timestamp()) {
                (Ok(source), Ok(time)) => source == source_id && time == timestamp,
                _ => false,
            };
            if !same {
                proof {
                    assert forall|j: int| i <= j < s.len() implies !is_log(
                        #[trigger] s[j],
                        source_id,
                        timestamp,
                        k,
                    ) by {
                        lemma_log_after(s, start@, i as int, j, source_id, timestamp, k);
                    }
                }
                break ;
            }
            if let Ok(rec_key) = rec.extract_key() {
                if bytes_equal(rec_key, key_bytes) {
                    found = Some(i);
                }
            }
            i += 1;
        }
        match found {
            Some(f) => {
                proof {
                    let x = s[f as int];
                    assert(self.records().contains(x));
                    assert forall|j: int|
                        0 <= j < s.len() && is_log(
                            #[trigger] s[j],
                            source_id,
                            timestamp,
                            k,
                        ) implies seq_of(s[j]) <= seq_of(x) by {
                        assert(has_key(s[j]) && has_key(s[f as int]));
                        if j < f {
                            assert(rec_lt(s[j], s[f as int]));
                        }
                    }
                }
                Some(&self.recs[f])
            },
            None => None,
        }
    }

    /// How many records the table holds.
    pub fn len(&self) -> (n: usize)
        ensures
            n == self.records().len(),
    {
        self.recs.len()
    }

    /// Whether the table holds no record.
    pub fn is_empty(&self) -> (r: bool)
        ensures
            r == (self.records().len() == 0),
    {
        self.recs.len() == 0
    }

    /// How many bytes have been inserted since the table was last empty.
    pub fn size_hint(&self) -> (n: usize)
        ensures
            n == self.size(),
    {
        self.current_sz
    }

    /// How many bytes have been inserted since the table was last empty.
    pub fn current_size(&self) -> (n: usize)
        ensures
            n == self.size(),
    {
        self.current_sz
    }

    /// How many bytes the table takes before it should be flushed.
    pub fn capacity(&self) -> (n: usize)
        ensures
            n == self.bound(),
    {
        self.limit
    }

    /// The records in their order.
    pub fn iter(&self) -> (s: &[Record])
        ensures
            rec_views(s@) == self.records(),
    {
        self.recs.as_slice()
    }

    /// Copies of the records of `source_id` at times from `start_ts` on and before `end_ts`,
    /// in their order.
    pub fn clone_range(&self, source_id: i64, start_ts: i64, end_ts: i64) -> (v: Vec<Record>)
        requires
            self.wf(),
        ensures
            rec_views(v@) == span_of(self.records(), source_id, start_ts, end_ts),
    {
        let ghost s = self.records();
        let ghost p = |b: Seq<u8>| in_span(b, source_id, start_ts, end_ts);
        let mut v: Vec<Record> = Vec::new();
        let mut i: usize = 0;
        assert(rec_views(v@) =~= s.take(0).filter(p)) by {
            reveal(Seq::filter);
        }
        while i < self.recs.len()
            invariant
                self.wf(),
                s == rec_views(self.recs@),
                s == self.records(),
                p == (|b: Seq<u8>| in_span(b, source_id, start_ts, end_ts)),
                i <= self.recs@.len(),
                rec_views(v@) == s.take(i as int).filter(p),
            decreases self.recs@.len() - i,
        {
            let rec = &self.recs[i];
            let ghost before = rec_views(v@);
            assert(has_key(s[i as int]));
            proof {
                reveal(Seq::filter);
                assert(s.take(i + 1).drop_last() =~= s.take(i as int));
                assert(s.take(i + 1).last() == s[i as int]);
            }
            if let (Ok(source), Ok(time)) = (rec.extract_source_id(), rec.extract_timestamp()) {
                if source == source_id && start_ts <= time && time < end_ts {
                    let copy = rec.clone();
                    v.push(copy);
                    assert(rec_views(v@) =~= before.push(s[i as int]));
                }
            }
            i += 1;
        }
        assert(s.take(s.len() as int) =~= s);
        v
    }

    /// Takes the contents out into a table of their own and leaves this one empty.
    pub fn freeze(&mut self) -> (r: MemTable)
        ensures
            r == *old(self),
            final(self).wf(),
            final(self).records() == Seq::<Seq<u8>>::empty(),
            final(self).size() == 0,
            final(self).bound() == old(self).bound(),
    {
        let mut r = MemTable::new(self.limit);
        std::mem::swap(&mut r, self);
        r
    }

    /// Removes all records.
    pub fn clear(&mut self)
        ensures
            final(self).wf(),
            final(self).records() == Seq::<Seq<u8>>::empty(),
            final(self).size() == 0,
            final(self).bound() == old(self).bound(),
    {
        self.recs.clear();
        self.current_sz = 0;
        assert(self.records() =~= Seq::<Seq<u8>>::empty());
    }
}

pub proof fn lemma_empty_text()
    ensures
        encode_utf8(""@) == Seq::<u8>::empty(),
{
    reveal_strlit("");
    assert(encode_utf8(""@) =~= Seq::<u8>::empty());
}

proof fn lemma_log_not_before(
    b: Seq<u8>,
    start: Seq<u8>,
    source_id: i64,
    timestamp: i64,
    key: Seq<u8>,
)
    requires
        has_key(b),
        is_log(b, source_id, timestamp, key),
        source_of(start) == source_id,
        time_of(start) == timestamp,
        seq_of(start) == 0,
        key_of(start) == key,
    ensures
        !rec_lt(b, start),
{
    law_bytes_lt_total(key, key);
}

proof fn lemma_log_after(
    s: Seq<Seq<u8>>,
    start: Seq<u8>,
    i: int,
    j: int,
    source_id: i64,
    timestamp: i64,
    key: Seq<u8>,
)
    requires
        strictly_sorted(s),
        all_keyed(s),
        0 <= place(s, start) <= i <= j < s.len(),
        source_of(start) == source_id,
        time_of(start) == timestamp,
        source_of(s[i]) != source_id || time_of(s[i]) != timestamp,
    ensures
        !is_log(s[j], source_id, timestamp, key),
{
    let from = place(s, start);
    lemma_place_bounds(s, start);
    assert(has_key(s[i]) && has_key(s[j]));
    if j > i && is_log(s[j], source_id, timestamp, key) {
        assert(rec_lt(s[i], s[j]));
        if from < i {
            assert(rec_lt(s[from], s[i]));
            law_record_order_transitive(s[from], s[i], start);
        }
        assert(!rec_lt(s[i], start));
    }
}

} // verus!
