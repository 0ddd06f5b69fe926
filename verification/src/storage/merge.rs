//! The merge of several sources of records into one sorted sequence.
use vstd::prelude::*;

use crate::storage::iter::{MemTableIterOwned, SSTableIter, SSTableScaner};
use crate::storage::record::{
    has_key, law_record_order_total, law_record_order_transitive, rec_eq, rec_lt, Record,
};
use crate::storage::sorted::{all_keyed, has_place, rec_views, strictly_sorted};

verus! {

/// Gives the records of a vector one after the other.
#[derive(Debug)]
pub struct RecordVec {
    inner: Vec<Record>,
    pos: usize,
}

impl RecordVec {
    /// The records that are still to come.
    pub closed spec fn remaining(&self) -> Seq<Seq<u8>> {
        rec_views(self.inner@).skip(self.pos as int)
    }

    pub closed spec fn wf(&self) -> bool {
        self.pos <= self.inner@.len()
    }

    pub fn new(inner: Vec<Record>) -> (r: Self)
        ensures
            r.wf(),
            r.remaining() == rec_views(inner@),
    {
        let r = RecordVec { inner, pos: 0 };
        assert(r.remaining() =~= rec_views(inner@));
        r
    }

    /// The next record.
    pub fn next(&mut self) -> (r: Option<Record>)
        requires
            old(self).wf(),
        ensures
            final(self).wf(),
            r matches Some(x) ==> old(self).remaining() == seq![x@] + final(self).remaining(),
            r is None ==> old(self).remaining() == Seq::<Seq<u8>>::empty() &&
                final(self).remaining() == Seq::<Seq<u8>>::empty(),
    {
        if self.pos < self.inner.len() {
            let rec = self.inner[self.pos].clone();
            self.pos = self.pos + 1;
            assert(old(self).remaining() =~= seq![rec@] + self.remaining());
            Some(rec)
        } else {
            assert(self.remaining() =~= Seq::<Seq<u8>>::empty());
            None
        }
    }

    /// How many records are still to come.
    pub fn len(&self) -> (n: usize)
        requires
            self.wf(),
        ensures
            n == self.remaining().len(),
    {
        self.inner.len() - self.pos
    }
}

/// A source of records: a query on a table file, all of a table file, or a vector.
#[derive(Debug)]
pub enum RecordIter {
    File(SSTableIter),
    Scan(SSTableScaner),
    Mem(RecordVec),
}

impl RecordIter {
    /// The records that are still to come.
    pub open spec fn remaining(&self) -> Seq<Seq<u8>> {
        match self {
            RecordIter::File(iter) => iter.remaining(),
            RecordIter::Scan(iter) => iter.remaining(),
            RecordIter::Mem(iter) => iter.remaining(),
        }
    }

    pub open spec fn wf(&self) -> bool {
        match self {
            RecordIter::File(iter) => iter.wf(),
            RecordIter::Scan(iter) => true,
            RecordIter::Mem(iter) => iter.wf(),
        }
    }

    /// The next record.
    pub fn next(&mut self) -> (r: Option<Record>)
        requires
            old(self).wf(),
        ensures
            final(self).wf(),
            r matches Some(x) ==> old(self).remaining() == seq![x@] + final(self).remaining(),
            r is None ==> old(self).remaining() == Seq::<Seq<u8>>::empty() &&
                final(self).remaining() == Seq::<Seq<u8>>::empty(),
    {
        match self {
            RecordIter::File(iter) => iter.next(),
            RecordIter::Scan(iter) => iter.next(),
            RecordIter::Mem(iter) => iter.next(),
        }
    }

    /// A lower and, where one is known, an upper bound on how many records are still to come.
    pub fn size_hint(&self) -> (r: (usize, Option<usize>))
        requires
            self.wf(),
        ensures
            self is Mem ==> r == (
                self.remaining().len() as usize,
                Some(self.remaining().len() as usize),
            ) && self.remaining().len() <= usize::MAX,
            !(self is Mem) ==> r == (0usize, None::<usize>),
    {
        match self {
            RecordIter::File(_) => (0, None),
            RecordIter::Scan(_) => (0, None),
            RecordIter::Mem(iter) => {
                let n: usize = iter.len();
                (n, Some(n))
            },
        }
    }
}

/// How many records the sources hold together.
pub open spec fn total_len(srcs: Seq<Seq<Seq<u8>>>) -> nat
    decreases srcs.len(),
{
    if srcs.len() == 0 {
        0
    } else {
        total_len(srcs.drop_last()) + srcs.last().len()
    }
}

/// The source whose first record comes before the first records of all others; of several
/// with the same place, the foremost source.
pub open spec fn least(srcs: Seq<Seq<Seq<u8>>>) -> Option<int>
    decreases srcs.len(),
{
    if srcs.len() == 0 {
        None
    } else {
        let last = srcs.last();
        match least(srcs.drop_last()) {
            Some(i) => if last.len() > 0 && rec_lt(last[0], srcs[i][0]) {
                Some(srcs.len() - 1)
            } else {
                Some(i)
            },
            None => if last.len() > 0 {
                Some(srcs.len() - 1)
            } else {
                None
            },
        }
    }
}

/// The sources without the first record of source `i`.
pub open spec fn advance(srcs: Seq<Seq<Seq<u8>>>, i: int) -> Seq<Seq<Seq<u8>>> {
    srcs.update(i, srcs[i].drop_first())
}

/// The records of all sources, each time the one that comes first, without those that have
/// the place of the record before them. Before the first stands `last`.
pub open spec fn merged(srcs: Seq<Seq<Seq<u8>>>, last: Option<Seq<u8>>) -> Seq<Seq<u8>>
    decreases total_len(srcs),
    via merged_ends
{
    match least(srcs) {
        None => Seq::empty(),
        Some(i) => {
            let x = srcs[i][0];
            if last is Some && rec_eq(last->0, x) {
                merged(advance(srcs, i), last)
            } else {
                seq![x] + merged(advance(srcs, i), Some(x))
            }
        },
    }
}

#[via_fn]
proof fn merged_ends(srcs: Seq<Seq<Seq<u8>>>, last: Option<Seq<u8>>) {
    if let Some(i) = least(srcs) {
        lemma_least(srcs);
        lemma_total_advance(srcs, i);
    }
}

proof fn lemma_least(srcs: Seq<Seq<Seq<u8>>>)
    ensures
        least(srcs) matches Some(i) ==> 0 <= i < srcs.len() && srcs[i].len() > 0 && forall|j: int|
            0 <= j < srcs.len() && (#[trigger] srcs[j]).len() > 0 ==> !rec_lt(
                srcs[j][0],
                srcs[i][0],
            ),
        least(srcs) is None ==> forall|j: int|
            0 <= j < srcs.len() ==> (#[trigger] srcs[j]).len() == 0,
    decreases srcs.len(),
{
    if srcs.len() > 0 {
        let front = srcs.drop_last();
        lemma_least(front);
        if let Some(i) = least(srcs) {
            assert forall|j: int| 0 <= j < srcs.len() && (#[trigger] srcs[j]).len() > 0 implies
                !rec_lt(srcs[j][0], srcs[i][0]) by {
                if j < srcs.len() - 1 {
                    assert(front[j] == srcs[j]);
                }
                if let Some(k) = least(front) {
                    assert(front[k] == srcs[k]);
                    law_record_order_total(srcs[j][0], srcs[i][0]);
                    law_record_order_transitive(srcs[j][0], srcs[i][0], srcs[k][0]);
                } else {
                    law_record_order_total(srcs[i][0], srcs[i][0]);
                }
            }
        } else {
            assert forall|j: int| 0 <= j < srcs.len() implies (#[trigger] srcs[j]).len() == 0 by {
                if j < srcs.len() - 1 {
                    assert(front[j] == srcs[j]);
                }
            }
        }
    }
}

proof fn lemma_total_advance(srcs: Seq<Seq<Seq<u8>>>, i: int)
    requires
        0 <= i < srcs.len(),
        srcs[i].len() > 0,
    ensures
        total_len(advance(srcs, i)) == total_len(srcs) - 1,
    decreases srcs.len(),
{
    let next = advance(srcs, i);
    if i == srcs.len() - 1 {
        assert(next.drop_last() =~= srcs.drop_last());
    } else {
        assert(next.drop_last() =~= advance(srcs.drop_last(), i));
        lemma_total_advance(srcs.drop_last(), i);
    }
}

/// Whether no record of `s` comes before one that precedes it.
pub open spec fn sorted(s: Seq<Seq<u8>>) -> bool {
    forall|i: int, j: int| 0 <= i < j < s.len() ==> !rec_lt(#[trigger] s[j], #[trigger] s[i])
}

/// Whether each source is sorted.
pub open spec fn all_sorted(srcs: Seq<Seq<Seq<u8>>>) -> bool {
    forall|i: int| 0 <= i < srcs.len() ==> sorted(#[trigger] srcs[i])
}

/// Whether one of the sources holds the record `x`.
pub open spec fn in_some(srcs: Seq<Seq<Seq<u8>>>, x: Seq<u8>) -> bool {
    exists|i: int| 0 <= i < srcs.len() && (#[trigger] srcs[i]).contains(x)
}

/// Whether no record of a source comes before `x`.
spec fn none_before(srcs: Seq<Seq<Seq<u8>>>, x: Seq<u8>) -> bool {
    forall|i: int, j: int|
        0 <= i < srcs.len() && 0 <= j < srcs[i].len() ==> !rec_lt(#[trigger] srcs[i][j], x)
}

proof fn lemma_advance(srcs: Seq<Seq<Seq<u8>>>)
    requires
        all_sorted(srcs),
        least(srcs) is Some,
    ensures
        ({
            let i = least(srcs)->0;
            let x = srcs[i][0];
            let next = advance(srcs, i);
            &&& 0 <= i < srcs.len()
            &&& srcs[i].len() > 0
            &&& all_sorted(next)
            &&& none_before(srcs, x)
            &&& none_before(next, x)
            &&& in_some(srcs, x)
            &&& forall|y: Seq<u8>| in_some(srcs, y) ==> y == x || #[trigger] in_some(next, y)
            &&& forall|y: Seq<u8>| #[trigger] in_some(next, y) ==> in_some(srcs, y)
            &&& total_len(next) == total_len(srcs) - 1
        }),
{
    lemma_least(srcs);
    let i = least(srcs)->0;
    let x = srcs[i][0];
    let next = advance(srcs, i);
    lemma_total_advance(srcs, i);
    assert(srcs[i].contains(x));
    assert forall|k: int, j: int| 0 <= k < srcs.len() && 0 <= j < srcs[k].len() implies !rec_lt(
        #[trigger] srcs[k][j],
        x,
    ) by {
        assert(sorted(srcs[k]));
        assert(!rec_lt(srcs[k][0], x));
        if j > 0 {
            law_record_order_total(srcs[k][j], srcs[k][0]);
            law_record_order_transitive(srcs[k][0], srcs[k][j], x);
        }
    }
    assert forall|k: int| 0 <= k < next.len() implies sorted(#[trigger] next[k]) by {
        assert(sorted(srcs[k]));
        if k == i {
            let t = srcs[i].drop_first();
            assert forall|a: int, b: int| 0 <= a < b < t.len() implies !rec_lt(
                #[trigger] t[b],
                #[trigger] t[a],
            ) by {
                assert(t[a] == srcs[i][a + 1] && t[b] == srcs[i][b + 1]);
            }
        }
    }
    assert forall|k: int, j: int| 0 <= k < next.len() && 0 <= j < next[k].len() implies !rec_lt(
        #[trigger] next[k][j],
        x,
    ) by {
        if k == i {
            assert(next[k][j] == srcs[k][j + 1]);
        } else {
            assert(next[k][j] == srcs[k][j]);
        }
    }
    assert forall|y: Seq<u8>| in_some(srcs, y) implies y == x || #[trigger] in_some(next, y) by {
        let k = choose|k: int| 0 <= k < srcs.len() && (#[trigger] srcs[k]).contains(y);
        let j = choose|j: int| 0 <= j < srcs[k].len() && srcs[k][j] == y;
        if k == i {
            if j > 0 {
                assert(next[k][j - 1] == y);
                assert(next[k].contains(y));
            }
        } else {
            assert(next[k] == srcs[k]);
            assert(next[k].contains(y));
        }
    }
    assert forall|y: Seq<u8>| #[trigger] in_some(next, y) implies in_some(srcs, y) by {
        let k = choose|k: int| 0 <= k < next.len() && (#[trigger] next[k]).contains(y);
        let j = choose|j: int| 0 <= j < next[k].len() && next[k][j] == y;
        if k == i {
            assert(srcs[k][j + 1] == y);
        } else {
            assert(srcs[k][j] == y);
        }
        assert(srcs[k].contains(y));
    }
}

/// The merge of sorted sources is sorted, no two of its records share a place, every record
/// of it comes out of a source, and every record of a source has its place in it.
pub proof fn law_merged(srcs: Seq<Seq<Seq<u8>>>)
    requires
        all_sorted(srcs),
    ensures
        strictly_sorted(merged(srcs, None)),
        forall|x: Seq<u8>| #[trigger] merged(srcs, None).contains(x) ==> in_some(srcs, x),
        forall|x: Seq<u8>| #[trigger] in_some(srcs, x) ==> has_place(merged(srcs, None), x),
{
    lemma_merged(srcs, None);
}

proof fn lemma_merged(srcs: Seq<Seq<Seq<u8>>>, last: Option<Seq<u8>>)
    requires
        all_sorted(srcs),
        last is Some ==> none_before(srcs, last->0),
    ensures
        strictly_sorted(merged(srcs, last)),
        forall|x: Seq<u8>| #[trigger] merged(srcs, last).contains(x) ==> in_some(srcs, x),
        forall|x: Seq<u8>| #[trigger]
            in_some(srcs, x) ==> has_place(merged(srcs, last), x) || (last is Some && rec_eq(
                last->0,
                x,
            )),
        last is Some ==> forall|i: int|
            0 <= i < merged(srcs, last).len() ==> rec_lt(last->0, #[trigger] merged(srcs, last)[i]),
    decreases total_len(srcs),
{
    if least(srcs) is None {
        lemma_least(srcs);
        assert forall|x: Seq<u8>| #[trigger] in_some(srcs, x) implies false by {
            let k = choose|k: int| 0 <= k < srcs.len() && (#[trigger] srcs[k]).contains(x);
            assert(srcs[k].len() == 0);
        }
    } else {
        lemma_advance(srcs);
        let i = least(srcs)->0;
        let x = srcs[i][0];
        let next = advance(srcs, i);
        let out = merged(srcs, last);
        if last is Some && rec_eq(last->0, x) {
            let l = last->0;
            assert forall|k: int, j: int|
                0 <= k < next.len() && 0 <= j < next[k].len() implies !rec_lt(
                #[trigger] next[k][j],
                l,
            ) by {
                law_record_order_transitive(next[k][j], l, x);
            }
            lemma_merged(next, last);
            assert forall|y: Seq<u8>| #[trigger] in_some(srcs, y) implies has_place(out, y)
                || rec_eq(l, y) by {
                assert(y == x || in_some(next, y));
            }
        } else {
            lemma_merged(next, Some(x));
            let rest = merged(next, Some(x));
            assert(out == seq![x] + rest);
            assert forall|a: int, b: int| 0 <= a < b < out.len() implies rec_lt(
                #[trigger] out[a],
                #[trigger] out[b],
            ) by {
                assert(out[b] == rest[b - 1]);
                if a > 0 {
                    assert(out[a] == rest[a - 1]);
                }
            }
            assert forall|y: Seq<u8>| #[trigger] out.contains(y) implies in_some(srcs, y) by {
                let k = choose|k: int| 0 <= k < out.len() && out[k] == y;
                if k > 0 {
                    assert(rest[k - 1] == y);
                    assert(rest.contains(y));
                }
            }
            assert forall|y: Seq<u8>| #[trigger] in_some(srcs, y) implies has_place(out, y) by {
                law_record_order_total(x, x);
                if y == x || rec_eq(x, y) {
                    assert(rec_eq(out[0], y));
                } else {
                    assert(in_some(next, y));
                    let k = choose|k: int| 0 <= k < rest.len() && rec_eq(#[trigger] rest[k], y);
                    assert(out[k + 1] == rest[k]);
                }
            }
            if last is Some {
                let l = last->0;
                law_record_order_total(l, x);
                assert(!rec_lt(srcs[i][0], l));
                assert forall|k: int| 0 <= k < out.len() implies rec_lt(l, #[trigger] out[k]) by {
                    if k > 0 {
                        assert(out[k] == rest[k - 1]);
                        law_record_order_transitive(l, x, out[k]);
                    }
                }
            }
        }
    }
}

/// If every record of the sources can be ordered, so can every record of their merge.
pub proof fn lemma_merged_keyed(srcs: Seq<Seq<Seq<u8>>>, last: Option<Seq<u8>>)
    requires
        forall|i: int| 0 <= i < srcs.len() ==> all_keyed(#[trigger] srcs[i]),
    ensures
        all_keyed(merged(srcs, last)),
    decreases total_len(srcs),
{
    if let Some(i) = least(srcs) {
        lemma_least(srcs);
        lemma_total_advance(srcs, i);
        let x = srcs[i][0];
        let next = advance(srcs, i);
        assert(all_keyed(srcs[i]));
        assert forall|k: int| 0 <= k < next.len() implies all_keyed(#[trigger] next[k]) by {
            assert(all_keyed(srcs[k]));
            assert forall|j: int| 0 <= j < next[k].len() implies has_key(#[trigger] next[k][j]) by {
                if k == i {
                    assert(next[k][j] == srcs[k][j + 1]);
                } else {
                    assert(next[k][j] == srcs[k][j]);
                }
            }
        }
        lemma_merged_keyed(next, last);
        lemma_merged_keyed(next, Some(x));
        let out = merged(srcs, last);
        let rest = merged(next, Some(x));
        if !(last is Some && rec_eq(last->0, x)) {
            assert forall|j: int| 0 <= j < out.len() implies has_key(#[trigger] out[j]) by {
                if j > 0 {
                    assert(out[j] == rest[j - 1]);
                }
            }
        }
    }
}

/// Merges a query on the memory tables and any number of tables into one sorted sequence
/// without duplicates.
#[derive(Debug)]
pub struct MergeIter {
    /// The next record of each source: first of the memory tables, then of each table.
    heads: Vec<Option<Record>>,
    memtable_iter: Option<MemTableIterOwned>,
    sstable_iters: Vec<RecordIter>,
    last_item: Option<Record>,
}

impl MergeIter {
    /// The records that source `i` has behind the one that is next.
    closed spec fn behind(&self, i: int) -> Seq<Seq<u8>> {
        if i == 0 {
            match self.memtable_iter {
                Some(iter) => iter.remaining(),
                None => Seq::empty(),
            }
        } else {
            self.sstable_iters@[i - 1].remaining()
        }
    }

    /// The records that source `i` has.
    closed spec fn pending(&self, i: int) -> Seq<Seq<u8>> {
        match self.heads@[i] {
            Some(rec) => seq![rec@] + self.behind(i),
            None => Seq::empty(),
        }
    }

    /// The records that each source has: first the memory tables, then each table.
    pub closed spec fn sources(&self) -> Seq<Seq<Seq<u8>>> {
        Seq::new(self.heads@.len(), |i: int| self.pending(i))
    }

    /// The last record that was given.
    pub closed spec fn last(&self) -> Option<Seq<u8>> {
        match self.last_item {
            Some(rec) => Some(rec@),
            None => None,
        }
    }

    /// The records that are still to come.
    pub open spec fn remaining(&self) -> Seq<Seq<u8>> {
        merged(self.sources(), self.last())
    }

    /// Every record can be ordered.
    pub closed spec fn wf(&self) -> bool {
        &&& self.heads@.len() == self.sstable_iters@.len() + 1
        &&& self.memtable_iter matches Some(iter) ==> iter.wf()
        &&& forall|i: int| 0 <= i < self.sstable_iters@.len() ==> (#[trigger]
            self.sstable_iters@[i]).wf()
        &&& forall|i: int|
            0 <= i < self.heads@.len() ==> (#[trigger] self.heads@[i]) is Some || self.behind(
                i,
            ).len() == 0
        &&& forall|i: int| 0 <= i < self.heads@.len() ==> all_keyed(#[trigger] self.pending(i))
        &&& self.last_item matches Some(rec) ==> has_key(rec@)
    }

    /// The merge of the memory tables, if there are any, and the tables.
    pub fn new(memtable_iter: Option<MemTableIterOwned>, sstable_iters: Vec<RecordIter>) -> (r:
        Self)
        requires
            memtable_iter matches Some(iter) ==> iter.wf() && all_keyed(iter.remaining()),
            forall|i: int|
                0 <= i < sstable_iters@.len() ==> (#[trigger] sstable_iters@[i]).wf() && all_keyed(
                    sstable_iters@[i].remaining(),
                ),
        ensures
            r.wf(),
            r.last() is None,
            r.sources() == source_list(memtable_iter, sstable_iters@),
            r.remaining() == merged(source_list(memtable_iter, sstable_iters@), None),
    {
        let ghost want = source_list(memtable_iter, sstable_iters@);
        let ghost orig = sstable_iters@;
        let mut memtable_iter = memtable_iter;
        let mut heads: Vec<Option<Record>> = Vec::new();
        let first = match &mut memtable_iter {
            Some(iter) => iter.next(),
            None => None,
        };
        heads.push(first);
        let mut todo: Vec<RecordIter> = sstable_iters;
        let n: usize = todo.len();
        let mut i: usize = 0;
        proof {
            assert(want[0] =~= pend(heads@[0], match memtable_iter {
                Some(iter) => iter.remaining(),
                None => Seq::empty(),
            }));
        }
        while i < n
            invariant
                i <= n == orig.len() == todo@.len(),
                want == source_list_of(want[0], orig),
                heads@.len() == i + 1,
                forall|j: int| i <= j < n ==> (#[trigger] todo@[j]) == orig[j],
                forall|j: int|
                    0 <= j < n ==> (#[trigger] orig[j]).wf() && all_keyed(orig[j].remaining()),
                forall|j: int| 0 <= j < i ==> (#[trigger] todo@[j]).wf(),
                forall|j: int|
                    0 <= j < i ==> pend(
                        #[trigger] heads@[j + 1],
                        todo@[j].remaining(),
                    ) == orig[j].remaining(),
                forall|j: int|
                    0 <= j < i ==> heads@[j + 1] is Some || (#[trigger] todo@[j]).remaining().len()
                        == 0,
                memtable_iter matches Some(iter) ==> iter.wf(),
                heads@[0] is Some || (memtable_iter matches Some(iter) ==> iter.remaining().len()
                    == 0),
                want[0] == pend(heads@[0], match memtable_iter {
                    Some(iter) => iter.remaining(),
                    None => Seq::empty(),
                }),
                all_keyed(want[0]),
            decreases n - i,
        {
            assert(todo@[i as int] == orig[i as int]);
            let head = todo[i].next();
            heads.push(head);
            i += 1;
        }
        let r = MergeIter { heads, memtable_iter, sstable_iters: todo, last_item: None };
        proof {
            assert forall|j: int| 0 <= j < r.heads@.len() implies #[trigger] r.pending(j) == want[j]
                by {
                if j > 0 {
                    assert(r.sstable_iters@[j - 1] == todo@[j - 1]);
                    assert(pend(heads@[j - 1 + 1], todo@[j - 1].remaining())
                        == orig[j - 1].remaining());
                    assert(want[j] == orig[j - 1].remaining());
                }
            }
            assert(r.sources() =~= want);
            assert forall|j: int| 0 <= j < r.heads@.len() implies (#[trigger] r.heads@[j]) is Some
                || r.behind(j).len() == 0 by {
                if j > 0 {
                    assert(r.sstable_iters@[j - 1] == todo@[j - 1]);
                }
            }
            assert forall|j: int| 0 <= j < r.heads@.len() implies all_keyed(
                #[trigger] r.pending(j),
            ) by {
                if j > 0 {
                    assert(all_keyed(orig[j - 1].remaining()));
                }
            }
        }
        r
    }

    /// Fetches the next record of source `source_idx`.
    fn refil(&mut self, source_idx: usize) -> (r: Option<Record>)
        requires
            source_idx < old(self).heads@.len(),
            old(self).heads@.len() == old(self).sstable_iters@.len() + 1,
            old(self).memtable_iter matches Some(iter) ==> iter.wf(),
            forall|i: int| 0 <= i < old(self).sstable_iters@.len() ==> (#[trigger]
                old(self).sstable_iters@[i]).wf(),
        ensures
            final(self).heads@ == old(self).heads@,
            final(self).last_item == old(self).last_item,
            final(self).sstable_iters@.len() == old(self).sstable_iters@.len(),
            final(self).memtable_iter matches Some(iter) ==> iter.wf(),
            forall|i: int| 0 <= i < final(self).sstable_iters@.len() ==> (#[trigger]
                final(self).sstable_iters@[i]).wf(),
            forall|i: int|
                0 <= i < old(self).heads@.len() && i != source_idx ==> #[trigger]
                    final(self).behind(i) == old(self).behind(i),
            pend(r, final(self).behind(source_idx as int)) == old(self).behind(source_idx as int),
            r is None ==> final(self).behind(source_idx as int).len() == 0,
    {
        if source_idx == 0 {
            match &mut self.memtable_iter {
                Some(iter) => iter.next(),
                None => None,
            }
        } else {
            let i: usize = source_idx - 1;
            assert(self.sstable_iters@[i as int].wf());
            self.sstable_iters[i].next()
        }
    }

    /// The source whose next record comes first.
    fn pick_least(&self) -> (r: Option<usize>)
        requires
            self.wf(),
        ensures
            r is Some <==> least(self.sources()) is Some,
            r matches Some(i) ==> least(self.sources()) == Some(i as int) && i < self.heads@.len(),
    {
        let ghost srcs = self.sources();
        let mut best: Option<usize> = None;
        let mut i: usize = 0;
        while i < self.heads.len()
            invariant
                self.wf(),
                srcs == self.sources(),
                i <= self.heads@.len(),
                best is Some <==> least(srcs.take(i as int)) is Some,
                best matches Some(b) ==> b < i && least(srcs.take(i as int)) == Some(b as int)
                    && self.heads@[b as int] is Some,
            decreases self.heads@.len() - i,
        {
            proof {
                assert(srcs.take(i + 1).drop_last() =~= srcs.take(i as int));
                assert(srcs.take(i + 1).last() == srcs[i as int]);
                assert(srcs[i as int] == self.pending(i as int));
                assert(all_keyed(self.pending(i as int)));
            }
            if let Some(rec) = &self.heads[i] {
                assert(self.pending(i as int)[0] == rec@);
                assert(has_key(rec@));
                match best {
                    None => {
                        best = Some(i);
                    },
                    Some(b) => {
                        if let Some(other) = &self.heads[b] {
                            proof {
                                assert(all_keyed(self.pending(b as int)));
                                assert(self.pending(b as int)[0] == other@);
                                assert(srcs[b as int] == self.pending(b as int));
                                assert(srcs.take(i + 1)[b as int] == srcs[b as int]);
                            }
                            if rec.before(other) {
                                best = Some(i);
                            }
                        }
                    },
                }
            } else {
                assert(self.pending(i as int).len() == 0);
            }
            i += 1;
        }
        assert(srcs.take(srcs.len() as int) =~= srcs);
        best
    }

    /// The next record.
    pub fn next(&mut self) -> (r: Option<Record>)
        requires
            old(self).wf(),
        ensures
            final(self).wf(),
            r matches Some(x) ==> old(self).remaining() == seq![x@] + final(self).remaining()
                && final(self).last() == Some(x@),
            r is None ==> old(self).remaining() == Seq::<Seq<u8>>::empty() &&
                final(self).remaining() == Seq::<Seq<u8>>::empty(),
    {
        loop
            invariant
                self.wf(),
                self.remaining() == old(self).remaining(),
            decreases total_len(self.sources()),
        {
            let i: usize = match self.pick_least() {
                Some(i) => i,
                None => {
                    return None;
                },
            };
            let ghost before = *self;
            let ghost srcs = self.sources();
            proof {
                lemma_least(srcs);
                lemma_total_advance(srcs, i as int);
                assert(srcs[i as int] == before.pending(i as int));
                assert(all_keyed(before.pending(i as int)));
                assert(before.heads@[i as int] is Some);
            }
            let mut slot = self.refil(i);
            let ghost mid = *self;
            std::mem::swap(&mut self.heads[i], &mut slot);
            proof {
                assert forall|j: int| 0 <= j < self.heads@.len() implies #[trigger] self.behind(j)
                    == mid.behind(j) by {}
                assert forall|j: int| 0 <= j < self.heads@.len() && j != i implies #[trigger]
                self.pending(j) == before.pending(j) && self.behind(j) == before.behind(j) by {
                    assert(self.behind(j) == mid.behind(j));
                    assert(mid.behind(j) == before.behind(j));
                    assert(self.heads@[j] == before.heads@[j]);
                }
                let rec = before.heads@[i as int]->0;
                assert(before.pending(i as int) == seq![rec@] + before.behind(i as int));
                assert(self.pending(i as int) =~= srcs[i as int].drop_first());
                assert forall|j: int| 0 <= j < self.heads@.len() implies all_keyed(
                    #[trigger] self.pending(j),
                ) by {
                    assert(all_keyed(before.pending(j)));
                    if j == i {
                        assert forall|k: int| 0 <= k < self.pending(j).len() implies has_key(
                            #[trigger] self.pending(j)[k],
                        ) by {
                            assert(self.pending(j)[k] == before.pending(j)[k + 1]);
                        }
                    } else {
                        assert(self.pending(j) == before.pending(j));
                    }
                }
                assert forall|j: int| 0 <= j < self.heads@.len() implies (#[trigger]
                self.heads@[j]) is Some || self.behind(j).len() == 0 by {
                    if j != i {
                        assert(self.heads@[j] == before.heads@[j]);
                        assert(self.behind(j) == before.behind(j));
                    }
                }
                assert(self.sources() =~= advance(srcs, i as int)) by {
                    assert forall|j: int| 0 <= j < self.heads@.len() implies self.sources()[j]
                        == advance(srcs, i as int)[j] by {
                        if j != i {
                            assert(self.behind(j) == before.behind(j));
                            assert(self.pending(j) == before.pending(j));
                            assert(srcs[j] == before.pending(j));
                        }
                    }
                }
                assert(self.wf());
                assert(slot == Some(rec));
                assert(rec@ == srcs[i as int][0]);
                assert(has_key(before.pending(i as int)[0]));
            }
            if let Some(rec) = slot {
                let repeated = match &self.last_item {
                    Some(prev) => prev.same_place(&rec),
                    None => false,
                };
                if !repeated {
                    let ghost ready = *self;
                    self.last_item = Some(rec.clone());
                    proof {
                        assert forall|j: int| 0 <= j < self.heads@.len() implies #[trigger]
                        self.pending(j) == ready.pending(j) && self.behind(j) == ready.behind(
                            j,
                        ) by {}
                        assert forall|j: int| 0 <= j < self.heads@.len() implies all_keyed(
                            #[trigger] self.pending(j),
                        ) by {
                            assert(all_keyed(ready.pending(j)));
                        }
                        assert forall|j: int| 0 <= j < self.heads@.len() implies (#[trigger]
                        self.heads@[j]) is Some || self.behind(j).len() == 0 by {
                            assert(self.pending(j) == ready.pending(j));
                            assert(ready.heads@[j] is Some || ready.behind(j).len() == 0);
                        }
                        assert(self.sources() =~= ready.sources());
                    }
                    return Some(rec);
                }
            }
        }
    }

    /// All records that are still to come.
    pub fn collect(self) -> (v: Vec<Record>)
        requires
            self.wf(),
        ensures
            rec_views(v@) == self.remaining(),
    {
        let mut iter = self;
        let mut v: Vec<Record> = Vec::new();
        assert(rec_views(v@) + iter.remaining() =~= self.remaining());
        loop
            invariant
                iter.wf(),
                rec_views(v@) + iter.remaining() == self.remaining(),
            decreases iter.remaining().len(),
        {
            let ghost before = rec_views(v@);
            let ghost rest = iter.remaining();
            match iter.next() {
                Some(rec) => {
                    let ghost x = rec@;
                    v.push(rec);
                    proof {
                        assert(rec_views(v@) =~= before.push(x));
                        assert(before + rest =~= rec_views(v@) + iter.remaining());
                    }
                },
                None => {
                    assert(before + rest =~= before);
                    return v;
                },
            }
        }
    }
}

/// What a source has whose next record is `head` and which has `behind` behind that.
pub open spec fn pend(head: Option<Record>, behind: Seq<Seq<u8>>) -> Seq<Seq<u8>> {
    match head {
        Some(rec) => seq![rec@] + behind,
        None => Seq::empty(),
    }
}

spec fn source_list_of(first: Seq<Seq<u8>>, iters: Seq<RecordIter>) -> Seq<Seq<Seq<u8>>> {
    seq![first] + Seq::new(iters.len(), |i: int| iters[i].remaining())
}

/// The records of each source: first of the memory tables, if there are any, then of each
/// table.
pub open spec fn source_list(
    memtable_iter: Option<MemTableIterOwned>,
    iters: Seq<RecordIter>,
) -> Seq<Seq<Seq<u8>>> {
    let first = match memtable_iter {
        Some(iter) => iter.remaining(),
        None => Seq::empty(),
    };
    seq![first] + Seq::new(iters.len(), |i: int| iters[i].remaining())
}

} // verus!
