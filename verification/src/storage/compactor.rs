//! The choice of tables to be merged, and their merge into the latest record of each log.
use vstd::prelude::*;

use crate::codec::{bytes_equal, get_be, i64_from_bits};
use crate::storage::bloom::{BloomFilter, BloomModel};
use crate::storage::compaction::{
    ids_of, lemma_merge_keyed, merge_of, merge_tables, mergeable, table_ids,
};
use crate::storage::engine::{Engine, EngineModel};
use crate::storage::idmap::{
    ascending, has_id, law_without_entry, value_at, with_entry, without_entry, IdMap,
};
use crate::storage::record::{
    has_key, key_of, law_record_order_total, rec_lt, source_of, time_of, Record,
};
use crate::storage::sorted::{all_keyed, rec_views, strictly_sorted};
use crate::storage::sstable::{
    fills, join_path, table_bytes, table_name, write_error, SSTableMeta, TableError,
};

verus! {

/// Merges tables in the background: it picks a set of tables, reads their records in order,
/// keeps of the records of one source, time and key only the latest, and writes a new table in
/// place of the others.
#[derive(Debug)]
pub struct Compactor {
    pub file_num_limit: u64,
    pub file_sz_limit: u64,
}

/// The tables, by their position, whose files are longer than `limit` bytes.
pub open spec fn large(tables: Seq<SSTableMeta>, limit: u64) -> Seq<int>
    decreases tables.len(),
{
    if tables.len() == 0 {
        Seq::empty()
    } else {
        let front = large(tables.drop_last(), limit);
        if tables.last().file_size > limit {
            front.push(tables.len() - 1)
        } else {
            front
        }
    }
}

/// Whether two records have the same source and time.
pub open spec fn same_moment(a: Seq<u8>, b: Seq<u8>) -> bool {
    source_of(a) == source_of(b) && time_of(a) == time_of(b)
}

/// Whether record `j` of `s` has the same source, time and key as record `i` before it, with
/// no record of another source or time between them.
pub open spec fn supersedes(s: Seq<Seq<u8>>, i: int, j: int) -> bool {
    &&& i < j < s.len()
    &&& key_of(s[j]) == key_of(s[i])
    &&& forall|k: int| i < k <= j ==> same_moment(#[trigger] s[k], s[i])
}

/// Whether a later record supersedes record `i` of `s`.
pub open spec fn superseded(s: Seq<Seq<u8>>, i: int) -> bool {
    exists|j: int| #[trigger] supersedes(s, i, j)
}

/// The first `n` records of `s` without those that are superseded.
pub open spec fn kept(s: Seq<Seq<u8>>, n: nat) -> Seq<Seq<u8>>
    decreases n,
{
    if n == 0 {
        Seq::empty()
    } else if superseded(s, n - 1) {
        kept(s, (n - 1) as nat)
    } else {
        kept(s, (n - 1) as nat).push(s[n - 1])
    }
}

/// The records of `s` without those that are superseded.
pub open spec fn latest(s: Seq<Seq<u8>>) -> Seq<Seq<u8>> {
    kept(s, s.len())
}

proof fn lemma_superseded_sorted(s: Seq<Seq<u8>>, i: int, j: int)
    requires
        strictly_sorted(s),
        0 <= i < j < s.len(),
        same_moment(s[j], s[i]),
        key_of(s[j]) == key_of(s[i]),
    ensures
        superseded(s, i),
{
    assert forall|k: int| i < k <= j implies same_moment(#[trigger] s[k], s[i]) by {
        assert(rec_lt(s[i], s[k]));
        if k < j {
            assert(rec_lt(s[k], s[j]));
        }
    }
    assert(supersedes(s, i, j));
}

/// Of sorted records just those are kept that no later record of the same source, time and
/// key follows, and they stay sorted.
pub proof fn law_latest(s: Seq<Seq<u8>>)
    requires
        strictly_sorted(s),
        all_keyed(s),
    ensures
        strictly_sorted(latest(s)),
        all_keyed(latest(s)),
        forall|x: Seq<u8>| #[trigger]
            latest(s).contains(x) <==> s.contains(x) && forall|y: Seq<u8>| #[trigger]
                s.contains(y) && same_moment(y, x) && key_of(y) == key_of(x) ==> !rec_lt(x, y),
{
    lemma_kept(s, s.len());
    assert forall|x: Seq<u8>| #[trigger] latest(s).contains(x) <==> s.contains(x) && forall|
        y: Seq<u8>,
    | #[trigger] s.contains(y) && same_moment(y, x) && key_of(y) == key_of(x) ==> !rec_lt(x, y) by {
        if latest(s).contains(x) {
            let i = choose|i: int| 0 <= i < s.len() && #[trigger] s[i] == x && !superseded(s, i);
            assert forall|y: Seq<u8>| #[trigger]
                s.contains(y) && same_moment(y, x) && key_of(y) == key_of(x) implies !rec_lt(
                x,
                y,
            ) by {
                let j = choose|j: int| 0 <= j < s.len() && s[j] == y;
                if j > i {
                    lemma_superseded_sorted(s, i, j);
                } else if j < i {
                    assert(rec_lt(s[j], s[i]));
                    law_record_order_total(x, y);
                } else {
                    law_record_order_total(x, x);
                }
            }
        }
        if s.contains(x) && forall|y: Seq<u8>| #[trigger]
            s.contains(y) && same_moment(y, x) && key_of(y) == key_of(x) ==> !rec_lt(x, y) {
            let i = choose|i: int| 0 <= i < s.len() && s[i] == x;
            if superseded(s, i) {
                let j = choose|j: int| #[trigger] supersedes(s, i, j);
                assert(s.contains(s[j]));
                assert(same_moment(s[j], s[i]));
                assert(rec_lt(s[i], s[j]));
            }
            assert(s[i] == x && !superseded(s, i));
        }
    }
}

proof fn lemma_kept(s: Seq<Seq<u8>>, n: nat)
    requires
        strictly_sorted(s),
        all_keyed(s),
        n <= s.len(),
    ensures
        strictly_sorted(kept(s, n)),
        all_keyed(kept(s, n)),
        forall|x: Seq<u8>| #[trigger]
            kept(s, n).contains(x) <==> exists|i: int|
                0 <= i < n && #[trigger] s[i] == x && !superseded(s, i),
    decreases n,
{
    if n > 0 {
        let m = (n - 1) as nat;
        lemma_kept(s, m);
        let front = kept(s, m);
        let out = kept(s, n);
        if !superseded(s, n - 1) {
            assert forall|a: int, b: int| 0 <= a < b < out.len() implies rec_lt(
                #[trigger] out[a],
                #[trigger] out[b],
            ) by {
                assert(out[a] == front[a]);
                if b < front.len() {
                    assert(out[b] == front[b]);
                } else {
                    assert(front.contains(front[a]));
                    let i = choose|i: int|
                        0 <= i < m && #[trigger] s[i] == front[a] && !superseded(s, i);
                    assert(rec_lt(s[i], s[n - 1]));
                }
            }
            assert forall|a: int| 0 <= a < out.len() implies has_key(#[trigger] out[a]) by {
                if a < front.len() {
                    assert(out[a] == front[a]);
                } else {
                    assert(out[a] == s[n - 1]);
                }
            }
        }
        assert forall|x: Seq<u8>| #[trigger] out.contains(x) <==> exists|i: int|
            0 <= i < n && #[trigger] s[i] == x && !superseded(s, i) by {
            if out.contains(x) {
                let k = choose|k: int| 0 <= k < out.len() && out[k] == x;
                if k < front.len() {
                    assert(front[k] == x);
                    assert(front.contains(x));
                    let i = choose|i: int|
                        0 <= i < m && #[trigger] s[i] == x && !superseded(s, i);
                    assert(s[i] == x && !superseded(s, i));
                } else {
                    assert(s[n - 1] == x && !superseded(s, n - 1));
                }
            }
            if exists|i: int| 0 <= i < n && #[trigger] s[i] == x && !superseded(s, i) {
                let i = choose|i: int| 0 <= i < n && #[trigger] s[i] == x && !superseded(s, i);
                if i < m {
                    assert(s[i] == x && !superseded(s, i));
                    assert(front.contains(x));
                    let k = choose|k: int| 0 <= k < front.len() && front[k] == x;
                    assert(out[k] == x);
                } else {
                    assert(out[out.len() - 1] == x);
                }
            }
        }
    }
}

/// Whether a later record supersedes record `i`.
fn is_superseded(recs: &Vec<Record>, i: usize) -> (r: bool)
    requires
        i < recs@.len(),
        all_keyed(rec_views(recs@)),
    ensures
        r == superseded(rec_views(recs@), i as int),
{
    let ghost s = rec_views(recs@);
    assert(has_key(s[i as int]));
    let base = recs[i].as_bytes();
    let source: i64 = i64_from_bits(get_be(base, 0, 8));
    let time: i64 = i64_from_bits(get_be(base, 8, 8));
    let total: usize = recs.len();
    assert(i < total);
    let mut j: usize = i + 1;
    while j < recs.len()
        invariant
            s == rec_views(recs@),
            all_keyed(s),
            i < j <= recs@.len(),
            base@ == s[i as int],
            has_key(s[i as int]),
            source == source_of(s[i as int]),
            time == time_of(s[i as int]),
            forall|k: int| i < k < j ==> same_moment(#[trigger] s[k], s[i as int]),
            forall|k: int| i < k < j ==> key_of(#[trigger] s[k]) != key_of(s[i as int]),
        decreases recs@.len() - j,
    {
        assert(has_key(s[j as int]));
        let other = recs[j].as_bytes();
        if i64_from_bits(get_be(other, 0, 8)) != source || i64_from_bits(get_be(other, 8, 8)) != time {
            assert(!same_moment(s[j as int], s[i as int]));
            assert forall|k: int| !#[trigger] supersedes(s, i as int, k) by {
                if k < j && k > i {
                    assert(key_of(s[k]) != key_of(s[i as int]));
                }
            }
            return false;
        }
        if let (Ok(a), Ok(b)) = (recs[i].extract_key(), recs[j].extract_key()) {
            if bytes_equal(a, b) {
                assert(supersedes(s, i as int, j as int));
                return true;
            }
        }
        j += 1;
    }
    assert forall|k: int| !#[trigger] supersedes(s, i as int, k) by {
        if i < k < s.len() {
            assert(key_of(s[k]) != key_of(s[i as int]));
        }
    }
    false
}

/// The records without those that are superseded.
pub fn latest_records(recs: &Vec<Record>) -> (v: Vec<Record>)
    requires
        all_keyed(rec_views(recs@)),
    ensures
        rec_views(v@) == latest(rec_views(recs@)),
{
    let ghost s = rec_views(recs@);
    let mut v: Vec<Record> = Vec::new();
    let mut i: usize = 0;
    assert(rec_views(v@) =~= kept(s, 0));
    while i < recs.len()
        invariant
            s == rec_views(recs@),
            all_keyed(s),
            i <= recs@.len(),
            rec_views(v@) == kept(s, i as nat),
        decreases recs@.len() - i,
    {
        if !is_superseded(recs, i) {
            let ghost before = rec_views(v@);
            v.push(recs[i].clone());
            assert(rec_views(v@) =~= before.push(s[i as int]));
        }
        i += 1;
    }
    v
}

/// The tables without those of the ids.
pub open spec fn without_entries(
    tables: Seq<(u64, SSTableMeta)>,
    ids: Seq<u64>,
) -> Seq<(u64, SSTableMeta)>
    decreases ids.len(),
{
    if ids.len() == 0 {
        tables
    } else {
        without_entry(without_entries(tables, ids.drop_last()), ids.last())
    }
}

/// After the ids are taken out, nothing is found under them, and what is found under any other
/// id has not changed.
pub proof fn law_without_entries(tables: Seq<(u64, SSTableMeta)>, ids: Seq<u64>, other: u64)
    requires
        ascending(tables),
    ensures
        ascending(without_entries(tables, ids)),
        has_id(without_entries(tables, ids), other) <==> has_id(tables, other) && !ids.contains(
            other,
        ),
        has_id(tables, other) && !ids.contains(other) ==> value_at(
            without_entries(tables, ids),
            other,
        ) == value_at(tables, other),
    decreases ids.len(),
{
    if ids.len() > 0 {
        let front = ids.drop_last();
        law_without_entries(tables, front, other);
        law_without_entry(without_entries(tables, front), ids.last(), other);
        if ids.contains(other) {
            let k = choose|k: int| 0 <= k < ids.len() && ids[k] == other;
            if k < front.len() {
                assert(front[k] == other);
            }
        }
        if front.contains(other) {
            let k = choose|k: int| 0 <= k < front.len() && front[k] == other;
            assert(ids[k] == other);
        }
        if ids.last() == other {
            assert(ids[ids.len() - 1] == other);
        }
    }
}

/// Forgets the tables of the ids.
pub fn remove_metas(engine: &mut Engine, ids: &[u64])
    requires
        old(engine).wf(),
    ensures
        final(engine).wf(),
        final(engine)@ == (EngineModel {
            tables: without_entries(old(engine)@.tables, ids@),
            ..old(engine)@
        }),
{
    let mut i: usize = 0;
    let ghost before = engine@;
    assert(ids@.take(0) =~= Seq::<u64>::empty());
    while i < ids.len()
        invariant
            i <= ids@.len(),
            engine.wf(),
            engine@ == (EngineModel {
                tables: without_entries(before.tables, ids@.take(i as int)),
                ..before
            }),
        decreases ids@.len() - i,
    {
        assert(ids@.take(i + 1).drop_last() =~= ids@.take(i as int));
        engine.remove_meta(ids[i]);
        i += 1;
    }
    assert(ids@.take(ids@.len() as int) =~= ids@);
}

impl Compactor {
    /// Looks through the tables in the order in which they come. As soon as `file_num_limit`
    /// of them are found whose files are longer than `file_sz_limit` bytes, those, by their
    /// position, are the ones to be merged. The limit is looked at after each table, so at
    /// least one is looked at.
    pub fn collect_tables(&self, tables: &[SSTableMeta]) -> (r: Option<Vec<usize>>)
        ensures
            self.file_num_limit > 0 ==> (r is Some <==> large(tables@, self.file_sz_limit).len()
                >= self.file_num_limit),
            self.file_num_limit == 0 ==> (r is Some <==> tables@.len() > 0),
            r matches Some(v) ==> v@.map_values(|i: usize| i as int) == collected(
                tables@,
                self.file_num_limit,
                self.file_sz_limit,
            ),
    {
        let ghost limit = self.file_sz_limit;
        let mut v: Vec<usize> = Vec::new();
        let mut i: usize = 0;
        proof {
            assert(tables@.take(0) =~= Seq::<SSTableMeta>::empty());
            assert(v@.map_values(|k: usize| k as int) =~= large(tables@.take(0), limit));
        }
        while i < tables.len()
            invariant
                i <= tables@.len(),
                limit == self.file_sz_limit,
                v@.map_values(|k: usize| k as int) == large(tables@.take(i as int), limit),
                i > 0 ==> v@.len() < self.file_num_limit,
                i == 0 ==> v@.len() == 0,
            decreases tables@.len() - i,
        {
            let ghost before = v@;
            assert(tables@.take(i + 1).drop_last() =~= tables@.take(i as int));
            if tables[i].file_size > self.file_sz_limit {
                v.push(i);
                assert(v@.map_values(|k: usize| k as int) =~= before.map_values(
                    |k: usize| k as int,
                ).push(i as int));
            }
            assert(v@.map_values(|k: usize| k as int) == large(tables@.take(i + 1), limit));
            assert(v@.map_values(|k: usize| k as int).len() == v@.len());
            i += 1;
            if v.len() as u64 >= self.file_num_limit {
                proof {
                    lemma_large_prefix(tables@, limit, i as int);
                    let all = large(tables@, limit);
                    if self.file_num_limit > 0 {
                        assert(v@.len() == self.file_num_limit);
                        assert(all.take(v@.len() as int) =~= large(
                            tables@.take(i as int),
                            limit,
                        ));
                    } else {
                        assert(i == 1);
                    }
                }
                return Some(v);
            }
        }
        assert(tables@.take(tables@.len() as int) =~= tables@);
        assert(v@.map_values(|k: usize| k as int).len() == v@.len());
        None
    }

    /// Merges the tables into one under the next table id and takes it up in their place. The
    /// new table keeps of the records of one source, time and key only the latest; its filter
    /// is made from `bloom`. A table whose file is not there counts for nothing. Returns the
    /// bytes of the file of the new table.
    pub fn merge(
        &self,
        engine: &mut Engine,
        tables: &[SSTableMeta],
        files: &IdMap<Vec<u8>>,
        bloom: BloomFilter,
    ) -> (r: Result<Vec<u8>, TableError>)
        requires
            old(engine).wf(),
            files.wf(),
            old(engine)@.next_table < u64::MAX,
            mergeable(tables@, files@),
            latest(merge_of(tables@, files@)).len() > 0 ==> bloom@.usable(),
        ensures
            final(engine).wf(),
            r is Ok <==> write_error(latest(merge_of(tables@, files@))) is None,
            r matches Err(e) ==> write_error(latest(merge_of(tables@, files@))) == Some(e)
                && final(engine)@ == old(engine)@,
            r matches Ok(bytes) ==> merged_to_some(
                old(engine)@,
                ids_of(tables@),
                bloom@,
                latest(merge_of(tables@, files@)),
                bytes@,
                final(engine)@,
            ),
    {
        let ghost before = engine@;
        let recs = merge_tables(tables, files);
        proof {
            lemma_merge_keyed(tables@, files@);
        }
        let recs = latest_records(&recs);
        let id: u64 = engine.next_sstable_id();
        let path = SSTableMeta::format_file_path(engine.base_dir(), id);
        match SSTableMeta::write_to_file(path, id, recs.as_slice(), bloom) {
            Ok((meta, bytes)) => {
                let ghost new = meta;
                let ids = table_ids(tables);
                engine.insert_meta(meta);
                remove_metas(engine, ids.as_slice());
                let _ = engine.allocate_sstable_id();
                assert(merged_into(
                    before,
                    ids_of(tables@),
                    bloom@,
                    latest(merge_of(tables@, files@)),
                    bytes@,
                    new,
                    engine@,
                ));
                assert(merged_to_some(
                    before,
                    ids_of(tables@),
                    bloom@,
                    latest(merge_of(tables@, files@)),
                    bytes@,
                    engine@,
                ));
                return Ok(bytes);
            },
            Err(e) => {
                return Err(e);
            },
        }
    }
}

/// Whether `after` is the engine with the table `meta`, written from the records of `s` under
/// the next table id, in place of the tables of the ids.
pub open spec fn merged_into(
    before: EngineModel,
    ids: Seq<u64>,
    bloom: BloomModel,
    s: Seq<Seq<u8>>,
    bytes: Seq<u8>,
    meta: SSTableMeta,
    after: EngineModel,
) -> bool {
    &&& meta.id == before.next_table
    &&& meta.path@ == join_path(before.base_dir, table_name(before.next_table))
    &&& fills(bloom, meta.bloom@, s)
    &&& meta.describes(s)
    &&& bytes == table_bytes(s, meta.bloom@)
    &&& after == (EngineModel {
        tables: without_entries(with_entry(before.tables, meta.id, meta), ids),
        next_table: (before.next_table + 1) as u64,
        ..before
    })
}

/// Whether `after` is the engine with a table that was written from the records of `s` under
/// the next table id, in place of the tables of the ids.
pub open spec fn merged_to_some(
    before: EngineModel,
    ids: Seq<u64>,
    bloom: BloomModel,
    s: Seq<Seq<u8>>,
    bytes: Seq<u8>,
    after: EngineModel,
) -> bool {
    exists|meta: SSTableMeta| #[trigger] merged_into(before, ids, bloom, s, bytes, meta, after)
}

/// The tables that are picked: the first `num_limit` of those whose files are large enough, or
/// for a limit of none the first table, if its file is.
pub open spec fn collected(tables: Seq<SSTableMeta>, num_limit: u64, sz_limit: u64) -> Seq<int> {
    if num_limit > 0 {
        large(tables, sz_limit).take(num_limit as int)
    } else {
        large(tables.take(1), sz_limit)
    }
}

proof fn lemma_large_prefix(tables: Seq<SSTableMeta>, limit: u64, i: int)
    requires
        0 <= i <= tables.len(),
    ensures
        large(tables.take(i), limit).is_prefix_of(large(tables, limit)),
    decreases tables.len() - i,
{
    if i < tables.len() {
        lemma_large_prefix(tables, limit, i + 1);
        assert(tables.take(i + 1).drop_last() =~= tables.take(i));
    } else {
        assert(tables.take(i) =~= tables);
    }
}

} // verus!
