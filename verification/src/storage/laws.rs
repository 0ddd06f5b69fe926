//! What holds of the store as a whole: a query gives exactly the stored records that it asks
//! for.
use vstd::prelude::*;

use crate::codec::{
    contains_bytes, law_bytes_lt_total, law_contains_anywhere, law_contains_between,
};
use crate::storage::engine::{frozen_span, hits, range_sources, EngineModel};
use crate::storage::frames::{
    frame, frameable, framed, frames_in, law_frames_in_framed, lemma_framed_concat,
};
use crate::storage::bloom::BloomModel;
use crate::storage::compaction::{ids_of, merge_of, mergeable, scans};
use crate::storage::compactor::{law_without_entries, without_entries};
use crate::storage::idmap::{
    ascending, has_id, id_place, law_with_entry, law_without_entry, lemma_has_id, lemma_id_place,
    lemma_with_entry_each, lemma_without_entry_each, value_at, with_entry, without_entry,
};
use crate::storage::index::{
    entry_earlier, entry_of, start_offset, starts_at, IndexBlock,
};
use crate::storage::iter::{
    asked_for, bound_bytes, orderable, pick, table_orderable, table_pick,
};
use crate::storage::memtable::{in_span, span_of};
use crate::storage::merge::{in_some, law_merged, lemma_merged_keyed, merged, sorted};
use crate::storage::record::{
    has_key, has_value, key_of, law_record_order_total, law_record_order_transitive,
    law_record_round_trip, rec_eq, rec_lt, record_bytes, seq_of, source_of, time_of, value_of,
};
use crate::storage::sorted::{
    all_keyed, has_place, law_with_record, law_with_records, lemma_filter_sorted, strictly_sorted,
    with_records,
};
use crate::storage::sstable::{
    fills, index_of, law_table_bloom, law_table_records, table_bytes, SSTableMeta,
};
use crate::storage::wal::{law_wal_round_trip, recovered};

verus! {

/// Whether the table with the file `file` holds the sorted records of `s`.
pub open spec fn table_holds(meta: &SSTableMeta, file: Seq<u8>, s: Seq<Seq<u8>>) -> bool {
    &&& meta.describes(s)
    &&& file == table_bytes(s, meta.bloom@)
    &&& strictly_sorted(s)
    &&& all_keyed(s)
    &&& frameable(s)
    &&& forall|i: int|
        0 <= i < s.len() ==> meta.bloom@.holds(source_of(#[trigger] s[i]), key_of(s[i]))
}

/// Of the records under its key a query asks for those from the first to the last bound of
/// its range, the first inclusive and the last exclusive.
pub proof fn law_range_bounds(
    b: Seq<u8>,
    source_id: i64,
    key: Seq<u8>,
    start_ts: i64,
    end_ts: i64,
)
    requires
        0 <= start_ts <= end_ts,
        has_key(b),
        key_of(b) == key,
        key.len() <= usize::MAX,
    ensures
        in_span(b, source_id, start_ts, end_ts) <==> !rec_lt(
            b,
            bound_bytes(source_id, start_ts, key),
        ) && rec_lt(b, bound_bytes(source_id, end_ts, key)),
{
    let start = bound_bytes(source_id, start_ts, key);
    let end = bound_bytes(source_id, end_ts, key);
    law_record_round_trip(source_id, start_ts, 0, key, Seq::empty());
    law_record_round_trip(source_id, end_ts, 0, key, Seq::empty());
    law_bytes_lt_total(key, key);
}

proof fn lemma_filter_first(s: Seq<Seq<u8>>, p: spec_fn(Seq<u8>) -> bool)
    requires
        s.len() > 0,
    ensures
        s.filter(p) == (if p(s[0]) {
            seq![s[0]] + s.drop_first().filter(p)
        } else {
            s.drop_first().filter(p)
        }),
    decreases s.len(),
{
    reveal(Seq::filter);
    let rest = s.drop_first();
    if s.len() == 1 {
        assert(s.drop_last() =~= Seq::<Seq<u8>>::empty());
        assert(rest =~= Seq::<Seq<u8>>::empty());
        assert(s.filter(p) =~= if p(s[0]) {
            seq![s[0]] + rest.filter(p)
        } else {
            rest.filter(p)
        });
    } else {
        let front = s.drop_last();
        lemma_filter_first(front, p);
        assert(front.drop_first() =~= rest.drop_last());
        assert(rest.last() == s.last());
        assert(s.filter(p) =~= if p(s[0]) {
            seq![s[0]] + rest.filter(p)
        } else {
            rest.filter(p)
        });
    }
}

proof fn lemma_filter_none(s: Seq<Seq<u8>>, p: spec_fn(Seq<u8>) -> bool)
    requires
        forall|i: int| 0 <= i < s.len() ==> !p(#[trigger] s[i]),
    ensures
        s.filter(p) == Seq::<Seq<u8>>::empty(),
    decreases s.len(),
{
    reveal(Seq::filter);
    if s.len() > 0 {
        let front = s.drop_last();
        assert forall|i: int| 0 <= i < front.len() implies !p(#[trigger] front[i]) by {
            assert(front[i] == s[i]);
        }
        lemma_filter_none(front, p);
        assert(!p(s[s.len() - 1]));
    }
}

/// What a query picks from sorted records is just what it asks for.
pub proof fn law_pick_sorted(
    s: Seq<Seq<u8>>,
    source_id: i64,
    key: Seq<u8>,
    start_ts: i64,
    end_ts: i64,
    filter: Seq<u8>,
)
    requires
        strictly_sorted(s),
        all_keyed(s),
        0 <= start_ts <= end_ts,
        key.len() <= usize::MAX,
    ensures
        pick(
            s,
            bound_bytes(source_id, start_ts, key),
            bound_bytes(source_id, end_ts, key),
            key,
            filter,
        ) == s.filter(|b: Seq<u8>| asked_for(b, source_id, key, start_ts, end_ts, filter)),
    decreases s.len(),
{
    let start = bound_bytes(source_id, start_ts, key);
    let end = bound_bytes(source_id, end_ts, key);
    let p = |b: Seq<u8>| asked_for(b, source_id, key, start_ts, end_ts, filter);
    if s.len() == 0 {
        reveal(Seq::filter);
    } else {
        let rest = s.drop_first();
        assert forall|i: int, j: int| 0 <= i < j < rest.len() implies rec_lt(
            #[trigger] rest[i],
            #[trigger] rest[j],
        ) by {
            assert(rest[i] == s[i + 1] && rest[j] == s[j + 1]);
        }
        assert forall|i: int| 0 <= i < rest.len() implies has_key(#[trigger] rest[i]) by {
            assert(rest[i] == s[i + 1]);
        }
        law_pick_sorted(rest, source_id, key, start_ts, end_ts, filter);
        lemma_filter_first(s, p);
        assert(has_key(s[0]));
        if key_of(s[0]) == key {
            law_range_bounds(s[0], source_id, key, start_ts, end_ts);
        }
        if !rec_lt(s[0], start) && !rec_lt(s[0], end) {
            assert forall|i: int| 0 <= i < s.len() implies !p(#[trigger] s[i]) by {
                assert(has_key(s[i]));
                if key_of(s[i]) == key {
                    law_range_bounds(s[i], source_id, key, start_ts, end_ts);
                    if i > 0 {
                        assert(rec_lt(s[0], s[i]));
                        law_record_order_transitive(s[0], s[i], end);
                    }
                }
            }
            lemma_filter_none(s, p);
        }
    }
}

/// The `j`-th entry of the index of a table points to the record that is `j` periods in.
pub proof fn law_index_entries(s: Seq<Seq<u8>>, j: int)
    requires
        0 <= j,
    ensures
        j < index_of(s).len() <==> j * IndexBlock::PERIOD_SZ < s.len(),
        j < index_of(s).len() ==> index_of(s)[j] == entry_of(
            s[j * IndexBlock::PERIOD_SZ],
            framed(s.take(j * IndexBlock::PERIOD_SZ)).len() as u64,
        ),
    decreases s.len(),
{
    if s.len() > 0 {
        let front = s.drop_last();
        law_index_entries(front, j);
        let i = s.len() - 1;
        let k = index_of(front).len() as int;
        law_index_entries(front, k);
        if k > 0 {
            law_index_entries(front, k - 1);
        }
        if j * 16 < front.len() {
            assert(front.take(j * 16) =~= s.take(j * 16));
        }
        if i % 16 == 0 {
            assert(k * 16 == i);
            assert(s.take(i) =~= front);
            if j == k {
                assert(j * 16 == i);
            }
        } else {
            assert(k * 16 > i);
        }
    }
}

/// How many records of `s` lie before the one from which a query reads when the entries of the
/// index part at `p`.
spec fn skipped(p: int) -> int {
    if p == 0 {
        0
    } else {
        (p - 1) * 16
    }
}

proof fn lemma_skipped(s: Seq<Seq<u8>>, source_id: i64, start_ts: i64, p: int)
    requires
        starts_at(index_of(s), source_id, start_ts, p),
        framed(s).len() <= u64::MAX,
    ensures
        ({
            let k = skipped(p);
            &&& 0 <= k <= s.len()
            &&& start_offset(index_of(s), p) == framed(s.take(k)).len()
            &&& k > 0 ==> k < s.len() && entry_earlier(entry_of(s[k], 0), source_id, start_ts)
        }),
{
    let k = skipped(p);
    assert(s.take(0) =~= Seq::<Seq<u8>>::empty());
    if p > 0 {
        law_index_entries(s, p - 1);
    }
    assert(0 <= k <= s.len());
    assert(s =~= s.take(k) + s.skip(k));
    lemma_framed_concat(s.take(k), s.skip(k));
}

/// A query on a table gives just what it asks for among the records of the table.
pub proof fn law_table_query(
    meta: &SSTableMeta,
    file: Seq<u8>,
    s: Seq<Seq<u8>>,
    source_id: i64,
    key: Seq<u8>,
    start_ts: i64,
    end_ts: i64,
    filter: Seq<u8>,
    out: Seq<Seq<u8>>,
)
    requires
        table_holds(meta, file, s),
        table_pick(meta, file, source_id, key, start_ts, end_ts, filter, out),
        0 <= start_ts <= end_ts,
        key.len() <= usize::MAX,
    ensures
        out == s.filter(|b: Seq<u8>| asked_for(b, source_id, key, start_ts, end_ts, filter)),
{
    let start = bound_bytes(source_id, start_ts, key);
    let end = bound_bytes(source_id, end_ts, key);
    let want = |b: Seq<u8>| asked_for(b, source_id, key, start_ts, end_ts, filter);
    let es = meta.index@;
    let p = choose|p: int| #[trigger]
        starts_at(es, source_id, start_ts, p) && out == pick(
            frames_in(file, start_offset(es, p) as nat, meta.index_offset as nat),
            start,
            end,
            key,
            filter,
        );
    lemma_skipped(s, source_id, start_ts, p);
    let k = skipped(p);
    assert(framed(s).is_prefix_of(file));
    law_frames_in_framed(file, s, k);
    lemma_skip_sorted(s, k);
    law_pick_sorted(s.skip(k), source_id, key, start_ts, end_ts, filter);
    assert(out == s.skip(k).filter(want));
    lemma_none_skipped(s, p, source_id, key, start_ts, end_ts, filter);
}

proof fn lemma_none_skipped(
    s: Seq<Seq<u8>>,
    p: int,
    source_id: i64,
    key: Seq<u8>,
    start_ts: i64,
    end_ts: i64,
    filter: Seq<u8>,
)
    requires
        starts_at(index_of(s), source_id, start_ts, p),
        framed(s).len() <= u64::MAX,
        strictly_sorted(s),
    ensures
        ({
            let want = |b: Seq<u8>| asked_for(b, source_id, key, start_ts, end_ts, filter);
            s.skip(skipped(p)).filter(want) == s.filter(want)
        }),
{
    let want = |b: Seq<u8>| asked_for(b, source_id, key, start_ts, end_ts, filter);
    let k = skipped(p);
    lemma_skipped(s, source_id, start_ts, p);
    let head = s.take(k);
    assert forall|i: int| 0 <= i < head.len() implies !want(#[trigger] head[i]) by {
        assert(head[i] == s[i]);
        assert(rec_lt(s[i], s[k]));
    }
    lemma_filter_none(head, want);
    Seq::filter_distributes_over_add(head, s.skip(k), want);
    assert(s =~= head + s.skip(k));
    assert(Seq::<Seq<u8>>::empty() + s.skip(k).filter(want) =~= s.skip(k).filter(want));
}

proof fn lemma_skip_sorted(s: Seq<Seq<u8>>, k: int)
    requires
        0 <= k <= s.len(),
        strictly_sorted(s),
        all_keyed(s),
    ensures
        strictly_sorted(s.skip(k)),
        all_keyed(s.skip(k)),
{
    let t = s.skip(k);
    assert forall|a: int, b: int| 0 <= a < b < t.len() implies rec_lt(
        #[trigger] t[a],
        #[trigger] t[b],
    ) by {
        assert(t[a] == s[k + a] && t[b] == s[k + b]);
    }
    assert forall|a: int| 0 <= a < t.len() implies has_key(#[trigger] t[a]) by {
        assert(t[a] == s[k + a]);
    }
}

proof fn lemma_keyed_orderable(s: Seq<Seq<u8>>, start: Seq<u8>, end: Seq<u8>)
    requires
        all_keyed(s),
    ensures
        orderable(s, start, end),
    decreases s.len(),
{
    if s.len() > 0 {
        let t = s.drop_first();
        assert forall|i: int| 0 <= i < t.len() implies has_key(#[trigger] t[i]) by {
            assert(t[i] == s[i + 1]);
        }
        lemma_keyed_orderable(t, start, end);
        assert(has_key(s[0]));
    }
}

/// Every record that a query reads from the file of a table can be ordered.
pub proof fn law_table_orderable(
    meta: &SSTableMeta,
    file: Seq<u8>,
    s: Seq<Seq<u8>>,
    source_id: i64,
    key: Seq<u8>,
    start_ts: i64,
    end_ts: i64,
)
    requires
        table_holds(meta, file, s),
    ensures
        table_orderable(meta, file, source_id, key, start_ts, end_ts),
{
    let start = bound_bytes(source_id, start_ts, key);
    let end = bound_bytes(source_id, end_ts, key);
    assert forall|p: int| #[trigger] starts_at(
        meta.index@,
        source_id,
        start_ts,
        p,
    ) implies orderable(
        frames_in(file, start_offset(meta.index@, p) as nat, meta.index_offset as nat),
        start,
        end,
    ) by {
        lemma_skipped(s, source_id, start_ts, p);
        let k = skipped(p);
        assert(framed(s).is_prefix_of(file));
        law_frames_in_framed(file, s, k);
        lemma_skip_sorted(s, k);
        lemma_keyed_orderable(s.skip(k), start, end);
    }
}

/// Whether the memory tables are sorted and without duplicates.
pub open spec fn memory_sorted(m: EngineModel) -> bool {
    &&& strictly_sorted(m.mem)
    &&& all_keyed(m.mem)
    &&& forall|i: int|
        0 <= i < m.frozen.len() ==> strictly_sorted((#[trigger] m.frozen[i]).1) && all_keyed(
            m.frozen[i].1,
        )
}

/// Whether one of the memory tables holds the record `x`.
pub open spec fn in_memory(mem: Seq<Seq<u8>>, frozen: Seq<(u64, Seq<Seq<u8>>)>, x: Seq<u8>) -> bool {
    mem.contains(x) || exists|i: int| 0 <= i < frozen.len() && (#[trigger] frozen[i]).1.contains(x)
}

proof fn lemma_frozen_span(
    mem: Seq<Seq<u8>>,
    frozen: Seq<(u64, Seq<Seq<u8>>)>,
    source_id: i64,
    start_ts: i64,
    end_ts: i64,
)
    requires
        strictly_sorted(mem),
        all_keyed(mem),
        forall|i: int|
            0 <= i < frozen.len() ==> strictly_sorted((#[trigger] frozen[i]).1) && all_keyed(
                frozen[i].1,
            ),
    ensures
        ({
            let out = frozen_span(
                span_of(mem, source_id, start_ts, end_ts),
                frozen,
                source_id,
                start_ts,
                end_ts,
            );
            &&& strictly_sorted(out)
            &&& all_keyed(out)
            &&& forall|x: Seq<u8>| #[trigger]
                out.contains(x) ==> in_memory(mem, frozen, x) && in_span(
                    x,
                    source_id,
                    start_ts,
                    end_ts,
                )
            &&& forall|x: Seq<u8>| #[trigger]
                in_memory(mem, frozen, x) && in_span(x, source_id, start_ts, end_ts)
                    ==> has_place(out, x)
        }),
    decreases frozen.len(),
{
    let p = |b: Seq<u8>| in_span(b, source_id, start_ts, end_ts);
    let first = span_of(mem, source_id, start_ts, end_ts);
    let out = frozen_span(first, frozen, source_id, start_ts, end_ts);
    lemma_filter_sorted(mem, p);
    if frozen.len() == 0 {
        assert forall|x: Seq<u8>| #[trigger]
            in_memory(mem, frozen, x) && in_span(x, source_id, start_ts, end_ts) implies has_place(
            out,
            x,
        ) by {
            assert(first.contains(x));
            let i = choose|i: int| 0 <= i < first.len() && first[i] == x;
            law_record_order_total(first[i], x);
            assert(rec_eq(first[i], x));
        }
    } else {
        let front = frozen.drop_last();
        let last = frozen.last().1;
        assert(strictly_sorted(frozen[frozen.len() - 1].1));
        assert forall|i: int| 0 <= i < front.len() implies strictly_sorted((#[trigger] front[i]).1)
            && all_keyed(front[i].1) by {
            assert(front[i] == frozen[i]);
        }
        lemma_frozen_span(mem, front, source_id, start_ts, end_ts);
        let mid = frozen_span(first, front, source_id, start_ts, end_ts);
        let add = span_of(last, source_id, start_ts, end_ts);
        lemma_filter_sorted(last, p);
        law_with_records(mid, add);
        assert forall|x: Seq<u8>| #[trigger] out.contains(x) implies in_memory(mem, frozen, x)
            && in_span(x, source_id, start_ts, end_ts) by {
            if mid.contains(x) {
                if !mem.contains(x) {
                    let i = choose|i: int|
                        0 <= i < front.len() && (#[trigger] front[i]).1.contains(x);
                    assert(frozen[i] == front[i]);
                }
            } else {
                assert(add.contains(x));
                assert(frozen[frozen.len() - 1].1.contains(x));
            }
        }
        assert forall|x: Seq<u8>| #[trigger]
            in_memory(mem, frozen, x) && in_span(x, source_id, start_ts, end_ts) implies has_place(
            out,
            x,
        ) by {
            if in_memory(mem, front, x) {
                let i = choose|i: int| 0 <= i < mid.len() && rec_eq(#[trigger] mid[i], x);
                assert(has_place(out, mid[i]));
                let n = choose|n: int| 0 <= n < out.len() && rec_eq(#[trigger] out[n], mid[i]);
                law_record_order_transitive(out[n], mid[i], x);
            } else {
                let i = choose|i: int| 0 <= i < frozen.len() && (#[trigger] frozen[i]).1.contains(x);
                if i < front.len() {
                    assert(front[i] == frozen[i]);
                }
                assert(add.contains(x));
                let n = choose|n: int| 0 <= n < add.len() && add[n] == x;
                assert(has_place(out, add[n]));
            }
        }
    }
}

/// Whether one of the tables holds the record `x`. The records of table `id` are `held[id]`.
pub open spec fn in_tables(
    tables: Seq<(u64, SSTableMeta)>,
    held: Map<u64, Seq<Seq<u8>>>,
    x: Seq<u8>,
) -> bool {
    exists|id: u64| #[trigger] has_id(tables, id) && held[id].contains(x)
}

/// Whether the store holds the record `x`, in a memory table or in a table.
pub open spec fn stored(m: EngineModel, held: Map<u64, Seq<Seq<u8>>>, x: Seq<u8>) -> bool {
    in_memory(m.mem, m.frozen, x) || in_tables(m.tables, held, x)
}

/// Whether any two records of the store with the same place are the same record.
pub open spec fn unambiguous(m: EngineModel, held: Map<u64, Seq<Seq<u8>>>) -> bool {
    forall|x: Seq<u8>, y: Seq<u8>|
        #[trigger] stored(m, held, x) && #[trigger] stored(m, held, y) && rec_eq(x, y) ==> x == y
}

/// Whether `held` are the records of the tables, whose files are `files`.
pub open spec fn tables_hold(
    tables: Seq<(u64, SSTableMeta)>,
    files: Seq<(u64, Vec<u8>)>,
    held: Map<u64, Seq<Seq<u8>>>,
) -> bool {
    forall|id: u64| #[trigger]
        has_id(tables, id) ==> has_id(files, id) && table_holds(
            &value_at(tables, id),
            value_at(files, id)@,
            held[id],
        )
}

/// Whether the memory tables are sorted and without duplicates, and the ids ascend.
pub open spec fn engine_sorted(m: EngineModel) -> bool {
    memory_sorted(m) && ascending(m.frozen) && ascending(m.tables)
}

proof fn lemma_table_at(
    tables: Seq<(u64, SSTableMeta)>,
    files: Seq<(u64, Vec<u8>)>,
    held: Map<u64, Seq<Seq<u8>>>,
    i: int,
)
    requires
        ascending(tables),
        tables_hold(tables, files, held),
        0 <= i < tables.len(),
    ensures
        has_id(tables, tables[i].0),
        has_id(files, tables[i].0),
        table_holds(&tables[i].1, value_at(files, tables[i].0)@, held[tables[i].0]),
{
    lemma_has_id(tables, tables[i].0);
}

proof fn lemma_hits(
    tables: Seq<(u64, SSTableMeta)>,
    files: Seq<(u64, Vec<u8>)>,
    source_id: i64,
    key: Seq<u8>,
)
    ensures
        ({
            let h = hits(tables, files, source_id, key);
            &&& forall|j: int| 0 <= j < h.len() ==> 0 <= #[trigger] h[j] < tables.len()
            &&& forall|i: int|
                0 <= i < tables.len() && (#[trigger] tables[i]).1.bloom@.holds(source_id, key)
                    && has_id(files, tables[i].0) ==> h.contains(i)
        }),
    decreases tables.len(),
{
    if tables.len() > 0 {
        let front = tables.drop_last();
        lemma_hits(front, files, source_id, key);
        let g = hits(front, files, source_id, key);
        let h = hits(tables, files, source_id, key);
        assert forall|i: int|
            0 <= i < tables.len() && (#[trigger] tables[i]).1.bloom@.holds(source_id, key)
                && has_id(files, tables[i].0) implies h.contains(i) by {
            if i < front.len() {
                assert(front[i] == tables[i]);
                assert(g.contains(i));
                let n = choose|n: int| 0 <= n < g.len() && g[n] == i;
                assert(h[n] == i);
            } else {
                assert(h[h.len() - 1] == i);
            }
        }
    }
}

/// A query gives exactly the stored records that it asks for, sorted and each once. The start of
/// its range is inclusive and the end exclusive.
pub proof fn law_range_exact(
    m: EngineModel,
    files: Seq<(u64, Vec<u8>)>,
    held: Map<u64, Seq<Seq<u8>>>,
    source_id: i64,
    key: Seq<u8>,
    start_ts: i64,
    end_ts: i64,
    filter: Seq<u8>,
    srcs: Seq<Seq<Seq<u8>>>,
)
    requires
        0 <= start_ts <= end_ts,
        key.len() <= usize::MAX,
        engine_sorted(m),
        tables_hold(m.tables, files, held),
        unambiguous(m, held),
        range_sources(m, files, source_id, key, start_ts, end_ts, filter, srcs),
    ensures
        strictly_sorted(merged(srcs, None)),
        forall|x: Seq<u8>| #[trigger]
            merged(srcs, None).contains(x) <==> stored(m, held, x) && asked_for(
                x,
                source_id,
                key,
                start_ts,
                end_ts,
                filter,
            ),
{
    let want = |b: Seq<u8>| asked_for(b, source_id, key, start_ts, end_ts, filter);
    let h = hits(m.tables, files, source_id, key);
    let span = m.mem_span(source_id, start_ts, end_ts);
    lemma_hits(m.tables, files, source_id, key);
    lemma_frozen_span(m.mem, m.frozen, source_id, start_ts, end_ts);
    lemma_filter_sorted(span, want);
    assert forall|j: int| 0 <= j < h.len() implies #[trigger] srcs[j + 1]
        == held[m.tables[h[j]].0].filter(want) && sorted(srcs[j + 1]) by {
        let i = h[j];
        lemma_table_at(m.tables, files, held, i);
        let s = held[m.tables[i].0];
        law_table_query(
            &m.tables[i].1,
            value_at(files, m.tables[i].0)@,
            s,
            source_id,
            key,
            start_ts,
            end_ts,
            filter,
            srcs[j + 1],
        );
        lemma_filter_sorted(s, want);
        lemma_strict_is_sorted(srcs[j + 1]);
    }
    assert forall|j: int| 0 <= j < srcs.len() implies sorted(#[trigger] srcs[j]) by {
        if j == 0 {
            lemma_strict_is_sorted(srcs[0]);
        } else {
            assert(sorted(srcs[j - 1 + 1]));
        }
    }
    law_merged(srcs);
    let out = merged(srcs, None);
    assert forall|x: Seq<u8>| #[trigger] in_some(srcs, x) implies stored(m, held, x) && want(x) by {
        let j = choose|j: int| 0 <= j < srcs.len() && (#[trigger] srcs[j]).contains(x);
        if j > 0 {
            let i = h[j - 1];
            assert(srcs[j - 1 + 1] == held[m.tables[i].0].filter(want));
            lemma_table_at(m.tables, files, held, i);
            lemma_filter_sorted(held[m.tables[i].0], want);
        }
    }
    assert forall|x: Seq<u8>| stored(m, held, x) && want(x) implies #[trigger] out.contains(x) by {
        if in_memory(m.mem, m.frozen, x) {
            assert(in_span(x, source_id, start_ts, end_ts));
            assert(has_place(span, x));
            let n = choose|n: int| 0 <= n < span.len() && rec_eq(#[trigger] span[n], x);
            assert(span.contains(span[n]));
            assert(stored(m, held, span[n]));
            assert(span[n] == x);
            assert(srcs[0].contains(x));
        } else {
            let id = choose|id: u64| #[trigger] has_id(m.tables, id) && held[id].contains(x);
            lemma_has_id(m.tables, id);
            let i = choose|i: int| 0 <= i < m.tables.len() && (#[trigger] m.tables[i]).0 == id;
            lemma_table_at(m.tables, files, held, i);
            let s = held[id];
            let n = choose|n: int| 0 <= n < s.len() && s[n] == x;
            assert(m.tables[i].1.bloom@.holds(source_of(s[n]), key_of(s[n])));
            assert(h.contains(i));
            let j = choose|j: int| 0 <= j < h.len() && h[j] == i;
            assert(srcs[j + 1] == s.filter(want));
            lemma_filter_sorted(s, want);
            assert(srcs[j + 1].contains(x));
        }
        assert(in_some(srcs, x));
        let k = choose|k: int| 0 <= k < out.len() && rec_eq(#[trigger] out[k], x);
        assert(out.contains(out[k]));
        assert(stored(m, held, out[k]));
        assert(out[k] == x);
    }
}

/// Whether every stored record has a sequence number below the next one.
pub open spec fn seqs_used(m: EngineModel, held: Map<u64, Seq<Seq<u8>>>) -> bool {
    forall|x: Seq<u8>| #[trigger] stored(m, held, x) ==> seq_of(x) < m.next_seq
}

/// An inserted record is stored, and nothing else comes or goes. Records with the same place
/// are still the same record, and the sequence numbers that were given are used up.
pub proof fn law_insert_stored(
    m: EngineModel,
    held: Map<u64, Seq<Seq<u8>>>,
    source_id: i64,
    ts: i64,
    key: Seq<u8>,
    value: Seq<u8>,
)
    requires
        engine_sorted(m),
        unambiguous(m, held),
        seqs_used(m, held),
        m.next_seq < u64::MAX,
        key.len() <= usize::MAX,
        value.len() <= usize::MAX,
    ensures
        ({
            let b = record_bytes(source_id, ts, m.next_seq, key, value);
            let after = m.with_insert(b);
            &&& engine_sorted(after)
            &&& unambiguous(after, held)
            &&& seqs_used(after, held)
            &&& forall|x: Seq<u8>| #[trigger]
                stored(after, held, x) <==> stored(m, held, x) || x == b
        }),
{
    let b = record_bytes(source_id, ts, m.next_seq, key, value);
    let after = m.with_insert(b);
    law_record_round_trip(source_id, ts, m.next_seq, key, value);
    law_with_record(m.mem, b);
    if has_place(m.mem, b) {
        let i = choose|i: int| 0 <= i < m.mem.len() && rec_eq(#[trigger] m.mem[i], b);
        assert(m.mem.contains(m.mem[i]));
        assert(stored(m, held, m.mem[i]));
        assert(false);
    }
    assert forall|x: Seq<u8>| #[trigger] stored(after, held, x) <==> stored(m, held, x) || x
        == b by {
        assert(after.mem.contains(x) <==> m.mem.contains(x) || x == b);
    }
    assert forall|x: Seq<u8>| #[trigger] stored(after, held, x) implies seq_of(x)
        < after.next_seq by {
        assert(stored(m, held, x) || x == b);
    }
    assert forall|x: Seq<u8>, y: Seq<u8>|
        #[trigger] stored(after, held, x) && #[trigger] stored(after, held, y) && rec_eq(
            x,
            y,
        ) implies x == y by {
        assert(stored(m, held, x) || x == b);
        assert(stored(m, held, y) || y == b);
    }
}

/// A record that is inserted is found by just those queries that ask for it.
pub proof fn law_inserted_found(
    m: EngineModel,
    files: Seq<(u64, Vec<u8>)>,
    held: Map<u64, Seq<Seq<u8>>>,
    record: (i64, i64, Seq<u8>, Seq<u8>),
    query: (i64, Seq<u8>, i64, i64, Seq<u8>),
    srcs: Seq<Seq<Seq<u8>>>,
)
    requires
        engine_sorted(m),
        unambiguous(m, held),
        seqs_used(m, held),
        m.next_seq < u64::MAX,
        record.2.len() <= usize::MAX,
        record.3.len() <= usize::MAX,
        0 <= query.2 <= query.3,
        query.1.len() <= usize::MAX,
        tables_hold(m.tables, files, held),
        range_sources(
            m.with_insert(record_bytes(record.0, record.1, m.next_seq, record.2, record.3)),
            files,
            query.0,
            query.1,
            query.2,
            query.3,
            query.4,
            srcs,
        ),
    ensures
        merged(srcs, None).contains(
            record_bytes(record.0, record.1, m.next_seq, record.2, record.3),
        ) <==> record.0 == query.0 && record.2 == query.1 && query.2 <= record.1 < query.3
            && contains_bytes(record.3, query.4),
{
    let b = record_bytes(record.0, record.1, m.next_seq, record.2, record.3);
    let after = m.with_insert(b);
    law_insert_stored(m, held, record.0, record.1, record.2, record.3);
    law_record_round_trip(record.0, record.1, m.next_seq, record.2, record.3);
    law_range_exact(after, files, held, query.0, query.1, query.2, query.3, query.4, srcs);
    assert(stored(after, held, b));
}

/// A record is found by its source, its key, its time and any piece of its value: whatever stands
/// before and behind the piece that is asked for.
pub proof fn law_inserted_found_by_piece(
    m: EngineModel,
    files: Seq<(u64, Vec<u8>)>,
    held: Map<u64, Seq<Seq<u8>>>,
    source_id: i64,
    ts: i64,
    key: Seq<u8>,
    before: Seq<u8>,
    piece: Seq<u8>,
    behind: Seq<u8>,
    span: (i64, i64),
    srcs: Seq<Seq<Seq<u8>>>,
)
    requires
        engine_sorted(m),
        unambiguous(m, held),
        seqs_used(m, held),
        m.next_seq < u64::MAX,
        key.len() <= usize::MAX,
        (before + piece + behind).len() <= usize::MAX,
        0 <= span.0 <= ts < span.1,
        tables_hold(m.tables, files, held),
        range_sources(
            m.with_insert(record_bytes(source_id, ts, m.next_seq, key, before + piece + behind)),
            files,
            source_id,
            key,
            span.0,
            span.1,
            piece,
            srcs,
        ),
    ensures
        merged(srcs, None).contains(
            record_bytes(source_id, ts, m.next_seq, key, before + piece + behind),
        ),
{
    law_contains_between(before, piece, behind);
    law_inserted_found(
        m,
        files,
        held,
        (source_id, ts, key, before + piece + behind),
        (source_id, key, span.0, span.1, piece),
        srcs,
    );
}

/// What a query gives is of the source and under the key that it asks for, not before the start
/// of its range and before the end, and the text that it looks for stands somewhere in the value;
/// and every stored record of that kind is given. The earlier comes first, and of records of one
/// time the one that was inserted first.
pub proof fn law_query_answer(
    m: EngineModel,
    files: Seq<(u64, Vec<u8>)>,
    held: Map<u64, Seq<Seq<u8>>>,
    source_id: i64,
    key: Seq<u8>,
    start_ts: i64,
    end_ts: i64,
    filter: Seq<u8>,
    srcs: Seq<Seq<Seq<u8>>>,
)
    requires
        0 <= start_ts <= end_ts,
        key.len() <= usize::MAX,
        engine_sorted(m),
        tables_hold(m.tables, files, held),
        unambiguous(m, held),
        range_sources(m, files, source_id, key, start_ts, end_ts, filter, srcs),
    ensures
        forall|x: Seq<u8>| #[trigger]
            merged(srcs, None).contains(x) ==> source_of(x) == source_id && key_of(x) == key
                && start_ts <= time_of(x) < end_ts && stored(m, held, x),
        forall|x: Seq<u8>| #[trigger]
            merged(srcs, None).contains(x) ==> exists|a: Seq<u8>, c: Seq<u8>|
                value_of(x) == #[trigger] (a + filter + c),
        forall|x: Seq<u8>, a: Seq<u8>, c: Seq<u8>|
            #![trigger merged(srcs, None).contains(x), a + filter + c]
            stored(m, held, x) && has_value(x) && source_of(x) == source_id && key_of(x) == key
                && start_ts <= time_of(x) < end_ts && value_of(x) == a + filter + c ==> merged(
                srcs,
                None,
            ).contains(x),
        forall|i: int, j: int|
            0 <= i < j < merged(srcs, None).len() ==> {
                let x = #[trigger] merged(srcs, None)[i];
                let y = #[trigger] merged(srcs, None)[j];
                time_of(x) < time_of(y) || time_of(x) == time_of(y) && seq_of(x) < seq_of(y)
            },
{
    law_range_exact(m, files, held, source_id, key, start_ts, end_ts, filter, srcs);
    let out = merged(srcs, None);
    assert forall|x: Seq<u8>| #[trigger] out.contains(x) implies exists|a: Seq<u8>, c: Seq<u8>|
        value_of(x) == #[trigger] (a + filter + c) by {
        law_contains_anywhere(value_of(x), filter);
    }
    assert forall|x: Seq<u8>, a: Seq<u8>, c: Seq<u8>|
        #![trigger out.contains(x), a + filter + c]
        stored(m, held, x) && has_value(x) && source_of(x) == source_id && key_of(x) == key
            && start_ts <= time_of(x) < end_ts && value_of(x) == a + filter
            + c implies out.contains(x) by {
        law_contains_between(a, filter, c);
    }
    assert forall|i: int, j: int| 0 <= i < j < out.len() implies {
        let x = #[trigger] out[i];
        let y = #[trigger] out[j];
        time_of(x) < time_of(y) || time_of(x) == time_of(y) && seq_of(x) < seq_of(y)
    } by {
        assert(out.contains(out[i]) && out.contains(out[j]));
        assert(rec_lt(out[i], out[j]));
        law_bytes_lt_total(key, key);
    }
}

/// Whether the memory table holds just the records of `rs`, put in one after the other, and
/// they are what was written to the log: the bytes `written`, which are in its file, and those
/// that are still to go there.
pub open spec fn logged(m: EngineModel, written: Seq<u8>, rs: Seq<Seq<u8>>) -> bool {
    &&& frameable(rs)
    &&& written + m.wal_pending == framed(rs)
    &&& m.mem == with_records(Seq::empty(), rs)
}

/// What is inserted is in the log before it is in the memory table, so the two stay the same.
pub proof fn law_insert_logged(m: EngineModel, written: Seq<u8>, rs: Seq<Seq<u8>>, b: Seq<u8>)
    requires
        logged(m, written, rs),
        b.len() <= u64::MAX,
    ensures
        logged(m.with_insert(b), written, rs.push(b)),
{
    let after = rs.push(b);
    assert(after.drop_last() =~= rs);
    assert forall|i: int| 0 <= i < after.len() implies (#[trigger] after[i]).len() <= u64::MAX by {
        if i < rs.len() {
            assert(after[i] == rs[i]);
        }
    }
    assert(written + (m.wal_pending + frame(b)) =~= (written + m.wal_pending) + frame(b));
}

/// What is inserted together is in the log before it is in the memory table, so the two stay
/// the same.
pub proof fn law_batch_logged(
    m: EngineModel,
    written: Seq<u8>,
    rs: Seq<Seq<u8>>,
    recs: Seq<Seq<u8>>,
)
    requires
        logged(m, written, rs),
        frameable(recs),
    ensures
        logged(m.with_batch(recs), written, rs + recs),
{
    let after = rs + recs;
    assert forall|i: int| 0 <= i < after.len() implies (#[trigger] after[i]).len() <= u64::MAX by {
        if i < rs.len() {
            assert(after[i] == rs[i]);
        } else {
            assert(after[i] == recs[i - rs.len()]);
        }
    }
    lemma_framed_concat(rs, recs);
    assert(written + (m.wal_pending + framed(recs)) =~= (written + m.wal_pending) + framed(recs));
    lemma_with_records_concat(Seq::empty(), rs, recs);
}

proof fn lemma_with_records_concat(s: Seq<Seq<u8>>, a: Seq<Seq<u8>>, b: Seq<Seq<u8>>)
    ensures
        with_records(s, a + b) == with_records(with_records(s, a), b),
    decreases b.len(),
{
    if b.len() == 0 {
        assert(a + b =~= a);
    } else {
        assert((a + b).drop_last() =~= a + b.drop_last());
        lemma_with_records_concat(s, a, b.drop_last());
    }
}

/// Bytes of the log that go to its file stay what they are.
pub proof fn law_log_written(m: EngineModel, written: Seq<u8>, rs: Seq<Seq<u8>>)
    requires
        logged(m, written, rs),
    ensures
        logged(EngineModel { wal_pending: Seq::empty(), ..m }, written + m.wal_pending, rs),
{
    assert(written + m.wal_pending + Seq::<u8>::empty() =~= written + m.wal_pending);
}

/// What is recovered from the file of the log once all bytes are there is the memory table,
/// also where fewer than eight bytes of a further record were written.
pub proof fn law_log_recovers_memory(
    m: EngineModel,
    written: Seq<u8>,
    rs: Seq<Seq<u8>>,
    tail: Seq<u8>,
)
    requires
        logged(m, written, rs),
        m.wal_pending.len() == 0,
        tail.len() < 8,
    ensures
        recovered(seq![written + tail]) == m.mem,
{
    assert(written + m.wal_pending =~= written);
    law_wal_round_trip(rs, tail);
}

/// Setting the memory table aside for a flush changes nothing in what is stored.
pub proof fn law_prepare_flush_stored(m: EngineModel, held: Map<u64, Seq<Seq<u8>>>)
    requires
        engine_sorted(m),
        !has_id(m.frozen, m.next_table),
    ensures
        ({
            let after = EngineModel {
                mem: Seq::empty(),
                mem_size: 0,
                frozen: with_entry(m.frozen, m.next_table, m.mem),
                next_table: (m.next_table + 1) as u64,
                ..m
            };
            &&& engine_sorted(after)
            &&& forall|x: Seq<u8>| #[trigger] stored(after, held, x) <==> stored(m, held, x)
        }),
{
    let id = m.next_table;
    let frozen = with_entry(m.frozen, id, m.mem);
    let after = EngineModel {
        mem: Seq::empty(),
        mem_size: 0,
        frozen,
        next_table: (m.next_table + 1) as u64,
        ..m
    };
    law_with_entry(m.frozen, id, m.mem, id);
    assert forall|i: int| 0 <= i < frozen.len() implies strictly_sorted((#[trigger] frozen[i]).1)
        && all_keyed(frozen[i].1) by {
        lemma_with_entry_each(m.frozen, id, m.mem, i);
    }
    assert forall|x: Seq<u8>| #[trigger] stored(after, held, x) <==> stored(m, held, x) by {
        lemma_in_frozen(m.frozen, x);
        lemma_in_frozen(frozen, x);
        if in_memory(after.mem, after.frozen, x) {
            let k = choose|k: u64| #[trigger] has_id(frozen, k) && value_at(frozen, k).contains(x);
            law_with_entry(m.frozen, id, m.mem, k);
            if k != id {
                assert(has_id(m.frozen, k) && value_at(m.frozen, k).contains(x));
            }
        }
        if in_memory(m.mem, m.frozen, x) {
            if m.mem.contains(x) {
                assert(has_id(frozen, id) && value_at(frozen, id).contains(x));
            } else {
                let k = choose|k: u64| #[trigger]
                    has_id(m.frozen, k) && value_at(m.frozen, k).contains(x);
                law_with_entry(m.frozen, id, m.mem, k);
                assert(has_id(frozen, k) && value_at(frozen, k).contains(x));
            }
        }
    }
}

proof fn lemma_in_frozen(frozen: Seq<(u64, Seq<Seq<u8>>)>, x: Seq<u8>)
    requires
        ascending(frozen),
    ensures
        (exists|i: int| 0 <= i < frozen.len() && (#[trigger] frozen[i]).1.contains(x)) <==> exists|
            id: u64,
        | #[trigger] has_id(frozen, id) && value_at(frozen, id).contains(x),
{
    if exists|i: int| 0 <= i < frozen.len() && (#[trigger] frozen[i]).1.contains(x) {
        let i = choose|i: int| 0 <= i < frozen.len() && (#[trigger] frozen[i]).1.contains(x);
        lemma_has_id(frozen, frozen[i].0);
        assert(has_id(frozen, frozen[i].0) && value_at(frozen, frozen[i].0).contains(x));
    }
    if exists|id: u64| #[trigger] has_id(frozen, id) && value_at(frozen, id).contains(x) {
        let id = choose|id: u64| #[trigger] has_id(frozen, id) && value_at(frozen, id).contains(x);
        lemma_id_place(frozen, id);
        assert(frozen[id_place(frozen, id)].1.contains(x));
    }
}

/// Taking up the table to which a memory table was flushed, and forgetting that memory table,
/// changes nothing in what is stored.
pub proof fn law_flush_stored(m: EngineModel, held: Map<u64, Seq<Seq<u8>>>, meta: SSTableMeta)
    requires
        engine_sorted(m),
        has_id(m.frozen, meta.id),
        !has_id(m.tables, meta.id),
    ensures
        ({
            let after = EngineModel {
                frozen: without_entry(m.frozen, meta.id),
                tables: with_entry(m.tables, meta.id, meta),
                ..m
            };
            let held_after = held.insert(meta.id, value_at(m.frozen, meta.id));
            &&& engine_sorted(after)
            &&& forall|x: Seq<u8>| #[trigger] stored(after, held_after, x) <==> stored(m, held, x)
        }),
{
    let id = meta.id;
    let s = value_at(m.frozen, id);
    let frozen = without_entry(m.frozen, id);
    let tables = with_entry(m.tables, id, meta);
    let after = EngineModel { frozen, tables, ..m };
    let held_after = held.insert(id, s);
    law_without_entry(m.frozen, id, id);
    law_with_entry(m.tables, id, meta, id);
    assert forall|i: int| 0 <= i < frozen.len() implies strictly_sorted((#[trigger] frozen[i]).1)
        && all_keyed(frozen[i].1) by {
        lemma_without_entry_each(m.frozen, id, i);
    }
    assert forall|x: Seq<u8>| #[trigger] stored(after, held_after, x) <==> stored(
        m,
        held,
        x,
    ) by {
        lemma_in_frozen(m.frozen, x);
        lemma_in_frozen(frozen, x);
        if stored(after, held_after, x) && !m.mem.contains(x) {
            if in_memory(after.mem, frozen, x) {
                let k = choose|k: u64| #[trigger]
                    has_id(frozen, k) && value_at(frozen, k).contains(x);
                law_without_entry(m.frozen, id, k);
                assert(has_id(m.frozen, k) && value_at(m.frozen, k).contains(x));
            } else {
                let k = choose|k: u64| #[trigger]
                    has_id(tables, k) && held_after[k].contains(x);
                law_with_entry(m.tables, id, meta, k);
                if k == id {
                    assert(has_id(m.frozen, id) && value_at(m.frozen, id).contains(x));
                } else {
                    assert(has_id(m.tables, k) && held[k].contains(x));
                }
            }
        }
        if stored(m, held, x) && !m.mem.contains(x) {
            if in_memory(m.mem, m.frozen, x) {
                let k = choose|k: u64| #[trigger]
                    has_id(m.frozen, k) && value_at(m.frozen, k).contains(x);
                if k == id {
                    assert(has_id(tables, id) && held_after[id].contains(x));
                } else {
                    law_without_entry(m.frozen, id, k);
                    assert(has_id(frozen, k) && value_at(frozen, k).contains(x));
                }
            } else {
                let k = choose|k: u64| #[trigger] has_id(m.tables, k) && held[k].contains(x);
                law_with_entry(m.tables, id, meta, k);
                assert(has_id(tables, k) && held_after[k].contains(x));
            }
        }
    }
}

/// Whether one of the tables of the ids holds the record `x`.
pub open spec fn held_by(held: Map<u64, Seq<Seq<u8>>>, ids: Seq<u64>, x: Seq<u8>) -> bool {
    exists|i: int| 0 <= i < ids.len() && held[#[trigger] ids[i]].contains(x)
}

proof fn lemma_scans(
    tables: Seq<SSTableMeta>,
    files: Seq<(u64, Vec<u8>)>,
    held: Map<u64, Seq<Seq<u8>>>,
)
    requires
        forall|i: int|
            0 <= i < tables.len() ==> has_id(files, (#[trigger] tables[i]).id) && table_holds(
                &tables[i],
                value_at(files, tables[i].id)@,
                held[tables[i].id],
            ),
    ensures
        scans(tables, files).len() == tables.len(),
        forall|i: int| 0 <= i < tables.len() ==> #[trigger] scans(tables, files)[i]
            == held[tables[i].id],
    decreases tables.len(),
{
    if tables.len() > 0 {
        let front = tables.drop_last();
        let last = tables.last();
        assert forall|i: int| 0 <= i < front.len() implies has_id(files, (#[trigger] front[i]).id)
            && table_holds(&front[i], value_at(files, front[i].id)@, held[front[i].id]) by {
            assert(front[i] == tables[i]);
        }
        lemma_scans(front, files, held);
        assert(tables[tables.len() - 1] == last);
        assert(has_id(files, last.id));
        law_table_records(held[last.id], last.bloom@);
        assert forall|i: int| 0 <= i < tables.len() implies #[trigger] scans(tables, files)[i]
            == held[tables[i].id] by {
            if i < front.len() {
                assert(scans(front, files)[i] == held[front[i].id]);
            }
        }
    }
}

/// Tables whose files hold their records can be merged.
pub proof fn law_mergeable(
    tables: Seq<SSTableMeta>,
    files: Seq<(u64, Vec<u8>)>,
    held: Map<u64, Seq<Seq<u8>>>,
)
    requires
        forall|i: int|
            0 <= i < tables.len() ==> has_id(files, (#[trigger] tables[i]).id) && table_holds(
                &tables[i],
                value_at(files, tables[i].id)@,
                held[tables[i].id],
            ),
    ensures
        mergeable(tables, files),
{
    lemma_scans(tables, files, held);
    assert forall|i: int| 0 <= i < scans(tables, files).len() implies all_keyed(
        #[trigger] scans(tables, files)[i],
    ) by {
        assert(scans(tables, files)[i] == held[tables[i].id]);
        assert(has_id(files, tables[i].id));
    }
}

/// The merge of tables is sorted and without duplicates, and it is made of exactly the records
/// that the tables hold.
pub proof fn law_merge_exact(
    tables: Seq<SSTableMeta>,
    files: Seq<(u64, Vec<u8>)>,
    held: Map<u64, Seq<Seq<u8>>>,
)
    requires
        forall|i: int|
            0 <= i < tables.len() ==> has_id(files, (#[trigger] tables[i]).id) && table_holds(
                &tables[i],
                value_at(files, tables[i].id)@,
                held[tables[i].id],
            ),
        forall|x: Seq<u8>, y: Seq<u8>| #[trigger]
            held_by(held, ids_of(tables), x) && #[trigger] held_by(held, ids_of(tables), y)
                && rec_eq(x, y) ==> x == y,
    ensures
        strictly_sorted(merge_of(tables, files)),
        all_keyed(merge_of(tables, files)),
        forall|x: Seq<u8>| #[trigger]
            merge_of(tables, files).contains(x) <==> held_by(held, ids_of(tables), x),
{
    let ids = ids_of(tables);
    let list = scans(tables, files);
    let srcs = seq![Seq::<Seq<u8>>::empty()] + list;
    let out = merge_of(tables, files);
    lemma_scans(tables, files, held);
    assert forall|i: int| 0 <= i < srcs.len() implies sorted(#[trigger] srcs[i]) && all_keyed(
        srcs[i],
    ) by {
        if i > 0 {
            assert(srcs[i] == list[i - 1]);
            assert(list[i - 1] == held[tables[i - 1].id]);
            lemma_strict_is_sorted(srcs[i]);
        }
    }
    law_merged(srcs);
    lemma_merged_keyed(srcs, None);
    assert forall|x: Seq<u8>| #[trigger] in_some(srcs, x) <==> held_by(held, ids, x) by {
        if in_some(srcs, x) {
            let i = choose|i: int| 0 <= i < srcs.len() && (#[trigger] srcs[i]).contains(x);
            assert(i > 0);
            assert(list[i - 1] == held[tables[i - 1].id]);
            assert(held[ids[i - 1]].contains(x));
        }
        if held_by(held, ids, x) {
            let i = choose|i: int| 0 <= i < ids.len() && held[#[trigger] ids[i]].contains(x);
            assert(list[i] == held[tables[i].id]);
            assert(srcs[i + 1].contains(x));
        }
    }
    assert forall|x: Seq<u8>| #[trigger] out.contains(x) <==> held_by(held, ids, x) by {
        if out.contains(x) {
            assert(in_some(srcs, x));
        }
        if held_by(held, ids, x) {
            assert(in_some(srcs, x));
            let k = choose|k: int| 0 <= k < out.len() && rec_eq(#[trigger] out[k], x);
            assert(out.contains(out[k]));
            assert(in_some(srcs, out[k]));
            assert(held_by(held, ids, out[k]));
        }
    }
}

/// Taking up the table into which others were merged in their place changes nothing in what is
/// stored.
pub proof fn law_compaction_stored(
    m: EngineModel,
    held: Map<u64, Seq<Seq<u8>>>,
    ids: Seq<u64>,
    meta: SSTableMeta,
    s: Seq<Seq<u8>>,
)
    requires
        engine_sorted(m),
        forall|i: int| 0 <= i < ids.len() ==> has_id(m.tables, #[trigger] ids[i]),
        !has_id(m.tables, meta.id),
        forall|x: Seq<u8>| #[trigger] s.contains(x) <==> held_by(held, ids, x),
    ensures
        ({
            let after = EngineModel {
                tables: with_entry(without_entries(m.tables, ids), meta.id, meta),
                ..m
            };
            let held_after = held.insert(meta.id, s);
            &&& engine_sorted(after)
            &&& forall|x: Seq<u8>| #[trigger] stored(after, held_after, x) <==> stored(m, held, x)
        }),
{
    let rest = without_entries(m.tables, ids);
    let tables = with_entry(rest, meta.id, meta);
    let after = EngineModel { tables, ..m };
    let held_after = held.insert(meta.id, s);
    law_without_entries(m.tables, ids, meta.id);
    law_with_entry(rest, meta.id, meta, meta.id);
    assert forall|x: Seq<u8>| #[trigger] stored(after, held_after, x) <==> stored(
        m,
        held,
        x,
    ) by {
        if in_tables(tables, held_after, x) {
            let k = choose|k: u64| #[trigger] has_id(tables, k) && held_after[k].contains(x);
            law_with_entry(rest, meta.id, meta, k);
            law_without_entries(m.tables, ids, k);
            if k == meta.id {
                assert(s.contains(x));
                let i = choose|i: int| 0 <= i < ids.len() && held[#[trigger] ids[i]].contains(x);
                assert(has_id(m.tables, ids[i]) && held[ids[i]].contains(x));
            } else {
                assert(has_id(m.tables, k) && held[k].contains(x));
            }
        }
        if in_tables(m.tables, held, x) {
            let k = choose|k: u64| #[trigger] has_id(m.tables, k) && held[k].contains(x);
            law_with_entry(rest, meta.id, meta, k);
            law_without_entries(m.tables, ids, k);
            if ids.contains(k) {
                let i = choose|i: int| 0 <= i < ids.len() && ids[i] == k;
                assert(held[ids[i]].contains(x));
                assert(held_by(held, ids, x));
                assert(s.contains(x));
                assert(has_id(tables, meta.id) && held_after[meta.id].contains(x));
            } else {
                assert(has_id(tables, k) && held_after[k].contains(x));
            }
        }
    }
}

/// The table that is written from sorted records holds them.
pub proof fn law_written_table_holds(
    bloom: BloomModel,
    meta: &SSTableMeta,
    file: Seq<u8>,
    s: Seq<Seq<u8>>,
)
    requires
        s.len() > 0 ==> bloom.usable(),
        strictly_sorted(s),
        all_keyed(s),
        frameable(s),
        fills(bloom, meta.bloom@, s),
        meta.describes(s),
        file == table_bytes(s, meta.bloom@),
    ensures
        table_holds(meta, file, s),
{
    assert forall|i: int| 0 <= i < s.len() implies meta.bloom@.holds(
        source_of(#[trigger] s[i]),
        key_of(s[i]),
    ) by {
        law_table_bloom(bloom, meta.bloom@, s, i);
    }
}

proof fn lemma_strict_is_sorted(s: Seq<Seq<u8>>)
    requires
        strictly_sorted(s),
    ensures
        sorted(s),
{
    assert forall|i: int, j: int| 0 <= i < j < s.len() implies !rec_lt(
        #[trigger] s[j],
        #[trigger] s[i],
    ) by {
        assert(rec_lt(s[i], s[j]));
        law_record_order_total(s[i], s[j]);
    }
}

} // verus!
