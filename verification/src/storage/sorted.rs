//! Sorted sequences of records without duplicates.
use vstd::prelude::*;

use crate::storage::record::{
    has_key, law_record_order_total, law_record_order_transitive, rec_eq, rec_lt, Record,
};

verus! {

/// The bytes of each record.
pub open spec fn rec_views(v: Seq<Record>) -> Seq<Seq<u8>> {
    Seq::new(v.len(), |i: int| v[i]@)
}

/// Whether every record can be ordered.
pub open spec fn all_keyed(s: Seq<Seq<u8>>) -> bool {
    forall|i: int| 0 <= i < s.len() ==> has_key(#[trigger] s[i])
}

/// Whether each record comes before all that follow it.
pub open spec fn strictly_sorted(s: Seq<Seq<u8>>) -> bool {
    forall|i: int, j: int| 0 <= i < j < s.len() ==> rec_lt(#[trigger] s[i], #[trigger] s[j])
}

/// Whether `s` holds a record with the place of `r`.
pub open spec fn has_place(s: Seq<Seq<u8>>, r: Seq<u8>) -> bool {
    exists|i: int| 0 <= i < s.len() && rec_eq(#[trigger] s[i], r)
}

/// The first position in `s` whose record does not come before `r`.
pub open spec fn place(s: Seq<Seq<u8>>, r: Seq<u8>) -> int
    decreases s.len(),
{
    if s.len() == 0 || !rec_lt(s[0], r) {
        0
    } else {
        1 + place(s.drop_first(), r)
    }
}

/// `s` with `r` put in at its place, unless a record with that place is there already.
pub open spec fn with_record(s: Seq<Seq<u8>>, r: Seq<u8>) -> Seq<Seq<u8>> {
    let i = place(s, r);
    if i < s.len() && rec_eq(s[i], r) {
        s
    } else {
        s.insert(i, r)
    }
}

/// `s` with the records of `rs` put in one after the other.
pub open spec fn with_records(s: Seq<Seq<u8>>, rs: Seq<Seq<u8>>) -> Seq<Seq<u8>>
    decreases rs.len(),
{
    if rs.len() == 0 {
        s
    } else {
        with_record(with_records(s, rs.drop_last()), rs.last())
    }
}

pub proof fn lemma_place_bounds(s: Seq<Seq<u8>>, r: Seq<u8>)
    ensures
        0 <= place(s, r) <= s.len(),
        forall|j: int| 0 <= j < place(s, r) ==> rec_lt(#[trigger] s[j], r),
        place(s, r) < s.len() ==> !rec_lt(s[place(s, r)], r),
    decreases s.len(),
{
    if s.len() != 0 && rec_lt(s[0], r) {
        let t = s.drop_first();
        lemma_place_bounds(t, r);
        assert forall|j: int| 0 <= j < place(s, r) implies rec_lt(#[trigger] s[j], r) by {
            if j > 0 {
                assert(s[j] == t[j - 1]);
            }
        }
    }
}

pub proof fn lemma_place_unique(s: Seq<Seq<u8>>, r: Seq<u8>, i: int)
    requires
        0 <= i <= s.len(),
        forall|j: int| 0 <= j < i ==> rec_lt(#[trigger] s[j], r),
        i < s.len() ==> !rec_lt(s[i], r),
    ensures
        place(s, r) == i,
{
    lemma_place_bounds(s, r);
    let p = place(s, r);
    if p < i {
        assert(rec_lt(s[p], r));
    }
    if i < p {
        assert(rec_lt(s[i], r));
    }
}

/// Putting a record in keeps the sequence sorted and without duplicates. Afterwards the place
/// of the record is taken, and nothing else has come or gone.
pub proof fn law_with_record(s: Seq<Seq<u8>>, r: Seq<u8>)
    requires
        strictly_sorted(s),
        all_keyed(s),
        has_key(r),
    ensures
        strictly_sorted(with_record(s, r)),
        all_keyed(with_record(s, r)),
        has_place(with_record(s, r), r),
        has_place(s, r) ==> with_record(s, r) == s,
        !has_place(s, r) ==> with_record(s, r).len() == s.len() + 1 && with_record(s, r).contains(r),
        forall|x: Seq<u8>| #[trigger]
            with_record(s, r).contains(x) <==> (s.contains(x) || (x == r && !has_place(s, r))),
{
    let i = place(s, r);
    lemma_place_bounds(s, r);
    let t = with_record(s, r);
    if i < s.len() && rec_eq(s[i], r) {
        assert(has_place(s, r));
    } else {
        assert(t == s.insert(i, r));
        assert forall|j: int| 0 <= j < s.len() implies !rec_eq(#[trigger] s[j], r) by {
            law_record_order_total(s[j], r);
            if j > i {
                assert(rec_lt(s[i], s[j]));
                law_record_order_total(s[i], r);
                law_record_order_transitive(r, s[i], s[j]);
                law_record_order_total(r, s[j]);
            }
        }
        assert(!has_place(s, r));
        assert forall|a: int, b: int| 0 <= a < b < t.len() implies rec_lt(
            #[trigger] t[a],
            #[trigger] t[b],
        ) by {
            if b < i {
                assert(t[a] == s[a] && t[b] == s[b]);
            } else if b == i {
                assert(t[a] == s[a]);
            } else if a < i {
                assert(t[a] == s[a] && t[b] == s[b - 1]);
            } else if a == i {
                assert(t[b] == s[b - 1]);
                law_record_order_total(s[i], r);
                if b - 1 > i {
                    assert(rec_lt(s[i], s[b - 1]));
                    law_record_order_transitive(r, s[i], s[b - 1]);
                }
            } else {
                assert(t[a] == s[a - 1] && t[b] == s[b - 1]);
            }
        }
        assert forall|a: int| 0 <= a < t.len() implies has_key(#[trigger] t[a]) by {
            if a < i {
                assert(t[a] == s[a]);
            } else if a > i {
                assert(t[a] == s[a - 1]);
            }
        }
        law_record_order_total(r, r);
        assert(t[i] == r && rec_eq(t[i], r));
        assert forall|x: Seq<u8>| #[trigger] t.contains(x) <==> (s.contains(x) || x == r) by {
            if t.contains(x) {
                let k = choose|k: int| 0 <= k < t.len() && t[k] == x;
                if k < i {
                    assert(s[k] == x);
                } else if k > i {
                    assert(s[k - 1] == x);
                }
            }
            if s.contains(x) {
                let k = choose|k: int| 0 <= k < s.len() && s[k] == x;
                if k < i {
                    assert(t[k] == x);
                } else {
                    assert(t[k + 1] == x);
                }
            }
        }
    }
}

/// Putting records in one after the other keeps the sequence sorted and without duplicates,
/// gives each a place, and brings in nothing else.
pub proof fn law_with_records(s: Seq<Seq<u8>>, rs: Seq<Seq<u8>>)
    requires
        strictly_sorted(s),
        all_keyed(s),
        all_keyed(rs),
    ensures
        strictly_sorted(with_records(s, rs)),
        all_keyed(with_records(s, rs)),
        forall|i: int| 0 <= i < s.len() ==> has_place(with_records(s, rs), #[trigger] s[i]),
        forall|i: int| 0 <= i < rs.len() ==> has_place(with_records(s, rs), #[trigger] rs[i]),
        forall|x: Seq<u8>| #[trigger]
            with_records(s, rs).contains(x) ==> s.contains(x) || rs.contains(x),
        forall|x: Seq<u8>| s.contains(x) ==> #[trigger] with_records(s, rs).contains(x),
    decreases rs.len(),
{
    if rs.len() == 0 {
        assert forall|i: int| 0 <= i < s.len() implies has_place(
            with_records(s, rs),
            #[trigger] s[i],
        ) by {
            law_record_order_total(s[i], s[i]);
        }
    } else {
        let front = rs.drop_last();
        assert forall|i: int| 0 <= i < front.len() implies has_key(#[trigger] front[i]) by {
            assert(front[i] == rs[i]);
        }
        law_with_records(s, front);
        let mid = with_records(s, front);
        assert(has_key(rs[rs.len() - 1]));
        law_with_record(mid, rs.last());
        let end = with_record(mid, rs.last());
        assert forall|i: int| 0 <= i < s.len() implies has_place(end, #[trigger] s[i]) by {
            lemma_has_place_kept(mid, end, s[i]);
        }
        assert forall|i: int| 0 <= i < rs.len() implies has_place(end, #[trigger] rs[i]) by {
            if i < rs.len() - 1 {
                assert(front[i] == rs[i]);
                lemma_has_place_kept(mid, end, rs[i]);
            }
        }
        assert forall|x: Seq<u8>| #[trigger] end.contains(x) implies s.contains(x) || rs.contains(
            x,
        ) by {
            if front.contains(x) {
                let k = choose|k: int| 0 <= k < front.len() && front[k] == x;
                assert(rs[k] == x);
            } else if x == rs.last() {
                assert(rs[rs.len() - 1] == x);
            }
        }
    }
}

proof fn lemma_has_place_kept(s: Seq<Seq<u8>>, t: Seq<Seq<u8>>, r: Seq<u8>)
    requires
        has_place(s, r),
        forall|x: Seq<u8>| s.contains(x) ==> #[trigger] t.contains(x),
    ensures
        has_place(t, r),
{
    let i = choose|i: int| 0 <= i < s.len() && rec_eq(#[trigger] s[i], r);
    assert(s.contains(s[i]));
    assert(t.contains(s[i]));
    let k = choose|k: int| 0 <= k < t.len() && t[k] == s[i];
    assert(rec_eq(t[k], r));
}

pub proof fn lemma_with_records_step(s: Seq<Seq<u8>>, rs: Seq<Seq<u8>>, i: int)
    requires
        0 <= i < rs.len(),
    ensures
        with_records(s, rs.take(i + 1)) == with_record(with_records(s, rs.take(i)), rs[i]),
{
    assert(rs.take(i + 1).drop_last() =~= rs.take(i));
}

/// Putting the records of a sorted sequence in one after the other gives that sequence.
pub proof fn lemma_with_records_sorted(rs: Seq<Seq<u8>>)
    requires
        strictly_sorted(rs),
    ensures
        with_records(Seq::empty(), rs) == rs,
    decreases rs.len(),
{
    if rs.len() == 0 {
        assert(rs =~= Seq::<Seq<u8>>::empty());
    } else {
        let front = rs.drop_last();
        assert forall|i: int, j: int| 0 <= i < j < front.len() implies rec_lt(
            #[trigger] front[i],
            #[trigger] front[j],
        ) by {
            assert(front[i] == rs[i] && front[j] == rs[j]);
        }
        lemma_with_records_sorted(front);
        assert forall|j: int| 0 <= j < front.len() implies rec_lt(#[trigger] front[j], rs.last()) by {
            assert(front[j] == rs[j]);
            assert(rec_lt(rs[j], rs[rs.len() - 1]));
        }
        lemma_place_unique(front, rs.last(), front.len() as int);
        assert(with_record(front, rs.last()) =~= rs);
    }
}

/// What is filtered out of a sorted sequence is sorted, and it is just what meets the
/// condition.
pub proof fn lemma_filter_sorted(s: Seq<Seq<u8>>, p: spec_fn(Seq<u8>) -> bool)
    requires
        strictly_sorted(s),
        all_keyed(s),
    ensures
        strictly_sorted(s.filter(p)),
        all_keyed(s.filter(p)),
        forall|x: Seq<u8>| #[trigger] s.filter(p).contains(x) <==> s.contains(x) && p(x),
    decreases s.len(),
{
    reveal(Seq::filter);
    let out = s.filter(p);
    if s.len() == 0 {
        assert(out =~= Seq::<Seq<u8>>::empty());
    } else {
        let front = s.drop_last();
        let last = s.last();
        assert forall|i: int, j: int| 0 <= i < j < front.len() implies rec_lt(
            #[trigger] front[i],
            #[trigger] front[j],
        ) by {
            assert(front[i] == s[i] && front[j] == s[j]);
        }
        assert forall|i: int| 0 <= i < front.len() implies has_key(#[trigger] front[i]) by {
            assert(front[i] == s[i]);
        }
        lemma_filter_sorted(front, p);
        let sub = front.filter(p);
        assert(has_key(s[s.len() - 1]));
        if p(last) {
            assert(out =~= sub.push(last));
            assert forall|i: int, j: int| 0 <= i < j < out.len() implies rec_lt(
                #[trigger] out[i],
                #[trigger] out[j],
            ) by {
                assert(out[i] == sub[i]);
                if j < sub.len() {
                    assert(out[j] == sub[j]);
                } else {
                    assert(sub.contains(sub[i]));
                    let k = choose|k: int| 0 <= k < front.len() && front[k] == sub[i];
                    assert(s[k] == sub[i]);
                    assert(rec_lt(s[k], s[s.len() - 1]));
                }
            }
            assert forall|i: int| 0 <= i < out.len() implies has_key(#[trigger] out[i]) by {
                if i < sub.len() {
                    assert(out[i] == sub[i]);
                }
            }
        } else {
            assert(out =~= sub);
        }
        assert forall|x: Seq<u8>| #[trigger] out.contains(x) <==> s.contains(x) && p(x) by {
            if out.contains(x) {
                let k = choose|k: int| 0 <= k < out.len() && out[k] == x;
                if k < sub.len() {
                    assert(sub[k] == x);
                    assert(sub.contains(x));
                    let m = choose|m: int| 0 <= m < front.len() && front[m] == x;
                    assert(s[m] == x);
                } else {
                    assert(s[s.len() - 1] == x);
                }
            }
            if s.contains(x) && p(x) {
                let k = choose|k: int| 0 <= k < s.len() && s[k] == x;
                if k < front.len() {
                    assert(front[k] == x);
                    assert(front.contains(x));
                    assert(sub.contains(x));
                    let m = choose|m: int| 0 <= m < sub.len() && sub[m] == x;
                    assert(out[m] == x);
                } else {
                    assert(out[out.len() - 1] == x);
                }
            }
        }
    }
}

/// The first position in `v` whose record does not come before `r`.
pub fn lower_bound(v: &Vec<Record>, r: &Record) -> (i: usize)
    requires
        strictly_sorted(rec_views(v@)),
        all_keyed(rec_views(v@)),
        has_key(r@),
    ensures
        i == place(rec_views(v@), r@),
        i <= v@.len(),
{
    let ghost s = rec_views(v@);
    let mut lo: usize = 0;
    let mut hi: usize = v.len();
    while lo < hi
        invariant
            s == rec_views(v@),
            strictly_sorted(s),
            all_keyed(s),
            has_key(r@),
            lo <= hi <= v@.len(),
            forall|j: int| 0 <= j < lo ==> rec_lt(#[trigger] s[j], r@),
            forall|j: int| hi <= j < s.len() ==> !rec_lt(#[trigger] s[j], r@),
        decreases hi - lo,
    {
        let mid: usize = lo + (hi - lo) / 2;
        assert(has_key(s[mid as int]));
        if v[mid].before(r) {
            proof {
                assert forall|j: int| 0 <= j < mid + 1 implies rec_lt(#[trigger] s[j], r@) by {
                    if j < mid {
                        law_record_order_transitive(s[j], s[mid as int], r@);
                    }
                }
            }
            lo = mid + 1;
        } else {
            proof {
                assert forall|j: int| mid <= j < s.len() implies !rec_lt(#[trigger] s[j], r@) by {
                    if j > mid {
                        law_record_order_transitive(s[mid as int], s[j], r@);
                    }
                }
            }
            hi = mid;
        }
    }
    proof {
        lemma_place_unique(s, r@, lo as int);
    }
    lo
}

/// Puts `r` into `v` at its place, unless a record with that place is there already.
pub fn insert_sorted(v: &mut Vec<Record>, r: Record)
    requires
        strictly_sorted(rec_views(old(v)@)),
        all_keyed(rec_views(old(v)@)),
        has_key(r@),
    ensures
        rec_views(final(v)@) == with_record(rec_views(old(v)@), r@),
        strictly_sorted(rec_views(final(v)@)),
        all_keyed(rec_views(final(v)@)),
{
    let ghost s = rec_views(v@);
    proof {
        law_with_record(s, r@);
    }
    let i: usize = lower_bound(v, &r);
    if i < v.len() {
        assert(has_key(s[i as int]));
        if v[i].same_place(&r) {
            return ;
        }
    }
    let ghost rv = r@;
    v.insert(i, r);
    assert(rec_views(v@) =~= s.insert(i as int, rv));
}

} // verus!
