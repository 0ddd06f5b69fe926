//! A map from ids to values, in the order of the ids.
use std::collections::BTreeMap;
use vstd::prelude::*;
use vstd::std_specs::btree::{increasing_seq, spec_btree_map_iter};

use vstd::std_specs::cmp::OrdSpec;
use vstd::std_specs::iter::IteratorSpec;

verus! {

/// Values under ids, in the order of the ids.
#[derive(Debug)]
pub struct IdMap<V> {
    entries: BTreeMap<u64, V>,
}

/// Whether the ids ascend.
pub open spec fn ascending<V>(s: Seq<(u64, V)>) -> bool {
    forall|i: int, j: int| 0 <= i < j < s.len() ==> (#[trigger] s[i]).0 < (#[trigger] s[j]).0
}

/// The first position whose id is not below `id`.
pub open spec fn id_place<V>(s: Seq<(u64, V)>, id: u64) -> int
    decreases s.len(),
{
    if s.len() == 0 || s[0].0 >= id {
        0
    } else {
        1 + id_place(s.drop_first(), id)
    }
}

/// Whether there is a value under `id`.
pub open spec fn has_id<V>(s: Seq<(u64, V)>, id: u64) -> bool {
    id_place(s, id) < s.len() && s[id_place(s, id)].0 == id
}

/// The value under `id`.
pub open spec fn value_at<V>(s: Seq<(u64, V)>, id: u64) -> V {
    s[id_place(s, id)].1
}

/// The map with `v` under `id`, in place of what was there.
pub open spec fn with_entry<V>(s: Seq<(u64, V)>, id: u64, v: V) -> Seq<(u64, V)> {
    if has_id(s, id) {
        s.update(id_place(s, id), (id, v))
    } else {
        s.insert(id_place(s, id), (id, v))
    }
}

/// The map without a value under `id`.
pub open spec fn without_entry<V>(s: Seq<(u64, V)>, id: u64) -> Seq<(u64, V)> {
    if has_id(s, id) {
        s.remove(id_place(s, id))
    } else {
        s
    }
}

pub proof fn lemma_id_place<V>(s: Seq<(u64, V)>, id: u64)
    ensures
        0 <= id_place(s, id) <= s.len(),
        forall|j: int| 0 <= j < id_place(s, id) ==> (#[trigger] s[j]).0 < id,
        id_place(s, id) < s.len() ==> s[id_place(s, id)].0 >= id,
    decreases s.len(),
{
    if s.len() != 0 && s[0].0 < id {
        let t = s.drop_first();
        lemma_id_place(t, id);
        assert forall|j: int| 0 <= j < id_place(s, id) implies (#[trigger] s[j]).0 < id by {
            if j > 0 {
                assert(s[j] == t[j - 1]);
            }
        }
    }
}

pub proof fn lemma_id_place_unique<V>(s: Seq<(u64, V)>, id: u64, i: int)
    requires
        0 <= i <= s.len(),
        forall|j: int| 0 <= j < i ==> (#[trigger] s[j]).0 < id,
        i < s.len() ==> s[i].0 >= id,
    ensures
        id_place(s, id) == i,
{
    lemma_id_place(s, id);
    let p = id_place(s, id);
    if p < i {
        assert(s[p].0 < id);
    }
    if i < p {
        assert(s[i].0 < id);
    }
}

/// An id is in the map if and only if some entry has it.
pub proof fn lemma_has_id<V>(s: Seq<(u64, V)>, id: u64)
    requires
        ascending(s),
    ensures
        has_id(s, id) <==> exists|i: int| 0 <= i < s.len() && (#[trigger] s[i]).0 == id,
        forall|i: int|
            0 <= i < s.len() && (#[trigger] s[i]).0 == id ==> has_id(s, id) && i == id_place(s, id),
{
    lemma_id_place(s, id);
    assert forall|i: int| 0 <= i < s.len() && (#[trigger] s[i]).0 == id implies has_id(s, id) && i
        == id_place(s, id) by {
        assert forall|j: int| 0 <= j < i implies (#[trigger] s[j]).0 < id by {}
        lemma_id_place_unique(s, id, i);
    }
}

/// After a value is put under an id, it is what is found there, and what is found under any
/// other id has not changed.
pub proof fn law_with_entry<V>(s: Seq<(u64, V)>, id: u64, v: V, other: u64)
    requires
        ascending(s),
    ensures
        ascending(with_entry(s, id, v)),
        has_id(with_entry(s, id, v), id),
        value_at(with_entry(s, id, v), id) == v,
        other != id ==> has_id(with_entry(s, id, v), other) == has_id(s, other),
        other != id && has_id(s, other) ==> value_at(with_entry(s, id, v), other) == value_at(
            s,
            other,
        ),
        has_id(s, id) ==> with_entry(s, id, v).len() == s.len(),
        !has_id(s, id) ==> with_entry(s, id, v).len() == s.len() + 1,
{
    lemma_id_place(s, id);
    lemma_id_place(s, other);
    let t = with_entry(s, id, v);
    let p = id_place(s, id);
    if has_id(s, id) {
        assert forall|i: int, j: int| 0 <= i < j < t.len() implies (#[trigger] t[i]).0
            < (#[trigger] t[j]).0 by {
            assert(s[i].0 < s[j].0);
            assert(t[i].0 == s[i].0 && t[j].0 == s[j].0);
        }
        assert forall|j: int| 0 <= j < p implies (#[trigger] t[j]).0 < id by {
            assert(t[j] == s[j]);
        }
        lemma_id_place_unique(t, id, p);
        let q = id_place(s, other);
        assert forall|j: int| 0 <= j < q implies (#[trigger] t[j]).0 < other by {
            assert(t[j].0 == s[j].0);
        }
        if q < s.len() {
            assert(t[q].0 == s[q].0);
        }
        lemma_id_place_unique(t, other, q);
    } else {
        assert forall|i: int, j: int| 0 <= i < j < t.len() implies (#[trigger] t[i]).0
            < (#[trigger] t[j]).0 by {
            let a = if i < p {
                i
            } else {
                i - 1
            };
            let b = if j < p {
                j
            } else {
                j - 1
            };
            if i != p && j != p {
                assert(t[i] == s[a] && t[j] == s[b]);
                assert(s[a].0 < s[b].0);
            } else if j == p {
                assert(t[i] == s[i]);
            } else {
                assert(t[j] == s[j - 1]);
                if j - 1 > p {
                    assert(s[p].0 < s[j - 1].0);
                }
            }
        }
        assert forall|j: int| 0 <= j < p implies (#[trigger] t[j]).0 < id by {
            assert(t[j] == s[j]);
        }
        lemma_id_place_unique(t, id, p);
        if other != id {
            let q = id_place(s, other);
            let u = if other < id {
                q
            } else {
                q + 1
            };
            if other < id {
                assert(q <= p) by {
                    if q > p {
                        assert(s[p].0 < other);
                    }
                }
            } else {
                assert(q >= p) by {
                    if q < p {
                        assert(s[q].0 < id);
                    }
                }
            }
            assert forall|j: int| 0 <= j < u implies (#[trigger] t[j]).0 < other by {
                if j < p {
                    assert(t[j] == s[j]);
                } else if j > p {
                    assert(t[j] == s[j - 1]);
                }
            }
            if u < t.len() {
                if u < p {
                    assert(t[u] == s[u]);
                } else if u > p {
                    assert(t[u] == s[u - 1]);
                }
            }
            lemma_id_place_unique(t, other, u);
        }
    }
}

/// After an id is taken out, nothing is found under it, and what is found under any other id
/// has not changed.
pub proof fn law_without_entry<V>(s: Seq<(u64, V)>, id: u64, other: u64)
    requires
        ascending(s),
    ensures
        ascending(without_entry(s, id)),
        !has_id(without_entry(s, id), id),
        other != id ==> has_id(without_entry(s, id), other) == has_id(s, other),
        other != id && has_id(s, other) ==> value_at(without_entry(s, id), other) == value_at(
            s,
            other,
        ),
{
    lemma_id_place(s, id);
    lemma_id_place(s, other);
    let t = without_entry(s, id);
    let p = id_place(s, id);
    if has_id(s, id) {
        assert forall|i: int, j: int| 0 <= i < j < t.len() implies (#[trigger] t[i]).0
            < (#[trigger] t[j]).0 by {
            let a = if i < p {
                i
            } else {
                i + 1
            };
            let b = if j < p {
                j
            } else {
                j + 1
            };
            assert(t[i] == s[a] && t[j] == s[b]);
            assert(s[a].0 < s[b].0);
        }
        assert forall|j: int| 0 <= j < p implies (#[trigger] t[j]).0 < id by {
            assert(t[j] == s[j]);
        }
        if p < t.len() {
            assert(t[p] == s[p + 1]);
            assert(s[p].0 < s[p + 1].0);
        }
        lemma_id_place_unique(t, id, p);
        if other != id {
            let q = id_place(s, other);
            let u = if other < id {
                q
            } else {
                q - 1
            };
            if other < id {
                assert(q <= p) by {
                    if q > p {
                        assert(s[p].0 < other);
                    }
                }
            } else {
                assert(q > p) by {
                    if q <= p {
                        if q < p {
                            assert(s[q].0 < id);
                        }
                    }
                }
            }
            assert forall|j: int| 0 <= j < u implies (#[trigger] t[j]).0 < other by {
                if j < p {
                    assert(t[j] == s[j]);
                } else {
                    assert(t[j] == s[j + 1]);
                }
            }
            if u < t.len() {
                if u < p {
                    assert(t[u] == s[u]);
                } else {
                    assert(t[u] == s[u + 1]);
                    assert(s[p].0 < s[u + 1].0);
                }
            }
            lemma_id_place_unique(t, other, u);
        }
    }
}

/// Every entry is the new one or was there before.
pub proof fn lemma_with_entry_each<V>(s: Seq<(u64, V)>, id: u64, v: V, i: int)
    requires
        0 <= i < with_entry(s, id, v).len(),
    ensures
        with_entry(s, id, v)[i] == (id, v) || exists|k: int|
            0 <= k < s.len() && #[trigger] s[k] == with_entry(s, id, v)[i],
{
    lemma_id_place(s, id);
    let t = with_entry(s, id, v);
    let p = id_place(s, id);
    if has_id(s, id) {
        if i != p {
            assert(s[i] == t[i]);
        }
    } else if i < p {
        assert(s[i] == t[i]);
    } else if i > p {
        assert(s[i - 1] == t[i]);
    }
}

/// Every entry was there before.
pub proof fn lemma_without_entry_each<V>(s: Seq<(u64, V)>, id: u64, i: int)
    requires
        0 <= i < without_entry(s, id).len(),
    ensures
        exists|k: int| 0 <= k < s.len() && #[trigger] s[k] == without_entry(s, id)[i],
{
    lemma_id_place(s, id);
    let t = without_entry(s, id);
    let p = id_place(s, id);
    if has_id(s, id) && i >= p {
        assert(s[i + 1] == t[i]);
    } else {
        assert(s[i] == t[i]);
    }
}

/// Whether `s` lists what is in the map, in the order of the ids.
pub open spec fn lists<V>(s: Seq<(u64, V)>, m: Map<u64, V>) -> bool {
    &&& ascending(s)
    &&& forall|id: u64| #[trigger] has_id(s, id) <==> m.contains_key(id)
    &&& forall|id: u64| #[trigger] has_id(s, id) ==> value_at(s, id) == m[id]
}

/// What is in the map, in the order of the ids.
pub open spec fn in_order<V>(m: Map<u64, V>) -> Seq<(u64, V)> {
    choose|s: Seq<(u64, V)>| lists(s, m)
}

proof fn lemma_rest_ids<V>(s: Seq<(u64, V)>, id: u64)
    requires
        ascending(s),
        s.len() > 0,
    ensures
        ascending(s.drop_first()),
        has_id(s.drop_first(), id) <==> has_id(s, id) && id != s[0].0,
        has_id(s.drop_first(), id) ==> value_at(s.drop_first(), id) == value_at(s, id),
{
    let t = s.drop_first();
    assert forall|i: int, j: int| 0 <= i < j < t.len() implies (#[trigger] t[i]).0 < (
    #[trigger] t[j]).0 by {
        assert(t[i] == s[i + 1] && t[j] == s[j + 1]);
    }
    lemma_has_id(s, id);
    lemma_has_id(t, id);
    if has_id(t, id) {
        let i = choose|i: int| 0 <= i < t.len() && (#[trigger] t[i]).0 == id;
        assert(s[i + 1] == t[i]);
        assert(s[0].0 < s[i + 1].0);
    }
    if has_id(s, id) && id != s[0].0 {
        let i = choose|i: int| 0 <= i < s.len() && (#[trigger] s[i]).0 == id;
        assert(t[i - 1] == s[i]);
    }
}

/// A map can be listed in one way only.
proof fn lemma_lists_unique<V>(s: Seq<(u64, V)>, t: Seq<(u64, V)>, m: Map<u64, V>)
    requires
        lists(s, m),
        lists(t, m),
    ensures
        s == t,
    decreases s.len(),
{
    if s.len() == 0 {
        if t.len() > 0 {
            lemma_has_id(t, t[0].0);
            lemma_has_id(s, t[0].0);
            assert(has_id(t, t[0].0));
        }
        assert(s =~= t);
    } else {
        let id = s[0].0;
        lemma_has_id(s, id);
        assert(has_id(s, id));
        assert(has_id(t, id));
        lemma_has_id(t, id);
        let other = t[0].0;
        lemma_has_id(t, other);
        assert(has_id(t, other));
        assert(has_id(s, other));
        lemma_has_id(s, other);
        let i = choose|i: int| 0 <= i < t.len() && (#[trigger] t[i]).0 == id;
        let j = choose|j: int| 0 <= j < s.len() && (#[trigger] s[j]).0 == other;
        if i > 0 {
            assert(t[0].0 < t[i].0);
        }
        if j > 0 {
            assert(s[0].0 < s[j].0);
        }
        assert(id == other);
        assert(s[0] == t[0]);
        let rest = m.remove(id);
        assert forall|x: u64|
            (#[trigger] has_id(s.drop_first(), x) <==> rest.contains_key(x)) && (has_id(
                s.drop_first(),
                x,
            ) ==> value_at(s.drop_first(), x) == rest[x]) by {
            lemma_rest_ids(s, x);
        }
        assert forall|x: u64|
            (#[trigger] has_id(t.drop_first(), x) <==> rest.contains_key(x)) && (has_id(
                t.drop_first(),
                x,
            ) ==> value_at(t.drop_first(), x) == rest[x]) by {
            lemma_rest_ids(t, x);
        }
        lemma_rest_ids(s, id);
        lemma_rest_ids(t, id);
        lemma_lists_unique(s.drop_first(), t.drop_first(), rest);
        assert(s =~= seq![s[0]] + s.drop_first());
        assert(t =~= seq![t[0]] + t.drop_first());
    }
}

proof fn lemma_lists_insert<V>(s: Seq<(u64, V)>, m: Map<u64, V>, id: u64, v: V)
    requires
        lists(s, m),
    ensures
        lists(with_entry(s, id, v), m.insert(id, v)),
{
    let t = with_entry(s, id, v);
    law_with_entry(s, id, v, id);
    assert forall|x: u64|
        (#[trigger] has_id(t, x) <==> m.insert(id, v).contains_key(x)) && (has_id(t, x) ==> value_at(
            t,
            x,
        ) == m.insert(id, v)[x]) by {
        law_with_entry(s, id, v, x);
        assert(has_id(s, x) <==> m.contains_key(x));
    }
}

proof fn lemma_lists_remove<V>(s: Seq<(u64, V)>, m: Map<u64, V>, id: u64)
    requires
        lists(s, m),
    ensures
        lists(without_entry(s, id), m.remove(id)),
{
    let t = without_entry(s, id);
    law_without_entry(s, id, id);
    assert forall|x: u64|
        (#[trigger] has_id(t, x) <==> m.remove(id).contains_key(x)) && (has_id(t, x) ==> value_at(
            t,
            x,
        ) == m.remove(id)[x]) by {
        law_without_entry(s, id, x);
        assert(has_id(s, x) <==> m.contains_key(x));
    }
}

/// A finite map can be listed.
proof fn lemma_in_order<V>(m: Map<u64, V>)
    requires
        m.dom().finite(),
    ensures
        lists(in_order(m), m),
        in_order(m).len() == m.dom().len(),
    decreases m.dom().len(),
{
    if m.dom().len() == 0 {
        let s = Seq::<(u64, V)>::empty();
        assert(m.dom() =~= Set::<u64>::empty());
        assert forall|id: u64| !#[trigger] has_id(s, id) by {}
        assert(lists(s, m));
        lemma_lists_unique(s, in_order(m), m);
    } else {
        let id = m.dom().choose();
        let rest = m.remove(id);
        assert(rest.dom() =~= m.dom().remove(id));
        lemma_in_order(rest);
        let s = in_order(rest);
        lemma_lists_insert(s, rest, id, m[id]);
        law_with_entry(s, id, m[id], id);
        assert(rest.insert(id, m[id]) =~= m);
        lemma_lists_unique(with_entry(s, id, m[id]), in_order(m), m);
        assert(!has_id(s, id));
    }
}

/// The ids with the values that are pointed to.
pub open spec fn pointed<V>(v: Seq<(u64, &V)>) -> Seq<(u64, V)> {
    Seq::new(v.len(), |i: int| (v[i].0, *v[i].1))
}

impl<V> View for IdMap<V> {
    type V = Seq<(u64, V)>;

    closed spec fn view(&self) -> Seq<(u64, V)> {
        in_order(self.entries@)
    }
}

impl<V> IdMap<V> {
    /// The ids ascend.
    pub open spec fn wf(&self) -> bool {
        ascending(self@)
    }

    proof fn lemma_listed(&self)
        ensures
            lists(self@, self.entries@),
            self@.len() == self.entries@.dom().len(),
    {
        broadcast use vstd::std_specs::btree::group_btree_axioms;

        assert(self.entries@.dom().finite());
        lemma_in_order(self.entries@);
    }

    /// No values.
    pub fn new() -> (r: Self)
        ensures
            r.wf(),
            r@ == Seq::<(u64, V)>::empty(),
    {
        let r = IdMap { entries: BTreeMap::new() };
        proof {
            r.lemma_listed();
            assert(r@ =~= Seq::<(u64, V)>::empty());
        }
        r
    }

    /// How many values there are.
    pub fn len(&self) -> (n: usize)
        ensures
            n == self@.len(),
    {
        broadcast use vstd::std_specs::btree::group_btree_axioms;

        proof {
            self.lemma_listed();
        }
        self.entries.len()
    }

    /// The ids and values, in the order of the ids.
    pub fn entries(&self) -> (v: Vec<(u64, &V)>)
        ensures
            pointed(v@) == self@,
    {
        broadcast use vstd::std_specs::btree::group_btree_axioms;

        proof {
            self.lemma_listed();
        }
        let mut v: Vec<(u64, &V)> = Vec::new();
        let all = self.entries.iter();
        proof {
            let keys = all.remaining().map_values(|pair: (&u64, &V)| *pair.0);
            assert(increasing_seq(keys));
            assert forall|i: int, j: int| 0 <= i < j < all.remaining().len() implies *(
            #[trigger] all.remaining()[i]).0 < *(#[trigger] all.remaining()[j]).0 by {
                assert(keys[i].cmp_spec(&keys[j]) is Less);
            }
        }
        for pair in it: all
            invariant
                it.seq() == spec_btree_map_iter(&self.entries).remaining(),
                v@.len() == it.index(),
                forall|i: int|
                    0 <= i < v@.len() ==> (#[trigger] v@[i]).0 == *it.seq()[i].0 && v@[i].1
                        == it.seq()[i].1,
        {
            v.push((*pair.0, pair.1));
        }
        proof {
            let t = pointed(v@);
            let seen = spec_btree_map_iter(&self.entries).remaining();
            assert forall|i: int, j: int| 0 <= i < j < t.len() implies (#[trigger] t[i]).0 < (
            #[trigger] t[j]).0 by {
                assert(*seen[i].0 < *seen[j].0);
            }
            assert forall|id: u64|
                (#[trigger] has_id(t, id) <==> self.entries@.contains_key(id)) && (has_id(t, id)
                    ==> value_at(t, id) == self.entries@[id]) by {
                lemma_has_id(t, id);
                if has_id(t, id) {
                    let i = choose|i: int| 0 <= i < t.len() && (#[trigger] t[i]).0 == id;
                    assert(self.entries@.contains_key(*seen[i].0));
                }
                if self.entries@.contains_key(id) {
                    assert(seen.contains((&id, &self.entries@[id])));
                    let i = choose|i: int|
                        0 <= i < seen.len() && seen[i] == (&id, &self.entries@[id]);
                    assert(t[i].0 == id);
                }
            }
            lemma_lists_unique(t, self@, self.entries@);
        }
        v
    }

    /// The value under `id`.
    pub fn get(&self, id: u64) -> (r: Option<&V>)
        requires
            self.wf(),
        ensures
            r is Some <==> has_id(self@, id),
            r matches Some(v) ==> *v == value_at(self@, id),
    {
        broadcast use vstd::std_specs::btree::group_btree_axioms;

        proof {
            self.lemma_listed();
        }
        let r = self.entries.get(&id);
        assert(has_id(self@, id) <==> self.entries@.contains_key(id));
        r
    }

    /// Puts `v` under `id`, in place of what was there.
    pub fn insert(&mut self, id: u64, v: V)
        requires
            old(self).wf(),
        ensures
            final(self).wf(),
            final(self)@ == with_entry(old(self)@, id, v),
    {
        broadcast use vstd::std_specs::btree::group_btree_axioms;

        let ghost before = self.entries@;
        let ghost s = self@;
        proof {
            self.lemma_listed();
            lemma_lists_insert(s, before, id, v);
        }
        let _ = self.entries.insert(id, v);
        proof {
            self.lemma_listed();
            lemma_lists_unique(self@, with_entry(s, id, v), self.entries@);
        }
    }

    /// Takes out what is under `id`.
    pub fn remove(&mut self, id: u64)
        requires
            old(self).wf(),
        ensures
            final(self).wf(),
            final(self)@ == without_entry(old(self)@, id),
    {
        broadcast use vstd::std_specs::btree::group_btree_axioms;

        let ghost before = self.entries@;
        let ghost s = self@;
        proof {
            self.lemma_listed();
            lemma_lists_remove(s, before, id);
        }
        let _ = self.entries.remove(&id);
        proof {
            self.lemma_listed();
            assert(self.entries@ =~= before.remove(id));
            lemma_lists_unique(self@, without_entry(s, id), self.entries@);
        }
    }
}

} // verus!
