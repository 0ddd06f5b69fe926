//! The files of a store that are tables, in the order in which they are opened.
use vstd::prelude::*;
use vstd::seq_lib::{to_multiset_build, to_multiset_insert};
use vstd::utf8::encode_utf8;

use crate::codec::{bytes_before, bytes_lt, law_bytes_lt_total, law_bytes_lt_transitive};
use crate::storage::sstable::{file_kind, is_table_name, FileKind};
use crate::text::{text, texts};

verus! {

/// Whether the name `a` does not come behind the name `b`.
pub open spec fn name_le(a: Seq<char>, b: Seq<char>) -> bool {
    !bytes_lt(encode_utf8(b), encode_utf8(a))
}

/// Whether no name comes behind one that follows it.
pub open spec fn names_sorted(s: Seq<Seq<char>>) -> bool {
    forall|i: int, j: int| 0 <= i < j < s.len() ==> name_le(#[trigger] s[i], #[trigger] s[j])
}

/// The names of tables among the names.
pub open spec fn tables_among(s: Seq<Seq<char>>) -> Seq<Seq<char>> {
    s.filter(|n: Seq<char>| is_table_name(encode_utf8(n)))
}

proof fn lemma_name_order(a: Seq<char>, b: Seq<char>, c: Seq<char>)
    ensures
        name_le(a, b) && name_le(b, c) ==> name_le(a, c),
        name_le(a, b) || name_le(b, a),
{
    let (x, y, z) = (encode_utf8(a), encode_utf8(b), encode_utf8(c));
    law_bytes_lt_total(x, y);
    law_bytes_lt_total(y, z);
    law_bytes_lt_total(x, z);
    if bytes_lt(x, y) && bytes_lt(y, z) {
        law_bytes_lt_transitive(x, y, z);
    }
}

fn insert_name(v: &mut Vec<String>, name: String)
    requires
        names_sorted(texts(old(v)@)),
    ensures
        names_sorted(texts(final(v)@)),
        texts(final(v)@).to_multiset() == texts(old(v)@).to_multiset().insert(name@),
{
    let ghost s = texts(v@);
    let ghost n = name@;
    let mut i: usize = 0;
    while i < v.len() && !bytes_before(name.as_str().as_bytes(), v[i].as_str().as_bytes())
        invariant
            i <= v@.len(),
            s == texts(v@),
            n == name@,
            forall|k: int| 0 <= k < i ==> name_le(#[trigger] s[k], n),
        decreases v@.len() - i,
    {
        i += 1;
    }
    v.insert(i, name);
    proof {
        let t = texts(v@);
        assert(t =~= s.insert(i as int, n));
        to_multiset_insert(s, i as int, n);
        assert forall|a: int, b: int| 0 <= a < b < t.len() implies name_le(
            #[trigger] t[a],
            #[trigger] t[b],
        ) by {
            let x = if a < i {
                a
            } else {
                a - 1
            };
            let y = if b < i {
                b
            } else {
                b - 1
            };
            if a != i && b != i {
                assert(t[a] == s[x] && t[b] == s[y]);
                assert(name_le(s[x], s[y]));
            } else if b == i {
                assert(t[a] == s[a]);
            } else {
                assert(t[b] == s[b - 1]);
                lemma_name_order(n, s[i as int], s[b - 1]);
                law_bytes_lt_total(encode_utf8(n), encode_utf8(s[i as int]));
                if b - 1 > i {
                    assert(name_le(s[i as int], s[b - 1]));
                }
            }
        }
    }
}

/// The names of tables among the names of the files of a store, sorted.
pub fn table_names(listing: &Vec<String>) -> (v: Vec<String>)
    ensures
        names_sorted(texts(v@)),
        texts(v@).to_multiset() == tables_among(texts(listing@)).to_multiset(),
{
    let ghost all = texts(listing@);
    let ghost p = |n: Seq<char>| is_table_name(encode_utf8(n));
    let mut v: Vec<String> = Vec::new();
    let mut i: usize = 0;
    proof {
        reveal(Seq::filter);
        assert(all.take(0).filter(p) =~= Seq::<Seq<char>>::empty());
        assert(texts(v@) =~= Seq::<Seq<char>>::empty());
    }
    while i < listing.len()
        invariant
            i <= listing@.len(),
            all == texts(listing@),
            p == (|n: Seq<char>| is_table_name(encode_utf8(n))),
            names_sorted(texts(v@)),
            texts(v@).to_multiset() == all.take(i as int).filter(p).to_multiset(),
        decreases listing@.len() - i,
    {
        let ghost front = all.take(i as int).filter(p);
        proof {
            reveal(Seq::filter);
            assert(all.take(i + 1).drop_last() =~= all.take(i as int));
            assert(all.take(i + 1).last() == listing@[i as int]@);
            to_multiset_build(front, listing@[i as int]@);
        }
        let is_table = match file_kind(listing[i].as_str()) {
            FileKind::Other => false,
            _ => true,
        };
        if is_table {
            insert_name(&mut v, text(listing[i].as_str()));
        }
        i += 1;
    }
    assert(all.take(all.len() as int) =~= all);
    v
}

} // verus!
