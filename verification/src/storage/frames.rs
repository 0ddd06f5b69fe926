//! Records one after the other in a file, each behind its length.
use vstd::prelude::*;

use crate::codec::{
    get_le, law_le_round_trip, le_bytes, le_nat, lemma_byte_caps, lemma_le_bytes_len, put_le,
};
use crate::storage::record::Record;
use crate::storage::sorted::rec_views;
use crate::text::copy_range;

verus! {

/// The bytes `b` behind their length, a little-endian 64-bit number.
pub open spec fn frame(b: Seq<u8>) -> Seq<u8> {
    le_bytes(b.len(), 8) + b
}

/// The records of `s` one after the other, each behind its length.
pub open spec fn framed(s: Seq<Seq<u8>>) -> Seq<u8>
    decreases s.len(),
{
    if s.len() == 0 {
        Seq::empty()
    } else {
        framed(s.drop_last()) + frame(s.last())
    }
}

/// The length that stands in `file` at `pos`.
pub open spec fn frame_len(file: Seq<u8>, pos: nat) -> nat {
    le_nat(file.subrange(pos as int, (pos + 8) as int))
}

/// Whether `file` holds at `pos` a length and all the bytes that it counts.
pub open spec fn has_frame(file: Seq<u8>, pos: nat) -> bool {
    pos + 8 <= file.len() && pos + 8 + frame_len(file, pos) <= file.len()
}

/// The bytes behind the length that stands in `file` at `pos`.
pub open spec fn frame_body(file: Seq<u8>, pos: nat) -> Seq<u8> {
    file.subrange((pos + 8) as int, (pos + 8 + frame_len(file, pos)) as int)
}

/// The records of `file` from `pos` on to the first that begins at or behind `end` or is cut
/// short by the end of the file.
pub open spec fn frames_in(file: Seq<u8>, pos: nat, end: nat) -> Seq<Seq<u8>>
    decreases file.len() - pos,
{
    if pos >= end || !has_frame(file, pos) {
        Seq::empty()
    } else {
        seq![frame_body(file, pos)] + frames_in(file, pos + 8 + frame_len(file, pos), end)
    }
}

/// The records of `file` from `pos` to its end. There are none where the last record is cut
/// short; fewer than the eight bytes of a length are passed over.
pub open spec fn frames_to_end(file: Seq<u8>, pos: nat) -> Option<Seq<Seq<u8>>>
    decreases file.len() - pos,
{
    if pos + 8 > file.len() {
        Some(Seq::empty())
    } else if !has_frame(file, pos) {
        None
    } else {
        match frames_to_end(file, pos + 8 + frame_len(file, pos)) {
            Some(rest) => Some(seq![frame_body(file, pos)] + rest),
            None => None,
        }
    }
}

/// The records of `file` that begin from `pos` on and before `end`. There are none where one of
/// them is cut short by the end of the file; fewer than the eight bytes of a length are passed
/// over.
pub open spec fn frames_before(file: Seq<u8>, pos: nat, end: nat) -> Option<Seq<Seq<u8>>>
    decreases file.len() - pos,
{
    if pos >= end || pos + 8 > file.len() {
        Some(Seq::empty())
    } else if !has_frame(file, pos) {
        None
    } else {
        match frames_before(file, pos + 8 + frame_len(file, pos), end) {
            Some(rest) => Some(seq![frame_body(file, pos)] + rest),
            None => None,
        }
    }
}

/// Where no record is cut short, the records before `end` are those that are read up to there.
pub proof fn lemma_frames_before(file: Seq<u8>, pos: nat, end: nat)
    ensures
        frames_before(file, pos, end) matches Some(rs) ==> rs == frames_in(file, pos, end),
    decreases file.len() - pos,
{
    if pos < end && has_frame(file, pos) {
        lemma_frames_before(file, pos + 8 + frame_len(file, pos), end);
    }
}

/// Whether each record is short enough for its length to be written down.
pub open spec fn frameable(s: Seq<Seq<u8>>) -> bool {
    forall|i: int| 0 <= i < s.len() ==> (#[trigger] s[i]).len() <= u64::MAX
}

pub proof fn lemma_framed_step(s: Seq<Seq<u8>>, i: int)
    requires
        0 <= i < s.len(),
    ensures
        framed(s.take(i + 1)) == framed(s.take(i)) + frame(s[i]),
        framed(s.take(i + 1)).len() == framed(s.take(i)).len() + 8 + s[i].len(),
{
    assert(s.take(i + 1).drop_last() =~= s.take(i));
    lemma_le_bytes_len(s[i].len(), 8);
}

pub proof fn lemma_framed_concat(s: Seq<Seq<u8>>, t: Seq<Seq<u8>>)
    ensures
        framed(s + t) == framed(s) + framed(t),
    decreases t.len(),
{
    if t.len() == 0 {
        assert(s + t =~= s);
        assert(framed(s) + framed(t) =~= framed(s));
    } else {
        assert((s + t).drop_last() =~= s + t.drop_last());
        lemma_framed_concat(s, t.drop_last());
        assert(framed(s) + framed(t) =~= framed(s) + framed(t.drop_last()) + frame(t.last()));
    }
}

/// What stands in a file that begins with the framed records of `s`, at the end of the first
/// `i` of them.
pub proof fn lemma_frame_at(file: Seq<u8>, s: Seq<Seq<u8>>, i: int)
    requires
        0 <= i < s.len(),
        frameable(s),
        framed(s).is_prefix_of(file),
    ensures
        ({
            let pos = framed(s.take(i)).len();
            &&& has_frame(file, pos)
            &&& frame_len(file, pos) == s[i].len()
            &&& frame_body(file, pos) == s[i]
            &&& pos + 8 + s[i].len() == framed(s.take(i + 1)).len() <= framed(s).len()
        }),
{
    let pos = framed(s.take(i)).len();
    lemma_framed_step(s, i);
    assert(s =~= s.take(i + 1) + s.skip(i + 1));
    lemma_framed_concat(s.take(i + 1), s.skip(i + 1));
    lemma_byte_caps();
    law_le_round_trip(s[i].len(), 8);
    let whole = framed(s.take(i)) + frame(s[i]) + framed(s.skip(i + 1));
    assert(framed(s) =~= whole);
    assert(forall|k: int| 0 <= k < whole.len() ==> file[k] == whole[k]);
    assert(file.subrange(pos as int, (pos + 8) as int) =~= le_bytes(s[i].len(), 8)) by {
        assert forall|k: int| 0 <= k < 8 implies file.subrange(pos as int, (pos + 8) as int)[k] == le_bytes(
            s[i].len(),
            8,
        )[k] by {
            assert(file[pos + k] == whole[pos + k]);
        }
    }
    assert(frame_body(file, pos) =~= s[i]) by {
        assert forall|k: int| 0 <= k < s[i].len() implies frame_body(file, pos)[k] == s[i][k] by {
            assert(file[pos + 8 + k] == whole[pos + 8 + k]);
        }
    }
}

/// Reading a file that begins with framed records, from the end of any number of them to where
/// they all end, gives the records behind that number.
pub proof fn law_frames_in_framed(file: Seq<u8>, s: Seq<Seq<u8>>, i: int)
    requires
        0 <= i <= s.len(),
        frameable(s),
        framed(s).is_prefix_of(file),
    ensures
        frames_in(file, framed(s.take(i)).len(), framed(s).len()) == s.skip(i),
    decreases s.len() - i,
{
    if i == s.len() {
        assert(s.take(i) =~= s);
        assert(s.skip(i) =~= Seq::<Seq<u8>>::empty());
    } else {
        lemma_frame_at(file, s, i);
        law_frames_in_framed(file, s, i + 1);
        assert(s.skip(i) =~= seq![s[i]] + s.skip(i + 1));
    }
}

/// In a file that begins with framed records none of them is cut short.
pub proof fn law_frames_before_framed(file: Seq<u8>, s: Seq<Seq<u8>>, i: int)
    requires
        0 <= i <= s.len(),
        frameable(s),
        framed(s).is_prefix_of(file),
    ensures
        frames_before(file, framed(s.take(i)).len(), framed(s).len()) == Some(s.skip(i)),
    decreases s.len() - i,
{
    if i == s.len() {
        assert(s.take(i) =~= s);
        assert(s.skip(i) =~= Seq::<Seq<u8>>::empty());
    } else {
        lemma_frame_at(file, s, i);
        law_frames_before_framed(file, s, i + 1);
        assert(s.skip(i) =~= seq![s[i]] + s.skip(i + 1));
    }
}

/// Reading back what was framed gives the records, also where fewer than eight further bytes
/// were written behind them.
pub proof fn law_frames_to_end_framed(s: Seq<Seq<u8>>, tail: Seq<u8>)
    requires
        frameable(s),
        tail.len() < 8,
    ensures
        frames_to_end(framed(s) + tail, 0) == Some(s),
{
    lemma_frames_to_end_from(s, tail, 0);
    assert(s.take(0) =~= Seq::<Seq<u8>>::empty());
    assert(s.skip(0) =~= s);
}

proof fn lemma_frames_to_end_from(s: Seq<Seq<u8>>, tail: Seq<u8>, i: int)
    requires
        0 <= i <= s.len(),
        frameable(s),
        tail.len() < 8,
    ensures
        frames_to_end(framed(s) + tail, framed(s.take(i)).len()) == Some(s.skip(i)),
    decreases s.len() - i,
{
    let file = framed(s) + tail;
    if i == s.len() {
        assert(s.take(i) =~= s);
        assert(s.skip(i) =~= Seq::<Seq<u8>>::empty());
    } else {
        lemma_frame_at(file, s, i);
        lemma_frames_to_end_from(s, tail, i + 1);
        assert(s.skip(i) =~= seq![s[i]] + s.skip(i + 1));
    }
}

/// A file whose last record is cut short gives nothing.
pub proof fn law_frames_to_end_cut(s: Seq<Seq<u8>>, last: Seq<u8>, kept: nat)
    requires
        frameable(s),
        last.len() <= u64::MAX,
        8 <= kept < frame(last).len(),
    ensures
        frames_to_end(framed(s) + frame(last).take(kept as int), 0) is None,
{
    lemma_frames_cut_from(s, last, kept, 0);
    assert(s.take(0) =~= Seq::<Seq<u8>>::empty());
}

proof fn lemma_frames_cut_from(s: Seq<Seq<u8>>, last: Seq<u8>, kept: nat, i: int)
    requires
        0 <= i <= s.len(),
        frameable(s),
        last.len() <= u64::MAX,
        8 <= kept < frame(last).len(),
    ensures
        frames_to_end(framed(s) + frame(last).take(kept as int), framed(s.take(i)).len()) is None,
    decreases s.len() - i,
{
    let file = framed(s) + frame(last).take(kept as int);
    if i == s.len() {
        assert(s.take(i) =~= s);
        let pos = framed(s).len();
        lemma_byte_caps();
        law_le_round_trip(last.len(), 8);
        assert(file.subrange(pos as int, (pos + 8) as int) =~= le_bytes(last.len(), 8));
    } else {
        lemma_frame_at(file, s, i);
        lemma_frames_cut_from(s, last, kept, i + 1);
    }
}

/// What stands in a file at some position.
pub enum FrameAt {
    /// Fewer than the eight bytes of a length.
    End,
    /// A length, and fewer bytes than it counts.
    Cut,
    /// A record, and the position behind it.
    Whole(Record, usize),
}

/// Reads what stands in `file` at `pos`.
pub fn frame_at(file: &[u8], pos: usize) -> (r: FrameAt)
    ensures
        r is End <==> pos + 8 > file@.len(),
        r is Cut <==> pos + 8 <= file@.len() && !has_frame(file@, pos as nat),
        r matches FrameAt::Whole(rec, next) ==> has_frame(file@, pos as nat) && rec@ == frame_body(
            file@,
            pos as nat,
        ) && next == pos + 8 + frame_len(file@, pos as nat) && next <= file@.len(),
{
    let total: usize = file.len();
    if total < 8 || pos > total - 8 {
        return FrameAt::End;
    }
    let len: u64 = get_le(file, pos, 8);
    let room: usize = total - pos - 8;
    if len > room as u64 {
        return FrameAt::Cut;
    }
    let next: usize = pos + 8 + len as usize;
    let rec = Record::from_vec(copy_range(file, pos + 8, next));
    FrameAt::Whole(rec, next)
}

/// The records of `file` to its end, unless the last is cut short.
pub fn read_frames(file: &[u8]) -> (r: Option<Vec<Record>>)
    ensures
        r matches Some(v) ==> frames_to_end(file@, 0) == Some(rec_views(v@)),
        r is None ==> frames_to_end(file@, 0) is None,
{
    let mut v: Vec<Record> = Vec::new();
    let mut pos: usize = 0;
    proof {
        assert(rec_views(v@) =~= Seq::<Seq<u8>>::empty());
        assert(prepend(Seq::empty(), frames_to_end(file@, 0)) == frames_to_end(file@, 0)) by {
            if let Some(rest) = frames_to_end(file@, 0) {
                assert(Seq::<Seq<u8>>::empty() + rest =~= rest);
            }
        }
    }
    loop
        invariant
            pos <= file@.len(),
            frames_to_end(file@, 0) == prepend(
                rec_views(v@),
                frames_to_end(file@, pos as nat),
            ),
        decreases file@.len() - pos,
    {
        match frame_at(file, pos) {
            FrameAt::End => {
                assert(rec_views(v@) + Seq::<Seq<u8>>::empty() =~= rec_views(v@));
                return Some(v);
            },
            FrameAt::Cut => {
                return None;
            },
            FrameAt::Whole(rec, next) => {
                let ghost before = rec_views(v@);
                let ghost body = rec@;
                v.push(rec);
                proof {
                    assert(rec_views(v@) =~= before.push(body));
                    if let Some(rest) = frames_to_end(file@, next as nat) {
                        assert(before + (seq![body] + rest) =~= before.push(body) + rest);
                    }
                }
                pos = next;
            },
        }
    }
}

/// The records of `file` that begin before `end`, unless one of them is cut short.
pub fn read_frames_before(file: &[u8], end: u64) -> (r: Option<Vec<Record>>)
    ensures
        r matches Some(v) ==> frames_before(file@, 0, end as nat) == Some(rec_views(v@)),
        r is None ==> frames_before(file@, 0, end as nat) is None,
{
    let mut v: Vec<Record> = Vec::new();
    let mut pos: usize = 0;
    let ghost all = frames_before(file@, 0, end as nat);
    proof {
        assert(rec_views(v@) =~= Seq::<Seq<u8>>::empty());
        assert(prepend(Seq::empty(), all) == all) by {
            if let Some(rest) = all {
                assert(Seq::<Seq<u8>>::empty() + rest =~= rest);
            }
        }
    }
    while (pos as u64) < end
        invariant
            pos <= file@.len(),
            all == frames_before(file@, 0, end as nat),
            all == prepend(rec_views(v@), frames_before(file@, pos as nat, end as nat)),
        decreases file@.len() - pos,
    {
        match frame_at(file, pos) {
            FrameAt::End => {
                assert(rec_views(v@) + Seq::<Seq<u8>>::empty() =~= rec_views(v@));
                return Some(v);
            },
            FrameAt::Cut => {
                return None;
            },
            FrameAt::Whole(rec, next) => {
                let ghost before = rec_views(v@);
                let ghost body = rec@;
                v.push(rec);
                proof {
                    assert(rec_views(v@) =~= before.push(body));
                    if let Some(rest) = frames_before(file@, next as nat, end as nat) {
                        assert(before + (seq![body] + rest) =~= before.push(body) + rest);
                    }
                }
                pos = next;
            },
        }
    }
    assert(rec_views(v@) + Seq::<Seq<u8>>::empty() =~= rec_views(v@));
    Some(v)
}

spec fn prepend(front: Seq<Seq<u8>>, rest: Option<Seq<Seq<u8>>>) -> Option<Seq<Seq<u8>>> {
    match rest {
        Some(rest) => Some(front + rest),
        None => None,
    }
}

/// Appends `rec` behind its length.
pub fn put_frame(out: &mut Vec<u8>, rec: &Record)
    ensures
        final(out)@ == old(out)@ + frame(rec@),
{
    put_le(out, rec.len() as u64, 8);
    out.extend_from_slice(rec.as_bytes());
    assert(out@ =~= old(out)@ + frame(rec@));
}

/// Bytes that stand in a file behind their length are found there, and where they end; of fewer
/// bytes than the length counts it is said that they are cut, and of no whole length that the
/// file ends.
pub proof fn law_frame_found(
    file: &[u8],
    pos: usize,
    r: FrameAt,
    before: Seq<u8>,
    n: u64,
    rest: Seq<u8>,
)
    requires
        call_ensures(frame_at, (file, pos), r),
        pos == before.len(),
    ensures
        file@ == before + le_bytes(n as nat, 8) + rest && n <= rest.len() ==> (
        r matches FrameAt::Whole(rec, next) && rec@ == rest.take(n as int) && next == pos + 8 + n),
        file@ == before + le_bytes(n as nat, 8) + rest && n > rest.len() ==> r is Cut,
        file@ == before + rest && rest.len() < 8 ==> r is End,
{
    if file@ == before + le_bytes(n as nat, 8) + rest {
        lemma_byte_caps();
        law_le_round_trip(n as nat, 8);
        assert(file@.subrange(pos as int, pos + 8) =~= le_bytes(n as nat, 8));
        if n <= rest.len() {
            assert(file@.subrange(pos + 8, pos + 8 + n) =~= rest.take(n as int));
        }
    }
}

} // verus!
