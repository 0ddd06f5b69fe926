//! The write-ahead log: the records that are not in a table file yet.
use vstd::prelude::*;
use vstd::string::StringExecFns;
use vstd::utf8::encode_utf8;

use crate::metrics::Counter;
use crate::storage::frames::{
    frame, frameable, framed, frames_to_end, law_frames_to_end_framed, lemma_framed_step, put_frame,
    read_frames,
};
use crate::storage::record::{has_key, rec_eq, Record};
use crate::storage::sorted::{
    all_keyed, has_place, insert_sorted, law_with_records, lemma_with_records_step, rec_views,
    strictly_sorted, with_records,
};
use crate::storage::sstable::{has_extension, join, join_path, test_extension};
use crate::text::{decimal, padded, zero_padded};

verus! {

/// Why the log could not be written or read.
#[derive(Clone, Copy, Debug, PartialEq, Eq, Structural)]
pub enum WalError {
    /// The log file does not take any bytes at present.
    Unavailable,
    /// The last record of a log file is cut short.
    ShortRecord,
}

/// What was written to the log.
#[derive(Debug, Clone, Copy)]
pub struct WalCounts {
    pub write_count: Counter,
    pub write_bytes: Counter,
}

/// The active log: the bytes that were written and are still to go to its file, and whether
/// the file takes them.
#[derive(Debug)]
pub struct Wal {
    path: String,
    buffer: Vec<u8>,
    available: bool,
    counts: Option<WalCounts>,
}

/// The name of the directory of the logs.
pub open spec fn wal_dir() -> Seq<char> {
    seq!['w', 'a', 'l', 's']
}

/// The name of the active log.
pub open spec fn active_name() -> Seq<char> {
    seq!['_', '_', 'a', 'c', 't', 'i', 'v', 'e', '_', 'w', 'a', 'l', '.', 'l', 'o', 'g']
}

/// The name, with that of its directory, of the log that was closed for table `id`.
pub open spec fn inactive_name(id: u64) -> Seq<char> {
    seq!['w', 'a', 'l', 's', '/', 'w', 'a', 'l', '_'] + padded(decimal(id as nat), 10, '0')
        + seq!['.', 'l', 'o', 'g']
}

/// Whether a file of this name is a log: its extension is `log`.
pub open spec fn is_wal_name(name: Seq<u8>) -> bool {
    has_extension(name, seq![108u8, 111, 103])
}

/// The records of the log files, sorted and without duplicates. A file whose last record is
/// cut short counts for nothing. Of records with the same place the first stays.
pub open spec fn recovered(files: Seq<Seq<u8>>) -> Seq<Seq<u8>>
    decreases files.len(),
{
    if files.len() == 0 {
        Seq::empty()
    } else {
        match frames_to_end(files.last(), 0) {
            Some(rs) => with_records(recovered(files.drop_last()), rs),
            None => recovered(files.drop_last()),
        }
    }
}

/// Whether every record that is recovered from the log file can be ordered.
pub open spec fn recoverable(file: Seq<u8>) -> bool {
    frames_to_end(file, 0) matches Some(rs) ==> all_keyed(rs)
}

/// The bytes of each file.
pub open spec fn file_views(files: Seq<Vec<u8>>) -> Seq<Seq<u8>> {
    Seq::new(files.len(), |i: int| files[i]@)
}

pub proof fn lemma_recovered_wf(files: Seq<Seq<u8>>)
    requires
        forall|i: int| 0 <= i < files.len() ==> recoverable(#[trigger] files[i]),
    ensures
        strictly_sorted(recovered(files)),
        all_keyed(recovered(files)),
    decreases files.len(),
{
    if files.len() > 0 {
        let front = files.drop_last();
        assert forall|i: int| 0 <= i < front.len() implies recoverable(#[trigger] front[i]) by {
            assert(front[i] == files[i]);
        }
        lemma_recovered_wf(front);
        assert(recoverable(files[files.len() - 1]));
        if let Some(rs) = frames_to_end(files.last(), 0) {
            law_with_records(recovered(front), rs);
        }
    }
}

/// What was written to one log is recovered from it: the records, sorted and without
/// duplicates, also where fewer than eight bytes of a further one were written.
pub proof fn law_wal_round_trip(written: Seq<Seq<u8>>, tail: Seq<u8>)
    requires
        frameable(written),
        tail.len() < 8,
    ensures
        recovered(seq![framed(written) + tail]) == with_records(Seq::empty(), written),
{
    let file = framed(written) + tail;
    let files = seq![file];
    assert(files.drop_last() =~= Seq::<Seq<u8>>::empty());
    assert(files.last() == file);
    law_frames_to_end_framed(written, tail);
    assert(recovered(Seq::<Seq<u8>>::empty()) == Seq::<Seq<u8>>::empty());
}

/// Whether the record `x` is in one of the log files that can be read.
pub open spec fn logged_in(files: Seq<Seq<u8>>, x: Seq<u8>) -> bool {
    exists|i: int|
        0 <= i < files.len() && frames_to_end(#[trigger] files[i], 0) is Some && frames_to_end(
            files[i],
            0,
        )->0.contains(x)
}

/// Every record in a log file that can be read has a place among what is recovered, and nothing
/// else is recovered.
pub proof fn law_recovers_all(files: Seq<Seq<u8>>)
    requires
        forall|i: int| 0 <= i < files.len() ==> recoverable(#[trigger] files[i]),
    ensures
        forall|x: Seq<u8>| #[trigger] recovered(files).contains(x) ==> logged_in(files, x),
        forall|x: Seq<u8>| #[trigger] logged_in(files, x) ==> has_place(recovered(files), x),
    decreases files.len(),
{
    if files.len() > 0 {
        let front = files.drop_last();
        let last = files.last();
        assert forall|i: int| 0 <= i < front.len() implies recoverable(#[trigger] front[i]) by {
            assert(front[i] == files[i]);
        }
        law_recovers_all(front);
        lemma_recovered_wf(front);
        let some = recovered(front);
        assert(files[files.len() - 1] == last);
        if let Some(rs) = frames_to_end(last, 0) {
            law_with_records(some, rs);
        }
        assert forall|x: Seq<u8>| #[trigger] recovered(files).contains(x) implies logged_in(
            files,
            x,
        ) by {
            if some.contains(x) {
                let i = choose|i: int|
                    0 <= i < front.len() && frames_to_end(#[trigger] front[i], 0) is Some
                        && frames_to_end(front[i], 0)->0.contains(x);
                assert(files[i] == front[i]);
            }
        }
        assert forall|x: Seq<u8>| #[trigger] logged_in(files, x) implies has_place(
            recovered(files),
            x,
        ) by {
            let i = choose|i: int|
                0 <= i < files.len() && frames_to_end(#[trigger] files[i], 0) is Some
                    && frames_to_end(files[i], 0)->0.contains(x);
            if i < front.len() {
                assert(front[i] == files[i]);
                assert(logged_in(front, x));
                if let Some(rs) = frames_to_end(last, 0) {
                    let k = choose|k: int| 0 <= k < some.len() && rec_eq(#[trigger] some[k], x);
                    let all = with_records(some, rs);
                    assert(has_place(all, some[k]));
                    let n = choose|n: int| 0 <= n < all.len() && rec_eq(#[trigger] all[n], some[k]);
                    assert(rec_eq(all[n], x));
                }
            } else {
                let rs = frames_to_end(last, 0)->0;
                let k = choose|k: int| 0 <= k < rs.len() && rs[k] == x;
                assert(has_place(with_records(some, rs), rs[k]));
            }
        }
    }
}

impl Wal {
    /// The name of the directory of the logs.
    pub const WAL_DIR: &'static str = "wals";

    /// The name of the active log.
    pub const ACTIVE_WAL_NAME: &'static str = "__active_wal.log";

    /// The path of the log's file.
    pub closed spec fn file_path(&self) -> Seq<char> {
        self.path@
    }

    /// The bytes that are still to go to the file.
    pub closed spec fn pending(&self) -> Seq<u8> {
        self.buffer@
    }

    /// Whether the file takes bytes.
    pub closed spec fn is_open(&self) -> bool {
        self.available
    }

    /// What was written, where it is counted.
    pub closed spec fn counted(&self) -> Option<(u64, u64)> {
        match self.counts {
            Some(c) => Some((c.write_count.count(), c.write_bytes.count())),
            None => None,
        }
    }

    /// The path of the log that was closed for table `id`.
    pub fn format_inactive_wal_path(base_path: &str, id: u64) -> (r: String)
        ensures
            r@ == join_path(base_path@, inactive_name(id)),
    {
        let mut name = String::from_str(Self::WAL_DIR);
        name.append("/wal_");
        let digits = zero_padded(id, 10);
        name.append(digits.as_str());
        name.append(".log");
        proof {
            reveal_strlit("wals");
            reveal_strlit("/wal_");
            reveal_strlit(".log");
            assert(name@ =~= inactive_name(id));
        }
        join(base_path, name.as_str())
    }

    /// The path of the active log.
    pub fn format_active_wal_path(base_path: &str) -> (r: String)
        ensures
            r@ == join_path(join_path(base_path@, wal_dir()), active_name()),
    {
        proof {
            reveal_strlit("wals");
            reveal_strlit("__active_wal.log");
            assert("wals"@ =~= wal_dir());
            assert("__active_wal.log"@ =~= active_name());
        }
        let dir = join(base_path, Self::WAL_DIR);
        join(dir.as_str(), Self::ACTIVE_WAL_NAME)
    }

    /// Whether the file of this name is a log.
    pub fn is_wal_file(name: &str) -> (r: bool)
        ensures
            r == is_wal_name(encode_utf8(name@)),
    {
        let extension: [u8; 3] = [108, 111, 103];
        assert(extension@ =~= seq![108u8, 111, 103]);
        test_extension(name.as_bytes(), &extension)
    }

    /// The active log in the directory `base_path`.
    pub fn open_active(base_path: &str) -> (r: Self)
        ensures
            r.file_path() == join_path(join_path(base_path@, wal_dir()), active_name()),
            r.pending() == Seq::<u8>::empty(),
            r.is_open(),
            r.counted() is None,
    {
        let r = Wal {
            path: Wal::format_active_wal_path(base_path),
            buffer: Vec::new(),
            available: true,
            counts: None,
        };
        assert(r.pending() =~= Seq::<u8>::empty());
        r
    }

    /// Starts to count what is written.
    pub fn set_metrics(&mut self)
        ensures
            final(self).counted() == Some((0u64, 0u64)),
            final(self).file_path() == old(self).file_path(),
            final(self).pending() == old(self).pending(),
            final(self).is_open() == old(self).is_open(),
    {
        self.counts = Some(WalCounts { write_count: Counter::new(), write_bytes: Counter::new() });
    }

    /// Notes whether the file takes bytes.
    pub fn set_available(&mut self, available: bool)
        ensures
            final(self).is_open() == available,
            final(self).counted() == old(self).counted(),
            final(self).file_path() == old(self).file_path(),
            final(self).pending() == old(self).pending(),
    {
        self.available = available;
    }

    /// How many bytes are still to go to the file.
    pub fn pending_len(&self) -> (n: usize)
        ensures
            n == self.pending().len(),
    {
        self.buffer.len()
    }

    /// How many records and bytes were written, where they are counted.
    pub fn counts(&self) -> (r: Option<(u64, u64)>)
        ensures
            r == self.counted(),
    {
        match &self.counts {
            Some(c) => Some((c.write_count.value(), c.write_bytes.value())),
            None => None,
        }
    }

    /// Writes the record behind its length. The length counts for nothing in the number of
    /// bytes written.
    pub fn write_one(&mut self, rec: &Record) -> (r: Result<(), WalError>)
        ensures
            r is Ok <==> old(self).is_open(),
            r matches Err(e) ==> e == WalError::Unavailable && *final(self) == *old(self),
            r is Ok ==> final(self).pending() == old(self).pending() + frame(rec@),
            r is Ok ==> final(self).counted() == counted_after(
                old(self).counted(),
                1,
                rec@.len(),
            ),
            final(self).is_open() == old(self).is_open(),
            final(self).file_path() == old(self).file_path(),
    {
        if !self.available {
            return Err(WalError::Unavailable);
        }
        let len: u64 = rec.len() as u64;
        put_frame(&mut self.buffer, rec);
        self.count(1, len);
        Ok(())
    }

    fn count(&mut self, records: u64, bytes: u64)
        ensures
            final(self).counted() == counted_after(
                old(self).counted(),
                records as nat,
                bytes as nat,
            ),
            final(self).is_open() == old(self).is_open(),
            final(self).file_path() == old(self).file_path(),
            final(self).pending() == old(self).pending(),
    {
        if let Some(c) = &mut self.counts {
            c.write_count.inc(records);
            c.write_bytes.inc(bytes);
        }
    }

    /// Writes the records, each behind its length. The lengths count in the number of bytes
    /// written.
    pub fn write_many(&mut self, recs: &[Record]) -> (r: Result<(), WalError>)
        ensures
            r is Ok <==> old(self).is_open() || recs@.len() == 0,
            r matches Err(e) ==> e == WalError::Unavailable && *final(self) == *old(self),
            r is Ok ==> final(self).pending() == old(self).pending() + framed(rec_views(recs@)),
            r is Ok ==> final(self).counted() == counted_after(
                old(self).counted(),
                recs@.len(),
                framed(rec_views(recs@)).len(),
            ),
            final(self).is_open() == old(self).is_open(),
            final(self).file_path() == old(self).file_path(),
    {
        if !self.available && recs.len() > 0 {
            return Err(WalError::Unavailable);
        }
        let before: usize = self.buffer.len();
        let ghost s = rec_views(recs@);
        let ghost start = self.buffer@;
        let mut i: usize = 0;
        proof {
            assert(s.take(0) =~= Seq::<Seq<u8>>::empty());
            assert(start + framed(s.take(0)) =~= start);
        }
        while i < recs.len()
            invariant
                i <= recs@.len(),
                s == rec_views(recs@),
                self.buffer@ == start + framed(s.take(i as int)),
                self.available == old(self).available,
                self.path == old(self).path,
                self.counts == old(self).counts,
            decreases recs@.len() - i,
        {
            put_frame(&mut self.buffer, &recs[i]);
            proof {
                lemma_framed_step(s, i as int);
                assert(self.buffer@ =~= start + framed(s.take(i + 1)));
            }
            i += 1;
        }
        assert(s.take(s.len() as int) =~= s);
        let total_bytes: u64 = (self.buffer.len() - before) as u64;
        self.count(recs.len() as u64, total_bytes);
        Ok(())
    }

    /// The records of a log file.
    pub fn recover_file(file: &[u8]) -> (r: Result<Vec<Record>, WalError>)
        ensures
            r is Ok <==> frames_to_end(file@, 0) is Some,
            r matches Ok(v) ==> frames_to_end(file@, 0) == Some(rec_views(v@)),
            r matches Err(e) ==> e == WalError::ShortRecord,
    {
        match read_frames(file) {
            Some(v) => Ok(v),
            None => Err(WalError::ShortRecord),
        }
    }

    /// Whether every record that is recovered from the log file can be ordered.
    pub fn is_recoverable(file: &[u8]) -> (r: bool)
        ensures
            r == recoverable(file@),
    {
        match read_frames(file) {
            Some(v) => {
                let ghost s = rec_views(v@);
                let mut i: usize = 0;
                while i < v.len()
                    invariant
                        i <= v@.len(),
                        s == rec_views(v@),
                        frames_to_end(file@, 0) == Some(s),
                        forall|j: int| 0 <= j < i ==> has_key(#[trigger] s[j]),
                    decreases v@.len() - i,
                {
                    if !v[i].is_comparable() {
                        assert(!has_key(s[i as int]));
                        return false;
                    }
                    i += 1;
                }
                true
            },
            None => true,
        }
    }

    /// The records of all log files, sorted and without duplicates. A file whose last record
    /// is cut short counts for nothing.
    pub fn recover_all(files: &Vec<Vec<u8>>) -> (v: Vec<Record>)
        requires
            forall|i: int| 0 <= i < files@.len() ==> recoverable((#[trigger] files@[i])@),
        ensures
            rec_views(v@) == recovered(file_views(files@)),
            strictly_sorted(rec_views(v@)),
            all_keyed(rec_views(v@)),
    {
        let ghost all = file_views(files@);
        let mut v: Vec<Record> = Vec::new();
        let mut i: usize = 0;
        proof {
            assert(all.take(0) =~= Seq::<Seq<u8>>::empty());
            assert(rec_views(v@) =~= Seq::<Seq<u8>>::empty());
        }
        while i < files.len()
            invariant
                i <= files@.len(),
                all == file_views(files@),
                forall|j: int| 0 <= j < files@.len() ==> recoverable((#[trigger] files@[j])@),
                rec_views(v@) == recovered(all.take(i as int)),
                strictly_sorted(rec_views(v@)),
                all_keyed(rec_views(v@)),
            decreases files@.len() - i,
        {
            assert(all.take(i + 1).drop_last() =~= all.take(i as int));
            assert(all.take(i + 1).last() == files@[i as int]@);
            assert(recoverable(files@[i as int]@));
            if let Ok(recs) = Wal::recover_file(files[i].as_slice()) {
                let ghost rs = rec_views(recs@);
                let ghost start = rec_views(v@);
                let mut k: usize = 0;
                assert(rs.take(0) =~= Seq::<Seq<u8>>::empty());
                while k < recs.len()
                    invariant
                        k <= recs@.len(),
                        rs == rec_views(recs@),
                        all_keyed(rs),
                        rec_views(v@) == with_records(start, rs.take(k as int)),
                        strictly_sorted(rec_views(v@)),
                        all_keyed(rec_views(v@)),
                    decreases recs@.len() - k,
                {
                    let rec = recs[k].clone();
                    assert(has_key(rs[k as int]));
                    insert_sorted(&mut v, rec);
                    proof {
                        lemma_with_records_step(start, rs, k as int);
                    }
                    k += 1;
                }
                assert(rs.take(rs.len() as int) =~= rs);
            }
            i += 1;
        }
        assert(all.take(all.len() as int) =~= all);
        v
    }

    /// Hands over the bytes that are still to go to the file.
    pub fn flush_buffer(&mut self) -> (r: Vec<u8>)
        ensures
            r@ == old(self).pending(),
            final(self).pending() == Seq::<u8>::empty(),
            final(self).is_open() == old(self).is_open(),
            final(self).counted() == old(self).counted(),
            final(self).file_path() == old(self).file_path(),
    {
        let mut r: Vec<u8> = Vec::new();
        std::mem::swap(&mut r, &mut self.buffer);
        assert(self.pending() =~= Seq::<u8>::empty());
        r
    }

    /// Closes the log for table `sst_id` and starts a new one in the directory `base_path`.
    /// Returns the bytes that are still to go to the file of the closed one, and the path to
    /// which that file is to be moved.
    pub fn rotate(&mut self, base_path: &str, sst_id: u64) -> (r: (Vec<u8>, String))
        ensures
            r.0@ == old(self).pending(),
            r.1@ == join_path(base_path@, inactive_name(sst_id)),
            final(self).pending() == Seq::<u8>::empty(),
            final(self).file_path() == join_path(join_path(base_path@, wal_dir()), active_name()),
            final(self).is_open() == old(self).is_open(),
            final(self).counted() == old(self).counted(),
    {
        let bytes = self.flush_buffer();
        self.path = Wal::format_active_wal_path(base_path);
        (bytes, Wal::format_inactive_wal_path(base_path, sst_id))
    }
}

/// What is counted after `records` records of `bytes` bytes more.
pub open spec fn counted_after(before: Option<(u64, u64)>, records: nat, bytes: nat) -> Option<
    (u64, u64),
> {
    match before {
        Some((n, m)) => Some(
            (
                ((n + records) % 0x1_0000_0000_0000_0000) as u64,
                ((m + bytes) % 0x1_0000_0000_0000_0000) as u64,
            ),
        ),
        None => None,
    }
}

} // verus!
