//! The memory profile of a process: what its status says, and what is told of the samples taken.
//! What is computed with fractions comes in as text.
use vstd::prelude::*;
use vstd::slice::slice_subrange;
use vstd::string::StringExecFns;
use vstd::utf8::{encode_utf8, is_ascii_chars_encode_utf8};

use crate::text::{
    all_digits, dashed_text, decimal, decimal_text, digits_value, filled, line, number_of, padded,
    parse_number, push_line, push_row, push_wide_decimal, right_text, row, run_of, signed_decimal,
    signed_text, text, texts,
};

verus! {

/// How many bytes the character at the beginning of `s` takes if it separates words: if it is
/// white space as Unicode counts it. It is none if not.
pub open spec fn space_len(s: Seq<u8>) -> nat {
    if s.len() >= 1 && (s[0] == 0x20 || 0x09 <= s[0] <= 0x0D) {
        1
    } else if s.len() >= 2 && s[0] == 0xC2 && (s[1] == 0x85 || s[1] == 0xA0) {
        2
    } else if s.len() >= 3 && wide_space(s[0], s[1], s[2]) {
        3
    } else {
        0
    }
}

/// Whether the three bytes encode white space.
pub open spec fn wide_space(a: u8, b: u8, c: u8) -> bool {
    ||| a == 0xE1 && b == 0x9A && c == 0x80
    ||| a == 0xE2 && b == 0x80 && (0x80 <= c <= 0x8A || c == 0xA8 || c == 0xA9 || c == 0xAF)
    ||| a == 0xE2 && b == 0x81 && c == 0x9F
    ||| a == 0xE3 && b == 0x80 && c == 0x80
}

/// The lines of a text, without the line breaks.
pub open spec fn lines_of(b: Seq<u8>) -> Seq<Seq<u8>>
    decreases b.len(),
{
    if b.len() == 0 {
        seq![Seq::empty()]
    } else {
        let front = lines_of(b.drop_last());
        if b.last() == 10 {
            front.push(Seq::empty())
        } else {
            front.drop_last().push(front.last().push(b.last()))
        }
    }
}

/// `s` without the separators at its beginning.
pub open spec fn trimmed(s: Seq<u8>) -> Seq<u8>
    decreases s.len(),
{
    if space_len(s) > 0 {
        trimmed(s.skip(space_len(s) as int))
    } else {
        s
    }
}

/// How many bytes of `s` come before the first separator.
pub open spec fn word_len(s: Seq<u8>) -> nat
    decreases s.len(),
{
    if s.len() == 0 || space_len(s) > 0 {
        0
    } else {
        1 + word_len(s.drop_first())
    }
}

/// The number that is the first word of `s`, or zero if that is none.
pub open spec fn first_number(s: Seq<u8>) -> u64 {
    let t = trimmed(s);
    match number_of(t.take(word_len(t) as int)) {
        Some(n) => n,
        None => 0,
    }
}

/// The number behind `label` in the last of the lines that begin with it, or zero if there is
/// none.
pub open spec fn labeled(lines: Seq<Seq<u8>>, label: Seq<u8>) -> u64
    decreases lines.len(),
{
    if lines.len() == 0 {
        0
    } else if label.is_prefix_of(lines.last()) {
        first_number(lines.last().skip(label.len() as int))
    } else {
        labeled(lines.drop_last(), label)
    }
}

/// The label of the memory that is in use.
pub open spec fn rss_label() -> Seq<u8> {
    seq![86u8, 109, 82, 83, 83, 58]
}

/// The label of the memory that is mapped.
pub open spec fn size_label() -> Seq<u8> {
    seq![86u8, 109, 83, 105, 122, 101, 58]
}

/// The label of the memory for data.
pub open spec fn data_label() -> Seq<u8> {
    seq![86u8, 109, 68, 97, 116, 97, 58]
}

proof fn lemma_lines_nonempty(b: Seq<u8>)
    ensures
        lines_of(b).len() > 0,
    decreases b.len(),
{
    if b.len() > 0 {
        lemma_lines_nonempty(b.drop_last());
    }
}

/// The bytes of each line.
pub open spec fn line_views(v: Seq<Vec<u8>>) -> Seq<Seq<u8>> {
    Seq::new(v.len(), |i: int| v[i]@)
}

fn split_lines(b: &[u8]) -> (v: Vec<Vec<u8>>)
    ensures
        line_views(v@) == lines_of(b@),
{
    let mut done: Vec<Vec<u8>> = Vec::new();
    let mut cur: Vec<u8> = Vec::new();
    let mut i: usize = 0;
    assert(b@.take(0) =~= Seq::<u8>::empty());
    assert(line_views(done@).push(cur@) =~= lines_of(b@.take(0)));
    while i < b.len()
        invariant
            i <= b@.len(),
            line_views(done@).push(cur@) == lines_of(b@.take(i as int)),
        decreases b@.len() - i,
    {
        let ghost before = line_views(done@);
        let ghost part = cur@;
        proof {
            assert(b@.take(i + 1).drop_last() =~= b@.take(i as int));
            assert(b@.take(i + 1).last() == b@[i as int]);
            assert(before.push(part).drop_last() =~= before);
            assert(before.push(part).last() == part);
        }
        if b[i] == 10 {
            done.push(cur);
            cur = Vec::new();
            proof {
                assert(line_views(done@) =~= before.push(part));
                assert(line_views(done@).push(cur@) =~= before.push(part).push(Seq::empty()));
            }
        } else {
            cur.push(b[i]);
            assert(line_views(done@).push(cur@) =~= before.push(part.push(b@[i as int])));
        }
        i += 1;
    }
    let ghost before = line_views(done@);
    let ghost part = cur@;
    done.push(cur);
    assert(line_views(done@) =~= before.push(part));
    assert(b@.take(b@.len() as int) =~= b@);
    done
}

/// How many bytes the character at `at` takes if it separates words.
fn space_at(s: &[u8], at: usize) -> (n: usize)
    requires
        at <= s@.len(),
    ensures
        n == space_len(s@.skip(at as int)),
{
    let left: usize = s.len() - at;
    if left >= 1 && (s[at] == 0x20 || (0x09 <= s[at] && s[at] <= 0x0D)) {
        return 1;
    }
    if left >= 2 && s[at] == 0xC2 && (s[at + 1] == 0x85 || s[at + 1] == 0xA0) {
        return 2;
    }
    if left >= 3 {
        let (a, b, c): (u8, u8, u8) = (s[at], s[at + 1], s[at + 2]);
        if (a == 0xE1 && b == 0x9A && c == 0x80) || (a == 0xE2 && b == 0x80 && ((0x80 <= c && c
            <= 0x8A) || c == 0xA8 || c == 0xA9 || c == 0xAF)) || (a == 0xE2 && b == 0x81 && c
            == 0x9F) || (a == 0xE3 && b == 0x80 && c == 0x80) {
            return 3;
        }
    }
    0
}

fn read_first_number(s: &[u8]) -> (n: u64)
    ensures
        n == first_number(s@),
{
    let total: usize = s.len();
    let mut from: usize = 0;
    assert(s@.skip(0) =~= s@);
    loop
        invariant_except_break
            from <= total == s@.len(),
            trimmed(s@) == trimmed(s@.skip(from as int)),
        ensures
            from <= total,
            space_len(s@.skip(from as int)) == 0,
            trimmed(s@) == trimmed(s@.skip(from as int)),
        decreases total - from,
    {
        let n: usize = space_at(s, from);
        if n == 0 {
            break ;
        }
        assert(s@.skip(from as int).skip(n as int) =~= s@.skip(from + n));
        from = from + n;
    }
    let ghost t = s@.skip(from as int);
    assert(trimmed(s@) == t);
    let mut to: usize = from;
    assert(t.skip(0) =~= t);
    while to < total && space_at(s, to) == 0
        invariant
            from <= to <= total == s@.len(),
            t == s@.skip(from as int),
            word_len(t) == (to - from) + word_len(t.skip(to - from)),
        decreases total - to,
    {
        assert(t.skip(to - from) =~= s@.skip(to as int));
        assert(t.skip(to - from).drop_first() =~= t.skip(to - from + 1));
        to += 1;
    }
    assert(t.skip(to - from) =~= s@.skip(to as int));
    let word = slice_subrange(s, from, to);
    assert(word@ =~= t.take(to - from));
    match parse_number(word) {
        Some(n) => n,
        None => 0,
    }
}

fn begins_with(s: &[u8], label: &[u8]) -> (r: bool)
    ensures
        r == label@.is_prefix_of(s@),
{
    if label.len() > s.len() {
        return false;
    }
    let head = slice_subrange(s, 0, label.len());
    let r = crate::codec::bytes_equal(head, label);
    proof {
        assert(head@ =~= s@.take(label@.len() as int));
        if r {
            assert(label@.is_prefix_of(s@));
        }
        if label@.is_prefix_of(s@) {
            assert(head@ =~= label@);
        }
    }
    r
}

fn find_labeled(lines: &Vec<Vec<u8>>, label: &[u8]) -> (n: u64)
    ensures
        n == labeled(line_views(lines@), label@),
{
    let ghost all = line_views(lines@);
    let mut i: usize = lines.len();
    assert(all.take(all.len() as int) =~= all);
    while i > 0
        invariant
            i <= lines@.len(),
            all == line_views(lines@),
            labeled(all, label@) == labeled(all.take(i as int), label@),
        decreases i,
    {
        let s = lines[i - 1].as_slice();
        proof {
            assert(all.take(i as int).last() == s@);
            assert(all.take(i as int).drop_last() =~= all.take(i - 1));
        }
        if begins_with(s, label) {
            let rest = slice_subrange(s, label.len(), s.len());
            assert(rest@ =~= s@.skip(label@.len() as int));
            return read_first_number(rest);
        }
        i -= 1;
    }
    0
}

/// What the status of a process says of its memory, in kilobytes: in use, mapped, and for data.
pub fn parse_vm_rss(status: &[u8]) -> (r: (u64, u64, u64))
    ensures
        r.0 == labeled(lines_of(status@), rss_label()),
        r.1 == labeled(lines_of(status@), size_label()),
        r.2 == labeled(lines_of(status@), data_label()),
{
    let lines = split_lines(status);
    let rss: [u8; 6] = [86, 109, 82, 83, 83, 58];
    let size: [u8; 7] = [86, 109, 83, 105, 122, 101, 58];
    let data: [u8; 7] = [86, 109, 68, 97, 116, 97, 58];
    assert(rss@ =~= rss_label());
    assert(size@ =~= size_label());
    assert(data@ =~= data_label());
    (
        find_labeled(&lines, rss.as_slice()),
        find_labeled(&lines, size.as_slice()),
        find_labeled(&lines, data.as_slice()),
    )
}

/// What is told of the memory that was in use, in kilobytes.
#[derive(Debug, Clone, Copy, PartialEq, Eq, Structural)]
pub struct RssStats {
    pub min: u64,
    pub max: u64,
    pub avg: u64,
    pub sum: u64,
    pub last: u64,
}

/// The sum of the numbers.
pub open spec fn total(v: Seq<u64>) -> nat
    decreases v.len(),
{
    if v.len() == 0 {
        0
    } else {
        total(v.drop_last()) + v.last() as nat
    }
}

proof fn lemma_total_grows(v: Seq<u64>, i: int)
    requires
        0 <= i <= v.len(),
    ensures
        total(v.take(i)) <= total(v),
    decreases v.len() - i,
{
    if i < v.len() {
        assert(v.take(i + 1).drop_last() =~= v.take(i));
        lemma_total_grows(v, i + 1);
    } else {
        assert(v.take(i) =~= v);
    }
}

/// The lowest, the highest, the sum, the mean, rounded down, and the last of the numbers, if
/// there are any.
pub fn rss_stats(values: &Vec<u64>) -> (r: Option<RssStats>)
    requires
        total(values@) <= u64::MAX,
    ensures
        r is None <==> values@.len() == 0,
        r matches Some(s) ==> values@.contains(s.min) && values@.contains(s.max) && (forall|i: int|
            0 <= i < values@.len() ==> s.min <= #[trigger] values@[i] <= s.max) && s.sum == total(
            values@,
        ) && s.avg == s.sum as int / values@.len() as int && s.last == values@.last(),
{
    let n: usize = values.len();
    if n == 0 {
        return None;
    }
    let mut min: u64 = values[0];
    let mut max: u64 = values[0];
    let mut sum: u64 = 0;
    let mut i: usize = 0;
    assert(values@.take(0) =~= Seq::<u64>::empty());
    assert(values@[0] == min);
    while i < n
        invariant
            i <= n == values@.len(),
            total(values@) <= u64::MAX,
            values@.contains(min),
            values@.contains(max),
            forall|k: int| 0 <= k < i ==> min <= #[trigger] values@[k] <= max,
            min <= values@[0] <= max,
            sum == total(values@.take(i as int)),
        decreases n - i,
    {
        let v: u64 = values[i];
        proof {
            assert(values@.take(i + 1).drop_last() =~= values@.take(i as int));
            lemma_total_grows(values@, i + 1);
            assert(values@[i as int] == v);
        }
        if v < min {
            min = v;
        }
        if v > max {
            max = v;
        }
        sum = sum + v;
        i += 1;
    }
    assert(values@.take(values@.len() as int) =~= values@);
    Some(RssStats { min, max, avg: sum / n as u64, sum, last: values[n - 1] })
}

/// Whether the `i`-th of `n` samples is shown: about twenty of them, at even distances, and the
/// last.
pub open spec fn shown(i: int, n: int) -> bool {
    i % (if n / 20 > 1 {
        n / 20
    } else {
        1
    }) == 0 || i == n - 1
}

/// Whether the `i`-th of `n` samples is shown.
pub fn is_shown(i: usize, n: usize) -> (r: bool)
    requires
        i < n,
    ensures
        r == shown(i as int, n as int),
{
    let step: usize = if n / 20 > 1 {
        n / 20
    } else {
        1
    };
    i % step == 0 || i == n - 1
}

/// A sample of the state of the engine, with the memory that was in use about then.
#[derive(Debug)]
pub struct EngineState {
    /// When the sample was taken.
    pub elapsed: String,
    pub memtable_bytes: u64,
    pub sst_count: u64,
    pub rss_kb: u64,
}

/// What is told of a sample of the state of the engine.
#[derive(Debug, Clone, Copy, PartialEq, Eq, Structural)]
pub struct EngineRow {
    pub index: usize,
    pub memtable_kb: u64,
    pub sst_count: u64,
    pub rss_kb: u64,
    pub delta: i64,
}

/// What is told of sample `i`: its memory against the size of the memory table at the first.
pub open spec fn engine_row(samples: Seq<EngineState>, i: int) -> EngineRow {
    EngineRow {
        index: i as usize,
        memtable_kb: (samples[i].memtable_bytes / 1024) as u64,
        sst_count: samples[i].sst_count,
        rss_kb: samples[i].rss_kb,
        delta: if i > 0 {
            (samples[i].rss_kb - samples[0].memtable_bytes / 1024) as i64
        } else {
            0
        },
    }
}

/// What is told of the samples of the state of the engine that are shown, up to `i`.
pub open spec fn engine_rows(samples: Seq<EngineState>, i: int) -> Seq<EngineRow>
    decreases i,
{
    if i <= 0 {
        Seq::empty()
    } else {
        let front = engine_rows(samples, i - 1);
        if shown(i - 1, samples.len() as int) {
            front.push(engine_row(samples, i - 1))
        } else {
            front
        }
    }
}

/// What is told of the samples of the state of the engine that are shown.
pub fn shown_states(samples: &Vec<EngineState>) -> (v: Vec<EngineRow>)
    requires
        forall|i: int|
            0 <= i < samples@.len() ==> (#[trigger] samples@[i]).rss_kb <= i64::MAX
                && samples@[i].memtable_bytes <= i64::MAX,
    ensures
        v@ == engine_rows(samples@, samples@.len() as int),
        forall|k: int| 0 <= k < v@.len() ==> (#[trigger] v@[k]).index < samples@.len(),
{
    let n: usize = samples.len();
    let mut v: Vec<EngineRow> = Vec::new();
    let mut i: usize = 0;
    while i < n
        invariant
            i <= n == samples@.len(),
            forall|k: int|
                0 <= k < samples@.len() ==> (#[trigger] samples@[k]).rss_kb <= i64::MAX
                    && samples@[k].memtable_bytes <= i64::MAX,
            v@ == engine_rows(samples@, i as int),
            forall|k: int| 0 <= k < v@.len() ==> (#[trigger] v@[k]).index < samples@.len(),
        decreases n - i,
    {
        if is_shown(i, n) {
            let s = &samples[i];
            let first: u64 = samples[0].memtable_bytes;
            let delta: i64 = if i > 0 {
                s.rss_kb as i64 - (first / 1024) as i64
            } else {
                0
            };
            v.push(
                EngineRow {
                    index: i,
                    memtable_kb: s.memtable_bytes / 1024,
                    sst_count: s.sst_count,
                    rss_kb: s.rss_kb,
                    delta,
                },
            );
        }
        i += 1;
    }
    v
}

/// A sample of the memory in use.
#[derive(Debug)]
pub struct RssState {
    /// When the sample was taken.
    pub elapsed: String,
    pub rss_kb: u64,
    /// How long its bar is, of sixty.
    pub bar: usize,
}

/// What is told of the samples as a whole.
#[derive(Debug)]
pub struct ProfileText {
    pub min: String,
    pub avg: String,
    pub max: String,
    pub last: String,
    pub duration: String,
    pub growth: String,
    pub growth_mb: u64,
    pub whole_duration: String,
}

/// The power of two, from `unit` on, of which `n` has fewer than 2^53.
pub open spec fn double_unit(n: nat, unit: nat) -> nat
    decreases
            (if n > unit {
                n - unit
            } else {
                0
            }),
{
    if unit == 0 || unit >= n || n / unit < 0x20_0000_0000_0000 {
        unit
    } else {
        double_unit(n, 2 * unit)
    }
}

/// The number of double precision that is nearest to `n`; of two that are equally near, the one
/// whose last bit is not set.
pub open spec fn nearest_double(n: nat) -> nat {
    let unit = double_unit(n, 1);
    let (count, rest) = (n / unit, n % unit);
    if 2 * rest > unit || (2 * rest == unit && count % 2 == 1) {
        (count + 1) * unit
    } else {
        count * unit
    }
}

/// By how much the memory in use has changed since the last sample that was shown, if there
/// was one: the difference in double precision.
pub open spec fn change(prev: Option<u64>, now: u64) -> Seq<char> {
    match prev {
        None => Seq::empty(),
        Some(p) => {
            let (a, b) = (nearest_double(now as nat), nearest_double(p as nat));
            if a >= b {
                "+"@ + decimal(nearest_double((a - b) as nat)) + "K"@
            } else {
                "-"@ + decimal(nearest_double((b - a) as nat)) + "K"@
            }
        },
    }
}

/// Up to 2^53 every whole number is one of double precision.
pub proof fn law_double_exact(n: nat)
    requires
        n < 0x20_0000_0000_0000,
    ensures
        nearest_double(n) == n,
{
    assert(double_unit(n, 1) == 1);
    assert(n % 1 == 0 && n / 1 == n);
}

proof fn lemma_unit_bound(n: nat, unit: nat)
    requires
        unit > 0,
        n <= 0x1_0000_0000_0000_0000,
        n / unit >= 0x20_0000_0000_0000,
    ensures
        unit <= 2048,
{
    assert(n >= 0x20_0000_0000_0000 * unit) by (nonlinear_arith)
        requires
            unit > 0,
            n / unit >= 0x20_0000_0000_0000,
    ;
}

/// Whether the number is a power of two up to 4096.
spec fn small_power(unit: nat) -> bool {
    ||| unit == 1
    ||| unit == 2
    ||| unit == 4
    ||| unit == 8
    ||| unit == 16
    ||| unit == 32
    ||| unit == 64
    ||| unit == 128
    ||| unit == 256
    ||| unit == 512
    ||| unit == 1024
    ||| unit == 2048
    ||| unit == 4096
}

proof fn lemma_double_fits(n: nat, unit: nat)
    requires
        n <= 0x1_0000_0000_0000_0000,
        small_power(unit),
    ensures
        n / unit * unit <= 0x1_0000_0000_0000_0000,
        n % unit > 0 ==> (n / unit + 1) * unit <= 0x1_0000_0000_0000_0000,
        (n / unit + 1) * unit <= 0x1_0000_0000_0000_0000 + unit,
{
}

fn to_double(n: u128) -> (r: u128)
    requires
        n <= 0x1_0000_0000_0000_0000,
    ensures
        r == nearest_double(n as nat),
        r <= 0x1_0000_0000_0000_0000,
{
    let mut unit: u128 = 1;
    while !(unit >= n || n / unit < 0x20_0000_0000_0000)
        invariant
            n <= 0x1_0000_0000_0000_0000,
            small_power(unit as nat),
            double_unit(n as nat, 1) == double_unit(n as nat, unit as nat),
        decreases n - unit,
    {
        proof {
            lemma_unit_bound(n as nat, unit as nat);
        }
        unit = 2 * unit;
    }
    let count: u128 = n / unit;
    let rest: u128 = n % unit;
    proof {
        lemma_double_fits(n as nat, unit as nat);
    }
    if 2 * rest > unit || (2 * rest == unit && count % 2 == 1) {
        (count + 1) * unit
    } else {
        count * unit
    }
}

/// By how much the memory in use has changed since the last sample that was shown.
fn change_text(prev: Option<u64>, now: u64) -> (r: String)
    ensures
        r@ == change(prev, now),
{
    match prev {
        None => String::new(),
        Some(p) => {
            let (a, b): (u128, u128) = (to_double(now as u128), to_double(p as u128));
            let (mut r, size): (String, u128) = if a >= b {
                (text("+"), to_double(a - b))
            } else {
                (text("-"), to_double(b - a))
            };
            push_wide_decimal(&mut r, size);
            r.append("K");
            r
        },
    }
}

/// A bar of the given length.
pub open spec fn bar(n: nat) -> Seq<char> {
    run_of('\u{2588}', n)
}

fn bar_text(n: usize) -> (r: String)
    ensures
        r@ == bar(n as nat),
{
    let mut r = String::new();
    let mut i: usize = 0;
    proof {
        reveal_strlit("\u{2588}");
    }
    assert(r@ =~= bar(0));
    while i < n
        invariant
            i <= n,
            r@ == bar(i as nat),
            "\u{2588}"@ =~= seq!['\u{2588}'],
        decreases n - i,
    {
        r.append("\u{2588}");
        i += 1;
        assert(r@ =~= bar(i as nat));
    }
    r
}

/// The line on a sample of the memory in use.
pub open spec fn rss_line(s: RssState, prev: Option<u64>) -> Seq<char> {
    line(
        seq![
            padded(s.elapsed@, 6, ' '),
            " |"@,
            filled(bar(s.bar as nat), 60, '-'),
            "| "@,
            change(prev, s.rss_kb),
            " "@,
            padded(decimal(s.rss_kb as nat), 8, ' '),
            " KB"@,
        ],
    )
}

/// The memory in use at the last of the first `i` samples that is shown, if one is.
pub open spec fn last_shown(samples: Seq<RssState>, i: int) -> Option<u64>
    decreases i,
{
    if i <= 0 {
        None
    } else if shown(i - 1, samples.len() as int) {
        Some(samples[i - 1].rss_kb)
    } else {
        last_shown(samples, i - 1)
    }
}

/// The lines on the samples of the memory in use that are shown, up to `i`.
pub open spec fn rss_lines(samples: Seq<RssState>, i: int) -> Seq<char>
    decreases i,
{
    if i <= 0 {
        Seq::empty()
    } else {
        let front = rss_lines(samples, i - 1);
        if shown(i - 1, samples.len() as int) {
            front + rss_line(samples[i - 1], last_shown(samples, i - 1))
        } else {
            front
        }
    }
}

fn push_rss_lines(out: &mut String, samples: &Vec<RssState>)
    ensures
        final(out)@ == old(out)@ + rss_lines(samples@, samples@.len() as int),
{
    let ghost start = out@;
    let n: usize = samples.len();
    let mut prev: Option<u64> = None;
    let mut i: usize = 0;
    assert(start + rss_lines(samples@, 0) =~= start);
    while i < n
        invariant
            i <= n == samples@.len(),
            prev == last_shown(samples@, i as int),
            out@ == start + rss_lines(samples@, i as int),
        decreases n - i,
    {
        if is_shown(i, n) {
            let s = &samples[i];
            let parts = vec![
                right_text(s.elapsed.as_str(), 6),
                text(" |"),
                dashed_text(bar_text(s.bar).as_str(), 60),
                text("| "),
                change_text(prev, s.rss_kb),
                text(" "),
                right_text(decimal_text(s.rss_kb).as_str(), 8),
                text(" KB"),
            ];
            assert(texts(parts@) =~= seq![
                padded(s.elapsed@, 6, ' '),
                " |"@,
                filled(bar(s.bar as nat), 60, '-'),
                "| "@,
                change(prev, s.rss_kb),
                " "@,
                padded(decimal(s.rss_kb as nat), 8, ' '),
                " KB"@,
            ]);
            push_line(out, &parts);
            prev = Some(s.rss_kb);
        }
        assert(out@ =~= start + rss_lines(samples@, i + 1));
        i += 1;
    }
}

pub open spec fn profile_widths() -> Seq<usize> {
    seq![10, 10, 10, 10, 8, 8]
}

pub open spec fn state_widths() -> Seq<usize> {
    seq![10, 12, 12, 12, 12]
}

/// The part of the report on the samples as a whole.
pub open spec fn profile_part(p: ProfileText, n: nat) -> Seq<char> {
    "==> MEMORY PROFILE <==\n\n"@ + row(
        seq!["RSS_MIN"@, "RSS_AVG"@, "RSS_MAX"@, "RSS_END"@, "SAMPLES"@, "DUR_S"@],
        profile_widths(),
    ) + row(
        seq![p.min@, p.avg@, p.max@, p.last@, decimal(n), p.duration@],
        profile_widths(),
    ) + line(
        seq![
            "Growth rate: "@,
            p.growth@,
            " KB/s ("@,
            decimal(p.growth_mb as nat),
            " MB over "@,
            p.whole_duration@,
            "s)"@,
        ],
    )
}

fn push_profile(out: &mut String, p: &ProfileText, n: usize)
    ensures
        final(out)@ == old(out)@ + profile_part(*p, n as nat),
{
    let widths: [usize; 6] = [10, 10, 10, 10, 8, 8];
    assert(widths@ =~= profile_widths());
    out.append("==> MEMORY PROFILE <==\n\n");
    let heads = vec![
        text("RSS_MIN"),
        text("RSS_AVG"),
        text("RSS_MAX"),
        text("RSS_END"),
        text("SAMPLES"),
        text("DUR_S"),
    ];
    assert(texts(heads@) =~= seq![
        "RSS_MIN"@,
        "RSS_AVG"@,
        "RSS_MAX"@,
        "RSS_END"@,
        "SAMPLES"@,
        "DUR_S"@,
    ]);
    push_row(out, &heads, widths.as_slice());
    let cells = vec![
        text(p.min.as_str()),
        text(p.avg.as_str()),
        text(p.max.as_str()),
        text(p.last.as_str()),
        decimal_text(n as u64),
        text(p.duration.as_str()),
    ];
    assert(texts(cells@) =~= seq![
        p.min@,
        p.avg@,
        p.max@,
        p.last@,
        decimal(n as nat),
        p.duration@,
    ]);
    push_row(out, &cells, widths.as_slice());
    let parts = vec![
        text("Growth rate: "),
        text(p.growth.as_str()),
        text(" KB/s ("),
        decimal_text(p.growth_mb),
        text(" MB over "),
        text(p.whole_duration.as_str()),
        text("s)"),
    ];
    assert(texts(parts@) =~= seq![
        "Growth rate: "@,
        p.growth@,
        " KB/s ("@,
        decimal(p.growth_mb as nat),
        " MB over "@,
        p.whole_duration@,
        "s)"@,
    ]);
    push_line(out, &parts);
    assert(out@ =~= old(out)@ + profile_part(*p, n as nat));
}

/// The line on a sample of the state of the engine.
pub open spec fn state_row(samples: Seq<EngineState>, r: EngineRow) -> Seq<char> {
    row(
        seq![
            samples[r.index as int].elapsed@,
            decimal(r.memtable_kb as nat),
            decimal(r.sst_count as nat),
            decimal(r.rss_kb as nat),
            signed_decimal(r.delta as int),
        ],
        state_widths(),
    )
}

/// The lines on samples of the state of the engine.
pub open spec fn state_rows(samples: Seq<EngineState>, rs: Seq<EngineRow>) -> Seq<char>
    decreases rs.len(),
{
    if rs.len() == 0 {
        Seq::empty()
    } else {
        state_rows(samples, rs.drop_last()) + state_row(samples, rs.last())
    }
}

/// The part of the report on the state of the engine. There is none without samples.
pub open spec fn states_part(samples: Seq<EngineState>) -> Seq<char> {
    if samples.len() == 0 {
        Seq::empty()
    } else {
        line(
            seq![
                "\n==> ENGINE STATE SAMPLES ("@,
                decimal(samples.len()),
                " total) <=="@,
            ],
        ) + row(
            seq!["ELAPSED"@, "MEMTBL_KB"@, "SST_CNT"@, "RSS_KB"@, "DELTA_KB"@],
            state_widths(),
        ) + state_rows(samples, engine_rows(samples, samples.len() as int))
    }
}

fn push_states(out: &mut String, samples: &Vec<EngineState>)
    requires
        forall|i: int|
            0 <= i < samples@.len() ==> (#[trigger] samples@[i]).rss_kb <= i64::MAX
                && samples@[i].memtable_bytes <= i64::MAX,
    ensures
        final(out)@ == old(out)@ + states_part(samples@),
{
    if samples.len() == 0 {
        assert(out@ + Seq::<char>::empty() =~= out@);
        return ;
    }
    let widths: [usize; 5] = [10, 12, 12, 12, 12];
    assert(widths@ =~= state_widths());
    let parts = vec![
        text("\n==> ENGINE STATE SAMPLES ("),
        decimal_text(samples.len() as u64),
        text(" total) <=="),
    ];
    assert(texts(parts@) =~= seq![
        "\n==> ENGINE STATE SAMPLES ("@,
        decimal(samples@.len()),
        " total) <=="@,
    ]);
    push_line(out, &parts);
    let heads = vec![
        text("ELAPSED"),
        text("MEMTBL_KB"),
        text("SST_CNT"),
        text("RSS_KB"),
        text("DELTA_KB"),
    ];
    assert(texts(heads@) =~= seq!["ELAPSED"@, "MEMTBL_KB"@, "SST_CNT"@, "RSS_KB"@, "DELTA_KB"@]);
    push_row(out, &heads, widths.as_slice());
    let rows = shown_states(samples);
    let ghost start = out@;
    let mut i: usize = 0;
    assert(rows@.take(0) =~= Seq::<EngineRow>::empty());
    assert(start + state_rows(samples@, rows@.take(0)) =~= start);
    while i < rows.len()
        invariant
            i <= rows@.len(),
            widths@ == state_widths(),
            forall|k: int| 0 <= k < rows@.len() ==> (#[trigger] rows@[k]).index < samples@.len(),
            out@ == start + state_rows(samples@, rows@.take(i as int)),
        decreases rows@.len() - i,
    {
        let r = rows[i];
        let cells = vec![
            text(samples[r.index].elapsed.as_str()),
            decimal_text(r.memtable_kb),
            decimal_text(r.sst_count),
            decimal_text(r.rss_kb),
            signed_text(r.delta),
        ];
        assert(texts(cells@) =~= seq![
            samples@[r.index as int].elapsed@,
            decimal(r.memtable_kb as nat),
            decimal(r.sst_count as nat),
            decimal(r.rss_kb as nat),
            signed_decimal(r.delta as int),
        ]);
        push_row(out, &cells, widths.as_slice());
        assert(rows@.take(i + 1).drop_last() =~= rows@.take(i as int));
        assert(out@ =~= start + state_rows(samples@, rows@.take(i + 1)));
        i += 1;
    }
    assert(rows@.take(rows@.len() as int) =~= rows@);
    assert(out@ =~= old(out)@ + states_part(samples@));
}

/// The report on the memory that was used.
pub open spec fn profile_report(
    samples: Seq<RssState>,
    states: Seq<EngineState>,
    p: ProfileText,
) -> Seq<char> {
    if samples.len() == 0 {
        "No memory samples collected.\n"@
    } else {
        profile_part(p, samples.len()) + states_part(states) + "\n==> RSS OVER TIME <==\n"@
            + rss_lines(samples, samples.len() as int)
    }
}

/// The report on the memory that was used.
pub fn new_report_str(samples: &Vec<RssState>, states: &Vec<EngineState>, p: &ProfileText) -> (out:
    String)
    requires
        forall|i: int|
            0 <= i < states@.len() ==> (#[trigger] states@[i]).rss_kb <= i64::MAX
                && states@[i].memtable_bytes <= i64::MAX,
    ensures
        out@ == profile_report(samples@, states@, *p),
{
    if samples.len() == 0 {
        return text("No memory samples collected.\n");
    }
    let mut out = String::new();
    push_profile(&mut out, p, samples.len());
    push_states(&mut out, states);
    out.append("\n==> RSS OVER TIME <==\n");
    push_rss_lines(&mut out, samples);
    assert(out@ =~= profile_report(samples@, states@, *p));
    out
}

/// The lines of a file, with a line feed between each two of them, are the file again, and no
/// line has a line feed in it.
pub proof fn law_lines(b: Seq<u8>, c: Seq<u8>)
    ensures
        (forall|i: int| 0 <= i < b.len() ==> b[i] != 10) ==> lines_of(b) == seq![b],
        lines_of(b + seq![10u8] + c) == lines_of(b) + lines_of(c),
        lines_of(b).len() > 0,
    decreases c.len(),
{
    lemma_lines_nonempty(b);
    if forall|i: int| 0 <= i < b.len() ==> b[i] != 10 {
        lemma_one_line(b);
    }
    lemma_lines_concat(b, c);
}

proof fn lemma_one_line(b: Seq<u8>)
    requires
        forall|i: int| 0 <= i < b.len() ==> b[i] != 10,
    ensures
        lines_of(b) == seq![b],
    decreases b.len(),
{
    if b.len() == 0 {
        assert(b =~= Seq::<u8>::empty());
    } else {
        let front = b.drop_last();
        lemma_one_line(front);
        assert(front.push(b.last()) =~= b);
        assert(lines_of(front).last() == front);
        assert(lines_of(front).drop_last() =~= Seq::<Seq<u8>>::empty());
        assert(b[b.len() - 1] != 10);
        assert(lines_of(b) =~= seq![b]);
    }
}

proof fn lemma_lines_concat(b: Seq<u8>, c: Seq<u8>)
    ensures
        lines_of(b + seq![10u8] + c) == lines_of(b) + lines_of(c),
    decreases c.len(),
{
    let all = b + seq![10u8] + c;
    lemma_lines_nonempty(c);
    if c.len() == 0 {
        assert(all.drop_last() =~= b);
        assert(all.last() == 10);
        assert(lines_of(all) =~= lines_of(b) + lines_of(c));
    } else {
        let front = c.drop_last();
        lemma_lines_concat(b, front);
        lemma_lines_nonempty(front);
        assert(all.drop_last() =~= b + seq![10u8] + front);
        assert(all.last() == c.last());
        let x = lines_of(b) + lines_of(front);
        assert(x.last() == lines_of(front).last());
        assert(x.drop_last() =~= lines_of(b) + lines_of(front).drop_last());
        assert(lines_of(all) =~= lines_of(b) + lines_of(c));
    }
}

/// What stands behind a label is told: the number in the last line that begins with the label.
/// Where no line does, it is zero.
pub proof fn law_labeled(lines: Seq<Seq<u8>>, label: Seq<u8>, i: int)
    ensures
        0 <= i < lines.len() && label.is_prefix_of(lines[i]) && (forall|j: int|
            i < j < lines.len() ==> !label.is_prefix_of(#[trigger] lines[j])) ==> labeled(
            lines,
            label,
        ) == first_number(lines[i].skip(label.len() as int)),
        (forall|j: int| 0 <= j < lines.len() ==> !label.is_prefix_of(#[trigger] lines[j]))
            ==> labeled(lines, label) == 0,
    decreases lines.len(),
{
    if lines.len() > 0 {
        let front = lines.drop_last();
        law_labeled(front, label, i);
        if 0 <= i < lines.len() && label.is_prefix_of(lines[i]) && (forall|j: int|
            i < j < lines.len() ==> !label.is_prefix_of(#[trigger] lines[j])) {
            if i < front.len() {
                assert(!label.is_prefix_of(lines[lines.len() - 1]));
                assert(front[i] == lines[i]);
                assert forall|j: int| i < j < front.len() implies !label.is_prefix_of(
                    #[trigger] front[j],
                ) by {
                    assert(front[j] == lines[j]);
                }
            }
        }
        if forall|j: int| 0 <= j < lines.len() ==> !label.is_prefix_of(#[trigger] lines[j]) {
            assert(!label.is_prefix_of(lines[lines.len() - 1]));
            assert forall|j: int| 0 <= j < front.len() implies !label.is_prefix_of(
                #[trigger] front[j],
            ) by {
                assert(front[j] == lines[j]);
            }
        }
    }
}

/// A number behind blanks and tabs is read up to the blank or tab behind it, or to the end;
/// what follows does not matter.
pub proof fn law_first_number(blanks: Seq<u8>, digits: Seq<u8>, behind: Seq<u8>)
    requires
        forall|i: int| 0 <= i < blanks.len() ==> #[trigger] blanks[i] == 0x20 || blanks[i] == 0x09,
        digits.len() > 0,
        all_digits(digits),
        digits_value(digits) <= u64::MAX,
        behind.len() > 0 ==> behind[0] == 0x20 || behind[0] == 0x09,
    ensures
        first_number(blanks + digits + behind) == digits_value(digits),
{
    let rest = digits + behind;
    lemma_trimmed(blanks, rest);
    assert(blanks + digits + behind =~= blanks + rest);
    assert(rest[0] == digits[0]);
    assert(space_len(rest) == 0);
    lemma_word_len(digits, behind);
    assert(rest.take(digits.len() as int) =~= digits);
    assert(digits[0] != 43);
}

proof fn lemma_trimmed(blanks: Seq<u8>, rest: Seq<u8>)
    requires
        forall|i: int| 0 <= i < blanks.len() ==> #[trigger] blanks[i] == 0x20 || blanks[i] == 0x09,
    ensures
        trimmed(blanks + rest) == trimmed(rest),
    decreases blanks.len(),
{
    if blanks.len() == 0 {
        assert(blanks + rest =~= rest);
    } else {
        let s = blanks + rest;
        assert(s[0] == blanks[0]);
        assert(space_len(s) == 1);
        assert(s.skip(1) =~= blanks.drop_first() + rest);
        lemma_trimmed(blanks.drop_first(), rest);
    }
}

proof fn lemma_word_len(digits: Seq<u8>, behind: Seq<u8>)
    requires
        all_digits(digits),
        behind.len() > 0 ==> behind[0] == 0x20 || behind[0] == 0x09,
    ensures
        word_len(digits + behind) == digits.len(),
    decreases digits.len(),
{
    let s = digits + behind;
    if digits.len() == 0 {
        assert(s =~= behind);
        if behind.len() > 0 {
            assert(space_len(behind) == 1);
        }
    } else {
        assert(s[0] == digits[0]);
        assert(48 <= digits[0] <= 57);
        assert(space_len(s) == 0);
        assert(s.drop_first() =~= digits.drop_first() + behind);
        lemma_word_len(digits.drop_first(), behind);
    }
}

/// The sum of values is what they make added up one after the other.
pub proof fn law_total(v: Seq<u64>)
    ensures
        total(v) == v.fold_left(0, |sum: int, n: u64| sum + n),
    decreases v.len(),
{
    reveal_with_fuel(Seq::fold_left, 2);
    if v.len() > 0 {
        law_total(v.drop_last());
    }
}

/// The first and the last of the samples are always shown, and all of them while there are fewer
/// than forty. Of more, those are shown that are a multiple of a twentieth apart.
pub proof fn law_shown(i: int, n: int)
    requires
        0 <= i < n,
    ensures
        shown(0, n),
        shown(n - 1, n),
        n < 40 ==> shown(i, n),
        n >= 40 && i < n - 1 ==> (shown(i, n) <==> i % (n / 20) == 0),
        n >= 40 && i + n / 20 < n - 1 ==> shown(i + n / 20, n) == shown(i, n),
{
    if n >= 40 {
        let k = n / 20;
        assert(k > 1);
        vstd::arithmetic::div_mod::lemma_mod_add_multiples_vanish(i, k);
        vstd::arithmetic::div_mod::lemma_small_mod(0, k as nat);
    }
}

/// There is a row for each sample that is shown and for no other, in their order, with what the
/// sample holds. The change is from the size of the first memory table.
pub proof fn law_rows(samples: Seq<EngineState>, n: int, i: int)
    requires
        0 <= n <= samples.len() <= usize::MAX,
        forall|j: int|
            0 <= j < samples.len() ==> (#[trigger] samples[j]).rss_kb <= i64::MAX
                && samples[j].memtable_bytes <= i64::MAX,
    ensures
        forall|k: int|
            0 <= k < engine_rows(samples, n).len() ==> (#[trigger] engine_rows(samples, n)[k]).index
                < n && shown(engine_rows(samples, n)[k].index as int, samples.len() as int),
        forall|k: int, l: int|
            0 <= k < l < engine_rows(samples, n).len() ==> (#[trigger] engine_rows(
                samples,
                n,
            )[k]).index < (#[trigger] engine_rows(samples, n)[l]).index,
        0 <= i < n && shown(i, samples.len() as int) ==> exists|k: int|
            0 <= k < engine_rows(samples, n).len() && ({
                let r = #[trigger] engine_rows(samples, n)[k];
                &&& r.index == i
                &&& r.memtable_kb == samples[i].memtable_bytes / 1024
                &&& r.sst_count == samples[i].sst_count
                &&& r.rss_kb == samples[i].rss_kb
                &&& i > 0 ==> r.delta == samples[i].rss_kb - samples[0].memtable_bytes / 1024
                &&& i == 0 ==> r.delta == 0
            }),
    decreases n,
{
    if n > 0 {
        law_rows(samples, n - 1, i);
        let g = engine_rows(samples, n - 1);
        let o = engine_rows(samples, n);
        assert forall|k: int| 0 <= k < o.len() implies (#[trigger] o[k]).index < n && shown(
            o[k].index as int,
            samples.len() as int,
        ) by {
            if k < g.len() {
                assert(o[k] == g[k]);
            }
        }
        assert forall|k: int, l: int| 0 <= k < l < o.len() implies (#[trigger] o[k]).index < (
        #[trigger] o[l]).index by {
            assert(o[k] == g[k]);
            if l < g.len() {
                assert(o[l] == g[l]);
            }
        }
        if 0 <= i < n && shown(i, samples.len() as int) {
            if i < n - 1 {
                let k = choose|k: int|
                    0 <= k < g.len() && ({
                        let r = #[trigger] g[k];
                        &&& r.index == i
                        &&& r.memtable_kb == samples[i].memtable_bytes / 1024
                        &&& r.sst_count == samples[i].sst_count
                        &&& r.rss_kb == samples[i].rss_kb
                        &&& i > 0 ==> r.delta == samples[i].rss_kb - samples[0].memtable_bytes
                            / 1024
                        &&& i == 0 ==> r.delta == 0
                    });
                assert(o[k] == g[k]);
            } else {
                assert(o[o.len() - 1] == engine_row(samples, i));
            }
        }
    }
}

/// What is told of a change: by how much more or less it is than before, where that is known.
/// Up to nine quadrillion it is exact.
pub proof fn law_change(before: u64, now: u64)
    requires
        before < 0x20_0000_0000_0000,
        now < 0x20_0000_0000_0000,
    ensures
        change(None, now).len() == 0,
        now >= before ==> change(Some(before), now) == "+"@ + decimal((now - before) as nat) + "K"@,
        now < before ==> change(Some(before), now) == "-"@ + decimal((before - now) as nat) + "K"@,
{
    law_double_exact(before as nat);
    law_double_exact(now as nat);
    if now >= before {
        law_double_exact((now - before) as nat);
    } else {
        law_double_exact((before - now) as nat);
    }
}

/// A number as a double is a multiple of a power of two that leaves it 53 binary digits, and is
/// no further from the number than half of that; halfway between two, it is the even one.
pub proof fn law_double_near(n: nat)
    ensures
        ({
            let unit = double_unit(n, 1);
            let r = nearest_double(n);
            &&& unit > 0
            &&& n < 0x20_0000_0000_0000 * unit
            &&& unit > 1 ==> n >= 0x10_0000_0000_0000 * unit
            &&& r % unit == 0
            &&& 2 * (r - n) <= unit && 2 * (n - r) <= unit
            &&& (2 * (r - n) == unit || 2 * (n - r) == unit) ==> (r / unit) % 2 == 0
        }),
{
    let unit = double_unit(n, 1);
    lemma_double_unit(n, 1);
    let (count, rest) = (n / unit, n % unit);
    let r = nearest_double(n);
    vstd::arithmetic::div_mod::lemma_fundamental_div_mod(n as int, unit as int);
    assert(unit * count == count * unit) by (nonlinear_arith);
    assert((count + 1) * unit == count * unit + unit) by (nonlinear_arith);
    vstd::arithmetic::div_mod::lemma_mod_multiples_basic(count as int, unit as int);
    vstd::arithmetic::div_mod::lemma_mod_multiples_basic(count as int + 1, unit as int);
    vstd::arithmetic::div_mod::lemma_div_multiples_vanish(count as int, unit as int);
    vstd::arithmetic::div_mod::lemma_div_multiples_vanish(count as int + 1, unit as int);
}

proof fn lemma_double_unit(n: nat, unit: nat)
    requires
        unit > 0,
        unit == 1 || n >= 0x10_0000_0000_0000 * unit,
    ensures
        double_unit(n, unit) > 0,
        n < 0x20_0000_0000_0000 * double_unit(n, unit),
        double_unit(n, unit) > 1 ==> n >= 0x10_0000_0000_0000 * double_unit(n, unit),
    decreases
            (if n > unit {
                n - unit
            } else {
                0
            }),
{
    vstd::arithmetic::div_mod::lemma_fundamental_div_mod(n as int, unit as int);
    vstd::arithmetic::div_mod::lemma_mod_bound(n as int, unit as int);
    let q = n / unit;
    if unit >= n {
    } else if q < 0x20_0000_0000_0000 {
        assert(unit * q + unit <= 0x20_0000_0000_0000 * unit) by (nonlinear_arith)
            requires
                q + 1 <= 0x20_0000_0000_0000,
        ;
    } else {
        assert(unit * q >= 0x20_0000_0000_0000 * unit) by (nonlinear_arith)
            requires
                q >= 0x20_0000_0000_0000,
        ;
        lemma_double_unit(n, 2 * unit);
    }
}

/// What is told of the memory that was measured: the least, the most, the sum, the average and
/// the last, where something was measured.
pub proof fn law_rss_stats(values: Vec<u64>, r: Option<RssStats>, i: int)
    requires
        call_ensures(rss_stats, (&values,), r),
    ensures
        r is None <==> values@.len() == 0,
        r matches Some(s) ==> {
            &&& 0 <= i < values@.len() ==> s.min <= values@[i] <= s.max
            &&& values@.contains(s.min)
            &&& values@.contains(s.max)
            &&& s.sum == values@.fold_left(0, |sum: int, n: u64| sum + n)
            &&& s.avg * values@.len() <= s.sum < (s.avg + 1) * values@.len()
            &&& s.last == values@[values@.len() - 1]
        },
{
    law_total(values@);
    if let Some(s) = r {
        let n = values@.len() as int;
        vstd::arithmetic::div_mod::lemma_fundamental_div_mod(s.sum as int, n);
        vstd::arithmetic::div_mod::lemma_mod_bound(s.sum as int, n);
        assert((s.avg + 1) * n == s.avg * n + n) by (nonlinear_arith);
        assert(n * s.avg == s.avg * n) by (nonlinear_arith);
        if 0 <= i < values@.len() {
            assert(s.min <= values@[i] <= s.max);
        }
    }
}

/// The memory of a process is read from the lines of its status that begin with the labels of
/// the resident, the whole and the data size, in this order.
pub proof fn law_status_read(status: &[u8], r: (u64, u64, u64))
    requires
        call_ensures(parse_vm_rss, (status,), r),
    ensures
        r.0 == labeled(lines_of(status@), encode_utf8("VmRSS:"@)),
        r.1 == labeled(lines_of(status@), encode_utf8("VmSize:"@)),
        r.2 == labeled(lines_of(status@), encode_utf8("VmData:"@)),
{
    reveal_strlit("VmRSS:");
    reveal_strlit("VmSize:");
    reveal_strlit("VmData:");
    is_ascii_chars_encode_utf8("VmRSS:"@);
    is_ascii_chars_encode_utf8("VmSize:"@);
    is_ascii_chars_encode_utf8("VmData:"@);
    assert(encode_utf8("VmRSS:"@) =~= rss_label());
    assert(encode_utf8("VmSize:"@) =~= size_label());
    assert(encode_utf8("VmData:"@) =~= data_label());
}

/// White space is what Unicode says it is: the code points that the bytes spell in UTF-8.
pub proof fn law_white_space(a: u8, b: u8, c: u8, rest: Seq<u8>)
    ensures
        a < 0x80 ==> (space_len(seq![a] + rest) == 1 <==> 9 <= a <= 13 || a == 32),
        a < 0x80 ==> (space_len(seq![a] + rest) == 0 <==> !(9 <= a <= 13 || a == 32)),
        0xC2 <= a <= 0xDF && 0x80 <= b <= 0xBF ==> {
            let code = (a - 0xC0) * 64 + (b - 0x80);
            let n = space_len(seq![a, b] + rest);
            &&& n == 2 <==> code == 0x85 || code == 0xA0
            &&& n == 0 <==> !(code == 0x85 || code == 0xA0)
        },
        0xE0 <= a <= 0xEF && 0x80 <= b <= 0xBF && 0x80 <= c <= 0xBF ==> {
            let code = (a - 0xE0) * 4096 + (b - 0x80) * 64 + (c - 0x80);
            let n = space_len(seq![a, b, c] + rest);
            let white = code == 0x1680 || 0x2000 <= code <= 0x200A || code == 0x2028 || code
                == 0x2029 || code == 0x202F || code == 0x205F || code == 0x3000;
            &&& n == 3 <==> white
            &&& n == 0 <==> !white
        },
{
}

} // verus!
