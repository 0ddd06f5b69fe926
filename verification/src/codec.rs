//! Fixed-width integers as bytes, and the order and search of byte strings.
use vstd::prelude::*;

verus! {

/// The number that the bytes of `s` spell with the most significant byte first.
pub open spec fn be_nat(s: Seq<u8>) -> nat
    decreases s.len(),
{
    if s.len() == 0 {
        0
    } else {
        be_nat(s.drop_last()) * 256 + s.last() as nat
    }
}

/// The last `n` base-256 digits of `v`, most significant first.
pub open spec fn be_bytes(v: nat, n: nat) -> Seq<u8>
    decreases n,
{
    if n == 0 {
        Seq::empty()
    } else {
        be_bytes(v / 256, (n - 1) as nat).push((v % 256) as u8)
    }
}

/// The number that the bytes of `s` spell with the least significant byte first.
pub open spec fn le_nat(s: Seq<u8>) -> nat
    decreases s.len(),
{
    if s.len() == 0 {
        0
    } else {
        le_nat(s.drop_first()) * 256 + s.first() as nat
    }
}

/// The last `n` base-256 digits of `v`, least significant first.
pub open spec fn le_bytes(v: nat, n: nat) -> Seq<u8>
    decreases n,
{
    if n == 0 {
        Seq::empty()
    } else {
        seq![(v % 256) as u8] + le_bytes(v / 256, (n - 1) as nat)
    }
}

/// How many values `n` bytes can spell.
pub open spec fn byte_cap(n: nat) -> nat
    decreases n,
{
    if n == 0 {
        1
    } else {
        256 * byte_cap((n - 1) as nat)
    }
}

/// The two's complement bit pattern of a signed 64-bit value, read as a number.
pub open spec fn i64_bits(x: i64) -> nat {
    if x >= 0 {
        x as nat
    } else {
        (x + 0x1_0000_0000_0000_0000) as nat
    }
}

/// The signed value whose two's complement bit pattern is `n`.
pub open spec fn i64_of_bits(n: nat) -> i64 {
    if n < 0x8000_0000_0000_0000 {
        n as i64
    } else {
        (n - 0x1_0000_0000_0000_0000) as i64
    }
}

/// The bit pattern of a signed value is the value itself, but for a multiple of the number of
/// patterns; the patterns of the negative values are those with the top bit.
pub proof fn law_i64_bits_value(x: i64)
    ensures
        i64_bits(x) - x == 0 || i64_bits(x) - x == 0x1_0000_0000_0000_0000,
        i64_bits(x) < 0x1_0000_0000_0000_0000,
        x < 0 <==> i64_bits(x) >= 0x8000_0000_0000_0000,
{
}

/// `i64_bits` and `i64_of_bits` undo each other.
pub proof fn law_i64_bits_round_trip(x: i64, n: nat)
    requires
        n < 0x1_0000_0000_0000_0000,
    ensures
        i64_bits(x) < 0x1_0000_0000_0000_0000,
        i64_of_bits(i64_bits(x)) == x,
        i64_bits(i64_of_bits(n)) == n,
{
}

pub proof fn lemma_byte_caps()
    ensures
        byte_cap(1) == 0x100,
        byte_cap(4) == 0x1_0000_0000,
        byte_cap(8) == 0x1_0000_0000_0000_0000,
{
    reveal_with_fuel(byte_cap, 9);
}

pub proof fn lemma_be_bytes_len(v: nat, n: nat)
    ensures
        be_bytes(v, n).len() == n,
    decreases n,
{
    if n > 0 {
        lemma_be_bytes_len(v / 256, (n - 1) as nat);
    }
}

pub proof fn lemma_le_bytes_len(v: nat, n: nat)
    ensures
        le_bytes(v, n).len() == n,
    decreases n,
{
    if n > 0 {
        lemma_le_bytes_len(v / 256, (n - 1) as nat);
    }
}

pub proof fn lemma_be_nat_bound(s: Seq<u8>)
    ensures
        be_nat(s) < byte_cap(s.len()),
    decreases s.len(),
{
    if s.len() > 0 {
        lemma_be_nat_bound(s.drop_last());
    }
}

pub proof fn lemma_le_nat_bound(s: Seq<u8>)
    ensures
        le_nat(s) < byte_cap(s.len()),
    decreases s.len(),
{
    if s.len() > 0 {
        lemma_le_nat_bound(s.drop_first());
    }
}

/// Spelling a number big-endian and reading it back gives the number, where it fits.
pub proof fn law_be_round_trip(v: nat, n: nat)
    requires
        v < byte_cap(n),
    ensures
        be_bytes(v, n).len() == n,
        be_nat(be_bytes(v, n)) == v,
    decreases n,
{
    if n > 0 {
        law_be_round_trip(v / 256, (n - 1) as nat);
        assert(be_bytes(v, n).drop_last() =~= be_bytes(v / 256, (n - 1) as nat));
    }
}

/// Spelling a number little-endian and reading it back gives the number, where it fits.
pub proof fn law_le_round_trip(v: nat, n: nat)
    requires
        v < byte_cap(n),
    ensures
        le_bytes(v, n).len() == n,
        le_nat(le_bytes(v, n)) == v,
    decreases n,
{
    if n > 0 {
        law_le_round_trip(v / 256, (n - 1) as nat);
        assert(le_bytes(v, n).drop_first() =~= le_bytes(v / 256, (n - 1) as nat));
    }
}

/// Reading bytes big-endian and spelling the number again gives the bytes.
pub proof fn law_be_bytes_of_nat(s: Seq<u8>)
    ensures
        be_bytes(be_nat(s), s.len()) == s,
    decreases s.len(),
{
    if s.len() > 0 {
        law_be_bytes_of_nat(s.drop_last());
        assert(be_bytes(be_nat(s), s.len()) =~= s);
    } else {
        assert(be_bytes(be_nat(s), s.len()) =~= s);
    }
}

/// Reading bytes little-endian and spelling the number again gives the bytes.
pub proof fn law_le_bytes_of_nat(s: Seq<u8>)
    ensures
        le_bytes(le_nat(s), s.len()) == s,
    decreases s.len(),
{
    if s.len() > 0 {
        law_le_bytes_of_nat(s.drop_first());
        assert(le_bytes(le_nat(s), s.len()) =~= s);
    } else {
        assert(le_bytes(le_nat(s), s.len()) =~= s);
    }
}

/// Bytes in front count for more than those behind them: with one byte put in front, the number
/// grows by that byte as often as there are values of the others.
pub proof fn law_be_first_counts_most(x: u8, s: Seq<u8>)
    ensures
        be_nat(seq![x]) == x,
        be_nat(seq![x] + s) == x * byte_cap(s.len()) + be_nat(s),
        be_nat(s) < byte_cap(s.len()),
{
    lemma_be_nat_bound(s);
    let t = seq![x] + s;
    lemma_be_nat_first(t);
    assert(t.drop_first() =~= s);
    assert(seq![x].drop_last() =~= Seq::<u8>::empty());
    assert(be_nat(Seq::<u8>::empty()) == 0);
}

/// Bytes behind count for more than those in front of them: with one byte put in front, the
/// others are worth 256 times as much.
pub proof fn law_le_first_counts_least(x: u8, s: Seq<u8>)
    ensures
        le_nat(seq![x]) == x,
        le_nat(seq![x] + s) == x + 256 * le_nat(s),
{
    assert((seq![x] + s).drop_first() =~= s);
    assert(seq![x].drop_first() =~= Seq::<u8>::empty());
    assert(le_nat(Seq::<u8>::empty()) == 0);
}

/// `n` bytes spell as many values as 256 to the power of `n`.
pub proof fn law_byte_cap(n: nat)
    ensures
        byte_cap(n) == vstd::arithmetic::power::pow(256, n),
    decreases n,
{
    reveal(vstd::arithmetic::power::pow);
    if n > 0 {
        law_byte_cap((n - 1) as nat);
    }
}

/// Appends the last `n` base-256 digits of `x`, most significant first.
pub fn put_be(out: &mut Vec<u8>, x: u64, n: usize)
    ensures
        final(out)@ == old(out)@ + be_bytes(x as nat, n as nat),
    decreases n,
{
    if n > 0 {
        put_be(out, x / 256, n - 1);
        out.push((x % 256) as u8);
    }
    assert(out@ =~= old(out)@ + be_bytes(x as nat, n as nat));
}

/// Appends the last `n` base-256 digits of `x`, least significant first.
pub fn put_le(out: &mut Vec<u8>, x: u64, n: usize)
    ensures
        final(out)@ == old(out)@ + le_bytes(x as nat, n as nat),
    decreases n,
{
    if n > 0 {
        out.push((x % 256) as u8);
        put_le(out, x / 256, n - 1);
    }
    assert(out@ =~= old(out)@ + le_bytes(x as nat, n as nat));
}

/// Reads `n` bytes of `s` from `at` on, most significant first.
pub fn get_be(s: &[u8], at: usize, n: usize) -> (x: u64)
    requires
        at + n <= s@.len(),
        n <= 8,
    ensures
        x as nat == be_nat(s@.subrange(at as int, at + n)),
{
    let total: usize = s.len();
    let mut x: u64 = 0;
    let mut i: usize = 0;
    while i < n
        invariant
            i <= n <= 8,
            at + n <= total == s@.len(),
            x as nat == be_nat(s@.subrange(at as int, at + i)),
        decreases n - i,
    {
        proof {
            reveal_with_fuel(byte_cap, 9);
            lemma_be_nat_bound(s@.subrange(at as int, at + i));
            assert(s@.subrange(at as int, at + i + 1).drop_last() =~= s@.subrange(
                at as int,
                at + i,
            ));
        }
        x = x * 256 + s[at + i] as u64;
        i += 1;
    }
    x
}

/// Reads `n` bytes of `s` from `at` on, least significant first.
pub fn get_le(s: &[u8], at: usize, n: usize) -> (x: u64)
    requires
        at + n <= s@.len(),
        n <= 8,
    ensures
        x as nat == le_nat(s@.subrange(at as int, at + n)),
    decreases n,
{
    if n == 0 {
        0
    } else {
        let total: usize = s.len();
        assert(at < total);
        let rest: u64 = get_le(s, at + 1, n - 1);
        proof {
            reveal_with_fuel(byte_cap, 9);
            lemma_le_nat_bound(s@.subrange(at + 1, at + n));
            assert(s@.subrange(at as int, at + n).drop_first() =~= s@.subrange(at + 1, at + n));
        }
        rest * 256 + s[at] as u64
    }
}

/// The two's complement bit pattern of `x` as an unsigned value.
pub fn bits_of_i64(x: i64) -> (n: u64)
    ensures
        n as nat == i64_bits(x),
{
    if x >= 0 {
        x as u64
    } else {
        (x - i64::MIN) as u64 + 0x8000_0000_0000_0000
    }
}

/// The signed value with the two's complement bit pattern `n`.
pub fn i64_from_bits(n: u64) -> (x: i64)
    ensures
        x == i64_of_bits(n as nat),
{
    if n < 0x8000_0000_0000_0000 {
        n as i64
    } else {
        (n - 0x8000_0000_0000_0000) as i64 + i64::MIN
    }
}

/// The order of byte strings: by the first byte in which they differ, a proper prefix first.
pub open spec fn bytes_lt(a: Seq<u8>, b: Seq<u8>) -> bool
    decreases a.len(),
{
    if b.len() == 0 {
        false
    } else if a.len() == 0 {
        true
    } else if a[0] != b[0] {
        a[0] < b[0]
    } else {
        bytes_lt(a.drop_first(), b.drop_first())
    }
}

/// The first byte in which two byte strings differ decides which of them comes first, whatever
/// stands behind it. A string comes before every one that goes on where it ends.
pub proof fn law_bytes_lt_decided(front: Seq<u8>, x: u8, y: u8, s: Seq<u8>, t: Seq<u8>)
    ensures
        x != y ==> (bytes_lt(front + seq![x] + s, front + seq![y] + t) <==> x < y),
        bytes_lt(front, front + seq![x] + s),
        !bytes_lt(front + seq![x] + s, front),
        !bytes_lt(front, front),
    decreases front.len(),
{
    let a = front + seq![x] + s;
    let b = front + seq![y] + t;
    if front.len() > 0 {
        let rest = front.drop_first();
        law_bytes_lt_decided(rest, x, y, s, t);
        assert(a.drop_first() =~= rest + seq![x] + s);
        assert(b.drop_first() =~= rest + seq![y] + t);
    }
}

/// What stands behind two byte strings of one length does not matter where they differ.
pub proof fn lemma_bytes_lt_extended(a: Seq<u8>, b: Seq<u8>, s: Seq<u8>, t: Seq<u8>)
    requires
        a.len() == b.len(),
        bytes_lt(a, b),
    ensures
        bytes_lt(a + s, b + t),
    decreases a.len(),
{
    if a[0] == b[0] {
        lemma_bytes_lt_extended(a.drop_first(), b.drop_first(), s, t);
        assert((a + s).drop_first() =~= a.drop_first() + s);
        assert((b + t).drop_first() =~= b.drop_first() + t);
    }
}

/// What stands in front of two byte strings does not matter where it is the same.
pub proof fn lemma_bytes_lt_behind(front: Seq<u8>, a: Seq<u8>, b: Seq<u8>)
    requires
        bytes_lt(a, b),
    ensures
        bytes_lt(front + a, front + b),
    decreases front.len(),
{
    if front.len() == 0 {
        assert(front + a =~= a);
        assert(front + b =~= b);
    } else {
        lemma_bytes_lt_behind(front.drop_first(), a, b);
        assert((front + a).drop_first() =~= front.drop_first() + a);
        assert((front + b).drop_first() =~= front.drop_first() + b);
    }
}

/// Of two byte strings exactly one comes first, or they are equal.
pub proof fn law_bytes_lt_total(a: Seq<u8>, b: Seq<u8>)
    ensures
        bytes_lt(a, b) || bytes_lt(b, a) || a == b,
        !(bytes_lt(a, b) && bytes_lt(b, a)),
        a == b ==> !bytes_lt(a, b),
    decreases a.len(),
{
    if a.len() == 0 || b.len() == 0 {
        if a.len() == b.len() {
            assert(a =~= b);
        }
    } else if a[0] == b[0] {
        law_bytes_lt_total(a.drop_first(), b.drop_first());
        if a.drop_first() == b.drop_first() {
            assert(a =~= seq![a[0]] + a.drop_first());
            assert(b =~= seq![b[0]] + b.drop_first());
        }
    }
}

/// The order of byte strings is transitive.
pub proof fn law_bytes_lt_transitive(a: Seq<u8>, b: Seq<u8>, c: Seq<u8>)
    requires
        bytes_lt(a, b),
        bytes_lt(b, c),
    ensures
        bytes_lt(a, c),
    decreases a.len(),
{
    if a.len() > 0 && a[0] == b[0] && b[0] == c[0] {
        law_bytes_lt_transitive(a.drop_first(), b.drop_first(), c.drop_first());
    }
}

proof fn lemma_be_nat_first(s: Seq<u8>)
    requires
        s.len() > 0,
    ensures
        be_nat(s) == s[0] * byte_cap((s.len() - 1) as nat) + be_nat(s.drop_first()),
    decreases s.len(),
{
    if s.len() == 1 {
        assert(s.drop_last() =~= Seq::<u8>::empty());
        assert(s.drop_first() =~= Seq::<u8>::empty());
        assert(be_nat(Seq::<u8>::empty()) == 0);
        assert(s[0] * byte_cap(0) == s[0]) by (nonlinear_arith)
            requires
                byte_cap(0) == 1,
        ;
    } else {
        let d = s.drop_last();
        lemma_be_nat_first(d);
        let c = byte_cap((s.len() - 2) as nat);
        assert(s.drop_first().drop_last() =~= d.drop_first());
        assert(s.drop_first().last() == s.last());
        assert(d[0] == s[0]);
        assert(byte_cap((s.len() - 1) as nat) == 256 * c);
        assert(be_nat(s) == be_nat(d) * 256 + s.last());
        assert((s[0] * c + be_nat(d.drop_first())) * 256 == s[0] * (256 * c) + be_nat(
            d.drop_first(),
        ) * 256) by (nonlinear_arith);
    }
}

/// Byte strings of one length are ordered as the numbers they spell big-endian.
pub proof fn law_be_order(a: Seq<u8>, b: Seq<u8>)
    requires
        a.len() == b.len(),
    ensures
        bytes_lt(a, b) <==> be_nat(a) < be_nat(b),
    decreases a.len(),
{
    if a.len() > 0 {
        lemma_be_nat_first(a);
        lemma_be_nat_first(b);
        law_be_order(a.drop_first(), b.drop_first());
        let c = byte_cap((a.len() - 1) as nat);
        lemma_be_nat_bound(a.drop_first());
        lemma_be_nat_bound(b.drop_first());
        if a[0] < b[0] {
            assert((a[0] + 1) * c <= b[0] * c) by (nonlinear_arith)
                requires
                    a[0] < b[0],
            ;
            assert((a[0] + 1) * c == a[0] * c + c) by (nonlinear_arith);
        } else if b[0] < a[0] {
            assert((b[0] + 1) * c <= a[0] * c) by (nonlinear_arith)
                requires
                    b[0] < a[0],
            ;
            assert((b[0] + 1) * c == b[0] * c + c) by (nonlinear_arith);
        }
    }
}

/// Whether `needle` stands in `hay` as a run of consecutive bytes.
pub open spec fn contains_bytes(hay: Seq<u8>, needle: Seq<u8>) -> bool {
    exists|i: int|
        0 <= i <= hay.len() - needle.len() && #[trigger] hay.subrange(i, i + needle.len()) == needle
}

/// A byte string stands in just those that are something before it, then it, then something
/// behind it.
pub proof fn law_contains_anywhere(hay: Seq<u8>, needle: Seq<u8>)
    ensures
        contains_bytes(hay, needle) <==> exists|a: Seq<u8>, c: Seq<u8>|
            hay == #[trigger] (a + needle + c),
{
    if contains_bytes(hay, needle) {
        let i = choose|i: int|
            0 <= i <= hay.len() - needle.len() && #[trigger] hay.subrange(i, i + needle.len())
                == needle;
        assert(hay =~= hay.take(i) + needle + hay.skip(i + needle.len()));
    }
    if exists|a: Seq<u8>, c: Seq<u8>| hay == #[trigger] (a + needle + c) {
        let (a, c) = choose|a: Seq<u8>, c: Seq<u8>| hay == #[trigger] (a + needle + c);
        law_contains_between(a, needle, c);
    }
}

/// Whatever stands before and behind a byte string, it is found.
pub proof fn law_contains_between(a: Seq<u8>, needle: Seq<u8>, c: Seq<u8>)
    ensures
        contains_bytes(a + needle + c, needle),
{
    let hay = a + needle + c;
    assert(hay.subrange(a.len() as int, (a.len() + needle.len()) as int) =~= needle);
}

/// Whether two slices hold the same bytes.
pub fn bytes_equal(a: &[u8], b: &[u8]) -> (r: bool)
    ensures
        r == (a@ == b@),
{
    if a.len() != b.len() {
        return false;
    }
    let mut i: usize = 0;
    while i < a.len()
        invariant
            i <= a@.len() == b@.len(),
            forall|j: int| 0 <= j < i ==> a@[j] == b@[j],
        decreases a@.len() - i,
    {
        if a[i] != b[i] {
            return false;
        }
        i += 1;
    }
    assert(a@ =~= b@);
    true
}

/// Whether `a` comes before `b` in the order of byte strings.
pub fn bytes_before(a: &[u8], b: &[u8]) -> (r: bool)
    ensures
        r == bytes_lt(a@, b@),
{
    let mut i: usize = 0;
    assert(a@.subrange(0, a@.len() as int) =~= a@);
    assert(b@.subrange(0, b@.len() as int) =~= b@);
    while i < a.len() && i < b.len() && a[i] == b[i]
        invariant
            i <= a@.len(),
            i <= b@.len(),
            bytes_lt(a@, b@) == bytes_lt(
                a@.subrange(i as int, a@.len() as int),
                b@.subrange(i as int, b@.len() as int),
            ),
        decreases a@.len() - i,
    {
        assert(a@.subrange(i as int, a@.len() as int).drop_first() =~= a@.subrange(
            i + 1,
            a@.len() as int,
        ));
        assert(b@.subrange(i as int, b@.len() as int).drop_first() =~= b@.subrange(
            i + 1,
            b@.len() as int,
        ));
        i += 1;
    }
    if i >= b.len() {
        false
    } else if i >= a.len() {
        true
    } else {
        a[i] < b[i]
    }
}

/// Whether `needle` stands in `hay` at position `at`.
fn matches_at(hay: &[u8], needle: &[u8], at: usize) -> (r: bool)
    requires
        at + needle@.len() <= hay@.len(),
    ensures
        r == (hay@.subrange(at as int, at + needle@.len()) == needle@),
{
    let total: usize = hay.len();
    let mut j: usize = 0;
    while j < needle.len()
        invariant
            j <= needle@.len(),
            at + needle@.len() <= total == hay@.len(),
            forall|k: int| 0 <= k < j ==> hay@[at + k] == needle@[k],
        decreases needle@.len() - j,
    {
        if hay[at + j] != needle[j] {
            assert(hay@.subrange(at as int, at + needle@.len())[j as int] != needle@[j as int]);
            return false;
        }
        j += 1;
    }
    assert(hay@.subrange(at as int, at + needle@.len()) =~= needle@);
    true
}

/// Whether `needle` stands in `hay` as a run of consecutive bytes.
pub fn find_bytes(hay: &[u8], needle: &[u8]) -> (r: bool)
    ensures
        r == contains_bytes(hay@, needle@),
{
    if needle.len() > hay.len() {
        return false;
    }
    let mut i: usize = 0;
    while i <= hay.len() - needle.len()
        invariant
            needle@.len() <= hay@.len(),
            i <= hay@.len() - needle@.len() + 1,
            forall|k: int|
                0 <= k < i ==> #[trigger] hay@.subrange(k, k + needle@.len()) != needle@,
        decreases hay@.len() - needle@.len() + 1 - i,
    {
        if matches_at(hay, needle, i) {
            return true;
        }
        if i == hay.len() - needle.len() {
            assert(forall|k: int|
                0 <= k <= i ==> #[trigger] hay@.subrange(k, k + needle@.len()) != needle@);
            return false;
        }
        i += 1;
    }
    false
}

/// Byte strings are searched and compared as stated: one is found just where it stands with
/// something before and something behind it, and the one that comes first is told.
pub proof fn law_bytes_searched(
    hay: &[u8],
    needle: &[u8],
    found: bool,
    first: bool,
    same: bool,
)
    requires
        call_ensures(find_bytes, (hay, needle), found),
        call_ensures(bytes_before, (hay, needle), first),
        call_ensures(bytes_equal, (hay, needle), same),
    ensures
        found <==> exists|a: Seq<u8>, c: Seq<u8>| hay@ == #[trigger] (a + needle@ + c),
        same <==> hay@ == needle@,
        first <==> bytes_lt(hay@, needle@),
        first ==> !same,
{
    law_contains_anywhere(hay@, needle@);
    law_bytes_lt_total(hay@, needle@);
}

/// A number that is put behind other bytes is read again from there, in either order of bytes.
pub proof fn law_number_put_and_read(
    big: &mut Vec<u8>,
    little: &mut Vec<u8>,
    x: u64,
    b: &[u8],
    at: usize,
    r: u64,
    l: &[u8],
    lat: usize,
    lr: u64,
)
    requires
        call_ensures(put_be, (big, x, 8usize), ()),
        call_ensures(put_le, (little, x, 8usize), ()),
        b@ == final(big)@,
        l@ == final(little)@,
        at == old(big)@.len(),
        lat == old(little)@.len(),
        call_ensures(get_be, (b, at, 8usize), r),
        call_ensures(get_le, (l, lat, 8usize), lr),
    ensures
        r == x,
        lr == x,
        final(big)@.take(at as int) == old(big)@,
        final(little)@.take(lat as int) == old(little)@,
        final(big)@.len() == at + 8,
{
    lemma_byte_caps();
    law_be_round_trip(x as nat, 8);
    law_le_round_trip(x as nat, 8);
    assert(b@.subrange(at as int, at + 8) =~= be_bytes(x as nat, 8));
    assert(l@.subrange(lat as int, lat + 8) =~= le_bytes(x as nat, 8));
    assert(final(big)@.take(at as int) =~= old(big)@);
    assert(final(little)@.take(lat as int) =~= old(little)@);
}

} // verus!
