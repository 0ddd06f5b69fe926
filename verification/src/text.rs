//! Text and its UTF-8 bytes.
use vstd::prelude::*;
use vstd::string::{StrSliceExecFns, StringExecFns};
use vstd::utf8::{
    decode_utf8, encode_utf8, encode_utf8_decode_utf8, is_ascii_chars, is_ascii_chars_encode_utf8,
    valid_utf8,
};

use crate::codec::{bytes_equal, bytes_lt, lemma_bytes_lt_behind, lemma_bytes_lt_extended};

verus! {

/// How many of the bytes at the beginning of `b` are valid UTF-8 at most.
pub open spec fn valid_len(b: Seq<u8>) -> nat
    decreases b.len(),
{
    if b.len() == 0 || valid_utf8(b) {
        b.len()
    } else {
        valid_len(b.drop_last())
    }
}

/// What `Utf8Error::error_len` gives for bytes that are not UTF-8: how many bytes behind the
/// valid ones belong to no character, or nothing where the last character is cut short.
pub uninterp spec fn bad_len(b: Seq<u8>) -> Option<usize>;

/// Where bytes are not UTF-8.
#[derive(Clone, Copy, Debug, PartialEq, Eq, Structural)]
pub struct Utf8Fault {
    /// How many bytes are valid.
    pub valid: usize,
    /// How many bytes behind them belong to no character, unless the last is cut short.
    pub bad: Option<usize>,
}

/// Where the bytes are not UTF-8.
pub open spec fn utf8_fault(b: Seq<u8>) -> Utf8Fault {
    Utf8Fault { valid: valid_len(b) as usize, bad: bad_len(b) }
}

/// `String::from_utf8`: a string comes back exactly where the bytes are valid UTF-8, and it
/// holds the characters that they encode. Else `valid_up_to` of the error is the length of the
/// longest valid beginning, and its `error_len` depends on the bytes alone.
#[verifier::external_body]
pub(crate) fn string_from_utf8(bytes: Vec<u8>) -> (r: Result<String, Utf8Fault>)
    ensures
        r is Ok <==> valid_utf8(bytes@),
        r matches Ok(s) ==> s@ == decode_utf8(bytes@),
        r matches Err(f) ==> f.valid == valid_len(bytes@) && f.bad == bad_len(bytes@),
{
    match String::from_utf8(bytes) {
        Ok(s) => Ok(s),
        Err(e) => {
            let e = e.utf8_error();
            Err(Utf8Fault { valid: e.valid_up_to(), bad: e.error_len() })
        },
    }
}

/// The bytes of `s` from `from` to `to`, as a vector of their own.
pub fn copy_range(s: &[u8], from: usize, to: usize) -> (v: Vec<u8>)
    requires
        from <= to <= s@.len(),
    ensures
        v@ == s@.subrange(from as int, to as int),
{
    let mut v: Vec<u8> = Vec::new();
    let mut i: usize = from;
    while i < to
        invariant
            from <= i <= to <= s@.len(),
            v@ == s@.subrange(from as int, i as int),
        decreases to - i,
    {
        v.push(s[i]);
        i += 1;
        assert(v@ =~= s@.subrange(from as int, i as int));
    }
    assert(v@ =~= s@.subrange(from as int, to as int));
    v
}

/// The bytes of `s` as a vector of their own.
pub fn copy_bytes(s: &[u8]) -> (v: Vec<u8>)
    ensures
        v@ == s@,
{
    let v = copy_range(s, 0, s.len());
    assert(v@ =~= s@);
    v
}

/// The text that the bytes of `s` encode, where they are valid UTF-8.
pub fn text_of(s: &[u8]) -> (r: Option<String>)
    ensures
        r is Some <==> valid_utf8(s@),
        r matches Some(t) ==> t@ == decode_utf8(s@),
{
    match string_from_utf8(copy_bytes(s)) {
        Ok(t) => Some(t),
        Err(_) => None,
    }
}

/// The text that the bytes of `s` encode, or where they are not UTF-8.
pub fn checked_text(s: &[u8]) -> (r: Result<String, Utf8Fault>)
    ensures
        r is Ok <==> valid_utf8(s@),
        r matches Ok(t) ==> t@ == decode_utf8(s@),
        r matches Err(f) ==> f == utf8_fault(s@),
{
    string_from_utf8(copy_bytes(s))
}

/// What is told of bytes that are not UTF-8.
pub open spec fn fault_message(f: Utf8Fault) -> Seq<char> {
    match f.bad {
        Some(n) => "invalid utf-8 sequence of "@ + decimal(n as nat) + " bytes from index "@
            + decimal(f.valid as nat),
        None => "incomplete utf-8 byte sequence from index "@ + decimal(f.valid as nat),
    }
}

impl Utf8Fault {
    /// What is told of bytes that are not UTF-8.
    pub fn message(&self) -> (r: String)
        ensures
            r@ == fault_message(*self),
    {
        match self.bad {
            Some(n) => {
                let mut r = text("invalid utf-8 sequence of ");
                push_decimal(&mut r, n as u64);
                r.append(" bytes from index ");
                push_decimal(&mut r, self.valid as u64);
                r
            },
            None => {
                let mut r = text("incomplete utf-8 byte sequence from index ");
                push_decimal(&mut r, self.valid as u64);
                r
            },
        }
    }
}

/// Whether two texts are the same.
pub fn same_text(a: &str, b: &str) -> (r: bool)
    ensures
        r == (a@ == b@),
{
    let r = bytes_equal(a.as_bytes(), b.as_bytes());
    proof {
        encode_utf8_decode_utf8(a@);
        encode_utf8_decode_utf8(b@);
    }
    r
}

/// The decimal digit of `d`.
pub open spec fn digit_char(d: nat) -> char {
    if d == 0 {
        '0'
    } else if d == 1 {
        '1'
    } else if d == 2 {
        '2'
    } else if d == 3 {
        '3'
    } else if d == 4 {
        '4'
    } else if d == 5 {
        '5'
    } else if d == 6 {
        '6'
    } else if d == 7 {
        '7'
    } else if d == 8 {
        '8'
    } else {
        '9'
    }
}

/// The decimal digits of `n`, without leading zeros.
pub open spec fn decimal(n: nat) -> Seq<char>
    decreases n,
{
    if n < 10 {
        seq![digit_char(n)]
    } else {
        decimal(n / 10).push(digit_char(n % 10))
    }
}

/// The character `c`, `n` times.
pub open spec fn run_of(c: char, n: nat) -> Seq<char> {
    Seq::new(n, |i: int| c)
}

/// `s` with as many of `c` in front as make it `width` characters long.
pub open spec fn padded(s: Seq<char>, width: nat, c: char) -> Seq<char> {
    if s.len() < width {
        run_of(c, (width - s.len()) as nat) + s
    } else {
        s
    }
}

fn digit_text(d: u64) -> (s: &'static str)
    requires
        d < 10,
    ensures
        s@ == seq![digit_char(d as nat)],
{
    proof {
        reveal_strlit("0");
        reveal_strlit("1");
        reveal_strlit("2");
        reveal_strlit("3");
        reveal_strlit("4");
        reveal_strlit("5");
        reveal_strlit("6");
        reveal_strlit("7");
        reveal_strlit("8");
        reveal_strlit("9");
    }
    let s = match d {
        0 => "0",
        1 => "1",
        2 => "2",
        3 => "3",
        4 => "4",
        5 => "5",
        6 => "6",
        7 => "7",
        8 => "8",
        _ => "9",
    };
    assert(s@ =~= seq![digit_char(d as nat)]);
    s
}

/// Appends the decimal digits of `n`.
pub fn push_decimal(out: &mut String, n: u64)
    ensures
        final(out)@ == old(out)@ + decimal(n as nat),
{
    push_wide_decimal(out, n as u128);
}

pub fn decimal_text(n: u64) -> (s: String)
    ensures
        s@ == decimal(n as nat),
{
    let mut s = String::new();
    push_decimal(&mut s, n);
    assert(s@ =~= decimal(n as nat));
    s
}

/// Appends the decimal digits of `n`.
pub fn push_wide_decimal(out: &mut String, n: u128)
    ensures
        final(out)@ == old(out)@ + decimal(n as nat),
    decreases n,
{
    if n < 10 {
        out.append(digit_text(n as u64));
    } else {
        push_wide_decimal(out, n / 10);
        let ghost mid = out@;
        out.append(digit_text((n % 10) as u64));
        assert(mid + seq![digit_char((n % 10) as nat)] =~= old(out)@ + decimal(n as nat));
    }
}

/// The decimal digits of `n` with zeros in front that make them at least `width` long.
pub fn zero_padded(n: u64, width: usize) -> (s: String)
    ensures
        s@ == padded(decimal(n as nat), width as nat, '0'),
{
    let digits = decimal_text(n);
    let len: usize = digits.as_str().unicode_len();
    let mut s = String::new();
    let mut i: usize = len;
    proof {
        reveal_strlit("0");
    }
    assert(s@ =~= run_of('0', 0));
    while i < width
        invariant
            len == decimal(n as nat).len(),
            i >= len,
            len < width ==> i <= width,
            len >= width ==> i == len,
            s@ == run_of('0', (i - len) as nat),
            "0"@ =~= seq!['0'],
        decreases width - i,
    {
        s.append("0");
        i += 1;
        assert(s@ =~= run_of('0', (i - len) as nat));
    }
    s.append(digits.as_str());
    assert(s@ =~= padded(decimal(n as nat), width as nat, '0'));
    s
}

/// The decimal digits of `n`, behind a minus sign where it is negative.
pub open spec fn signed_decimal(n: int) -> Seq<char> {
    if n < 0 {
        seq!['-'] + decimal((-n) as nat)
    } else {
        decimal(n as nat)
    }
}

/// The decimal digits of `n`, behind a minus sign where it is negative.
pub fn signed_text(n: i64) -> (s: String)
    ensures
        s@ == signed_decimal(n as int),
{
    if n < 0 {
        let mut s = String::from_str("-");
        let magnitude: u64 = (-(n + 1)) as u64 + 1;
        push_decimal(&mut s, magnitude);
        proof {
            reveal_strlit("-");
        }
        assert(s@ =~= signed_decimal(n as int));
        s
    } else {
        decimal_text(n as u64)
    }
}

/// Appends `s` with as many spaces in front as make it `width` characters long.
pub fn push_padded(out: &mut String, s: &str, width: usize)
    ensures
        final(out)@ == old(out)@ + padded(s@, width as nat, ' '),
{
    let len: usize = s.unicode_len();
    let mut i: usize = len;
    let ghost start = out@;
    proof {
        reveal_strlit(" ");
    }
    assert(start + run_of(' ', 0) =~= start);
    while i < width
        invariant
            len == s@.len(),
            i >= len,
            len < width ==> i <= width,
            len >= width ==> i == len,
            out@ == start + run_of(' ', (i - len) as nat),
            " "@ =~= seq![' '],
        decreases width - i,
    {
        out.append(" ");
        i += 1;
        assert(out@ =~= start + run_of(' ', (i - len) as nat));
    }
    out.append(s);
    assert(out@ =~= start + padded(s@, width as nat, ' '));
}

/// `s` with as many of `c` behind it as make it `width` characters long.
pub open spec fn filled(s: Seq<char>, width: nat, c: char) -> Seq<char> {
    if s.len() < width {
        s + run_of(c, (width - s.len()) as nat)
    } else {
        s
    }
}

/// `s` with as many spaces behind it as make it `width` characters long.
pub fn left_text(s: &str, width: usize) -> (r: String)
    ensures
        r@ == filled(s@, width as nat, ' '),
{
    proof {
        reveal_strlit(" ");
        assert(" "@ =~= seq![' ']);
    }
    filled_text(s, width, " ", Ghost(' '))
}

/// `s` with as many of the one character of `fill` behind it as make it `width` characters
/// long.
fn filled_text(s: &str, width: usize, fill: &str, Ghost(c): Ghost<char>) -> (r: String)
    requires
        fill@ == seq![c],
    ensures
        r@ == filled(s@, width as nat, c),
{
    let mut r = String::from_str(s);
    let len: usize = s.unicode_len();
    let mut i: usize = len;
    assert(s@ + run_of(c, 0) =~= s@);
    while i < width
        invariant
            len == s@.len(),
            i >= len,
            len < width ==> i <= width,
            len >= width ==> i == len,
            fill@ == seq![c],
            r@ == s@ + run_of(c, (i - len) as nat),
        decreases width - i,
    {
        r.append(fill);
        i += 1;
        assert(r@ =~= s@ + run_of(c, (i - len) as nat));
    }
    assert(r@ =~= filled(s@, width as nat, c));
    r
}

/// `s` with as many dashes behind it as make it `width` characters long.
pub fn dashed_text(s: &str, width: usize) -> (r: String)
    ensures
        r@ == filled(s@, width as nat, '-'),
{
    proof {
        reveal_strlit("-");
        assert("-"@ =~= seq!['-']);
    }
    filled_text(s, width, "-", Ghost('-'))
}

/// `s` with as many spaces in front as make it `width` characters long.
pub fn right_text(s: &str, width: usize) -> (r: String)
    ensures
        r@ == padded(s@, width as nat, ' '),
{
    let mut r = String::new();
    push_padded(&mut r, s, width);
    assert(r@ =~= padded(s@, width as nat, ' '));
    r
}

/// The texts one behind the other.
pub open spec fn cat(parts: Seq<Seq<char>>) -> Seq<char>
    decreases parts.len(),
{
    if parts.len() == 0 {
        Seq::empty()
    } else {
        cat(parts.drop_last()) + parts.last()
    }
}

/// The texts one behind the other, as a line.
pub open spec fn line(parts: Seq<Seq<char>>) -> Seq<char> {
    cat(parts).push('\n')
}

/// The texts one behind the other.
pub fn cat_text(parts: &Vec<String>) -> (r: String)
    ensures
        r@ == cat(texts(parts@)),
{
    let ghost all = texts(parts@);
    let mut r = String::new();
    let mut i: usize = 0;
    assert(all.take(0) =~= Seq::<Seq<char>>::empty());
    assert(r@ =~= cat(all.take(0)));
    while i < parts.len()
        invariant
            i <= parts@.len(),
            all == texts(parts@),
            r@ == cat(all.take(i as int)),
        decreases parts@.len() - i,
    {
        r.append(parts[i].as_str());
        assert(all.take(i + 1).drop_last() =~= all.take(i as int));
        assert(all.take(i + 1).last() == parts@[i as int]@);
        i += 1;
    }
    assert(all.take(all.len() as int) =~= all);
    r
}

/// Appends the texts one behind the other, as a line.
pub fn push_line(out: &mut String, parts: &Vec<String>)
    ensures
        final(out)@ == old(out)@ + line(texts(parts@)),
{
    let s = cat_text(parts);
    out.append(s.as_str());
    out.append("\n");
    proof {
        reveal_strlit("\n");
    }
    assert(out@ =~= old(out)@ + line(texts(parts@)));
}

/// A text of its own with the characters of `s`.
pub fn text(s: &str) -> (r: String)
    ensures
        r@ == s@,
{
    String::from_str(s)
}

/// The texts with `sep` between them.
pub open spec fn joined(parts: Seq<Seq<char>>, sep: Seq<char>) -> Seq<char>
    decreases parts.len(),
{
    if parts.len() == 0 {
        Seq::empty()
    } else if parts.len() == 1 {
        parts[0]
    } else {
        joined(parts.drop_last(), sep) + sep + parts.last()
    }
}

/// The texts with `sep` between them.
pub fn join_texts(parts: &Vec<String>, sep: &str) -> (r: String)
    ensures
        r@ == joined(texts(parts@), sep@),
{
    let ghost all = texts(parts@);
    let mut r = String::new();
    let mut i: usize = 0;
    assert(all.take(0) =~= Seq::<Seq<char>>::empty());
    assert(r@ =~= joined(all.take(0), sep@));
    while i < parts.len()
        invariant
            i <= parts@.len(),
            all == texts(parts@),
            r@ == joined(all.take(i as int), sep@),
        decreases parts@.len() - i,
    {
        let ghost before = r@;
        if i > 0 {
            r.append(sep);
        }
        r.append(parts[i].as_str());
        proof {
            assert(all.take(i + 1).drop_last() =~= all.take(i as int));
            assert(all.take(i + 1).last() == parts@[i as int]@);
            assert(r@ =~= joined(all.take(i + 1), sep@));
        }
        i += 1;
    }
    assert(all.take(all.len() as int) =~= all);
    r
}

/// The characters of each text.
pub open spec fn texts(v: Seq<String>) -> Seq<Seq<char>> {
    Seq::new(v.len(), |i: int| v[i]@)
}

/// The cells of a table row, each right-aligned to its width, with one space between them.
pub open spec fn row_cells(cells: Seq<Seq<char>>, widths: Seq<usize>) -> Seq<char>
    decreases cells.len(),
{
    if cells.len() == 0 {
        Seq::empty()
    } else {
        let last = padded(cells.last(), widths[cells.len() - 1] as nat, ' ');
        if cells.len() == 1 {
            last
        } else {
            row_cells(cells.drop_last(), widths) + seq![' '] + last
        }
    }
}

/// A line of a table: its cells, each right-aligned to its width.
pub open spec fn row(cells: Seq<Seq<char>>, widths: Seq<usize>) -> Seq<char> {
    row_cells(cells, widths).push('\n')
}

/// Appends a line of a table.
pub fn push_row(out: &mut String, cells: &Vec<String>, widths: &[usize])
    requires
        cells@.len() == widths@.len(),
    ensures
        final(out)@ == old(out)@ + row(texts(cells@), widths@),
{
    let ghost start = out@;
    let ghost all = texts(cells@);
    let mut i: usize = 0;
    proof {
        reveal_strlit(" ");
        reveal_strlit("\n");
        assert(all.take(0) =~= Seq::<Seq<char>>::empty());
        assert(start + row_cells(all.take(0), widths@) =~= start);
    }
    while i < cells.len()
        invariant
            i <= cells@.len() == widths@.len(),
            all == texts(cells@),
            out@ == start + row_cells(all.take(i as int), widths@),
            " "@ =~= seq![' '],
        decreases cells@.len() - i,
    {
        let ghost before = out@;
        if i > 0 {
            out.append(" ");
        }
        push_padded(out, cells[i].as_str(), widths[i]);
        proof {
            assert(all.take(i + 1).drop_last() =~= all.take(i as int));
            assert(all.take(i + 1).last() == cells@[i as int]@);
            assert(out@ =~= start + row_cells(all.take(i + 1), widths@));
        }
        i += 1;
    }
    assert(all.take(all.len() as int) =~= all);
    out.append("\n");
    assert(out@ =~= start + row(all, widths@));
}

/// Whether every byte of `s` is an ASCII digit.
pub open spec fn all_digits(s: Seq<u8>) -> bool {
    forall|i: int| 0 <= i < s.len() ==> 48 <= #[trigger] s[i] <= 57
}

/// The number that a string of ASCII digits spells.
pub open spec fn digits_value(s: Seq<u8>) -> nat
    decreases s.len(),
{
    if s.len() == 0 {
        0
    } else {
        digits_value(s.drop_last()) * 10 + (s.last() - 48) as nat
    }
}

/// What is left of `s` behind a plus sign at its beginning, if more than that is there.
pub open spec fn without_plus(s: Seq<u8>) -> Seq<u8> {
    if s.len() > 1 && s[0] == 43 {
        s.drop_first()
    } else {
        s
    }
}

/// The 64-bit number that `s` spells in decimal: digits behind an optional plus sign.
pub open spec fn number_of(s: Seq<u8>) -> Option<u64> {
    let d = without_plus(s);
    if d.len() > 0 && all_digits(d) && digits_value(d) <= u64::MAX {
        Some(digits_value(d) as u64)
    } else {
        None
    }
}

proof fn lemma_digits_value_grows(s: Seq<u8>, i: int)
    requires
        0 <= i <= s.len(),
        all_digits(s),
    ensures
        digits_value(s.take(i)) <= digits_value(s),
    decreases s.len() - i,
{
    if i < s.len() {
        lemma_digits_value_grows(s, i + 1);
        assert(s.take(i + 1).drop_last() =~= s.take(i));
        assert(48 <= s[i]);
    } else {
        assert(s.take(i) =~= s);
    }
}

/// Reads the 64-bit number that the bytes of `s` spell in decimal.
pub fn parse_number(s: &[u8]) -> (r: Option<u64>)
    ensures
        r == number_of(s@),
{
    let from: usize = if s.len() > 1 && s[0] == 43 {
        1
    } else {
        0
    };
    let ghost d = without_plus(s@);
    assert(d =~= s@.skip(from as int));
    if s.len() == from {
        return None;
    }
    let mut value: u64 = 0;
    let mut i: usize = from;
    assert(d.take(0) =~= Seq::<u8>::empty());
    while i < s.len()
        invariant
            from <= i <= s@.len(),
            d == s@.skip(from as int),
            d == without_plus(s@),
            d.len() > 0,
            forall|j: int| 0 <= j < i - from ==> 48 <= #[trigger] d[j] <= 57,
            value == digits_value(d.take(i - from)),
        decreases s@.len() - i,
    {
        let c: u8 = s[i];
        assert(c == d[i - from]);
        if c < 48 || c > 57 {
            return None;
        }
        proof {
            assert(d.take(i - from + 1).drop_last() =~= d.take(i - from));
            if all_digits(d) {
                lemma_digits_value_grows(d, i - from + 1);
            }
        }
        if value > 0x1999_9999_9999_9999 || (value == 0x1999_9999_9999_9999 && c > 53) {
            return None;
        }
        value = value * 10 + (c - 48) as u64;
        i += 1;
    }
    assert(d.take(d.len() as int) =~= d);
    Some(value)
}

proof fn lemma_decimal_chars(n: nat)
    ensures
        is_ascii_chars(decimal(n)),
        decimal(n).len() > 0,
        forall|i: int| 0 <= i < decimal(n).len() ==> '0' <= #[trigger] decimal(n)[i] <= '9',
    decreases n,
{
    if n >= 10 {
        lemma_decimal_chars(n / 10);
    }
}

/// The bytes of the decimal digits of `n` are digits that spell `n`, and further zeros in
/// front change nothing.
pub proof fn law_decimal_value(n: nat, zeros: nat)
    ensures
        all_digits(encode_utf8(run_of('0', zeros) + decimal(n))),
        digits_value(encode_utf8(run_of('0', zeros) + decimal(n))) == n,
        encode_utf8(run_of('0', zeros) + decimal(n)).len() == zeros + decimal(n).len(),
        decimal(n).len() > 0,
    decreases n,
{
    let s = run_of('0', zeros) + decimal(n);
    lemma_decimal_chars(n);
    assert(is_ascii_chars(s));
    is_ascii_chars_encode_utf8(s);
    let b = encode_utf8(s);
    assert forall|i: int| 0 <= i < b.len() implies 48 <= #[trigger] b[i] <= 57 by {
        assert(s[i] as u8 == b[i]);
    }
    let front = run_of('0', zeros) + (if n < 10 {
        Seq::empty()
    } else {
        decimal(n / 10)
    });
    assert(s.drop_last() =~= front);
    assert(is_ascii_chars(front));
    is_ascii_chars_encode_utf8(front);
    assert(b.drop_last() =~= encode_utf8(front)) by {
        assert forall|i: int| 0 <= i < front.len() implies b.drop_last()[i] == encode_utf8(
            front,
        )[i] by {
            assert(s[i] == front[i]);
            assert(s[i] as u8 == b[i]);
            assert(front[i] as u8 == encode_utf8(front)[i]);
        }
    }
    assert(s.last() == digit_char(n % 10));
    assert(s.last() as u8 == b[s.len() - 1]);
    assert(b.last() - 48 == n % 10);
    if n < 10 {
        assert(front =~= run_of('0', zeros));
        lemma_zeros_value(zeros);
    } else {
        law_decimal_value(n / 10, zeros);
    }
}

proof fn lemma_zeros_value(zeros: nat)
    ensures
        digits_value(encode_utf8(run_of('0', zeros))) == 0,
    decreases zeros,
{
    let s = run_of('0', zeros);
    assert(is_ascii_chars(s));
    is_ascii_chars_encode_utf8(s);
    if zeros > 0 {
        let t = run_of('0', (zeros - 1) as nat);
        assert(is_ascii_chars(t));
        is_ascii_chars_encode_utf8(t);
        lemma_zeros_value((zeros - 1) as nat);
        assert(encode_utf8(s).drop_last() =~= encode_utf8(t)) by {
            assert forall|i: int| 0 <= i < t.len() implies encode_utf8(s).drop_last()[i]
                == encode_utf8(t)[i] by {
                assert(s[i] as u8 == encode_utf8(s)[i]);
                assert(t[i] as u8 == encode_utf8(t)[i]);
            }
        }
        assert(s[zeros - 1] as u8 == encode_utf8(s)[zeros - 1]);
    }
}

/// A number written in decimal with zeros in front is read back as that number.
pub proof fn law_padded_number(n: u64, width: nat)
    ensures
        number_of(encode_utf8(padded(decimal(n as nat), width, '0'))) == Some(n),
{
    let len = decimal(n as nat).len();
    let zeros = if len < width {
        (width - len) as nat
    } else {
        0
    };
    let s = padded(decimal(n as nat), width, '0');
    assert(s =~= run_of('0', zeros) + decimal(n as nat));
    law_decimal_value(n as nat, zeros);
    let b = encode_utf8(s);
    assert(b[0] != 43);
}

/// Ten, `k` times multiplied with itself.
pub open spec fn ten_to(k: nat) -> nat
    decreases k,
{
    if k == 0 {
        1
    } else {
        10 * ten_to((k - 1) as nat)
    }
}

/// A number below ten to the `k` has at most `k` digits.
pub proof fn law_decimal_len(n: nat, k: nat)
    requires
        k > 0,
        n < ten_to(k),
    ensures
        decimal(n).len() <= k,
    decreases k,
{
    if n >= 10 {
        if k == 1 {
            assert(ten_to(0) == 1);
        } else {
            law_decimal_len(n / 10, (k - 1) as nat);
        }
    }
}

proof fn lemma_digits_equal(a: Seq<u8>, b: Seq<u8>)
    requires
        a.len() == b.len(),
        all_digits(a),
        all_digits(b),
        digits_value(a) == digits_value(b),
    ensures
        a == b,
    decreases a.len(),
{
    if a.len() == 0 {
        assert(a =~= b);
    } else {
        let (x, y) = (a.drop_last(), b.drop_last());
        assert(48 <= a[a.len() - 1] <= 57 && 48 <= b[b.len() - 1] <= 57);
        assert forall|i: int| 0 <= i < x.len() implies 48 <= #[trigger] x[i] <= 57 && 48 <= y[i]
            <= 57 by {
            assert(x[i] == a[i] && y[i] == b[i]);
        }
        lemma_digits_equal(x, y);
        assert(a =~= x.push(a.last()));
        assert(b =~= y.push(b.last()));
    }
}

/// Strings of equally many digits stand in the order of the numbers that they spell.
pub proof fn law_digits_order(a: Seq<u8>, b: Seq<u8>)
    requires
        a.len() == b.len(),
        all_digits(a),
        all_digits(b),
        digits_value(a) < digits_value(b),
    ensures
        bytes_lt(a, b),
    decreases a.len(),
{
    let (x, y) = (a.drop_last(), b.drop_last());
    assert(48 <= a[a.len() - 1] <= 57 && 48 <= b[b.len() - 1] <= 57);
    assert forall|i: int| 0 <= i < x.len() implies 48 <= #[trigger] x[i] <= 57 && 48 <= y[i]
        <= 57 by {
        assert(x[i] == a[i] && y[i] == b[i]);
    }
    let (u, v) = (seq![a.last()], seq![b.last()]);
    assert(a =~= x + u);
    assert(b =~= y + v);
    if digits_value(x) < digits_value(y) {
        law_digits_order(x, y);
        lemma_bytes_lt_extended(x, y, u, v);
    } else {
        assert(digits_value(x) == digits_value(y));
        lemma_digits_equal(x, y);
        lemma_bytes_lt_behind(x, u, v);
    }
}

/// A text that is filled up in front is at least as long as said, ends in the text, and has
/// nothing but the filling before it.
pub proof fn law_padded(s: Seq<char>, width: nat, c: char)
    ensures
        padded(s, width, c).len() == (if s.len() < width {
            width
        } else {
            s.len()
        }),
        padded(s, width, c).skip(padded(s, width, c).len() - s.len()) == s,
        forall|i: int|
            0 <= i < padded(s, width, c).len() - s.len() ==> #[trigger] padded(s, width, c)[i] == c,
{
    assert(padded(s, width, c).skip(padded(s, width, c).len() - s.len()) =~= s);
}

/// A text that is filled up behind is at least as long as said, begins with the text, and has
/// nothing but the filling behind it.
pub proof fn law_filled(s: Seq<char>, width: nat, c: char)
    ensures
        filled(s, width, c).len() == (if s.len() < width {
            width
        } else {
            s.len()
        }),
        filled(s, width, c).take(s.len() as int) == s,
        forall|i: int|
            s.len() <= i < filled(s, width, c).len() ==> #[trigger] filled(s, width, c)[i] == c,
{
    assert(filled(s, width, c).take(s.len() as int) =~= s);
}

/// A number is spelled without a zero in front, but for zero itself, and with as many digits as
/// it has: one more for each power of ten.
pub proof fn law_decimal_plain(n: nat, d: nat)
    requires
        d < 10,
    ensures
        decimal(n)[0] == '0' <==> n == 0,
        n > 0 ==> decimal(10 * n + d) == decimal(n) + decimal(d),
        decimal(d).len() == 1,
        decimal(d)[0] as nat == '0' as nat + d,
    decreases n,
{
    if n >= 10 {
        law_decimal_plain(n / 10, d);
        lemma_decimal_chars(n / 10);
    }
    if n > 0 {
        assert((10 * n + d) / 10 == n);
        assert((10 * n + d) % 10 == d);
        assert(decimal(n).push(digit_char(d)) =~= decimal(n) + decimal(d));
    }
}

/// A number below zero is spelled as its amount behind a minus, any other as it is.
pub proof fn law_signed_decimal(n: nat)
    ensures
        signed_decimal(n as int) == decimal(n),
        n > 0 ==> signed_decimal(-(n as int)) == seq!['-'] + decimal(n),
{
}

/// A digit that is put behind a number makes it ten times as large and adds its own value.
pub proof fn law_digit_behind(s: Seq<u8>, d: u8)
    requires
        48 <= d <= 57,
    ensures
        digits_value(s.push(d)) == 10 * digits_value(s) + (d - 48),
        digits_value(Seq::empty()) == 0,
{
    assert(s.push(d).drop_last() =~= s);
}

/// Texts are put together one behind the other, with nothing between them.
pub proof fn law_cat(a: Seq<Seq<char>>, b: Seq<Seq<char>>, x: Seq<char>)
    ensures
        cat(a + b) == cat(a) + cat(b),
        cat(seq![x]) == x,
        cat(Seq::empty()).len() == 0,
    decreases b.len(),
{
    assert(seq![x].drop_last() =~= Seq::<Seq<char>>::empty());
    assert(cat(Seq::<Seq<char>>::empty()) =~= Seq::<char>::empty());
    assert(cat(seq![x]) =~= x);
    if b.len() == 0 {
        assert(a + b =~= a);
        assert(cat(a + b) =~= cat(a) + cat(b));
    } else {
        law_cat(a, b.drop_last(), x);
        assert((a + b).drop_last() =~= a + b.drop_last());
        assert((a + b).last() == b.last());
        assert(cat(a + b) =~= cat(a) + cat(b));
    }
}

/// Texts are joined with the separator between each two of them, and nowhere else.
pub proof fn law_joined(a: Seq<Seq<char>>, b: Seq<Seq<char>>, x: Seq<char>, sep: Seq<char>)
    ensures
        joined(seq![x], sep) == x,
        joined(Seq::empty(), sep).len() == 0,
        a.len() > 0 && b.len() > 0 ==> joined(a + b, sep) == joined(a, sep) + sep + joined(b, sep),
    decreases b.len(),
{
    if a.len() > 0 && b.len() > 0 {
        let front = b.drop_last();
        assert((a + b).drop_last() =~= a + front);
        assert((a + b).last() == b.last());
        if front.len() == 0 {
            assert(a + front =~= a);
            assert(joined(b, sep) == b[0]);
        } else {
            law_joined(a, front, x, sep);
            assert(joined(a + b, sep) =~= joined(a, sep) + sep + joined(b, sep));
        }
    }
}

/// The cells of a row stand one behind the other with one space between them, each filled up in
/// front to the width of its column; then the line ends.
pub proof fn law_row(a: Seq<Seq<char>>, b: Seq<Seq<char>>, x: Seq<char>, widths: Seq<usize>)
    requires
        a.len() + b.len() <= widths.len(),
    ensures
        widths.len() > 0 ==> row(seq![x], widths) == padded(x, widths[0] as nat, ' ').push('\n'),
        a.len() > 0 && b.len() > 0 ==> row(a + b, widths) == row(a, widths).drop_last() + seq![' ']
            + row(b, widths.skip(a.len() as int)),
    decreases b.len(),
{
    if widths.len() > 0 {
        assert(seq![x].last() == x);
    }
    if a.len() > 0 && b.len() > 0 {
        lemma_row_cells(a, b, widths);
        assert(row(a, widths).drop_last() =~= row_cells(a, widths));
        assert(row(a + b, widths) =~= row(a, widths).drop_last() + seq![' '] + row(
            b,
            widths.skip(a.len() as int),
        ));
    }
}

proof fn lemma_row_cells(a: Seq<Seq<char>>, b: Seq<Seq<char>>, widths: Seq<usize>)
    requires
        a.len() > 0,
        b.len() > 0,
        a.len() + b.len() <= widths.len(),
    ensures
        row_cells(a + b, widths) == row_cells(a, widths) + seq![' '] + row_cells(
            b,
            widths.skip(a.len() as int),
        ),
    decreases b.len(),
{
    let front = b.drop_last();
    let w = widths.skip(a.len() as int);
    assert((a + b).drop_last() =~= a + front);
    assert((a + b).last() == b.last());
    assert(w[b.len() - 1] == widths[a.len() + b.len() - 1]);
    if front.len() == 0 {
        assert(a + front =~= a);
        assert(row_cells(a + b, widths) =~= row_cells(a, widths) + seq![' '] + row_cells(b, w));
    } else {
        lemma_row_cells(a, front, widths);
        assert(row_cells(a + b, widths) =~= row_cells(a, widths) + seq![' '] + row_cells(b, w));
    }
}

/// A number is read where there are digits and nothing else, but for a plus in front, and where
/// it fits; then it is the number that the digits spell.
pub proof fn law_number_read(s: Seq<u8>, i: int)
    ensures
        s.len() == 0 ==> number_of(s) is None,
        s == seq![43u8] ==> number_of(s) is None,
        0 < i < s.len() && !(48 <= s[i] <= 57) ==> number_of(s) is None,
        s.len() > 0 && s[0] != 43 && !(48 <= s[0] <= 57) ==> number_of(s) is None,
        s.len() > 0 && all_digits(s) ==> (number_of(s) is Some <==> digits_value(s) <= u64::MAX),
        s.len() > 0 && all_digits(s) ==> (number_of(s) matches Some(n) ==> n == digits_value(s)),
        s.len() > 0 && all_digits(s) ==> number_of(seq![43u8] + s) == number_of(s),
{
    let d = without_plus(s);
    if 0 < i < s.len() && !(48 <= s[i] <= 57) {
        if d == s {
            assert(!(48 <= d[i] <= 57));
        } else {
            assert(!(48 <= d[i - 1] <= 57));
        }
    }
    if s.len() > 0 && !(48 <= s[0] <= 57) && s[0] != 43 {
        assert(!(48 <= d[0] <= 57));
    }
    if s == seq![43u8] {
        assert(!(48 <= d[0] <= 57));
    }
    if s.len() > 0 && all_digits(s) {
        assert(48 <= s[0] <= 57);
        assert((seq![43u8] + s).drop_first() =~= s);
    }
}

/// Where bytes stop being UTF-8: up to there they are, and no longer beginning of them is.
pub proof fn law_valid_len(b: Seq<u8>, n: nat)
    ensures
        valid_len(b) <= b.len(),
        valid_utf8(b.take(valid_len(b) as int)),
        valid_len(b) < n <= b.len() ==> !valid_utf8(b.take(n as int)),
    decreases b.len(),
{
    if b.len() == 0 || valid_utf8(b) {
        assert(b.take(b.len() as int) =~= b);
        assert(valid_utf8(Seq::<u8>::empty()));
        if b.len() == 0 {
            assert(b =~= Seq::<u8>::empty());
        }
    } else {
        let front = b.drop_last();
        law_valid_len(front, n);
        assert(front.take(valid_len(b) as int) =~= b.take(valid_len(b) as int));
        if n == b.len() {
            assert(b.take(n as int) =~= b);
        } else if valid_len(b) < n < b.len() {
            assert(front.take(n as int) =~= b.take(n as int));
        }
    }
}

/// What is said of bytes that are not UTF-8: where they stop being so, and over how many bytes,
/// where that is known.
pub proof fn law_fault_message(valid: usize, bad: usize)
    ensures
        fault_message(Utf8Fault { valid, bad: Some(bad) }) == "invalid utf-8 sequence of "@
            + decimal(bad as nat) + " bytes from index "@ + decimal(valid as nat),
        fault_message(Utf8Fault { valid, bad: None })
            == "incomplete utf-8 byte sequence from index "@ + decimal(valid as nat),
{
}

} // verus!
