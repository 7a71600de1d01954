//! The bencode wire grammar as spec functions: what a token at the front of
//! a byte sequence decodes to, and what each value encodes to.
use vstd::prelude::*;

use crate::error::Error;

verus! {

/// `i`: opens an integer token.
pub const INT_OPEN: u8 = 105;

/// `l`: opens a list.
pub const LIST_OPEN: u8 = 108;

/// `d`: opens a dictionary.
pub const DICT_OPEN: u8 = 100;

/// `e`: closes an integer, a list or a dictionary.
pub const CLOSE: u8 = 101;

/// `-`: the sign of a negative integer.
pub const MINUS: u8 = 45;

/// `:`: ends the length prefix of a byte string.
pub const COLON: u8 = 58;

/// `0`: the lowest digit.
pub const ZERO: u8 = 48;

/// The byte `b` is an ASCII decimal digit.
pub open spec fn is_digit(b: u8) -> bool {
    48 <= b <= 57
}

/// The number of consecutive digits in `s` starting at index `i`.
pub open spec fn digit_run(s: Seq<u8>, i: int) -> nat
    decreases s.len() - i,
{
    if 0 <= i < s.len() && is_digit(s[i]) {
        1 + digit_run(s, i + 1)
    } else {
        0
    }
}

/// The number written by the ASCII digits `d`, most significant first.
pub open spec fn decimal_value(d: Seq<u8>) -> int
    decreases d.len(),
{
    if d.len() == 0 {
        0
    } else {
        decimal_value(d.drop_last()) * 10 + (d.last() - 48)
    }
}

/// Reading a run of digits at `start` that must end at the byte `term` and
/// whose value may not exceed `bound`: the value and the terminator's index.
pub open spec fn decimal_field(s: Seq<u8>, start: int, bound: int, term: u8) -> Result<
    (int, int),
    Error,
> {
    if start >= s.len() {
        Err(Error::Eof)
    } else if !is_digit(s[start]) {
        Err(Error::ExpectedInteger)
    } else {
        let end = start + digit_run(s, start);
        let m = decimal_value(s.subrange(start, end));
        if m > bound {
            Err(Error::LargeNumber)
        } else if end == s.len() {
            Err(Error::ClosingTagNotFound)
        } else if s[end] != term {
            Err(Error::ExpectedInteger)
        } else {
            Ok((m, end))
        }
    }
}

/// Reading an integer token `i[-]digits e` at the front of `s` into the range
/// `lo..=hi`: the value and the number of bytes the token takes. Where
/// `signed` is false a minus sign is refused.
pub open spec fn int_token(s: Seq<u8>, lo: int, hi: int, signed: bool) -> Result<
    (int, nat),
    Error,
> {
    if s.len() == 0 {
        Err(Error::Eof)
    } else if s[0] != INT_OPEN {
        Err(Error::ExpectedInteger)
    } else if s.len() == 1 {
        Err(Error::Eof)
    } else if s[1] == MINUS && !signed {
        Err(Error::ExpectedUnsignedInteger)
    } else {
        let neg = s[1] == MINUS;
        let start: int = if neg { 2 } else { 1 };
        match decimal_field(s, start, if neg { -lo } else { hi }, CLOSE) {
            Ok((m, end)) => Ok((if neg { -m } else { m }, (end + 1) as nat)),
            Err(e) => Err(e),
        }
    }
}

/// Reading a byte string token `length : bytes` at the front of `s`: the
/// payload and the number of bytes the token takes.
pub open spec fn string_token(s: Seq<u8>) -> Result<(Seq<u8>, nat), Error> {
    match decimal_field(s, 0, usize::MAX as int, COLON) {
        Ok((size, end)) => if s.len() - (end + 1) < size {
            Err(Error::BadStringSize)
        } else {
            Ok((s.subrange(end + 1, end + 1 + size), (end + 1 + size) as nat))
        },
        Err(e) => Err(e),
    }
}

/// Reading the one-byte string token `1:x` at the front of `s`: the byte and
/// the number of bytes the token takes.
pub open spec fn single_byte_token(s: Seq<u8>) -> Result<(u8, nat), Error> {
    if s.len() == 0 {
        Err(Error::Eof)
    } else if s[0] != ZERO + 1 {
        Err(Error::ExpectedInteger)
    } else if s.len() == 1 {
        Err(Error::Eof)
    } else if s[1] != COLON {
        Err(Error::ClosingTagNotFound)
    } else if s.len() == 2 {
        Err(Error::Eof)
    } else {
        Ok((s[2], 3))
    }
}

/// Reading a boolean, written as the integer 0 or 1, at the front of `s`.
pub open spec fn bool_token(s: Seq<u8>) -> Result<(bool, nat), Error> {
    match int_token(s, 0, u8::MAX as int, false) {
        Ok((v, n)) => if v == 0 {
            Ok((false, n))
        } else if v == 1 {
            Ok((true, n))
        } else {
            Err(Error::ExpectedBoolean)
        },
        Err(e) => Err(e),
    }
}

/// The bytes `b` read as one big-endian unsigned number.
pub open spec fn pack_be(b: Seq<u8>) -> int
    decreases b.len(),
{
    if b.len() == 0 {
        0
    } else {
        pack_be(b.drop_last()) * 256 + b.last()
    }
}

/// Reading a character at the front of `s`: a byte string of at most four
/// bytes, packed big-endian into a code.
pub open spec fn char_token(s: Seq<u8>) -> Result<(int, nat), Error> {
    match string_token(s) {
        Ok((b, n)) => if b.len() > 4 {
            Err(Error::TooBigChar)
        } else {
            Ok((pack_be(b), n))
        },
        Err(e) => Err(e),
    }
}

/// The kind of token that a lead byte announces.
#[derive(PartialEq, Eq, Structural, Debug, Clone, Copy)]
pub enum TokenKind {
    /// `i-`: a negative integer.
    SignedInteger,
    /// `i` and anything but `-`: an integer without a sign.
    UnsignedInteger,
    /// A digit: a byte string.
    ByteString,
    /// `l`: a list.
    List,
    /// `d`: a dictionary.
    Dictionary,
}

/// The kind of token at the front of `s`, told from its first two bytes.
pub open spec fn lead_kind(s: Seq<u8>) -> Result<TokenKind, Error> {
    if s.len() == 0 {
        Err(Error::Eof)
    } else if s[0] == INT_OPEN {
        if s.len() == 1 {
            Err(Error::Syntax)
        } else if s[1] == MINUS {
            Ok(TokenKind::SignedInteger)
        } else {
            Ok(TokenKind::UnsignedInteger)
        }
    } else if is_digit(s[0]) {
        Ok(TokenKind::ByteString)
    } else if s[0] == DICT_OPEN {
        Ok(TokenKind::Dictionary)
    } else if s[0] == LIST_OPEN {
        Ok(TokenKind::List)
    } else {
        Err(Error::Syntax)
    }
}

/// How an enum value is written.
#[derive(PartialEq, Eq, Structural, Debug, Clone, Copy)]
pub enum EnumForm {
    /// A bare byte string naming a variant without payload.
    Bare,
    /// A one-entry dictionary from the variant's name to its payload.
    Wrapped,
}

/// The ASCII decimal digits of `n`, most significant first, without
/// leading zeros (`0` is written as one digit).
pub open spec fn decimal_text(n: nat) -> Seq<u8>
    decreases n,
{
    if n < 10 {
        seq![(n + 48) as u8]
    } else {
        decimal_text(n / 10).push((n % 10 + 48) as u8)
    }
}

/// The integer token for `v`: `i`, a minus sign if `v` is negative, the
/// decimal digits of its magnitude, `e`.
pub open spec fn int_encoding(v: int) -> Seq<u8> {
    let sign = if v < 0 { seq![MINUS] } else { Seq::<u8>::empty() };
    let mag: nat = if v < 0 { (-v) as nat } else { v as nat };
    seq![INT_OPEN] + sign + decimal_text(mag) + seq![CLOSE]
}

/// The byte string token for `b`: its length in decimal, `:`, the bytes.
pub open spec fn string_encoding(b: Seq<u8>) -> Seq<u8> {
    decimal_text(b.len()) + seq![COLON] + b
}

/// The list token of elements that are written already: `l`, the elements
/// one after another, `e`.
pub open spec fn list_encoding(elems: Seq<Seq<u8>>) -> Seq<u8> {
    seq![LIST_OPEN] + elems.flatten() + seq![CLOSE]
}

/// The bytes of one dictionary entry: the key's byte string token, then the
/// value, written already.
pub open spec fn entry_encoding(entry: (Seq<u8>, Seq<u8>)) -> Seq<u8> {
    string_encoding(entry.0) + entry.1
}

/// The dictionary token of entries whose values are written already: `d`,
/// the entries in the order given, `e`.
pub open spec fn dict_encoding(entries: Seq<(Seq<u8>, Seq<u8>)>) -> Seq<u8> {
    seq![DICT_OPEN] + entries.map_values(|e: (Seq<u8>, Seq<u8>)| entry_encoding(e)).flatten()
        + seq![CLOSE]
}

/// What `digit_run` counts: the run of digits at `start` is maximal.
pub proof fn lemma_digit_run(s: Seq<u8>, start: int)
    requires
        0 <= start <= s.len(),
    ensures
        start + digit_run(s, start) <= s.len(),
        forall|j: int| start <= j < start + digit_run(s, start) ==> is_digit(#[trigger] s[j]),
        start + digit_run(s, start) == s.len() || !is_digit(s[start + digit_run(s, start)]),
    decreases s.len() - start,
{
    if start < s.len() && is_digit(s[start]) {
        lemma_digit_run(s, start + 1);
    }
}

/// A run of digits from `start` to `i` that stops at `i` is the whole run.
pub proof fn lemma_digit_run_ends(s: Seq<u8>, start: int, i: int)
    requires
        0 <= start <= i <= s.len(),
        forall|j: int| start <= j < i ==> is_digit(#[trigger] s[j]),
    ensures
        digit_run(s, start) >= i - start,
        i == s.len() || !is_digit(s[i]) ==> digit_run(s, start) == i - start,
{
    lemma_digit_run(s, start);
    let k = digit_run(s, start);
    if k < i - start {
        assert(is_digit(s[start + k]));
    }
    if (i == s.len() || !is_digit(s[i])) && k > i - start {
        assert(is_digit(s[i]));
    }
}

/// Appending one digit multiplies the value by ten and adds the digit.
pub proof fn lemma_decimal_push(s: Seq<u8>, start: int, i: int)
    requires
        0 <= start <= i < s.len(),
    ensures
        decimal_value(s.subrange(start, i + 1)) == decimal_value(s.subrange(start, i)) * 10 + (
        s[i] - 48),
{
    assert(s.subrange(start, i + 1).drop_last() =~= s.subrange(start, i));
}

/// The value of a run of digits grows, or stays, as the run gets longer.
pub proof fn lemma_decimal_monotone(s: Seq<u8>, start: int, i: int, j: int)
    requires
        0 <= start <= i <= j <= s.len(),
        forall|x: int| start <= x < j ==> is_digit(#[trigger] s[x]),
    ensures
        0 <= decimal_value(s.subrange(start, i)) <= decimal_value(s.subrange(start, j)),
    decreases j - start,
{
    if j > start {
        lemma_decimal_push(s, start, j - 1);
        lemma_decimal_monotone(s, start, start, j - 1);
        if i < j {
            lemma_decimal_monotone(s, start, i, j - 1);
        }
    } else {
        assert(s.subrange(start, i).len() == 0);
    }
}

/// A field that reads successfully holds a value within its bound.
pub proof fn lemma_decimal_field_range(s: Seq<u8>, start: int, bound: int, term: u8)
    requires
        0 <= start,
    ensures
        decimal_field(s, start, bound, term) matches Ok((m, end)) ==> 0 <= m <= bound && start
            < end < s.len(),
{
    if start < s.len() {
        lemma_digit_run(s, start);
        lemma_decimal_monotone(s, start, start, start + digit_run(s, start));
        assert(s.subrange(start, start).len() == 0);
    }
}

/// An integer token that reads successfully holds a value in `lo..=hi`.
pub proof fn lemma_int_token_range(s: Seq<u8>, lo: int, hi: int, signed: bool)
    requires
        lo <= 0 <= hi,
    ensures
        int_token(s, lo, hi, signed) matches Ok((v, n)) ==> lo <= v <= hi && n <= s.len(),
{
    lemma_decimal_field_range(s, 1, hi, CLOSE);
    lemma_decimal_field_range(s, 2, -lo, CLOSE);
}

} // verus!
