//! The decoder: a cursor over the unconsumed input and the parsers that
//! read one token, or one piece of a composite token, from its front.
use vstd::prelude::*;
use vstd::slice::{slice_subrange, slice_to_vec};

use crate::error::Error;
use crate::grammar::{
    bool_token, char_token, decimal_field, decimal_value, digit_run, int_token, is_digit,
    lead_kind, lemma_decimal_monotone, lemma_decimal_push, lemma_digit_run, lemma_digit_run_ends,
    lemma_int_token_range, pack_be, single_byte_token, string_token, EnumForm, TokenKind, CLOSE,
    COLON, DICT_OPEN, INT_OPEN, LIST_OPEN, MINUS, ZERO,
};

verus! {

/// A decoder over a borrowed input buffer. It holds the part of the input
/// that is not consumed yet and only ever moves forward.
pub struct Deserializer<'de> {
    input: &'de [u8],
}

impl<'de> View for Deserializer<'de> {
    type V = Seq<u8>;

    /// The unconsumed input.
    closed spec fn view(&self) -> Seq<u8> {
        self.input@
    }
}

impl<'de> Deserializer<'de> {
    /// A decoder positioned at the start of `input`.
    pub fn from_bytes(input: &'de [u8]) -> (r: Self)
        ensures
            r@ == input@,
    {
        Self { input }
    }

    /// The next byte, without consuming it.
    pub fn peek_byte(&self) -> (r: Result<u8, Error>)
        ensures
            self@.len() == 0 ==> r == Err::<u8, Error>(Error::Eof),
            self@.len() > 0 ==> r == Ok::<u8, Error>(self@[0]),
    {
        if self.input.len() == 0 {
            Err(Error::Eof)
        } else {
            Ok(self.input[0])
        }
    }

    /// Consumes and returns the next byte.
    pub fn next_byte(&mut self) -> (r: Result<u8, Error>)
        ensures
            old(self)@.len() == 0 ==> r == Err::<u8, Error>(Error::Eof) && final(self)@
                == old(self)@,
            old(self)@.len() > 0 ==> r == Ok::<u8, Error>(old(self)@[0]) && final(self)@
                == old(self)@.drop_first(),
    {
        let ch = self.peek_byte()?;
        self.input = slice_subrange(self.input, 1, self.input.len());
        Ok(ch)
    }

    /// Reads the token `1:x` and returns the byte `x`.
    pub fn parse_byte(&mut self) -> (r: Result<u8, Error>)
        ensures
            match single_byte_token(old(self)@) {
                Ok((b, n)) => r == Ok::<u8, Error>(b) && final(self)@ == old(self)@.skip(n as int),
                Err(e) => r == Err::<u8, Error>(e),
            },
    {
        if self.next_byte()? != ZERO + 1 {
            return Err(Error::ExpectedInteger);
        }
        if self.next_byte()? != COLON {
            return Err(Error::ClosingTagNotFound);
        }
        let ch = self.next_byte()?;
        proof {
            assert(final(self)@ =~= old(self)@.skip(3));
        }
        Ok(ch)
    }

    /// Reads an integer token that must fit in `lo..=hi`. The digits are
    /// checked against the bound of the sign that was read, at every digit.
    pub fn parse_signed(&mut self, lo: i64, hi: i64) -> (r: Result<i64, Error>)
        requires
            lo <= 0 <= hi,
        ensures
            match int_token(old(self)@, lo as int, hi as int, true) {
                Ok((v, n)) => r == Ok::<i64, Error>(v as i64) && final(self)@ == old(self)@.skip(
                    n as int,
                ),
                Err(e) => r == Err::<i64, Error>(e),
            },
            r is Ok ==> lo <= r->Ok_0 <= hi,
    {
        proof {
            lemma_int_token_range(self@, lo as int, hi as int, true);
        }
        let s = self.input;
        if s.len() == 0 {
            return Err(Error::Eof);
        }
        if s[0] != INT_OPEN {
            return Err(Error::ExpectedInteger);
        }
        if s.len() == 1 {
            return Err(Error::Eof);
        }
        let neg = s[1] == MINUS;
        let start: usize = if neg { 2 } else { 1 };
        let bound: u64 = if neg { (0 - (lo as i128)) as u64 } else { hi as u64 };
        let (m, end) = scan_decimal(s, start, bound, CLOSE)?;
        let v: i64 = if neg { (0 - (m as i128)) as i64 } else { m as i64 };
        self.input = slice_subrange(s, end + 1, s.len());
        proof {
            assert(final(self)@ =~= old(self)@.skip(end + 1));
        }
        Ok(v)
    }

    /// Reads an integer token without a sign that must not exceed `hi`.
    pub fn parse_unsigned(&mut self, hi: u64) -> (r: Result<u64, Error>)
        ensures
            match int_token(old(self)@, 0, hi as int, false) {
                Ok((v, n)) => r == Ok::<u64, Error>(v as u64) && final(self)@ == old(self)@.skip(
                    n as int,
                ),
                Err(e) => r == Err::<u64, Error>(e),
            },
            r is Ok ==> r->Ok_0 <= hi,
    {
        proof {
            lemma_int_token_range(self@, 0, hi as int, false);
        }
        let s = self.input;
        if s.len() == 0 {
            return Err(Error::Eof);
        }
        if s[0] != INT_OPEN {
            return Err(Error::ExpectedInteger);
        }
        if s.len() == 1 {
            return Err(Error::Eof);
        }
        if s[1] == MINUS {
            return Err(Error::ExpectedUnsignedInteger);
        }
        let (v, end) = scan_decimal(s, 1, hi, CLOSE)?;
        self.input = slice_subrange(s, end + 1, s.len());
        proof {
            assert(final(self)@ =~= old(self)@.skip(end + 1));
        }
        Ok(v)
    }

    /// Reads a byte string token and returns its payload as a view into the
    /// input buffer, valid as long as that buffer is.
    pub fn parse_byte_string_borrowed(&mut self) -> (r: Result<&'de [u8], Error>)
        ensures
            match string_token(old(self)@) {
                Ok((b, n)) => r is Ok && r->Ok_0@ == b && final(self)@ == old(self)@.skip(n as int),
                Err(e) => r == Err::<&'de [u8], Error>(e),
            },
    {
        let s = self.input;
        let (size, end) = scan_decimal(s, 0, usize::MAX as u64, COLON)?;
        let size = size as usize;
        if s.len() - (end + 1) < size {
            return Err(Error::BadStringSize);
        }
        let payload = slice_subrange(s, end + 1, end + 1 + size);
        self.input = slice_subrange(s, end + 1 + size, s.len());
        proof {
            assert(final(self)@ =~= old(self)@.skip(end + 1 + size));
        }
        Ok(payload)
    }

    /// Reads a byte string token and returns a copy of its payload.
    pub fn parse_byte_string(&mut self) -> (r: Result<Vec<u8>, Error>)
        ensures
            match string_token(old(self)@) {
                Ok((b, n)) => r is Ok && r->Ok_0@ == b && final(self)@ == old(self)@.skip(n as int),
                Err(e) => r == Err::<Vec<u8>, Error>(e),
            },
    {
        let payload = self.parse_byte_string_borrowed()?;
        Ok(slice_to_vec(payload))
    }

    /// Reads an `i8` integer token.
    pub fn deserialize_i8(&mut self) -> (r: Result<i8, Error>)
        ensures
            match int_token(old(self)@, i8::MIN as int, i8::MAX as int, true) {
                Ok((v, n)) => r == Ok::<i8, Error>(v as i8) && final(self)@ == old(self)@.skip(
                    n as int,
                ),
                Err(e) => r == Err::<i8, Error>(e),
            },
    {
        proof {
            lemma_int_token_range(self@, i8::MIN as int, i8::MAX as int, true);
        }
        let v = self.parse_signed(i8::MIN as i64, i8::MAX as i64)?;
        Ok(v as i8)
    }

    /// Reads an `i16` integer token.
    pub fn deserialize_i16(&mut self) -> (r: Result<i16, Error>)
        ensures
            match int_token(old(self)@, i16::MIN as int, i16::MAX as int, true) {
                Ok((v, n)) => r == Ok::<i16, Error>(v as i16) && final(self)@ == old(self)@.skip(
                    n as int,
                ),
                Err(e) => r == Err::<i16, Error>(e),
            },
    {
        proof {
            lemma_int_token_range(self@, i16::MIN as int, i16::MAX as int, true);
        }
        let v = self.parse_signed(i16::MIN as i64, i16::MAX as i64)?;
        Ok(v as i16)
    }

    /// Reads an `i32` integer token.
    pub fn deserialize_i32(&mut self) -> (r: Result<i32, Error>)
        ensures
            match int_token(old(self)@, i32::MIN as int, i32::MAX as int, true) {
                Ok((v, n)) => r == Ok::<i32, Error>(v as i32) && final(self)@ == old(self)@.skip(
                    n as int,
                ),
                Err(e) => r == Err::<i32, Error>(e),
            },
    {
        proof {
            lemma_int_token_range(self@, i32::MIN as int, i32::MAX as int, true);
        }
        let v = self.parse_signed(i32::MIN as i64, i32::MAX as i64)?;
        Ok(v as i32)
    }

    /// Reads an `i64` integer token.
    pub fn deserialize_i64(&mut self) -> (r: Result<i64, Error>)
        ensures
            match int_token(old(self)@, i64::MIN as int, i64::MAX as int, true) {
                Ok((v, n)) => r == Ok::<i64, Error>(v as i64) && final(self)@ == old(self)@.skip(
                    n as int,
                ),
                Err(e) => r == Err::<i64, Error>(e),
            },
    {
        proof {
            lemma_int_token_range(self@, i64::MIN as int, i64::MAX as int, true);
        }
        self.parse_signed(i64::MIN, i64::MAX)
    }

    /// Reads a `u8` integer token.
    pub fn deserialize_u8(&mut self) -> (r: Result<u8, Error>)
        ensures
            match int_token(old(self)@, 0, u8::MAX as int, false) {
                Ok((v, n)) => r == Ok::<u8, Error>(v as u8) && final(self)@ == old(self)@.skip(
                    n as int,
                ),
                Err(e) => r == Err::<u8, Error>(e),
            },
    {
        proof {
            lemma_int_token_range(self@, 0, u8::MAX as int, false);
        }
        let v = self.parse_unsigned(u8::MAX as u64)?;
        Ok(v as u8)
    }

    /// Reads a `u16` integer token.
    pub fn deserialize_u16(&mut self) -> (r: Result<u16, Error>)
        ensures
            match int_token(old(self)@, 0, u16::MAX as int, false) {
                Ok((v, n)) => r == Ok::<u16, Error>(v as u16) && final(self)@ == old(self)@.skip(
                    n as int,
                ),
                Err(e) => r == Err::<u16, Error>(e),
            },
    {
        proof {
            lemma_int_token_range(self@, 0, u16::MAX as int, false);
        }
        let v = self.parse_unsigned(u16::MAX as u64)?;
        Ok(v as u16)
    }

    /// Reads a `u32` integer token.
    pub fn deserialize_u32(&mut self) -> (r: Result<u32, Error>)
        ensures
            match int_token(old(self)@, 0, u32::MAX as int, false) {
                Ok((v, n)) => r == Ok::<u32, Error>(v as u32) && final(self)@ == old(self)@.skip(
                    n as int,
                ),
                Err(e) => r == Err::<u32, Error>(e),
            },
    {
        proof {
            lemma_int_token_range(self@, 0, u32::MAX as int, false);
        }
        let v = self.parse_unsigned(u32::MAX as u64)?;
        Ok(v as u32)
    }

    /// Reads a `u64` integer token.
    pub fn deserialize_u64(&mut self) -> (r: Result<u64, Error>)
        ensures
            match int_token(old(self)@, 0, u64::MAX as int, false) {
                Ok((v, n)) => r == Ok::<u64, Error>(v as u64) && final(self)@ == old(self)@.skip(
                    n as int,
                ),
                Err(e) => r == Err::<u64, Error>(e),
            },
    {
        proof {
            lemma_int_token_range(self@, 0, u64::MAX as int, false);
        }
        self.parse_unsigned(u64::MAX)
    }

    /// Reads a boolean: the integer 0 or 1.
    pub fn deserialize_bool(&mut self) -> (r: Result<bool, Error>)
        ensures
            match bool_token(old(self)@) {
                Ok((v, n)) => r == Ok::<bool, Error>(v) && final(self)@ == old(self)@.skip(n as int),
                Err(e) => r == Err::<bool, Error>(e),
            },
    {
        proof {
            lemma_int_token_range(self@, 0, u8::MAX as int, false);
        }
        let num = self.deserialize_u8()?;
        if num == 0 {
            Ok(false)
        } else if num == 1 {
            Ok(true)
        } else {
            Err(Error::ExpectedBoolean)
        }
    }

    /// Reads a character: a byte string of at most four bytes, packed
    /// big-endian into the returned code. The bytes are not decoded as UTF-8.
    pub fn deserialize_char(&mut self) -> (r: Result<u32, Error>)
        ensures
            match char_token(old(self)@) {
                Ok((v, n)) => r == Ok::<u32, Error>(v as u32) && final(self)@ == old(self)@.skip(
                    n as int,
                ),
                Err(e) => r == Err::<u32, Error>(e),
            },
    {
        let bytes = self.parse_byte_string_borrowed()?;
        if bytes.len() > 4 {
            return Err(Error::TooBigChar);
        }
        let mut num: u32 = 0;
        let mut i: usize = 0;
        while i < bytes.len()
            invariant
                i <= bytes@.len() <= 4,
                num == pack_be(bytes@.subrange(0, i as int)),
                i <= 3 ==> num < 0x1000000,
                i <= 2 ==> num < 0x10000,
                i <= 1 ==> num < 0x100,
                i == 0 ==> num == 0,
            decreases bytes@.len() - i,
        {
            proof {
                assert(bytes@.subrange(0, i + 1).drop_last() =~= bytes@.subrange(0, i as int));
            }
            num = num * 256 + bytes[i] as u32;
            i = i + 1;
        }
        proof {
            assert(bytes@.subrange(0, i as int) =~= bytes@);
        }
        Ok(num)
    }

    /// The kind of the next token, told from its lead byte (and, for an
    /// integer, the byte after it). Nothing is consumed.
    pub fn peek_kind(&self) -> (r: Result<TokenKind, Error>)
        ensures
            r == lead_kind(self@),
    {
        let s = self.input;
        if s.len() == 0 {
            return Err(Error::Eof);
        }
        let b = s[0];
        if b == INT_OPEN {
            if s.len() == 1 {
                Err(Error::Syntax)
            } else if s[1] == MINUS {
                Ok(TokenKind::SignedInteger)
            } else {
                Ok(TokenKind::UnsignedInteger)
            }
        } else if ZERO <= b && b <= ZERO + 9 {
            Ok(TokenKind::ByteString)
        } else if b == DICT_OPEN {
            Ok(TokenKind::Dictionary)
        } else if b == LIST_OPEN {
            Ok(TokenKind::List)
        } else {
            Err(Error::Syntax)
        }
    }

    /// Consumes the `l` that opens a list.
    pub fn open_list(&mut self) -> (r: Result<(), Error>)
        ensures
            old(self)@.len() == 0 ==> r == Err::<(), Error>(Error::Eof),
            old(self)@.len() > 0 && old(self)@[0] == LIST_OPEN ==> r is Ok && final(self)@ == old(
                self,
            )@.drop_first(),
            old(self)@.len() > 0 && old(self)@[0] != LIST_OPEN ==> r == Err::<(), Error>(
                Error::ExpectedArray,
            ),
    {
        if self.next_byte()? == LIST_OPEN {
            Ok(())
        } else {
            Err(Error::ExpectedArray)
        }
    }

    /// Consumes the `d` that opens a dictionary.
    pub fn open_dict(&mut self) -> (r: Result<(), Error>)
        ensures
            old(self)@.len() == 0 ==> r == Err::<(), Error>(Error::Eof),
            old(self)@.len() > 0 && old(self)@[0] == DICT_OPEN ==> r is Ok && final(self)@ == old(
                self,
            )@.drop_first(),
            old(self)@.len() > 0 && old(self)@[0] != DICT_OPEN ==> r == Err::<(), Error>(
                Error::ExpectedDictionary,
            ),
    {
        if self.next_byte()? == DICT_OPEN {
            Ok(())
        } else {
            Err(Error::ExpectedDictionary)
        }
    }

    /// Whether the next byte is the `e` that closes the open list or
    /// dictionary. Nothing is consumed. Input that ends before that `e` is
    /// an unterminated list or dictionary.
    pub fn at_close(&self) -> (r: Result<bool, Error>)
        ensures
            self@.len() == 0 ==> r == Err::<bool, Error>(Error::ClosingTagNotFound),
            self@.len() > 0 ==> r == Ok::<bool, Error>(self@[0] == CLOSE),
    {
        match self.peek_byte() {
            Ok(b) => Ok(b == CLOSE),
            Err(_) => Err(Error::ClosingTagNotFound),
        }
    }

    /// Consumes the `e` that closes a list or a dictionary.
    pub fn close(&mut self) -> (r: Result<(), Error>)
        ensures
            old(self)@.len() == 0 ==> r == Err::<(), Error>(Error::ClosingTagNotFound),
            old(self)@.len() > 0 && old(self)@[0] == CLOSE ==> r is Ok && final(self)@ == old(
                self,
            )@.drop_first(),
            old(self)@.len() > 0 && old(self)@[0] != CLOSE ==> r == Err::<(), Error>(
                Error::ClosingTagNotFound,
            ),
    {
        match self.next_byte() {
            Ok(b) => if b == CLOSE {
                Ok(())
            } else {
                Err(Error::ClosingTagNotFound)
            },
            Err(_) => Err(Error::ClosingTagNotFound),
        }
    }

    /// Starts an enum value. A bare variant name is left in place to be read
    /// as a byte string; the `d` of a wrapping dictionary is consumed, so that
    /// the variant's name and payload follow, and then its closing `e`.
    pub fn open_enum(&mut self) -> (r: Result<EnumForm, Error>)
        ensures
            old(self)@.len() == 0 ==> r == Err::<EnumForm, Error>(Error::Eof),
            old(self)@.len() > 0 && is_digit(old(self)@[0]) ==> r == Ok::<EnumForm, Error>(
                EnumForm::Bare,
            ) && final(self)@ == old(self)@,
            old(self)@.len() > 0 && old(self)@[0] == DICT_OPEN ==> r == Ok::<EnumForm, Error>(
                EnumForm::Wrapped,
            ) && final(self)@ == old(self)@.drop_first(),
            old(self)@.len() > 0 && !is_digit(old(self)@[0]) && old(self)@[0] != DICT_OPEN ==> r
                == Err::<EnumForm, Error>(Error::ExpectedEnum),
    {
        let b = self.peek_byte()?;
        if ZERO <= b && b <= ZERO + 9 {
            Ok(EnumForm::Bare)
        } else if b == DICT_OPEN {
            self.input = slice_subrange(self.input, 1, self.input.len());
            Ok(EnumForm::Wrapped)
        } else {
            Err(Error::ExpectedEnum)
        }
    }

    /// Succeeds when the whole input has been consumed.
    pub fn finish(&self) -> (r: Result<(), Error>)
        ensures
            self@.len() == 0 <==> r is Ok,
            self@.len() > 0 ==> r == Err::<(), Error>(Error::TrailingBytes),
    {
        if self.input.len() == 0 {
            Ok(())
        } else {
            Err(Error::TrailingBytes)
        }
    }
}

/// Reads the digits of `s` from `start` up to the byte `term`, checking the
/// value against `bound` at every digit: the value and the index of `term`.
fn scan_decimal(s: &[u8], start: usize, bound: u64, term: u8) -> (r: Result<(u64, usize), Error>)
    requires
        !is_digit(term),
    ensures
        match decimal_field(s@, start as int, bound as int, term) {
            Ok((m, end)) => r matches Ok((v, e)) && v == m && e == end,
            Err(err) => r == Err::<(u64, usize), Error>(err),
        },
        r matches Ok((v, e)) ==> start < e < s@.len() && v <= bound,
{
    if start >= s.len() {
        return Err(Error::Eof);
    }
    let first = s[start];
    if !(48 <= first && first <= 57) {
        return Err(Error::ExpectedInteger);
    }
    proof {
        lemma_digit_run(s@, start as int);
        lemma_decimal_push(s@, start as int, start as int);
        assert(s@.subrange(start as int, start as int).len() == 0);
    }
    let mut acc: u64 = (first - 48) as u64;
    if acc > bound {
        proof {
            lemma_digit_run_ends(s@, start as int, start + 1);
            lemma_decimal_monotone(s@, start as int, start + 1, start + digit_run(s@, start as int));
        }
        return Err(Error::LargeNumber);
    }
    let mut i: usize = start + 1;
    while i < s.len()
        invariant
            start < i <= s.len(),
            forall|j: int| start <= j < i ==> is_digit(#[trigger] s@[j]),
            acc == decimal_value(s@.subrange(start as int, i as int)),
            acc <= bound,
        decreases s.len() - i,
    {
        let c = s[i];
        if 48 <= c && c <= 57 {
            proof {
                lemma_digit_run(s@, start as int);
                lemma_decimal_push(s@, start as int, i as int);
                lemma_digit_run_ends(s@, start as int, i + 1);
                lemma_decimal_monotone(s@, start as int, i + 1, start + digit_run(s@, start as int));
            }
            let next = match acc.checked_mul(10) {
                Some(t) => match t.checked_add((c - 48) as u64) {
                    Some(n) => n,
                    None => {
                        return Err(Error::LargeNumber);
                    },
                },
                None => {
                    return Err(Error::LargeNumber);
                },
            };
            if next > bound {
                return Err(Error::LargeNumber);
            }
            acc = next;
            i = i + 1;
        } else {
            proof {
                lemma_digit_run_ends(s@, start as int, i as int);
            }
            if c == term {
                return Ok((acc, i));
            } else {
                return Err(Error::ExpectedInteger);
            }
        }
    }
    proof {
        lemma_digit_run_ends(s@, start as int, i as int);
    }
    Err(Error::ClosingTagNotFound)
}

} // verus!
