//! The encoder: appends one token, or one piece of a composite token, at a
//! time to a growable output buffer.
use vstd::prelude::*;
use vstd::string::StringSliceAdditionalSpecFns;
use vstd::utf8::encode_scalar;

use crate::grammar::{
    decimal_text, int_encoding, string_encoding, CLOSE, COLON, DICT_OPEN, INT_OPEN, LIST_OPEN,
    MINUS, ZERO,
};

verus! {

/// The ASCII decimal digits of `x`, most significant first, without leading
/// zeros.
pub fn digits(x: u64) -> (r: Vec<u8>)
    ensures
        r@ == decimal_text(x as nat),
    decreases x,
{
    if x < 10 {
        vec![x as u8 + ZERO]
    } else {
        let mut d = digits(x / 10);
        d.push((x % 10) as u8 + ZERO);
        d
    }
}

/// Relies on `char::encode_utf8`: the UTF-8 bytes of `c`.
#[verifier::external_body]
fn utf8_bytes(c: char) -> (r: Vec<u8>)
    ensures
        r@ == encode_scalar(c as u32),
{
    let mut buf = [0u8; 4];
    c.encode_utf8(&mut buf).as_bytes().to_vec()
}

/// An encoder that appends tokens to the bytes it holds.
pub struct Serializer {
    output: Vec<u8>,
}

impl View for Serializer {
    type V = Seq<u8>;

    /// The bytes written so far.
    closed spec fn view(&self) -> Seq<u8> {
        self.output@
    }
}

impl Serializer {
    /// An encoder that has written nothing.
    pub fn new() -> (r: Self)
        ensures
            r@ == Seq::<u8>::empty(),
    {
        Serializer { output: Vec::new() }
    }

    /// The bytes written so far.
    pub fn into_bytes(self) -> (r: Vec<u8>)
        ensures
            r@ == self@,
    {
        self.output
    }

    fn push_bytes(&mut self, b: &[u8])
        ensures
            final(self)@ == old(self)@ + b@,
    {
        let mut i: usize = 0;
        while i < b.len()
            invariant
                i <= b@.len(),
                self@ == old(self)@ + b@.subrange(0, i as int),
            decreases b@.len() - i,
        {
            proof {
                assert(b@.subrange(0, i + 1) =~= b@.subrange(0, i as int).push(b@[i as int]));
            }
            self.output.push(b[i]);
            i = i + 1;
        }
        proof {
            assert(b@.subrange(0, i as int) =~= b@);
        }
    }

    /// Writes `len` in decimal, as the length prefix of a byte string.
    pub fn push_length(&mut self, len: usize)
        ensures
            final(self)@ == old(self)@ + decimal_text(len as nat),
    {
        let d = digits(len as u64);
        self.push_bytes(d.as_slice());
    }

    /// Writes the integer token of a signed value.
    pub fn serialize_i64(&mut self, v: i64)
        ensures
            final(self)@ == old(self)@ + int_encoding(v as int),
    {
        self.output.push(INT_OPEN);
        let mag: u64 = if v < 0 {
            self.output.push(MINUS);
            (0 - (v as i128)) as u64
        } else {
            v as u64
        };
        let d = digits(mag);
        self.push_bytes(d.as_slice());
        self.output.push(CLOSE);
        proof {
            assert(final(self)@ =~= old(self)@ + int_encoding(v as int));
        }
    }

    /// Writes the integer token of an unsigned value.
    pub fn serialize_u64(&mut self, v: u64)
        ensures
            final(self)@ == old(self)@ + int_encoding(v as int),
    {
        self.output.push(INT_OPEN);
        let d = digits(v);
        self.push_bytes(d.as_slice());
        self.output.push(CLOSE);
        proof {
            assert(final(self)@ =~= old(self)@ + int_encoding(v as int));
        }
    }

    /// Writes the integer token of an `i8`.
    pub fn serialize_i8(&mut self, v: i8)
        ensures
            final(self)@ == old(self)@ + int_encoding(v as int),
    {
        self.serialize_i64(v as i64)
    }

    /// Writes the integer token of an `i16`.
    pub fn serialize_i16(&mut self, v: i16)
        ensures
            final(self)@ == old(self)@ + int_encoding(v as int),
    {
        self.serialize_i64(v as i64)
    }

    /// Writes the integer token of an `i32`.
    pub fn serialize_i32(&mut self, v: i32)
        ensures
            final(self)@ == old(self)@ + int_encoding(v as int),
    {
        self.serialize_i64(v as i64)
    }

    /// Writes the integer token of a `u8`.
    pub fn serialize_u8(&mut self, v: u8)
        ensures
            final(self)@ == old(self)@ + int_encoding(v as int),
    {
        self.serialize_u64(v as u64)
    }

    /// Writes the integer token of a `u16`.
    pub fn serialize_u16(&mut self, v: u16)
        ensures
            final(self)@ == old(self)@ + int_encoding(v as int),
    {
        self.serialize_u64(v as u64)
    }

    /// Writes the integer token of a `u32`.
    pub fn serialize_u32(&mut self, v: u32)
        ensures
            final(self)@ == old(self)@ + int_encoding(v as int),
    {
        self.serialize_u64(v as u64)
    }

    /// Writes a boolean. Both values are written as the integer 1.
    pub fn serialize_bool(&mut self, v: bool)
        ensures
            final(self)@ == old(self)@ + int_encoding(1),
    {
        if v {
            self.serialize_u32(1)
        } else {
            self.serialize_u32(1)
        }
    }

    /// Writes the byte string token of `v`.
    pub fn serialize_bytes(&mut self, v: &[u8])
        ensures
            final(self)@ == old(self)@ + string_encoding(v@),
    {
        self.push_length(v.len());
        self.output.push(COLON);
        self.push_bytes(v);
        proof {
            assert(final(self)@ =~= old(self)@ + string_encoding(v@));
        }
    }

    /// Writes the byte string token of the UTF-8 bytes of `v`.
    pub fn serialize_str(&mut self, v: &str)
        ensures
            final(self)@ == old(self)@ + string_encoding(v.spec_bytes()),
    {
        self.serialize_bytes(v.as_bytes())
    }

    /// Writes a character as the byte string of its UTF-8 bytes.
    pub fn serialize_char(&mut self, v: char)
        ensures
            final(self)@ == old(self)@ + string_encoding(encode_scalar(v as u32)),
    {
        let bytes = utf8_bytes(v);
        self.serialize_bytes(bytes.as_slice())
    }

    /// Writes the `l` that opens a list.
    pub fn serialize_seq(&mut self)
        ensures
            final(self)@ == old(self)@.push(LIST_OPEN),
    {
        self.output.push(LIST_OPEN);
    }

    /// Writes the `d` that opens a dictionary.
    pub fn serialize_map(&mut self)
        ensures
            final(self)@ == old(self)@.push(DICT_OPEN),
    {
        self.output.push(DICT_OPEN);
    }

    /// Writes the `e` that closes a list or a dictionary.
    pub fn end(&mut self)
        ensures
            final(self)@ == old(self)@.push(CLOSE),
    {
        self.output.push(CLOSE);
    }

    /// Writes a variant without payload: its name as a bare byte string.
    pub fn serialize_unit_variant(&mut self, variant: &str)
        ensures
            final(self)@ == old(self)@ + string_encoding(variant.spec_bytes()),
    {
        self.serialize_str(variant)
    }

    /// Opens a variant with one payload value: `d` and the variant's name.
    /// The payload follows, then `end`.
    pub fn serialize_newtype_variant(&mut self, variant: &str)
        ensures
            final(self)@ == old(self)@.push(DICT_OPEN) + string_encoding(variant.spec_bytes()),
    {
        self.output.push(DICT_OPEN);
        self.serialize_str(variant);
    }

    /// Opens a tuple-shaped variant: `d`, the variant's name and `l`. The
    /// fields follow, then `end_variant`.
    pub fn serialize_tuple_variant(&mut self, variant: &str)
        ensures
            final(self)@ == (old(self)@.push(DICT_OPEN) + string_encoding(
                variant.spec_bytes(),
            )).push(LIST_OPEN),
    {
        self.output.push(DICT_OPEN);
        self.serialize_str(variant);
        self.output.push(LIST_OPEN);
    }

    /// Opens a struct-shaped variant: `d`, the variant's name and `d`. The
    /// fields follow as key and value pairs, then `end_variant`.
    pub fn serialize_struct_variant(&mut self, variant: &str)
        ensures
            final(self)@ == (old(self)@.push(DICT_OPEN) + string_encoding(
                variant.spec_bytes(),
            )).push(DICT_OPEN),
    {
        self.output.push(DICT_OPEN);
        self.serialize_str(variant);
        self.output.push(DICT_OPEN);
    }

    /// Closes a tuple- or struct-shaped variant: `ee`.
    pub fn end_variant(&mut self)
        ensures
            final(self)@ == old(self)@.push(CLOSE).push(CLOSE),
    {
        self.output.push(CLOSE);
        self.output.push(CLOSE);
    }
}

} // verus!
