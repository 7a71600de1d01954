//! Laws that relate the encoder's output to what the decoder reads back.
use vstd::prelude::*;

use crate::error::Error;
use crate::grammar::{
    decimal_field, decimal_text, decimal_value, dict_encoding, entry_encoding, int_encoding,
    int_token, is_digit, lead_kind, lemma_digit_run_ends, list_encoding, string_encoding,
    string_token, TokenKind, CLOSE, COLON, DICT_OPEN, INT_OPEN, LIST_OPEN, MINUS,
};

verus! {

/// The decimal text of `n` is a non-empty run of digits that reads back as `n`.
pub proof fn lemma_decimal_text(n: nat)
    ensures
        decimal_text(n).len() >= 1,
        forall|j: int| 0 <= j < decimal_text(n).len() ==> is_digit(#[trigger] decimal_text(n)[j]),
        decimal_value(decimal_text(n)) == n,
    decreases n,
{
    if n >= 10 {
        lemma_decimal_text(n / 10);
        let d = decimal_text(n);
        assert(d.drop_last() =~= decimal_text(n / 10));
        assert(d.last() == (n % 10 + 48) as u8);
        assert(n / 10 * 10 + n % 10 == n);
        assert(decimal_value(d) == decimal_value(d.drop_last()) * 10 + (d.last() - 48));
    } else {
        let d = decimal_text(n);
        assert(d.drop_last() =~= Seq::<u8>::empty());
        assert(decimal_value(d) == decimal_value(d.drop_last()) * 10 + (d.last() - 48));
    }
}

/// Digits written at `start` of `s` and followed by `term` read back as
/// their value, when it is within `bound`.
proof fn lemma_field_of_text(s: Seq<u8>, start: int, n: nat, bound: int, term: u8)
    requires
        0 <= start,
        start + decimal_text(n).len() < s.len(),
        s.subrange(start, start + decimal_text(n).len()) == decimal_text(n),
        s[start + decimal_text(n).len()] == term,
        !is_digit(term),
        n <= bound,
    ensures
        decimal_field(s, start, bound, term) == Ok::<(int, int), Error>(
            (n as int, start + decimal_text(n).len()),
        ),
{
    lemma_decimal_text(n);
    let d = decimal_text(n);
    assert forall|j: int| start <= j < start + d.len() implies is_digit(#[trigger] s[j]) by {
        assert(s[j] == s.subrange(start, start + d.len())[j - start]);
    }
    lemma_digit_run_ends(s, start, start + d.len());
    assert(s[start] == d[0]);
}

/// Round trip of integers: the token written for `v` reads back as `v`, for
/// every integer type whose range `lo..=hi` holds `v`, and takes exactly its
/// own bytes whatever follows it.
pub proof fn lemma_int_round_trip(v: int, lo: int, hi: int, signed: bool, rest: Seq<u8>)
    requires
        lo <= 0 <= hi,
        lo <= v <= hi,
        !signed ==> lo == 0,
    ensures
        int_token(int_encoding(v) + rest, lo, hi, signed) == Ok::<(int, nat), Error>(
            (v, int_encoding(v).len()),
        ),
{
    let s = int_encoding(v) + rest;
    let mag: nat = if v < 0 { (-v) as nat } else { v as nat };
    let d = decimal_text(mag);
    lemma_decimal_text(mag);
    let start: int = if v < 0 { 2 } else { 1 };
    assert(s.subrange(start, start + d.len()) =~= d);
    assert(s[start + d.len()] == CLOSE);
    assert(s[0] == INT_OPEN);
    assert(v >= 0 ==> s[1] == d[0]);
    lemma_field_of_text(s, start, mag, if v < 0 { -lo } else { hi }, CLOSE);
}

/// Round trip of byte strings, the empty one included: the token written for
/// `b` reads back as `b` and takes exactly its own bytes whatever follows it.
pub proof fn lemma_string_round_trip(b: Seq<u8>, rest: Seq<u8>)
    requires
        b.len() <= usize::MAX,
    ensures
        string_token(string_encoding(b) + rest) == Ok::<(Seq<u8>, nat), Error>(
            (b, string_encoding(b).len()),
        ),
{
    let s = string_encoding(b) + rest;
    let d = decimal_text(b.len());
    lemma_decimal_text(b.len());
    assert(s.subrange(0, d.len() as int) =~= d);
    assert(s[d.len() as int] == COLON);
    lemma_field_of_text(s, 0, b.len(), usize::MAX as int, COLON);
    assert(s.subrange(d.len() + 1 as int, d.len() + 1 + b.len() as int) =~= b);
}

/// The lead byte of every written token tells its kind, and none is the
/// `e` that closes a list or a dictionary: a list or a dictionary of written
/// values is read back element by element up to its own closing `e`.
pub proof fn lemma_lead_kinds(
    v: int,
    b: Seq<u8>,
    elems: Seq<Seq<u8>>,
    entries: Seq<(Seq<u8>, Seq<u8>)>,
    rest: Seq<u8>,
)
    ensures
        lead_kind(int_encoding(v) + rest) == Ok::<TokenKind, Error>(
            if v < 0 {
                TokenKind::SignedInteger
            } else {
                TokenKind::UnsignedInteger
            },
        ),
        lead_kind(string_encoding(b) + rest) == Ok::<TokenKind, Error>(TokenKind::ByteString),
        lead_kind(list_encoding(elems) + rest) == Ok::<TokenKind, Error>(TokenKind::List),
        lead_kind(dict_encoding(entries) + rest) == Ok::<TokenKind, Error>(TokenKind::Dictionary),
        (int_encoding(v) + rest)[0] != CLOSE,
        (string_encoding(b) + rest)[0] != CLOSE,
{
    lemma_decimal_text(if v < 0 { (-v) as nat } else { v as nat });
    lemma_decimal_text(b.len());
    let s = int_encoding(v) + rest;
    assert(s[0] == INT_OPEN);
    assert(v < 0 ==> s[1] == MINUS);
    assert(v >= 0 ==> is_digit(s[1]));
    let t = string_encoding(b) + rest;
    assert(t[0] == decimal_text(b.len())[0]);
    assert((list_encoding(elems) + rest)[0] == LIST_OPEN);
    assert((dict_encoding(entries) + rest)[0] == DICT_OPEN);
}

/// Round trip of variant names: a variant without payload is written as a
/// bare byte string, whose lead byte is a digit, and one with a payload as a
/// dictionary opened by `d`; either way the name reads back exactly.
pub proof fn lemma_variant_round_trip(name: Seq<u8>, rest: Seq<u8>)
    requires
        name.len() <= usize::MAX,
    ensures
        is_digit((string_encoding(name) + rest)[0]),
        string_token(string_encoding(name) + rest) == Ok::<(Seq<u8>, nat), Error>(
            (name, string_encoding(name).len()),
        ),
        (seq![DICT_OPEN] + string_encoding(name) + rest)[0] == DICT_OPEN,
        (seq![DICT_OPEN] + string_encoding(name) + rest).drop_first() == string_encoding(name)
            + rest,
{
    lemma_decimal_text(name.len());
    lemma_string_round_trip(name, rest);
    assert((string_encoding(name) + rest)[0] == decimal_text(name.len())[0]);
    assert((seq![DICT_OPEN] + string_encoding(name) + rest).drop_first() =~= string_encoding(name)
        + rest);
}

/// What is left of `l`, the elements `elems`, `e` and then `rest`, once
/// the `l` and the first `k` elements have been read.
pub open spec fn elements_from(elems: Seq<Seq<u8>>, k: int, rest: Seq<u8>) -> Seq<u8> {
    elems.skip(k).flatten() + seq![CLOSE] + rest
}

/// A written token can stand as an element: it is not empty and does not
/// start with the `e` that closes a list or a dictionary.
pub open spec fn starts_token(t: Seq<u8>) -> bool {
    t.len() > 0 && t[0] != CLOSE
}

/// Round trip of lists: after the `l`, each written element is read in
/// turn, the reader is not at the close while one remains, and after the
/// last one it is at the `e`, after which exactly what followed the list
/// remains.
pub proof fn lemma_list_round_trip(elems: Seq<Seq<u8>>, rest: Seq<u8>)
    requires
        forall|j: int| 0 <= j < elems.len() ==> starts_token(#[trigger] elems[j]),
    ensures
        (list_encoding(elems) + rest)[0] == LIST_OPEN,
        (list_encoding(elems) + rest).drop_first() == elements_from(elems, 0, rest),
        forall|k: int|
            0 <= k < elems.len() ==> #[trigger] elements_from(elems, k, rest) == elems[k]
                + elements_from(elems, k + 1, rest) && elements_from(elems, k, rest)[0] != CLOSE,
        elements_from(elems, elems.len() as int, rest) == seq![CLOSE] + rest,
{
    assert(elems.skip(0) =~= elems);
    assert((list_encoding(elems) + rest).drop_first() =~= elements_from(elems, 0, rest));
    assert forall|k: int| 0 <= k < elems.len() implies #[trigger] elements_from(elems, k, rest)
        == elems[k] + elements_from(elems, k + 1, rest) && elements_from(elems, k, rest)[0]
        != CLOSE by {
        let tail = elems.skip(k);
        assert(tail.first() == elems[k]);
        assert(tail.drop_first() =~= elems.skip(k + 1));
        assert(tail.flatten() == tail.first() + tail.drop_first().flatten());
        assert(elements_from(elems, k, rest) =~= elems[k] + elements_from(elems, k + 1, rest));
        assert(starts_token(elems[k]));
        assert(elements_from(elems, k, rest)[0] == elems[k][0]);
    }
    assert(elems.skip(elems.len() as int) =~= Seq::<Seq<u8>>::empty());
    assert(elements_from(elems, elems.len() as int, rest) =~= seq![CLOSE] + rest);
}

/// Round trip of dictionaries: after the `d`, each entry is read in turn,
/// its key as a byte string that comes back exactly and then its value, in
/// the order written; the reader is at the close only after the last entry,
/// and exactly what followed the dictionary remains after its `e`.
pub proof fn lemma_dict_round_trip(entries: Seq<(Seq<u8>, Seq<u8>)>, rest: Seq<u8>)
    requires
        forall|j: int| 0 <= j < entries.len() ==> (#[trigger] entries[j]).0.len() <= usize::MAX,
    ensures
        ({
            let elems = entries.map_values(|e: (Seq<u8>, Seq<u8>)| entry_encoding(e));
            &&& (dict_encoding(entries) + rest)[0] == DICT_OPEN
            &&& (dict_encoding(entries) + rest).drop_first() == elements_from(elems, 0, rest)
            &&& forall|k: int|
                0 <= k < entries.len() ==> {
                    let left = #[trigger] elements_from(elems, k, rest);
                    let key_len = string_encoding(entries[k].0).len();
                    &&& left[0] != CLOSE
                    &&& string_token(left) == Ok::<(Seq<u8>, nat), Error>((entries[k].0, key_len))
                    &&& left.skip(key_len as int) == entries[k].1 + elements_from(elems, k + 1, rest)
                }
            &&& elements_from(elems, entries.len() as int, rest) == seq![CLOSE] + rest
        }),
{
    let elems = entries.map_values(|e: (Seq<u8>, Seq<u8>)| entry_encoding(e));
    assert forall|j: int| 0 <= j < elems.len() implies starts_token(#[trigger] elems[j]) by {
        lemma_decimal_text(entries[j].0.len());
        assert(elems[j] == entry_encoding(entries[j]));
        assert(elems[j][0] == decimal_text(entries[j].0.len())[0]);
    }
    lemma_list_round_trip(elems, rest);
    assert(dict_encoding(entries) == list_encoding(elems).update(0, DICT_OPEN));
    assert((dict_encoding(entries) + rest).drop_first() =~= (list_encoding(elems)
        + rest).drop_first());
    assert forall|k: int| 0 <= k < entries.len() implies {
        let left = #[trigger] elements_from(elems, k, rest);
        let key_len = string_encoding(entries[k].0).len();
        &&& left[0] != CLOSE
        &&& string_token(left) == Ok::<(Seq<u8>, nat), Error>((entries[k].0, key_len))
        &&& left.skip(key_len as int) == entries[k].1 + elements_from(elems, k + 1, rest)
    } by {
        lemma_entry_read(entries, elems, k, rest);
    }
}

/// One entry of a written dictionary reads back as its key and then its value.
proof fn lemma_entry_read(
    entries: Seq<(Seq<u8>, Seq<u8>)>,
    elems: Seq<Seq<u8>>,
    k: int,
    rest: Seq<u8>,
)
    requires
        0 <= k < entries.len(),
        entries[k].0.len() <= usize::MAX,
        elems == entries.map_values(|e: (Seq<u8>, Seq<u8>)| entry_encoding(e)),
        elements_from(elems, k, rest) == elems[k] + elements_from(elems, k + 1, rest),
        elements_from(elems, k, rest)[0] != CLOSE,
    ensures
        ({
            let left = elements_from(elems, k, rest);
            let key_len = string_encoding(entries[k].0).len();
            &&& string_token(left) == Ok::<(Seq<u8>, nat), Error>((entries[k].0, key_len))
            &&& left.skip(key_len as int) == entries[k].1 + elements_from(elems, k + 1, rest)
        }),
{
    let left = elements_from(elems, k, rest);
    let after = entries[k].1 + elements_from(elems, k + 1, rest);
    assert(elems[k] == entry_encoding(entries[k]));
    assert(left =~= string_encoding(entries[k].0) + after);
    lemma_string_round_trip(entries[k].0, after);
    assert(left.skip(string_encoding(entries[k].0).len() as int) =~= after);
}

} // verus!
