//! What reading gives back of what was written.

use vstd::prelude::*;
use crate::codec::{
    all_encodable, count_width, decode, decode_all, decode_body, descriptor, encodable, encode,
    encode_all, encode_fixed, encode_sized, encode_uuid, take_sized, TYPE_ALTERNATIVE, TYPE_BOOL,
    TYPE_NIL, TYPE_SEQUENCE, TYPE_SIGNED, TYPE_TEXT, TYPE_UNSIGNED, TYPE_URL, TYPE_UUID,
};
use crate::data_element::{lemma_short_uuid, Element, Uuid};
use crate::error::DecodeError;
use crate::octets::{be_bytes, be_limit, lemma_be_limits, lemma_take_be, take_be};

verus! {

/// The descriptor at the front of `s` decides how the octets after it are read.
proof fn lemma_decode_descriptor(kind: u8, size: nat, s: Seq<u8>)
    requires
        kind <= 8,
        size <= 7,
    ensures
        decode(descriptor(kind, size) + s) == decode_body(kind as nat, size, s),
{
    let d = (kind * 8 + size) as u8;
    lemma_be_limits();
    reveal_with_fuel(be_bytes, 2);
    assert(be_bytes(d as nat, 1) =~= descriptor(kind, size));
    lemma_take_be(d as nat, 1, s);
}

/// A number after its descriptor is taken off again.
proof fn lemma_take_fixed(kind: u8, size: nat, v: nat, n: nat, tail: Seq<u8>)
    requires
        kind <= 8,
        size <= 7,
        v < be_limit(n),
    ensures
        decode(encode_fixed(kind, size, v, n) + tail) == decode_body(
            kind as nat,
            size,
            be_bytes(v, n) + tail,
        ),
        take_be(be_bytes(v, n) + tail, n) == Ok::<_, DecodeError>((v, tail)),
{
    assert(encode_fixed(kind, size, v, n) + tail =~= descriptor(kind, size) + (be_bytes(v, n)
        + tail));
    lemma_decode_descriptor(kind, size, be_bytes(v, n) + tail);
    lemma_take_be(v, n, tail);
}

/// The size index under which a body of `n` octets is written.
spec fn sized_index(n: nat) -> nat {
    if n <= 0xff {
        5
    } else if n <= 0xffff {
        6
    } else {
        7
    }
}

/// A counted body after its descriptor is taken off again.
proof fn lemma_take_sized(kind: u8, body: Seq<u8>, tail: Seq<u8>) -> (s: Seq<u8>)
    requires
        kind <= 8,
        body.len() <= u32::MAX,
    ensures
        decode(encode_sized(kind, body) + tail) == decode_body(
            kind as nat,
            sized_index(body.len()),
            s,
        ),
        take_sized(s, sized_index(body.len())) == Ok::<_, DecodeError>((body, tail)),
{
    let size = sized_index(body.len());
    let n = count_width(size);
    let s = be_bytes(body.len(), n) + (body + tail);
    lemma_be_limits();
    assert(encode_sized(kind, body) + tail =~= descriptor(kind, size) + s);
    lemma_decode_descriptor(kind, size, s);
    lemma_take_be(body.len(), n, body + tail);
    assert((body + tail).take(body.len() as int) =~= body);
    assert((body + tail).skip(body.len() as int) =~= tail);
    s
}

/// A UUID is read back as the one that was written, whichever form it was written in.
proof fn lemma_decode_encode_uuid(uuid: Uuid, tail: Seq<u8>)
    ensures
        decode(encode_uuid(uuid) + tail) == Ok::<_, DecodeError>((Element::Uuid(uuid), tail)),
{
    lemma_be_limits();
    match uuid.short() {
        Some(short) => {
            lemma_short_uuid(short, uuid);
            if short <= 0xffff {
                lemma_take_fixed(TYPE_UUID, 1, short, 2, tail);
            } else {
                lemma_take_fixed(TYPE_UUID, 2, short, 4, tail);
            }
        },
        None => {
            lemma_take_fixed(TYPE_UUID, 4, uuid.value as nat, 16, tail);
        },
    }
}

/// Two's complement loses nothing.
proof fn lemma_signed_casts(a: i8, b: i16, c: i32, d: i64, e: i128)
    ensures
        (a as u8) as i8 == a,
        (b as u16) as i16 == b,
        (c as u32) as i32 == c,
        (d as u64) as i64 == d,
        (e as u128) as i128 == e,
{
    assert((a as u8) as i8 == a) by (bit_vector);
    assert((b as u16) as i16 == b) by (bit_vector);
    assert((c as u32) as i32 == c) by (bit_vector);
    assert((d as u64) as i64 == d) by (bit_vector);
    assert((e as u128) as i128 == e) by (bit_vector);
}

/// Reading an element back from the octets it was written as gives the element, and leaves what
/// follows them. Left out are elements with more octets than any count of octets can tell.
pub proof fn law_decode_encode(element: Element, tail: Seq<u8>)
    requires
        encodable(element),
    ensures
        decode(encode(element) + tail) == Ok::<_, DecodeError>((element, tail)),
    decreases element,
{
    lemma_be_limits();
    match element {
        Element::Nil => {
            lemma_take_fixed(TYPE_NIL, 0, 0, 0, tail);
            assert(be_bytes(0, 0) + tail =~= tail);
        },
        Element::U8(v) => {
            lemma_take_fixed(TYPE_UNSIGNED, 0, v as nat, 1, tail);
        },
        Element::U16(v) => {
            lemma_take_fixed(TYPE_UNSIGNED, 1, v as nat, 2, tail);
        },
        Element::U32(v) => {
            lemma_take_fixed(TYPE_UNSIGNED, 2, v as nat, 4, tail);
        },
        Element::U64(v) => {
            lemma_take_fixed(TYPE_UNSIGNED, 3, v as nat, 8, tail);
        },
        Element::U128(v) => {
            lemma_take_fixed(TYPE_UNSIGNED, 4, v as nat, 16, tail);
        },
        Element::I8(v) => {
            lemma_take_fixed(TYPE_SIGNED, 0, (v as u8) as nat, 1, tail);
            lemma_signed_casts(v, 0, 0, 0, 0);
        },
        Element::I16(v) => {
            lemma_take_fixed(TYPE_SIGNED, 1, (v as u16) as nat, 2, tail);
            lemma_signed_casts(0, v, 0, 0, 0);
        },
        Element::I32(v) => {
            lemma_take_fixed(TYPE_SIGNED, 2, (v as u32) as nat, 4, tail);
            lemma_signed_casts(0, 0, v, 0, 0);
        },
        Element::I64(v) => {
            lemma_take_fixed(TYPE_SIGNED, 3, (v as u64) as nat, 8, tail);
            lemma_signed_casts(0, 0, 0, v, 0);
        },
        Element::I128(v) => {
            lemma_take_fixed(TYPE_SIGNED, 4, (v as u128) as nat, 16, tail);
            lemma_signed_casts(0, 0, 0, 0, v);
        },
        Element::Uuid(uuid) => {
            lemma_decode_encode_uuid(uuid, tail);
        },
        Element::Text(octets) => {
            let s = lemma_take_sized(TYPE_TEXT, octets, tail);
        },
        Element::Bool(v) => {
            lemma_take_fixed(
                TYPE_BOOL,
                0,
                if v {
                    1
                } else {
                    0
                },
                1,
                tail,
            );
        },
        Element::Sequence(items) => {
            let s = lemma_take_sized(TYPE_SEQUENCE, encode_all(items), tail);
            law_decode_encode_all(items);
        },
        Element::Alternative(items) => {
            let s = lemma_take_sized(TYPE_ALTERNATIVE, encode_all(items), tail);
            law_decode_encode_all(items);
        },
        Element::Url(octets) => {
            let s = lemma_take_sized(TYPE_URL, octets, tail);
        },
    }
}

/// An element is written as at least one octet.
pub proof fn lemma_encode_nonempty(element: Element)
    ensures
        encode(element).len() > 0,
{
}

/// Reading elements back from the octets they were written as, one after the other, gives the
/// elements.
pub proof fn law_decode_encode_all(items: Seq<Element>)
    requires
        all_encodable(items),
    ensures
        decode_all(encode_all(items)) == Ok::<_, DecodeError>(items),
    decreases items,
{
    if items.len() > 0 {
        let others = items.subrange(1, items.len() as int);
        law_decode_encode(items[0], encode_all(others));
        law_decode_encode_all(others);
        lemma_encode_nonempty(items[0]);
        assert(seq![items[0]] + others =~= items);
    } else {
        assert(items =~= Seq::empty());
    }
}

} // verus!
