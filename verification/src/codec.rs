//! How data elements are written as octets and read back.

use vstd::prelude::*;
use crate::data_element::{elements, uuid_of_short, DataElement, Element, Uuid};
use crate::error::DecodeError;
use crate::octets::{be_bytes, lemma_be_limits, take_be, write_be, Reader};

verus! {

/// The type descriptors of the protocol.
pub const TYPE_NIL: u8 = 0;

pub const TYPE_UNSIGNED: u8 = 1;

pub const TYPE_SIGNED: u8 = 2;

pub const TYPE_UUID: u8 = 3;

pub const TYPE_TEXT: u8 = 4;

pub const TYPE_BOOL: u8 = 5;

pub const TYPE_SEQUENCE: u8 = 6;

pub const TYPE_ALTERNATIVE: u8 = 7;

pub const TYPE_URL: u8 = 8;

/// The octet that announces an element: its type in the upper five bits, its size index in the
/// lower three.
pub open spec fn descriptor(kind: u8, size: nat) -> Seq<u8> {
    seq![(kind * 8 + size) as u8]
}

/// An element of fixed size: its descriptor, then the `n` octets of its value.
pub open spec fn encode_fixed(kind: u8, size: nat, v: nat, n: nat) -> Seq<u8> {
    descriptor(kind, size) + be_bytes(v, n)
}

/// An element of varying size: its descriptor, the count of octets in the narrowest of the three
/// fields for it, and the octets.
pub open spec fn encode_sized(kind: u8, body: Seq<u8>) -> Seq<u8> {
    if body.len() <= 0xff {
        descriptor(kind, 5) + be_bytes(body.len(), 1) + body
    } else if body.len() <= 0xffff {
        descriptor(kind, 6) + be_bytes(body.len(), 2) + body
    } else {
        descriptor(kind, 7) + be_bytes(body.len(), 4) + body
    }
}

/// A UUID is written in the shortest form that stands for it.
pub open spec fn encode_uuid(uuid: Uuid) -> Seq<u8> {
    match uuid.short() {
        Some(short) => if short <= 0xffff {
            encode_fixed(TYPE_UUID, 1, short, 2)
        } else {
            encode_fixed(TYPE_UUID, 2, short, 4)
        },
        None => encode_fixed(TYPE_UUID, 4, uuid.value as nat, 16),
    }
}

/// The octets that an element is written as.
pub open spec fn encode(element: Element) -> Seq<u8>
    decreases element,
{
    match element {
        Element::Nil => encode_fixed(TYPE_NIL, 0, 0, 0),
        Element::U8(v) => encode_fixed(TYPE_UNSIGNED, 0, v as nat, 1),
        Element::U16(v) => encode_fixed(TYPE_UNSIGNED, 1, v as nat, 2),
        Element::U32(v) => encode_fixed(TYPE_UNSIGNED, 2, v as nat, 4),
        Element::U64(v) => encode_fixed(TYPE_UNSIGNED, 3, v as nat, 8),
        Element::U128(v) => encode_fixed(TYPE_UNSIGNED, 4, v as nat, 16),
        Element::I8(v) => encode_fixed(TYPE_SIGNED, 0, (v as u8) as nat, 1),
        Element::I16(v) => encode_fixed(TYPE_SIGNED, 1, (v as u16) as nat, 2),
        Element::I32(v) => encode_fixed(TYPE_SIGNED, 2, (v as u32) as nat, 4),
        Element::I64(v) => encode_fixed(TYPE_SIGNED, 3, (v as u64) as nat, 8),
        Element::I128(v) => encode_fixed(TYPE_SIGNED, 4, (v as u128) as nat, 16),
        Element::Uuid(uuid) => encode_uuid(uuid),
        Element::Text(octets) => encode_sized(TYPE_TEXT, octets),
        Element::Bool(v) => encode_fixed(
            TYPE_BOOL,
            0,
            if v {
                1
            } else {
                0
            },
            1,
        ),
        Element::Sequence(items) => encode_sized(TYPE_SEQUENCE, encode_all(items)),
        Element::Alternative(items) => encode_sized(TYPE_ALTERNATIVE, encode_all(items)),
        Element::Url(octets) => encode_sized(TYPE_URL, octets),
    }
}

/// The octets of elements that follow each other.
pub open spec fn encode_all(items: Seq<Element>) -> Seq<u8>
    decreases items,
{
    if items.len() == 0 {
        Seq::empty()
    } else {
        encode(items[0]) + encode_all(items.subrange(1, items.len() as int))
    }
}

/// Every count of octets in the element fits the widest field for it.
pub open spec fn encodable(element: Element) -> bool
    decreases element,
{
    match element {
        Element::Text(octets) => octets.len() <= u32::MAX,
        Element::Url(octets) => octets.len() <= u32::MAX,
        Element::Sequence(items) => all_encodable(items) && encode_all(items).len() <= u32::MAX,
        Element::Alternative(items) => all_encodable(items) && encode_all(items).len() <= u32::MAX,
        _ => true,
    }
}

/// Every count of octets in each of the elements fits the widest field for it.
pub open spec fn all_encodable(items: Seq<Element>) -> bool
    decreases items,
{
    items.len() > 0 ==> encodable(items[0]) && all_encodable(
        items.subrange(1, items.len() as int),
    )
}

/// Appends a descriptor and a number.
fn write_fixed(out: &mut Vec<u8>, kind: u8, size: u8, v: u128, n: usize)
    requires
        kind <= 8,
        size <= 7,
    ensures
        final(out)@ == old(out)@ + encode_fixed(kind, size as nat, v as nat, n as nat),
{
    out.push(kind * 8 + size);
    write_be(out, v, n);
    assert(out@ =~= old(out)@ + encode_fixed(kind, size as nat, v as nat, n as nat));
}

/// Appends a descriptor, a count of octets and the octets.
fn write_sized(out: &mut Vec<u8>, kind: u8, body: &Vec<u8>)
    requires
        kind <= 8,
    ensures
        final(out)@ == old(out)@ + encode_sized(kind, body@),
{
    let n: usize = body.len();
    if n <= 0xff {
        write_fixed(out, kind, 5, n as u128, 1);
    } else if n <= 0xffff {
        write_fixed(out, kind, 6, n as u128, 2);
    } else {
        write_fixed(out, kind, 7, n as u128, 4);
    }
    out.extend_from_slice(body.as_slice());
    assert(out@ =~= old(out)@ + encode_sized(kind, body@));
}

/// Appends a UUID.
fn write_uuid(out: &mut Vec<u8>, uuid: Uuid)
    ensures
        final(out)@ == old(out)@ + encode_uuid(uuid),
{
    match uuid.as_short() {
        Some(short) => if short <= 0xffff {
            write_fixed(out, TYPE_UUID, 1, short as u128, 2);
        } else {
            write_fixed(out, TYPE_UUID, 2, short as u128, 4);
        },
        None => {
            write_fixed(out, TYPE_UUID, 4, uuid.value, 16);
        },
    }
}

/// The octets of the items, one after the other.
fn items_to_octets(items: &Vec<DataElement>) -> (r: Vec<u8>)
    ensures
        r@ == encode_all(elements(items@)),
    decreases items@,
{
    let mut r: Vec<u8> = Vec::new();
    let ghost all = elements(items@);
    let mut i: usize = 0;
    assert(all.subrange(0, all.len() as int) =~= all);
    assert(r@ + encode_all(all) =~= encode_all(all));
    while i < items.len()
        invariant
            i <= items@.len(),
            all == elements(items@),
            r@ + encode_all(all.subrange(i as int, all.len() as int)) == encode_all(all),
        decreases items@.len() - i,
    {
        let ghost before = r@;
        let ghost left = all.subrange(i as int, all.len() as int);
        items[i].write_to_buffer(&mut r);
        proof {
            assert(left.subrange(1, left.len() as int) =~= all.subrange(i + 1, all.len() as int));
            assert(left[0] == items@[i as int]@);
            assert(r@ + encode_all(all.subrange(i + 1, all.len() as int)) =~= before + encode_all(
                left,
            ));
        }
        i = i + 1;
    }
    assert(r@ =~= r@ + encode_all(all.subrange(all.len() as int, all.len() as int)));
    r
}

impl DataElement {
    /// Appends the element's octets.
    pub fn write_to_buffer(&self, out: &mut Vec<u8>)
        ensures
            final(out)@ == old(out)@ + encode(self@),
        decreases self,
    {
        match self {
            DataElement::Nil => write_fixed(out, TYPE_NIL, 0, 0, 0),
            DataElement::U8(v) => write_fixed(out, TYPE_UNSIGNED, 0, *v as u128, 1),
            DataElement::U16(v) => write_fixed(out, TYPE_UNSIGNED, 1, *v as u128, 2),
            DataElement::U32(v) => write_fixed(out, TYPE_UNSIGNED, 2, *v as u128, 4),
            DataElement::U64(v) => write_fixed(out, TYPE_UNSIGNED, 3, *v as u128, 8),
            DataElement::U128(v) => write_fixed(out, TYPE_UNSIGNED, 4, *v, 16),
            DataElement::I8(v) => write_fixed(out, TYPE_SIGNED, 0, (*v as u8) as u128, 1),
            DataElement::I16(v) => write_fixed(out, TYPE_SIGNED, 1, (*v as u16) as u128, 2),
            DataElement::I32(v) => write_fixed(out, TYPE_SIGNED, 2, (*v as u32) as u128, 4),
            DataElement::I64(v) => write_fixed(out, TYPE_SIGNED, 3, (*v as u64) as u128, 8),
            DataElement::I128(v) => write_fixed(out, TYPE_SIGNED, 4, *v as u128, 16),
            DataElement::Uuid(uuid) => write_uuid(out, *uuid),
            DataElement::Text(octets) => write_sized(out, TYPE_TEXT, octets),
            DataElement::Bool(v) => write_fixed(
                out,
                TYPE_BOOL,
                0,
                if *v {
                    1
                } else {
                    0
                },
                1,
            ),
            DataElement::Sequence(items) => {
                let body: Vec<u8> = items_to_octets(items);
                write_sized(out, TYPE_SEQUENCE, &body);
            },
            DataElement::Alternative(items) => {
                let body: Vec<u8> = items_to_octets(items);
                write_sized(out, TYPE_ALTERNATIVE, &body);
            },
            DataElement::Url(octets) => write_sized(out, TYPE_URL, octets),
        }
    }
}

/// The width of a number by its size index.
pub open spec fn scalar_width(size: nat) -> nat {
    if size == 0 {
        1
    } else if size == 1 {
        2
    } else if size == 2 {
        4
    } else if size == 3 {
        8
    } else {
        16
    }
}

/// The unsigned number of the given size index.
pub open spec fn unsigned_element(size: nat, v: nat) -> Element {
    if size == 0 {
        Element::U8(v as u8)
    } else if size == 1 {
        Element::U16(v as u16)
    } else if size == 2 {
        Element::U32(v as u32)
    } else if size == 3 {
        Element::U64(v as u64)
    } else {
        Element::U128(v as u128)
    }
}

/// The signed number of the given size index, in two's complement.
pub open spec fn signed_element(size: nat, v: nat) -> Element {
    if size == 0 {
        Element::I8((v as u8) as i8)
    } else if size == 1 {
        Element::I16((v as u16) as i16)
    } else if size == 2 {
        Element::I32((v as u32) as i32)
    } else if size == 3 {
        Element::I64((v as u64) as i64)
    } else {
        Element::I128((v as u128) as i128)
    }
}

/// The width of the count of octets by the size index.
pub open spec fn count_width(size: nat) -> nat {
    if size == 5 {
        1
    } else if size == 6 {
        2
    } else {
        4
    }
}

/// Takes a count of octets and that many octets off the front of `s`.
pub open spec fn take_sized(s: Seq<u8>, size: nat) -> Result<(Seq<u8>, Seq<u8>), DecodeError> {
    match take_be(s, count_width(size)) {
        Ok((n, rest)) => if rest.len() < n {
            Err(DecodeError::TooShort)
        } else {
            Ok((rest.take(n as int), rest.skip(n as int)))
        },
        Err(e) => Err(e),
    }
}

/// Takes an element off the front of `s`.
pub open spec fn decode(s: Seq<u8>) -> Result<(Element, Seq<u8>), DecodeError>
    decreases s.len(), 0nat,
{
    match take_be(s, 1) {
        Ok((d, body)) => decode_body(d / 8, d % 8, body),
        Err(e) => Err(e),
    }
}

/// Takes what follows the descriptor of type `kind` and size index `size` off the front of `s`.
pub open spec fn decode_body(kind: nat, size: nat, s: Seq<u8>) -> Result<
    (Element, Seq<u8>),
    DecodeError,
>
    decreases s.len(), 2nat,
{
    if kind == TYPE_NIL && size == 0 {
        Ok((Element::Nil, s))
    } else if kind == TYPE_UNSIGNED && size <= 4 {
        match take_be(s, scalar_width(size)) {
            Ok((v, rest)) => Ok((unsigned_element(size, v), rest)),
            Err(e) => Err(e),
        }
    } else if kind == TYPE_SIGNED && size <= 4 {
        match take_be(s, scalar_width(size)) {
            Ok((v, rest)) => Ok((signed_element(size, v), rest)),
            Err(e) => Err(e),
        }
    } else if kind == TYPE_UUID && (size == 1 || size == 2) {
        match take_be(s, scalar_width(size)) {
            Ok((v, rest)) => Ok((Element::Uuid(uuid_of_short(v)), rest)),
            Err(e) => Err(e),
        }
    } else if kind == TYPE_UUID && size == 4 {
        match take_be(s, 16) {
            Ok((v, rest)) => Ok((Element::Uuid(Uuid { value: v as u128 }), rest)),
            Err(e) => Err(e),
        }
    } else if kind == TYPE_BOOL && size == 0 {
        match take_be(s, 1) {
            Ok((v, rest)) => if v <= 1 {
                Ok((Element::Bool(v == 1), rest))
            } else {
                Err(DecodeError::InvalidValue)
            },
            Err(e) => Err(e),
        }
    } else if (kind == TYPE_TEXT || kind == TYPE_URL) && 5 <= size <= 7 {
        match take_sized(s, size) {
            Ok((body, rest)) => Ok(
                (
                    if kind == TYPE_TEXT {
                        Element::Text(body)
                    } else {
                        Element::Url(body)
                    },
                    rest,
                ),
            ),
            Err(e) => Err(e),
        }
    } else if (kind == TYPE_SEQUENCE || kind == TYPE_ALTERNATIVE) && 5 <= size <= 7 {
        match take_sized(s, size) {
            Ok((body, rest)) => match decode_all(body) {
                Ok(items) => Ok(
                    (
                        if kind == TYPE_SEQUENCE {
                            Element::Sequence(items)
                        } else {
                            Element::Alternative(items)
                        },
                        rest,
                    ),
                ),
                Err(e) => Err(e),
            },
            Err(e) => Err(e),
        }
    } else {
        Err(DecodeError::InvalidValue)
    }
}

/// The elements that `s` is made of.
pub open spec fn decode_all(s: Seq<u8>) -> Result<Seq<Element>, DecodeError>
    decreases s.len(), 1nat,
{
    if s.len() == 0 {
        Ok(Seq::empty())
    } else {
        match decode(s) {
            Ok((first, rest)) => if rest.len() < s.len() {
                match decode_all(rest) {
                    Ok(others) => Ok(seq![first] + others),
                    Err(e) => Err(e),
                }
            } else {
                Err(DecodeError::InvalidValue)
            },
            Err(e) => Err(e),
        }
    }
}

/// An element takes up at least one octet.
pub proof fn lemma_decode_advances(s: Seq<u8>)
    ensures
        decode(s) matches Ok((_, rest)) ==> rest.len() < s.len(),
{
}

/// What is left to read behind a count of octets and that many octets. Where the octets are too
/// few, only the count is read; where there is no count, nothing.
pub open spec fn sized_stop(s: Seq<u8>, size: nat) -> Seq<u8> {
    match take_be(s, count_width(size)) {
        Ok((n, rest)) => if rest.len() < n {
            rest
        } else {
            rest.skip(n as int)
        },
        Err(_) => s,
    }
}

/// What is left to read after the octets behind the descriptor of type `kind` and size index
/// `size` turned out to hold no element.
pub open spec fn body_stop(kind: nat, size: nat, s: Seq<u8>) -> Seq<u8> {
    if kind == TYPE_BOOL && size == 0 && s.len() > 0 {
        s.skip(1)
    } else if (kind == TYPE_TEXT || kind == TYPE_URL || kind == TYPE_SEQUENCE || kind
        == TYPE_ALTERNATIVE) && 5 <= size <= 7 {
        sized_stop(s, size)
    } else {
        s
    }
}

/// What is left to read after `s` turned out to hold no element.
pub open spec fn decode_stop(s: Seq<u8>) -> Seq<u8> {
    match take_be(s, 1) {
        Ok((d, body)) => body_stop(d / 8, d % 8, body),
        Err(_) => s,
    }
}

/// Reads a count of octets and that many octets.
fn read_sized<'a>(reader: &mut Reader<'a>, size: u8) -> (r: Result<&'a [u8], DecodeError>)
    requires
        5 <= size <= 7,
    ensures
        match take_sized(old(reader).rest(), size as nat) {
            Ok((body, rest)) => r is Ok && r->Ok_0@ == body && final(reader).rest() == rest,
            Err(e) => r is Err && r->Err_0 == e && final(reader).rest() == sized_stop(
                old(reader).rest(),
                size as nat,
            ),
        },
{
    let width: usize = if size == 5 {
        1
    } else if size == 6 {
        2
    } else {
        4
    };
    proof {
        lemma_be_limits();
    }
    let n: u128 = match reader.read_be(width) {
        Ok(n) => n,
        Err(e) => {
            return Err(e);
        },
    };
    reader.read_slice(n as usize)
}

/// Reads an unsigned number.
fn read_unsigned(reader: &mut Reader, size: u8) -> (r: Result<DataElement, DecodeError>)
    requires
        size <= 4,
    ensures
        match take_be(old(reader).rest(), scalar_width(size as nat)) {
            Ok((v, rest)) => r is Ok && r->Ok_0@ == unsigned_element(size as nat, v)
                && final(reader).rest() == rest,
            Err(e) => r is Err && r->Err_0 == e && final(reader).rest() == old(reader).rest(),
        },
{
    proof {
        lemma_be_limits();
    }
    if size == 0 {
        match reader.read_be(1) {
            Ok(v) => Ok(DataElement::U8(v as u8)),
            Err(e) => Err(e),
        }
    } else if size == 1 {
        match reader.read_be(2) {
            Ok(v) => Ok(DataElement::U16(v as u16)),
            Err(e) => Err(e),
        }
    } else if size == 2 {
        match reader.read_be(4) {
            Ok(v) => Ok(DataElement::U32(v as u32)),
            Err(e) => Err(e),
        }
    } else if size == 3 {
        match reader.read_be(8) {
            Ok(v) => Ok(DataElement::U64(v as u64)),
            Err(e) => Err(e),
        }
    } else {
        match reader.read_be(16) {
            Ok(v) => Ok(DataElement::U128(v)),
            Err(e) => Err(e),
        }
    }
}

/// Reads a signed number.
fn read_signed(reader: &mut Reader, size: u8) -> (r: Result<DataElement, DecodeError>)
    requires
        size <= 4,
    ensures
        match take_be(old(reader).rest(), scalar_width(size as nat)) {
            Ok((v, rest)) => r is Ok && r->Ok_0@ == signed_element(size as nat, v)
                && final(reader).rest() == rest,
            Err(e) => r is Err && r->Err_0 == e && final(reader).rest() == old(reader).rest(),
        },
{
    match read_unsigned(reader, size) {
        Ok(DataElement::U8(v)) => Ok(DataElement::I8(v as i8)),
        Ok(DataElement::U16(v)) => Ok(DataElement::I16(v as i16)),
        Ok(DataElement::U32(v)) => Ok(DataElement::I32(v as i32)),
        Ok(DataElement::U64(v)) => Ok(DataElement::I64(v as i64)),
        Ok(DataElement::U128(v)) => Ok(DataElement::I128(v as i128)),
        other => other,
    }
}

/// Reads a UUID.
fn read_uuid(reader: &mut Reader, size: u8) -> (r: Result<DataElement, DecodeError>)
    requires
        size == 1 || size == 2 || size == 4,
    ensures
        match decode_body(TYPE_UUID as nat, size as nat, old(reader).rest()) {
            Ok((element, rest)) => r is Ok && r->Ok_0@ == element && final(reader).rest() == rest,
            Err(e) => r is Err && r->Err_0 == e && final(reader).rest() == old(reader).rest(),
        },
{
    proof {
        lemma_be_limits();
    }
    if size == 1 {
        match reader.read_be(2) {
            Ok(v) => Ok(DataElement::Uuid(Uuid::from_u16(v as u16))),
            Err(e) => Err(e),
        }
    } else if size == 2 {
        match reader.read_be(4) {
            Ok(v) => Ok(DataElement::Uuid(Uuid::from_u32(v as u32))),
            Err(e) => Err(e),
        }
    } else {
        match reader.read_be(16) {
            Ok(v) => Ok(DataElement::Uuid(Uuid { value: v })),
            Err(e) => Err(e),
        }
    }
}

/// Reads the elements that the octets are made of.
fn read_items(octets: &[u8]) -> (r: Result<Vec<DataElement>, DecodeError>)
    ensures
        match decode_all(octets@) {
            Ok(items) => r is Ok && elements(r->Ok_0@) == items,
            Err(e) => r is Err && r->Err_0 == e,
        },
    decreases octets@.len(), 1nat,
{
    let mut reader = Reader::new(octets);
    let mut items: Vec<DataElement> = Vec::new();
    assert(elements(items@) =~= Seq::empty());
    while reader.remaining() > 0
        invariant
            reader.rest().len() <= octets@.len(),
            match decode_all(reader.rest()) {
                Ok(others) => decode_all(octets@) == Ok::<Seq<Element>, DecodeError>(
                    elements(items@) + others,
                ),
                Err(e) => decode_all(octets@) == Err::<Seq<Element>, DecodeError>(e),
            },
        decreases reader.rest().len(),
    {
        let ghost before = reader.rest();
        proof {
            lemma_decode_advances(before);
        }
        match DataElement::read_from_buffer(&mut reader) {
            Ok(item) => {
                let ghost held = elements(items@);
                items.push(item);
                proof {
                    assert(elements(items@) =~= held.push(item@));
                    if let Ok(others) = decode_all(reader.rest()) {
                        assert(held + (seq![item@] + others) =~= elements(items@) + others);
                    }
                }
            },
            Err(e) => {
                return Err(e);
            },
        }
    }
    assert(elements(items@) + Seq::<Element>::empty() =~= elements(items@));
    Ok(items)
}

impl DataElement {
    /// Reads an element.
    pub fn read_from_buffer(reader: &mut Reader) -> (r: Result<DataElement, DecodeError>)
        ensures
            match decode(old(reader).rest()) {
                Ok((element, rest)) => r is Ok && r->Ok_0@ == element && final(reader).rest()
                    == rest,
                Err(e) => r is Err && r->Err_0 == e && final(reader).rest() == decode_stop(
                    old(reader).rest(),
                ),
            },
        decreases old(reader).rest().len(), 0nat,
    {
        proof {
            lemma_be_limits();
        }
        let d: u8 = match reader.read_be(1) {
            Ok(d) => d as u8,
            Err(e) => {
                return Err(e);
            },
        };
        let kind: u8 = d / 8;
        let size: u8 = d % 8;
        if kind == TYPE_NIL && size == 0 {
            Ok(DataElement::Nil)
        } else if kind == TYPE_UNSIGNED && size <= 4 {
            read_unsigned(reader, size)
        } else if kind == TYPE_SIGNED && size <= 4 {
            read_signed(reader, size)
        } else if kind == TYPE_UUID && (size == 1 || size == 2 || size == 4) {
            read_uuid(reader, size)
        } else if kind == TYPE_BOOL && size == 0 {
            match reader.read_be(1) {
                Ok(v) => if v <= 1 {
                    Ok(DataElement::Bool(v == 1))
                } else {
                    Err(DecodeError::InvalidValue)
                },
                Err(e) => Err(e),
            }
        } else if (kind == TYPE_TEXT || kind == TYPE_URL) && size >= 5 {
            match read_sized(reader, size) {
                Ok(body) => {
                    let octets: Vec<u8> = vstd::slice::slice_to_vec(body);
                    if kind == TYPE_TEXT {
                        Ok(DataElement::Text(octets))
                    } else {
                        Ok(DataElement::Url(octets))
                    }
                },
                Err(e) => Err(e),
            }
        } else if (kind == TYPE_SEQUENCE || kind == TYPE_ALTERNATIVE) && size >= 5 {
            match read_sized(reader, size) {
                Ok(body) => match read_items(body) {
                    Ok(items) => if kind == TYPE_SEQUENCE {
                        Ok(DataElement::Sequence(items))
                    } else {
                        Ok(DataElement::Alternative(items))
                    },
                    Err(e) => Err(e),
                },
                Err(e) => Err(e),
            }
        } else {
            Err(DecodeError::InvalidValue)
        }
    }
}

} // verus!
