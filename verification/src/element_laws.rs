//! Which octets data elements are written as and read from.

use vstd::prelude::*;
use crate::codec::{
    all_encodable, decode, decode_all, decode_stop, encodable, encode, encode_all,
    lemma_decode_advances,
};
use crate::codec_laws::law_decode_encode;
use crate::data_element::{elements, uuid_of_short, DataElement, Element, Uuid};
use crate::error::DecodeError;
use crate::octets::{
    at_end, be_bytes, be_value, lemma_be_bytes_len, lemma_be_limits, lemma_be_value_bound,
    lemma_be_value_of_bytes, take_be,
};
use crate::packet_laws::{four, law_uppermost_octet_first, two};

verus! {

/// Each octet weighs as much as 256 of the one behind it.
pub proof fn law_weight_of_octets(s: Seq<u8>, last: u8)
    ensures
        be_value(Seq::empty()) == 0,
        be_value(s.push(last)) == 0x100 * be_value(s) + last,
{
    assert(s.push(last).drop_last() =~= s);
}

/// A number that is written in some octets is what they stand for, if it is not too large for them.
/// Their count is as asked for, and the last of them holds what does not make up 256.
pub proof fn law_numbers_are_written(v: nat)
    ensures
        forall|n: nat|
            n > 0 ==> #[trigger] be_bytes(v, n) == be_bytes(v / 0x100, (n - 1) as nat).push(
                (v % 0x100) as u8,
            ),
        be_bytes(v, 0) == Seq::<u8>::empty(),
        forall|n: nat| (#[trigger] be_bytes(v, n)).len() == n,
        v < 0x100 ==> be_value(be_bytes(v, 1)) == v,
        v < 0x1_0000 ==> be_value(be_bytes(v, 2)) == v,
        v < 0x1_0000_0000 ==> be_value(be_bytes(v, 4)) == v,
        v < 0x1_0000_0000_0000_0000 ==> be_value(be_bytes(v, 8)) == v,
        v <= u128::MAX ==> be_value(be_bytes(v, 16)) == v,
{
    lemma_be_limits();
    assert forall|n: nat| (#[trigger] be_bytes(v, n)).len() == n by {
        lemma_be_bytes_len(v, n);
    }
    if v < 0x100 {
        lemma_be_value_of_bytes(v, 1);
    }
    if v < 0x1_0000 {
        lemma_be_value_of_bytes(v, 2);
    }
    if v < 0x1_0000_0000 {
        lemma_be_value_of_bytes(v, 4);
    }
    if v < 0x1_0000_0000_0000_0000 {
        lemma_be_value_of_bytes(v, 8);
    }
    if v <= u128::MAX {
        lemma_be_value_of_bytes(v, 16);
    }
}

/// A number takes its octets off the front and leaves the rest; too few octets are no number.
/// Octets that are left over at the end are too many.
pub proof fn law_numbers_are_read(s: Seq<u8>, n: nat)
    ensures
        take_be(s, n) == if s.len() < n {
            Err(DecodeError::TooShort)
        } else {
            Ok((be_value(s.subrange(0, n as int)), s.subrange(n as int, s.len() as int)))
        },
        at_end(s) == if s.len() == 0 {
            Ok(())
        } else {
            Err(DecodeError::TooLong)
        },
{
}

/// What a short UUID is counted from, and what each step weighs.
pub proof fn law_short_uuids(short: nat, uuid: Uuid)
    requires
        short <= u32::MAX,
    ensures
        uuid_of_short(short).value == 0x1000_8000_0080_5f9b_34fb + short
            * 0x1_0000_0000_0000_0000_0000_0000,
        uuid.short() == Some(short) <==> uuid.value == 0x1000_8000_0080_5f9b_34fb + short
            * 0x1_0000_0000_0000_0000_0000_0000,
        uuid.short() matches Some(n) ==> n <= u32::MAX,
{
}

/// The octets are the descriptor and the octets of the number.
pub open spec fn is_written(octets: Seq<u8>, descriptor: u8, width: nat, n: int) -> bool {
    &&& octets.len() == 1 + width
    &&& octets[0] == descriptor
    &&& be_value(octets.skip(1)) == n
}

/// A number behind a descriptor is written as it should be.
proof fn lemma_is_written(octets: Seq<u8>, descriptor: u8, width: nat, n: nat)
    requires
        octets == seq![descriptor] + be_bytes(n, width),
        width == 1 || width == 2 || width == 4 || width == 8 || width == 16,
        width == 1 ==> n < 0x100,
        width == 2 ==> n < 0x1_0000,
        width == 4 ==> n < 0x1_0000_0000,
        width == 8 ==> n < 0x1_0000_0000_0000_0000,
        n <= u128::MAX,
    ensures
        is_written(octets, descriptor, width, n as int),
{
    law_numbers_are_written(n);
    assert(octets.skip(1) =~= be_bytes(n, width));
}

/// Numbers without a sign are written behind the descriptor of their width.
pub proof fn law_unsigned_elements_are_written(a: u8, b: u16, c: u32, d: u64, e: u128)
    ensures
        is_written(encode(Element::U8(a)), 0x08, 1, a as int),
        is_written(encode(Element::U16(b)), 0x09, 2, b as int),
        is_written(encode(Element::U32(c)), 0x0a, 4, c as int),
        is_written(encode(Element::U64(d)), 0x0b, 8, d as int),
        is_written(encode(Element::U128(e)), 0x0c, 16, e as int),
{
    lemma_is_written(encode(Element::U8(a)), 0x08, 1, a as nat);
    lemma_is_written(encode(Element::U16(b)), 0x09, 2, b as nat);
    lemma_is_written(encode(Element::U32(c)), 0x0a, 4, c as nat);
    lemma_is_written(encode(Element::U64(d)), 0x0b, 8, d as nat);
    lemma_is_written(encode(Element::U128(e)), 0x0c, 16, e as nat);
}

/// A number below zero is written as what it is short of the first number that its width cannot
/// hold.
pub open spec fn complement(v: int, limit: int) -> int {
    if v < 0 {
        v + limit
    } else {
        v
    }
}

/// Casting to a number without a sign adds the limit to what is below zero, and casting back takes
/// it off.
proof fn lemma_complement(a: i8, b: i16, c: i32, d: i64, e: i128)
    ensures
        (a as u8) as int == complement(a as int, 0x100),
        (b as u16) as int == complement(b as int, 0x1_0000),
        (c as u32) as int == complement(c as int, 0x1_0000_0000),
        (d as u64) as int == complement(d as int, 0x1_0000_0000_0000_0000),
        (e as u128) as int == complement(
            e as int,
            0x1_0000_0000_0000_0000_0000_0000_0000_0000int,
        ),
{
    assert(a < 0 ==> (a as u8) == a + 0x100) by (bit_vector);
    assert(a >= 0 ==> (a as u8) == a) by (bit_vector);
    assert(b < 0 ==> (b as u16) == b + 0x1_0000) by (bit_vector);
    assert(b >= 0 ==> (b as u16) == b) by (bit_vector);
    assert(c < 0 ==> (c as u32) == c + 0x1_0000_0000) by (bit_vector);
    assert(c >= 0 ==> (c as u32) == c) by (bit_vector);
    assert(d < 0 ==> (d as u64) == d + 0x1_0000_0000_0000_0000) by (bit_vector);
    assert(d >= 0 ==> (d as u64) == d) by (bit_vector);
    assert(e < 0 ==> (e as u128) - 0xffff_ffff_ffff_ffff_ffff_ffff_ffff_ffffu128 == e + 1)
        by (bit_vector);
    assert(e >= 0 ==> (e as u128) == e) by (bit_vector);
}

/// Numbers with a sign are written behind the descriptor of their width, in two's complement.
pub proof fn law_signed_elements_are_written(a: i8, b: i16, c: i32, d: i64, e: i128)
    ensures
        is_written(encode(Element::I8(a)), 0x10, 1, complement(a as int, 0x100)),
        is_written(encode(Element::I16(b)), 0x11, 2, complement(b as int, 0x1_0000)),
        is_written(encode(Element::I32(c)), 0x12, 4, complement(c as int, 0x1_0000_0000)),
        is_written(
            encode(Element::I64(d)),
            0x13,
            8,
            complement(d as int, 0x1_0000_0000_0000_0000),
        ),
        is_written(
            encode(Element::I128(e)),
            0x14,
            16,
            complement(e as int, 0x1_0000_0000_0000_0000_0000_0000_0000_0000int),
        ),
{
    lemma_complement(a, b, c, d, e);
    lemma_is_written(encode(Element::I8(a)), 0x10, 1, (a as u8) as nat);
    lemma_is_written(encode(Element::I16(b)), 0x11, 2, (b as u16) as nat);
    lemma_is_written(encode(Element::I32(c)), 0x12, 4, (c as u32) as nat);
    lemma_is_written(encode(Element::I64(d)), 0x13, 8, (d as u64) as nat);
    lemma_is_written(encode(Element::I128(e)), 0x14, 16, (e as u128) as nat);
}

/// The null element is one octet, and a truth value is two.
pub proof fn law_plain_elements_are_written(v: bool)
    ensures
        encode(Element::Nil) == seq![0x00u8],
        encode(Element::Bool(v)) == seq![
            0x28u8,
            if v {
                1u8
            } else {
                0u8
            },
        ],
{
    reveal_with_fuel(be_bytes, 2);
    assert(encode(Element::Nil) =~= seq![0x00u8]);
    assert(encode(Element::Bool(v)) =~= seq![
        0x28u8,
        if v {
            1u8
        } else {
            0u8
        },
    ]);
}

/// A UUID is written in two octets if it stands for a short UUID of 16 bits, in four if it stands
/// for one of 32 bits, and else in sixteen.
pub proof fn law_uuids_are_written(uuid: Uuid)
    ensures
        ({
            let octets = encode(Element::Uuid(uuid));
            let upper = uuid.value as int / 0x1_0000_0000_0000_0000_0000_0000;
            let lower = uuid.value as int % 0x1_0000_0000_0000_0000_0000_0000;
            if lower == 0x1000_8000_0080_5f9b_34fb && upper < 0x1_0000 {
                is_written(octets, 0x19, 2, upper)
            } else if lower == 0x1000_8000_0080_5f9b_34fb {
                is_written(octets, 0x1a, 4, upper)
            } else {
                is_written(octets, 0x1c, 16, uuid.value as int)
            }
        }),
{
    let octets = encode(Element::Uuid(uuid));
    match uuid.short() {
        Some(short) => if short <= 0xffff {
            lemma_is_written(octets, 0x19, 2, short);
        } else {
            lemma_is_written(octets, 0x1a, 4, short);
        },
        None => {
            lemma_is_written(octets, 0x1c, 16, uuid.value as nat);
        },
    }
}

/// A counted body: a descriptor and the count in one octet, or the next descriptor and the count in
/// two, or the one after that and the count in four, whichever is the first that the count fits.
pub open spec fn counted(descriptor: u8, body: Seq<u8>) -> Seq<u8> {
    if body.len() < 0x100 {
        seq![descriptor, body.len() as u8] + body
    } else if body.len() < 0x1_0000 {
        seq![(descriptor + 1) as u8] + two(body.len()) + body
    } else {
        seq![(descriptor + 2) as u8] + four(body.len()) + body
    }
}

/// Texts, locators and lists are written as counted bodies; the body of a list is the octets of its
/// items. Left out are bodies with more octets than any count of octets can tell.
pub proof fn law_counted_elements_are_written(octets: Seq<u8>, items: Seq<Element>)
    ensures
        octets.len() < 0x1_0000_0000 ==> {
            &&& encode(Element::Text(octets)) == counted(0x25, octets)
            &&& encode(Element::Url(octets)) == counted(0x45, octets)
        },
        encode_all(items).len() < 0x1_0000_0000 ==> {
            &&& encode(Element::Sequence(items)) == counted(0x35, encode_all(items))
            &&& encode(Element::Alternative(items)) == counted(0x3d, encode_all(items))
        },
{
    let body = encode_all(items);
    reveal_with_fuel(be_bytes, 2);
    law_uppermost_octet_first(octets.len(), Seq::empty());
    law_uppermost_octet_first(body.len(), Seq::empty());
    if octets.len() < 0x1_0000_0000 {
        assert(encode(Element::Text(octets)) =~= counted(0x25, octets));
        assert(encode(Element::Url(octets)) =~= counted(0x45, octets));
    }
    if body.len() < 0x1_0000_0000 {
        assert(encode(Element::Sequence(items)) =~= counted(0x35, body));
        assert(encode(Element::Alternative(items)) =~= counted(0x3d, body));
    }
}

/// Items are written one after the other: those of a list that is made of two are those of the
/// first and then those of the second, and one item is written as itself.
pub proof fn law_items_follow_each_other(front: Seq<Element>, back: Seq<Element>, item: Element)
    ensures
        encode_all(Seq::empty()) == Seq::<u8>::empty(),
        encode_all(seq![item]) == encode(item),
        encode_all(front + back) == encode_all(front) + encode_all(back),
    decreases front.len(),
{
    reveal_with_fuel(encode_all, 2);
    assert(seq![item].subrange(1, 1) =~= Seq::empty());
    assert(encode(item) + Seq::<u8>::empty() =~= encode(item));
    if front.len() == 0 {
        assert(front + back =~= back);
        assert(encode_all(front) + encode_all(back) =~= encode_all(back));
    } else {
        let others = front.subrange(1, front.len() as int);
        let all = front + back;
        assert(all.subrange(1, all.len() as int) =~= others + back);
        law_items_follow_each_other(others, back, item);
        assert(encode(front[0]) + (encode_all(others) + encode_all(back)) =~= (encode(front[0])
            + encode_all(others)) + encode_all(back));
    }
}

/// How many octets follow a descriptor as the number, or the count, that belongs to it, if it is
/// one of an element that has one.
pub open spec fn number_width(descriptor: u8) -> Option<int> {
    if descriptor == 0x08 || descriptor == 0x10 || descriptor == 0x28 || descriptor == 0x25
        || descriptor == 0x35 || descriptor == 0x3d || descriptor == 0x45 {
        Some(1)
    } else if descriptor == 0x09 || descriptor == 0x11 || descriptor == 0x19 || descriptor == 0x26
        || descriptor == 0x36 || descriptor == 0x3e || descriptor == 0x46 {
        Some(2)
    } else if descriptor == 0x0a || descriptor == 0x12 || descriptor == 0x1a || descriptor == 0x27
        || descriptor == 0x37 || descriptor == 0x3f || descriptor == 0x47 {
        Some(4)
    } else if descriptor == 0x0b || descriptor == 0x13 {
        Some(8)
    } else if descriptor == 0x0c || descriptor == 0x14 || descriptor == 0x1c {
        Some(16)
    } else {
        None
    }
}

/// The descriptor is that of a counted body.
pub open spec fn is_counted(descriptor: u8) -> bool {
    0x25 <= descriptor <= 0x27 || 0x35 <= descriptor <= 0x37 || 0x3d <= descriptor <= 0x3f || 0x45
        <= descriptor <= 0x47
}

/// The number `n` behind the descriptor is the element.
pub open spec fn stands_for(descriptor: u8, n: int, element: Element) -> bool {
    match element {
        Element::U8(v) => descriptor == 0x08 && n == v,
        Element::U16(v) => descriptor == 0x09 && n == v,
        Element::U32(v) => descriptor == 0x0a && n == v,
        Element::U64(v) => descriptor == 0x0b && n == v,
        Element::U128(v) => descriptor == 0x0c && n == v,
        Element::I8(v) => descriptor == 0x10 && n == complement(v as int, 0x100),
        Element::I16(v) => descriptor == 0x11 && n == complement(v as int, 0x1_0000),
        Element::I32(v) => descriptor == 0x12 && n == complement(v as int, 0x1_0000_0000),
        Element::I64(v) => descriptor == 0x13 && n == complement(
            v as int,
            0x1_0000_0000_0000_0000,
        ),
        Element::I128(v) => descriptor == 0x14 && n == complement(
            v as int,
            0x1_0000_0000_0000_0000_0000_0000_0000_0000int,
        ),
        Element::Uuid(uuid) => if descriptor == 0x1c {
            uuid.value == n
        } else {
            &&& descriptor == 0x19 || descriptor == 0x1a
            &&& uuid.value == 0x1000_8000_0080_5f9b_34fb + n * 0x1_0000_0000_0000_0000_0000_0000
        },
        Element::Bool(v) => descriptor == 0x28 && n == (if v {
            1int
        } else {
            0
        }),
        _ => false,
    }
}

/// Casts between numbers with a sign and without one undo each other.
proof fn lemma_casts_back(a: u8, b: u16, c: u32, d: u64, e: u128)
    ensures
        (a as i8) as u8 == a,
        (b as i16) as u16 == b,
        (c as i32) as u32 == c,
        (d as i64) as u64 == d,
        (e as i128) as u128 == e,
{
    assert((a as i8) as u8 == a) by (bit_vector);
    assert((b as i16) as u16 == b) by (bit_vector);
    assert((c as i32) as u32 == c) by (bit_vector);
    assert((d as i64) as u64 == d) by (bit_vector);
    assert((e as i128) as u128 == e) by (bit_vector);
}

/// An element that is a number is read from its descriptor and the octets of the number, whichever
/// form of a UUID they are. Too few octets are no element, nor is a truth value other than 0 and 1.
pub proof fn law_numbers_behind_descriptors_are_read(s: Seq<u8>)
    requires
        s.len() > 0,
        number_width(s[0]) is Some,
        !is_counted(s[0]),
    ensures
        ({
            let w = number_width(s[0])->0;
            let n = be_value(s.subrange(1, 1 + w)) as int;
            if s.len() < 1 + w {
                decode(s) == Err::<(Element, Seq<u8>), DecodeError>(DecodeError::TooShort)
                    && decode_stop(s) == s.skip(1)
            } else if s[0] == 0x28 && n > 1 {
                decode(s) == Err::<(Element, Seq<u8>), DecodeError>(DecodeError::InvalidValue)
                    && decode_stop(s) == s.skip(2)
            } else {
                decode(s) matches Ok((element, rest)) && stands_for(s[0], n, element) && rest
                    == s.skip(1 + w)
            }
        }),
{
    let w = number_width(s[0])->0;
    let body = s.skip(1);
    law_uppermost_octet_first(0, s.take(1));
    assert(be_value(s.take(1)) == s[0]);
    if s.len() >= 1 + w {
        assert(body.take(w) =~= s.subrange(1, 1 + w));
        assert(body.skip(w) =~= s.skip(1 + w));
        let n = be_value(body.take(w));
        lemma_be_value_bound(body.take(w));
        lemma_be_limits();
        lemma_casts_back(n as u8, n as u16, n as u32, n as u64, n as u128);
        lemma_complement(
            (n as u8) as i8,
            (n as u16) as i16,
            (n as u32) as i32,
            (n as u64) as i64,
            (n as u128) as i128,
        );
    }
}

/// Texts, locators and lists are read from their descriptor, the count and as many octets as it
/// says. The items of a list are read from just these. Too few octets are no element.
pub proof fn law_counted_elements_are_read(s: Seq<u8>)
    requires
        s.len() > 0,
        is_counted(s[0]),
    ensures
        ({
            let w = number_width(s[0])->0;
            let n = be_value(s.subrange(1, 1 + w)) as int;
            let body = s.subrange(1 + w, 1 + w + n);
            let too_short = Err::<(Element, Seq<u8>), DecodeError>(DecodeError::TooShort);
            if s.len() < 1 + w {
                decode(s) == too_short && decode_stop(s) == s.skip(1)
            } else if s.len() < 1 + w + n {
                decode(s) == too_short && decode_stop(s) == s.skip(1 + w)
            } else if s[0] <= 0x27 {
                decode(s) == Ok::<_, DecodeError>((Element::Text(body), s.skip(1 + w + n)))
            } else if s[0] >= 0x45 {
                decode(s) == Ok::<_, DecodeError>((Element::Url(body), s.skip(1 + w + n)))
            } else {
                match decode_all(body) {
                    Ok(items) => decode(s) == Ok::<_, DecodeError>(
                        (
                            if s[0] <= 0x37 {
                                Element::Sequence(items)
                            } else {
                                Element::Alternative(items)
                            },
                            s.skip(1 + w + n),
                        ),
                    ),
                    Err(e) => decode(s) == Err::<(Element, Seq<u8>), DecodeError>(e)
                        && decode_stop(s) == s.skip(1 + w + n),
                }
            }
        }),
{
    let w = number_width(s[0])->0;
    let body = s.skip(1);
    law_uppermost_octet_first(0, s.take(1));
    assert(be_value(s.take(1)) == s[0]);
    if s.len() >= 1 + w {
        assert(body.take(w) =~= s.subrange(1, 1 + w));
        assert(body.skip(w) =~= s.skip(1 + w));
        let n = be_value(body.take(w)) as int;
        if s.len() >= 1 + w + n {
            assert(s.skip(1 + w).take(n) =~= s.subrange(1 + w, 1 + w + n));
            assert(s.skip(1 + w).skip(n) =~= s.skip(1 + w + n));
        }
    }
}

/// The null element is read from its descriptor alone. No other octet announces an element, and
/// none is announced where there is no octet.
pub proof fn law_other_descriptors_are_refused(s: Seq<u8>)
    requires
        s.len() > 0 ==> number_width(s[0]) is None,
    ensures
        if s.len() == 0 {
            decode(s) == Err::<(Element, Seq<u8>), DecodeError>(DecodeError::TooShort)
                && decode_stop(s) == s
        } else if s[0] == 0 {
            decode(s) == Ok::<_, DecodeError>((Element::Nil, s.skip(1)))
        } else {
            decode(s) == Err::<(Element, Seq<u8>), DecodeError>(DecodeError::InvalidValue)
                && decode_stop(s) == s.skip(1)
        },
{
    if s.len() > 0 {
        law_uppermost_octet_first(0, s.take(1));
    }
}

/// The items of a list are read one after the other until no octets are left. The first that
/// cannot be read decides.
pub proof fn law_items_are_read_in_turn(s: Seq<u8>)
    ensures
        decode_all(Seq::empty()) == Ok::<_, DecodeError>(Seq::<Element>::empty()),
        s.len() > 0 ==> match decode(s) {
            Ok((first, rest)) => match decode_all(rest) {
                Ok(others) => decode_all(s) == Ok::<_, DecodeError>(seq![first] + others),
                Err(e) => decode_all(s) == Err::<Seq<Element>, DecodeError>(e),
            },
            Err(e) => decode_all(s) == Err::<Seq<Element>, DecodeError>(e),
        },
{
    lemma_decode_advances(s);
}

/// Where the octets of an element can be counted, so can those of everything in it.
proof fn lemma_encodable(element: Element)
    requires
        encode(element).len() < 0x1_0000_0000,
    ensures
        encodable(element),
    decreases element,
{
    match element {
        Element::Sequence(items) => {
            lemma_all_encodable(items);
        },
        Element::Alternative(items) => {
            lemma_all_encodable(items);
        },
        _ => {},
    }
}

/// Where the octets of the items can be counted, so can those of everything in them.
proof fn lemma_all_encodable(items: Seq<Element>)
    requires
        encode_all(items).len() < 0x1_0000_0000,
    ensures
        all_encodable(items),
    decreases items,
{
    if items.len() > 0 {
        lemma_encodable(items[0]);
        lemma_all_encodable(items.subrange(1, items.len() as int));
    }
}

/// An element of fewer than 2^32 octets is read back from the octets it was written as, and what
/// follows them is left.
pub proof fn law_elements_are_read_back(element: Element, tail: Seq<u8>)
    requires
        encode(element).len() < 0x1_0000_0000,
    ensures
        decode(encode(element) + tail) == Ok::<_, DecodeError>((element, tail)),
{
    lemma_encodable(element);
    law_decode_encode(element, tail);
}

/// An element holds what its variant holds, and a list holds its items, each in its place.
pub proof fn law_elements_hold_their_values(element: DataElement, items: Seq<DataElement>)
    ensures
        elements(items).len() == items.len(),
        forall|i: int| 0 <= i < items.len() ==> #[trigger] elements(items)[i] == items[i]@,
        match element {
            DataElement::Nil => element@ == Element::Nil,
            DataElement::U8(v) => element@ == Element::U8(v),
            DataElement::U16(v) => element@ == Element::U16(v),
            DataElement::U32(v) => element@ == Element::U32(v),
            DataElement::U64(v) => element@ == Element::U64(v),
            DataElement::U128(v) => element@ == Element::U128(v),
            DataElement::I8(v) => element@ == Element::I8(v),
            DataElement::I16(v) => element@ == Element::I16(v),
            DataElement::I32(v) => element@ == Element::I32(v),
            DataElement::I64(v) => element@ == Element::I64(v),
            DataElement::I128(v) => element@ == Element::I128(v),
            DataElement::Uuid(v) => element@ == Element::Uuid(v),
            DataElement::Text(v) => element@ == Element::Text(v@),
            DataElement::Bool(v) => element@ == Element::Bool(v),
            DataElement::Sequence(v) => element@ == Element::Sequence(elements(v@)),
            DataElement::Alternative(v) => element@ == Element::Alternative(elements(v@)),
            DataElement::Url(v) => element@ == Element::Url(v@),
        },
{
}

} // verus!
