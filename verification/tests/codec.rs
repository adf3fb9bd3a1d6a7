use sdp::data_element::{DataElement, Uuid};
use sdp::error::{DecodeError, Error};
use sdp::octets::{write_be, Reader};

fn written(element: &DataElement) -> Vec<u8> {
    let mut out = Vec::new();
    element.write_to_buffer(&mut out);
    out
}

fn read(octets: &[u8]) -> Result<DataElement, DecodeError> {
    let mut reader = Reader::new(octets);
    let element = DataElement::read_from_buffer(&mut reader)?;
    reader.finish()?;
    Ok(element)
}

fn check(element: DataElement, octets: &[u8]) {
    assert_eq!(written(&element), octets);
    assert_eq!(read(octets), Ok(element));
}

#[test]
fn numbers_are_big_endian() {
    let mut out = vec![0xaa];
    write_be(&mut out, 0x0102_0304, 4);
    assert_eq!(out, [0xaa, 1, 2, 3, 4]);
    let mut reader = Reader::new(&out);
    assert_eq!(reader.read_be(1), Ok(0xaa));
    assert_eq!(reader.read_be(4), Ok(0x0102_0304));
    assert_eq!(reader.read_be(1), Err(DecodeError::TooShort));
    assert_eq!(reader.finish(), Ok(()));
}

#[test]
fn leftover_octets_are_noticed() {
    let mut reader = Reader::new(&[1, 2, 3]);
    assert_eq!(reader.remaining(), 3);
    assert_eq!(reader.read_slice(2), Ok(&[1u8, 2][..]));
    assert_eq!(reader.read_slice(2), Err(DecodeError::TooShort));
    assert_eq!(reader.finish(), Err(DecodeError::TooLong));
}

#[test]
fn scalars_round_trip() {
    check(DataElement::Nil, &[0x00]);
    check(DataElement::U8(0x7f), &[0x08, 0x7f]);
    check(DataElement::U16(0x0103), &[0x09, 0x01, 0x03]);
    check(DataElement::U32(0x0001_0001), &[0x0a, 0, 1, 0, 1]);
    check(DataElement::U64(2), &[0x0b, 0, 0, 0, 0, 0, 0, 0, 2]);
    check(DataElement::U128(1), &[0x0c, 0, 0, 0, 0, 0, 0, 0, 0, 0, 0, 0, 0, 0, 0, 0, 1]);
    check(DataElement::I8(-1), &[0x10, 0xff]);
    check(DataElement::I16(-2), &[0x11, 0xff, 0xfe]);
    check(DataElement::I32(i32::MIN), &[0x12, 0x80, 0, 0, 0]);
    check(DataElement::I64(-1), &[0x13, 255, 255, 255, 255, 255, 255, 255, 255]);
    check(
        DataElement::I128(-1),
        &[0x14, 255, 255, 255, 255, 255, 255, 255, 255, 255, 255, 255, 255, 255, 255, 255, 255],
    );
    check(DataElement::Bool(true), &[0x28, 1]);
    check(DataElement::Bool(false), &[0x28, 0]);
}

#[test]
fn uuids_use_the_shortest_form() {
    check(DataElement::Uuid(Uuid::from_u16(0x110b)), &[0x19, 0x11, 0x0b]);
    check(DataElement::Uuid(Uuid::from_u32(0x0001_0000)), &[0x1a, 0, 1, 0, 0]);
    check(
        DataElement::Uuid(Uuid { value: 1 }),
        &[0x1c, 0, 0, 0, 0, 0, 0, 0, 0, 0, 0, 0, 0, 0, 0, 0, 1],
    );
    assert_eq!(Uuid::from_u16(0x110b), Uuid::from_u32(0x110b));
    assert_eq!(Uuid::from_u16(0x110b).value, 0x0000_110b_0000_1000_8000_0080_5f9b_34fb);
    assert_eq!(Uuid::from_u16(0x110b).as_short(), Some(0x110b));
    assert_eq!(Uuid { value: 1 }.as_short(), None);
}

#[test]
fn long_uuid_form_is_read_as_the_same_uuid() {
    let octets = [
        0x1c, 0, 0, 0x11, 0x0b, 0, 0, 0x10, 0, 0x80, 0, 0, 0x80, 0x5f, 0x9b, 0x34, 0xfb,
    ];
    assert_eq!(read(&octets), Ok(DataElement::Uuid(Uuid::from_u16(0x110b))));
}

#[test]
fn counted_elements_round_trip() {
    check(DataElement::Text(b"abc".to_vec()), &[0x25, 3, b'a', b'b', b'c']);
    check(DataElement::Url(b"u".to_vec()), &[0x45, 1, b'u']);
    check(
        DataElement::Sequence(vec![DataElement::U8(1), DataElement::Sequence(vec![])]),
        &[0x35, 4, 0x08, 1, 0x35, 0],
    );
    check(DataElement::Alternative(vec![DataElement::Nil]), &[0x3d, 1, 0]);
}

#[test]
fn counts_grow_with_the_body() {
    for (n, head) in [
        (0xff, vec![0x25, 0xff]),
        (0x100, vec![0x26, 0x01, 0x00]),
        (0xffff, vec![0x26, 0xff, 0xff]),
        (0x1_0000, vec![0x27, 0x00, 0x01, 0x00, 0x00]),
    ] {
        let element = DataElement::Text(vec![7; n]);
        let octets = written(&element);
        assert_eq!(octets[..head.len()], head[..]);
        assert_eq!(octets.len(), head.len() + n);
        assert_eq!(read(&octets), Ok(element));
    }
}

#[test]
fn malformed_elements_are_refused() {
    assert_eq!(read(&[]), Err(DecodeError::TooShort));
    assert_eq!(read(&[0x09, 1]), Err(DecodeError::TooShort));
    assert_eq!(read(&[0x25, 2, 1]), Err(DecodeError::TooShort));
    assert_eq!(read(&[0x35, 2, 0x09, 1]), Err(DecodeError::TooShort));
    assert_eq!(read(&[0x28, 2]), Err(DecodeError::InvalidValue));
    assert_eq!(read(&[0x01]), Err(DecodeError::InvalidValue));
    assert_eq!(read(&[0x0d, 0]), Err(DecodeError::InvalidValue));
    assert_eq!(read(&[0x18, 0]), Err(DecodeError::InvalidValue));
    assert_eq!(read(&[0x48]), Err(DecodeError::InvalidValue));
    assert_eq!(read(&[0x00, 0x00]), Err(DecodeError::TooLong));
}

#[test]
fn refused_elements_are_passed_over() {
    let left = |octets: &[u8]| {
        let mut reader = Reader::new(octets);
        assert!(DataElement::read_from_buffer(&mut reader).is_err());
        reader.remaining()
    };
    assert_eq!(left(&[]), 0);
    assert_eq!(left(&[0x09, 1]), 1);
    assert_eq!(left(&[0x01, 7, 7]), 2);
    assert_eq!(left(&[0x28, 2, 7]), 1);
    assert_eq!(left(&[0x25, 2, 1]), 1);
    assert_eq!(left(&[0x35, 2, 0x09, 1, 7]), 1);
}

#[test]
fn elements_tell_what_they_are() {
    let uuid = Uuid::from_u16(0x0100);
    let list = DataElement::Sequence(vec![DataElement::Alternative(vec![DataElement::Uuid(uuid)])]);
    assert!(list.contains(uuid));
    assert!(!list.contains(Uuid::from_u16(0x0101)));
    assert_eq!(list.as_sequence().map(|items| items.len()), Ok(1));
    assert_eq!(DataElement::Uuid(uuid).as_uuid(), Ok(uuid));
    assert_eq!(list.as_uuid(), Err(Error::UnexpectedDataType));
    assert_eq!(DataElement::Nil.as_sequence(), Err(Error::UnexpectedDataType));
    assert!(DataElement::Sequence(vec![]).is_empty());
    assert!(!list.is_empty());
    assert!(!DataElement::Nil.is_empty());
    assert_eq!(list.clone(), list);
}
