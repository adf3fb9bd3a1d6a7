use bytes::{Bytes, BytesMut};
use sdp::error::{DecodeError, Error, PacketTooLong};
use sdp::octets::Reader;
use sdp::packet::{ContinuationState, RequestPacket, ResponsePacket};
use sdp::query::{collect_attributes, convert_attribute_id_list, convert_search_pattern};
use sdp::server::{catch_error, Outcome};
use sdp::service::{Service, ServiceAttribute};
use sdp::{DataElement, SdpServer, Uuid};

const ALL_RECORDS: [u8; 62] = [
    0x35, 0x3c, 0x35, 0x3a, 0x09, 0x00, 0x00, 0x0a, 0x00, 0x01, 0x00, 0x01, 0x09, 0x00, 0x01, 0x35,
    0x03, 0x19, 0x11, 0x0b, 0x09, 0x00, 0x04, 0x35, 0x10, 0x35, 0x06, 0x19, 0x01, 0x00, 0x09, 0x00,
    0x19, 0x35, 0x06, 0x19, 0x00, 0x19, 0x09, 0x01, 0x03, 0x09, 0x00, 0x05, 0x35, 0x03, 0x19, 0x10,
    0x02, 0x09, 0x00, 0x09, 0x35, 0x08, 0x35, 0x06, 0x19, 0x11, 0x0d, 0x09, 0x01, 0x03,
];

fn pattern(uuids: &[u16]) -> DataElement {
    DataElement::Sequence(uuids.iter().map(|u| DataElement::Uuid(Uuid::from_u16(*u))).collect())
}

fn every_id() -> DataElement {
    DataElement::Sequence(vec![DataElement::U32(0x0000_ffff)])
}

fn service(attributes: &[(u16, DataElement)]) -> Service {
    Service::from_attributes(
        attributes.iter().map(|(id, value)| ServiceAttribute::new(*id, value.clone())).collect(),
    )
}

/// Three records; the second mentions 0x0100 and the third 0x0100 and 0x0200.
fn three_records() -> SdpServer {
    let uuid = |u| DataElement::Uuid(Uuid::from_u16(u));
    SdpServer::from_records(vec![
        (30, service(&[(2, uuid(0x0200)), (1, uuid(0x0100))])),
        (10, service(&[(1, uuid(0x0300))])),
        (20, service(&[(1, uuid(0x0100)), (9, DataElement::Nil)])),
    ])
}

fn search(patterns: DataElement, maximum: u16, continuation_state: ContinuationState) -> RequestPacket {
    RequestPacket::SearchRequest {
        service_search_patterns: patterns,
        maximum_service_record_count: maximum,
        continuation_state,
    }
}

fn attributes(
    handle: u32,
    maximum: u16,
    ids: DataElement,
    continuation_state: ContinuationState,
) -> RequestPacket {
    RequestPacket::AttributeRequest {
        service_record_handle: handle,
        maximum_attribute_byte_count: maximum,
        attribute_id_list: ids,
        continuation_state,
    }
}

fn search_attributes(
    patterns: DataElement,
    maximum: u16,
    ids: DataElement,
    continuation_state: ContinuationState,
) -> RequestPacket {
    RequestPacket::SearchAttributeRequest {
        service_search_patterns: patterns,
        maximum_attribute_byte_count: maximum,
        attribute_id_list: ids,
        continuation_state,
    }
}

fn handles(response: ResponsePacket) -> Vec<u32> {
    match response {
        ResponsePacket::SearchResponse { service_record_handles, .. } => service_record_handles,
        other => panic!("{:?}", other),
    }
}

fn fragment(response: ResponsePacket) -> (Vec<u8>, ContinuationState) {
    match response {
        ResponsePacket::AttributeResponse {
            attribute_list_size,
            attribute_list,
            continuation_state,
        }
        | ResponsePacket::SearchAttributeResponse {
            attribute_list_size,
            attribute_list,
            continuation_state,
        } => {
            assert_eq!(attribute_list_size as usize, attribute_list.len());
            (attribute_list.to_vec(), continuation_state)
        }
        other => panic!("{:?}", other),
    }
}

fn refusal(result: Result<ResponsePacket, Error>) -> Error {
    match result {
        Ok(response) => panic!("{:?}", response),
        Err(e) => e,
    }
}

fn outcome(server: &SdpServer, packet: &[u8], buffer: &mut BytesMut) -> (Bytes, Option<Error>) {
    match server.handle_packet(packet, buffer) {
        Ok(Outcome::Reply { packet, refusal }) => (packet, refusal),
        other => panic!("{:?}", other),
    }
}

fn granted(server: &SdpServer, packet: &[u8], buffer: &mut BytesMut) -> Bytes {
    let (reply, refusal) = outcome(server, packet, buffer);
    assert_eq!(refusal, None);
    reply
}

#[test]
fn parse_packet() {
    let data = [
        0x06, 0x00, 0x00, 0x00, 0x0f, 0x35, 0x03, 0x19, 0x01, 0x00, 0x03, 0xf0, 0x35, 0x05, 0x0a,
        0x00, 0x00, 0xff, 0xff, 0x00,
    ];
    let mut buffer = BytesMut::new();
    let reply = granted(&SdpServer::default(), &data, &mut buffer);
    assert_eq!(reply[..7], [0x07, 0x00, 0x00, 0x00, 0x41, 0x00, 0x3e]);
    assert_eq!(reply[7..69], ALL_RECORDS);
    assert_eq!(reply[69..], [0x00]);
    assert!(buffer.is_empty());
}

#[test]
fn unknown_identifier_finds_an_empty_list() {
    let data = [
        0x06, 0x00, 0x00, 0x00, 0x0f, 0x35, 0x03, 0x19, 0x12, 0x00, 0x03, 0xf0, 0x35, 0x05, 0x0a,
        0x00, 0x00, 0xff, 0xff, 0x00,
    ];
    let reply = granted(&SdpServer::default(), &data, &mut BytesMut::new());
    assert_eq!(&reply[..], &[0x07, 0x00, 0x00, 0x00, 0x05, 0x00, 0x02, 0x35, 0x00, 0x00]);
}

#[test]
fn search_packet_is_answered() {
    let data = [0x02, 0xab, 0xcd, 0x00, 0x08, 0x35, 0x03, 0x19, 0x01, 0x00, 0x00, 0x07, 0x00];
    let reply = granted(&SdpServer::default(), &data, &mut BytesMut::new());
    assert_eq!(
        &reply[..],
        &[0x03, 0xab, 0xcd, 0x00, 0x09, 0x00, 0x01, 0x00, 0x01, 0x00, 0x01, 0x00, 0x01, 0x00]
    );
}

#[test]
fn attribute_packet_is_answered() {
    let data = [
        0x04, 0x00, 0x09, 0x00, 0x0c, 0x00, 0x01, 0x00, 0x01, 0x00, 0x10, 0x35, 0x03, 0x09, 0x00,
        0x00, 0x00,
    ];
    let reply = granted(&SdpServer::default(), &data, &mut BytesMut::new());
    assert_eq!(
        &reply[..],
        &[
            0x05, 0x00, 0x09, 0x00, 0x0d, 0x00, 0x0a, 0x35, 0x08, 0x09, 0x00, 0x00, 0x0a, 0x00,
            0x01, 0x00, 0x01, 0x00
        ]
    );
}

#[test]
fn packet_without_header_gets_no_answer() {
    let server = SdpServer::default();
    let mut buffer = BytesMut::from(&[1u8, 2][..]);
    let mut refused = |packet: &[u8], reason| {
        assert_eq!(server.handle_packet(packet, &mut buffer), Ok(Outcome::Unreadable(reason)));
    };
    refused(&[], DecodeError::TooShort);
    refused(&[0x06, 0, 0, 0], DecodeError::TooShort);
    refused(&[0x09, 0, 0, 0, 0], DecodeError::InvalidValue);
    assert_eq!(&buffer[..], &[1, 2]);
}

#[test]
fn refused_packets_are_answered_with_a_code() {
    let server = SdpServer::default();
    let mut buffer = BytesMut::from(&[1u8, 2][..]);
    let mut code = |packet: &[u8]| {
        let (reply, refusal) = outcome(&server, packet, &mut buffer);
        assert_eq!(reply[..6], [0x01, packet[1], packet[2], 0x00, 0x02, 0x00]);
        (reply[6], refusal.unwrap())
    };
    // A kind that is no request, and a request that breaks off.
    assert_eq!(code(&[0x07, 0x00, 0x05, 0x00, 0x00]), (3, Error::InvalidRequest));
    assert_eq!(
        code(&[0x02, 0x11, 0x22, 0x00, 0x00]),
        (3, Error::Malformed(DecodeError::TooShort))
    );
    // A search that asks to go on, a pattern that is no sequence, a handle that is unknown.
    assert_eq!(
        code(b"\x02\x00\x01\x00\x09\x35\x00\x00\x01\x04cont"),
        (5, Error::InvalidContinuationState)
    );
    assert_eq!(
        code(&[0x02, 0, 1, 0, 4, 0x00, 0x00, 0x01, 0x00]),
        (3, Error::UnexpectedDataType)
    );
    assert_eq!(buffer.len(), 2);
    let unknown = [0x04, 0, 1, 0, 9, 0, 0, 0, 1, 0, 9, 0x35, 0x00, 0x00];
    let (reply, refusal) = outcome(&server, &unknown, &mut buffer);
    assert_eq!(&reply[..], &[0x01, 0, 1, 0, 2, 0, 2]);
    assert_eq!(refusal, Some(Error::UnknownServiceRecordHandle(1)));
    assert!(buffer.is_empty());
}

#[test]
fn answer_beyond_the_header_is_an_error() {
    let text = DataElement::Text(vec![1; 0x1_0000]);
    let server = SdpServer::from_records(vec![(1, service(&[(1, text)]))]);
    let packet = |maximum: u16| {
        let mut packet = vec![0x04, 0, 0, 0, 0, 0, 0, 0, 1];
        packet.extend_from_slice(&maximum.to_be_bytes());
        packet.extend_from_slice(&[0x35, 0x03, 0x09, 0x00, 0x01, 0x00]);
        packet
    };
    let mut buffer = BytesMut::new();
    assert_eq!(server.handle_packet(&packet(0xffff), &mut buffer), Err(PacketTooLong));
    let reply = granted(&server, &packet(0xffff - 7), &mut buffer);
    assert_eq!(reply.len(), 5 + 0xffff);
}

#[test]
fn search_finds_what_matches_in_order() {
    let server = three_records();
    let mut buffer = BytesMut::from(&[7u8][..]);
    let mut found = |uuids: &[u16], maximum| {
        handles(
            server
                .respond(search(pattern(uuids), maximum, ContinuationState::Absent), &mut buffer)
                .unwrap(),
        )
    };
    assert_eq!(found(&[0x0100], 9), [20, 30]);
    assert_eq!(found(&[0x0300, 0x0200], 9), [10, 30]);
    assert_eq!(found(&[0x0300, 0x0100], 2), [10, 20]);
    assert_eq!(found(&[0x0100], 0), [0u32; 0]);
    assert_eq!(found(&[], 9), [0u32; 0]);
    assert_eq!(found(&[0x0400], 9), [0u32; 0]);
    assert_eq!(&buffer[..], &[7]);
}

#[test]
fn matching_records_are_collected() {
    let server = three_records();
    let records = server.collecting_matching_records(&[Uuid::from_u16(0x0200)]);
    assert_eq!(records.len(), 1);
    assert_eq!(records[0].0, 30);
    assert!(records[0].1.contains(Uuid::from_u16(0x0100)));
}

#[test]
fn search_counts_the_handles_it_lists() {
    let server = three_records();
    let counts = |uuids: &[u16], maximum| {
        let request = search(pattern(uuids), maximum, ContinuationState::Absent);
        match server.respond(request, &mut BytesMut::new()).unwrap() {
            ResponsePacket::SearchResponse {
                total_service_record_count,
                current_service_record_count,
                service_record_handles,
                continuation_state: ContinuationState::Absent,
            } => {
                assert_eq!(current_service_record_count as usize, service_record_handles.len());
                (total_service_record_count, current_service_record_count)
            }
            other => panic!("{:?}", other),
        }
    };
    assert_eq!(counts(&[0x0100], 9), (2, 2));
    assert_eq!(counts(&[0x0100], 1), (1, 1));
    assert_eq!(counts(&[0x0100], 0), (0, 0));
    assert_eq!(counts(&[0x0100, 0x0300], 0xffff), (3, 3));
    assert_eq!(counts(&[0x0400], 9), (0, 0));
}

#[test]
fn search_counts_stand_in_the_packet() {
    let data = [0x02, 0x00, 0x00, 0x00, 0x08, 0x35, 0x03, 0x19, 0x01, 0x00, 0x00, 0x0a, 0x00];
    assert_eq!(
        &granted(&SdpServer::default(), &data, &mut BytesMut::new())[..],
        &[0x03, 0x00, 0x00, 0x00, 0x09, 0x00, 0x01, 0x00, 0x01, 0x00, 0x01, 0x00, 0x01, 0x00]
    );
}

#[test]
fn search_cannot_be_continued() {
    let mut buffer = BytesMut::from(&[7u8][..]);
    let refused = three_records()
        .respond(search(pattern(&[0x0100]), 9, ContinuationState::Continue), &mut buffer);
    assert_eq!(refusal(refused), Error::InvalidContinuationState);
    assert_eq!(&buffer[..], &[7]);
}

#[test]
fn patterns_of_another_type_are_refused() {
    let mixed = DataElement::Sequence(vec![
        DataElement::Uuid(Uuid::from_u16(0x0100)),
        DataElement::U16(0x0100),
    ]);
    let mut buffer = BytesMut::from(&[7u8][..]);
    let server = three_records();
    for patterns in [mixed, DataElement::U16(1)] {
        assert_eq!(
            refusal(server.respond(
                search(patterns.clone(), 9, ContinuationState::Absent),
                &mut buffer
            )),
            Error::UnexpectedDataType
        );
        assert_eq!(&buffer[..], &[7]);
        assert_eq!(convert_search_pattern(patterns), Err(Error::UnexpectedDataType));
    }
    assert_eq!(
        convert_search_pattern(pattern(&[1, 2])),
        Ok(vec![Uuid::from_u16(1), Uuid::from_u16(2)])
    );
}

#[test]
fn id_lists_hold_ids_and_ranges() {
    let list = DataElement::Sequence(vec![DataElement::U16(5), DataElement::U32(0x0002_0004)]);
    assert_eq!(convert_attribute_id_list(list), Ok(vec![5..=5, 2..=4]));
    assert_eq!(convert_attribute_id_list(DataElement::Sequence(vec![])), Ok(vec![]));
    assert_eq!(
        convert_attribute_id_list(DataElement::Sequence(vec![DataElement::U8(5)])),
        Err(Error::UnexpectedDataType)
    );
    assert_eq!(convert_attribute_id_list(DataElement::U16(5)), Err(Error::UnexpectedDataType));
}

#[test]
fn attributes_are_selected_by_id_and_value() {
    let service = service(&[
        (9, DataElement::U8(9)),
        (3, DataElement::Nil),
        (4, DataElement::U8(4)),
        (1, DataElement::U8(1)),
        (9, DataElement::U8(90)),
    ]);
    let list = |items: &[(u16, u8)]| {
        DataElement::Sequence(
            items
                .iter()
                .flat_map(|(id, value)| [DataElement::U16(*id), DataElement::U8(*value)])
                .collect(),
        )
    };
    assert_eq!(collect_attributes(&service, &[0..=0xffff]), list(&[(1, 1), (4, 4), (9, 90)]));
    assert_eq!(collect_attributes(&service, &[9..=9, 1..=3]), list(&[(1, 1), (9, 90)]));
    assert_eq!(collect_attributes(&service, &[9..=1]), list(&[]));
    assert_eq!(collect_attributes(&service, &[]), list(&[]));
}

#[test]
fn order_of_attributes_does_not_matter() {
    let (a, b) = ((1, DataElement::U8(1)), (2, DataElement::U8(2)));
    assert_eq!(service(&[a.clone(), b.clone()]), service(&[b, a]));
}

#[test]
fn unknown_handle_is_refused() {
    let mut buffer = BytesMut::from(&[7u8][..]);
    let refused = three_records()
        .respond(attributes(11, 9, every_id(), ContinuationState::Absent), &mut buffer);
    assert_eq!(refusal(refused), Error::UnknownServiceRecordHandle(11));
    assert!(buffer.is_empty());
}

#[test]
fn id_list_is_looked_at_before_the_handle() {
    let mut buffer = BytesMut::from(&[7u8][..]);
    let refused = three_records()
        .respond(attributes(11, 9, DataElement::Nil, ContinuationState::Absent), &mut buffer);
    assert_eq!(refusal(refused), Error::UnexpectedDataType);
    assert!(buffer.is_empty());
}

#[test]
fn records_without_chosen_attributes_are_left_out() {
    let ids = DataElement::Sequence(vec![DataElement::U16(2)]);
    let response = three_records()
        .respond(
            search_attributes(pattern(&[0x0100]), 99, ids, ContinuationState::Absent),
            &mut BytesMut::new(),
        )
        .unwrap();
    assert_eq!(
        fragment(response),
        (
            vec![0x35, 0x08, 0x35, 0x06, 0x09, 0x00, 0x02, 0x19, 0x02, 0x00],
            ContinuationState::Absent
        )
    );
}

#[test]
fn list_arrives_whole_in_fragments() {
    let server = SdpServer::default();
    for maximum in [1u16, 7, 31, 61, 62, 63] {
        let mut buffer = BytesMut::from(&[7u8, 7][..]);
        let mut state = ContinuationState::Absent;
        let mut received = Vec::new();
        let mut answers = 0;
        loop {
            let request = search_attributes(pattern(&[0x0100]), maximum, every_id(), state);
            let (octets, next) = fragment(server.respond(request, &mut buffer).unwrap());
            received.extend_from_slice(&octets);
            answers += 1;
            assert_eq!(next == ContinuationState::Absent, buffer.is_empty());
            if next == ContinuationState::Absent {
                break;
            }
            state = next;
        }
        assert_eq!(received, ALL_RECORDS);
        assert_eq!(answers, (61 + maximum as usize) / maximum as usize);
        let mut reader = Reader::new(&received);
        assert!(DataElement::read_from_buffer(&mut reader).is_ok());
        assert_eq!(reader.finish(), Ok(()));
    }
}

#[test]
fn list_arrives_whole_around_other_packets() {
    let server = SdpServer::default();
    let mut buffer = BytesMut::new();
    let mut received = Vec::new();
    let mut tail: &[u8] = b"\x00";
    loop {
        let mut packet = vec![
            0x06, 0x00, 0x01, 0x00, 0x00, 0x35, 0x03, 0x19, 0x01, 0x00, 0x00, 0x14, 0x35, 0x05,
            0x0a, 0x00, 0x00, 0xff, 0xff,
        ];
        packet.extend_from_slice(tail);
        let reply = granted(&server, &packet, &mut buffer);
        let size = u16::from_be_bytes([reply[5], reply[6]]) as usize;
        received.extend_from_slice(&reply[7..7 + size]);
        if reply[7 + size..] == [0x00] {
            break;
        }
        assert_eq!(&reply[7 + size..], b"\x04cont");
        tail = b"\x04cont";
        // A search, a packet without a header, one of no known kind, one that breaks off.
        let left = buffer.clone();
        let search = [0x02, 0, 2, 0, 8, 0x35, 0x03, 0x19, 0x01, 0x00, 0x00, 0x0a, 0x00];
        assert_eq!(granted(&server, &search, &mut buffer)[0], 0x03);
        assert_eq!(
            server.handle_packet(&[0x06], &mut buffer),
            Ok(Outcome::Unreadable(DecodeError::TooShort))
        );
        assert_eq!(
            outcome(&server, &[0x05, 0, 3, 0, 0], &mut buffer).1,
            Some(Error::InvalidRequest)
        );
        assert_eq!(
            outcome(&server, &packet[..9], &mut buffer).1,
            Some(Error::Malformed(DecodeError::TooShort))
        );
        assert_eq!(buffer, left);
    }
    assert_eq!(received, ALL_RECORDS);
    assert!(buffer.is_empty());
}

#[test]
fn maximum_of_zero_makes_no_headway() {
    let server = SdpServer::default();
    let mut buffer = BytesMut::new();
    let request = attributes(0x0001_0001, 0, every_id(), ContinuationState::Absent);
    assert_eq!(
        fragment(server.respond(request, &mut buffer).unwrap()),
        (vec![], ContinuationState::Continue)
    );
    assert_eq!(&buffer[..], &ALL_RECORDS[2..]);
}

#[test]
fn nothing_to_continue_is_refused() {
    let server = SdpServer::default();
    let mut buffer = BytesMut::new();
    let first = attributes(0x0001_0001, 9, every_id(), ContinuationState::Continue);
    assert_eq!(refusal(server.respond(first, &mut buffer)), Error::InvalidContinuationState);
    let second = search_attributes(pattern(&[0x0100]), 9, every_id(), ContinuationState::Continue);
    assert_eq!(refusal(server.respond(second, &mut buffer)), Error::InvalidContinuationState);
}

#[test]
fn new_request_drops_what_was_left_over() {
    let server = SdpServer::default();
    let mut buffer = BytesMut::new();
    let first = attributes(0x0001_0001, 9, every_id(), ContinuationState::Absent);
    assert!(server.respond(first, &mut buffer).is_ok());
    assert_eq!(buffer.len(), 60 - 9);
    let ids = DataElement::Sequence(vec![DataElement::U16(7)]);
    let second = attributes(0x0001_0001, 9, ids, ContinuationState::Absent);
    assert_eq!(
        fragment(server.respond(second, &mut buffer).unwrap()),
        (vec![0x35, 0x00], ContinuationState::Absent)
    );
    assert!(buffer.is_empty());
}

#[test]
fn last_record_under_a_handle_counts() {
    let server = SdpServer::from_records(vec![
        (5, service(&[(1, DataElement::U8(1))])),
        (5, service(&[(1, DataElement::U8(2))])),
    ]);
    let clone = server.clone();
    let request = attributes(5, 99, every_id(), ContinuationState::Absent);
    assert_eq!(
        fragment(clone.respond(request, &mut BytesMut::new()).unwrap()).0,
        [0x35, 0x05, 0x09, 0x00, 0x01, 0x08, 0x02]
    );
}

#[test]
fn failures_stay_within_the_computation() {
    let halves = |n: u32| catch_error(|| if n % 2 == 0 { Ok(n / 2) } else { Err(n) });
    assert_eq!(halves(4), Ok(2));
    assert_eq!(halves(5), Err(5));
}
