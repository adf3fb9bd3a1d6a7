use bytes::Bytes;
use sdp::error::{DecodeError, Error, PacketTooLong, SdpErrorCodes};
use sdp::octets::Reader;
use sdp::packet::{ContinuationState, PduId, RequestPacket, ResponsePacket, SdpHeader};
use sdp::DataElement;

fn continuation(octets: &[u8]) -> Result<ContinuationState, DecodeError> {
    ContinuationState::read_from_buffer(&mut Reader::new(octets))
}

#[test]
fn last_message_tells_whether_there_is_more() {
    assert_eq!(ContinuationState::last_message(true), ContinuationState::Absent);
    assert_eq!(ContinuationState::last_message(false), ContinuationState::Continue);
}

#[test]
fn continuation_states_round_trip() {
    for (state, octets) in [
        (ContinuationState::Absent, &b"\x00"[..]),
        (ContinuationState::Continue, &b"\x04cont"[..]),
    ] {
        let mut out = Vec::new();
        state.write_to_buffer(&mut out);
        assert_eq!(out, octets);
        assert_eq!(state.byte_size(), octets.len());
        assert_eq!(continuation(octets), Ok(state));
    }
}

#[test]
fn foreign_continuation_states_are_refused() {
    assert_eq!(continuation(b""), Err(DecodeError::TooShort));
    assert_eq!(continuation(b"\x04con"), Err(DecodeError::TooShort));
    assert_eq!(continuation(b"\x04conx"), Err(DecodeError::InvalidValue));
    assert_eq!(continuation(b"\x01c"), Err(DecodeError::InvalidValue));
    assert_eq!(continuation(b"\x05conts"), Err(DecodeError::InvalidValue));
}

#[test]
fn refused_continuation_states_are_passed_over() {
    let left = |octets: &[u8]| {
        let mut reader = Reader::new(octets);
        assert!(ContinuationState::read_from_buffer(&mut reader).is_err());
        reader.remaining()
    };
    assert_eq!(left(b""), 0);
    assert_eq!(left(b"\x04con"), 3);
    assert_eq!(left(b"\x04conx\x07\x08"), 2);
    assert_eq!(left(b"\x01c\x07\x08"), 3);
}

#[test]
fn refused_headers_are_passed_over() {
    let left = |octets: &[u8]| {
        let mut reader = Reader::new(octets);
        assert!(SdpHeader::read_from_buffer(&mut reader).is_err());
        reader.remaining()
    };
    assert_eq!(left(&[]), 0);
    assert_eq!(left(&[0x08, 1, 2, 3, 4]), 4);
    assert_eq!(left(&[0x06, 1]), 1);
    assert_eq!(left(&[0x06, 1, 2, 3]), 1);
}

#[test]
fn headers_round_trip() {
    let header = SdpHeader {
        pdu: PduId::SearchAttributeRequest,
        transaction_id: 0x1234,
        parameter_length: 0x000f,
    };
    let mut out = Vec::new();
    header.write_to_buffer(&mut out);
    assert_eq!(out, [0x06, 0x12, 0x34, 0x00, 0x0f]);
    assert_eq!(SdpHeader::read_from_buffer(&mut Reader::new(&out)), Ok(header));
    assert_eq!(
        SdpHeader::read_from_buffer(&mut Reader::new(&out[..4])),
        Err(DecodeError::TooShort)
    );
    assert_eq!(
        SdpHeader::read_from_buffer(&mut Reader::new(&[0x08, 0, 0, 0, 0])),
        Err(DecodeError::InvalidValue)
    );
}

#[test]
fn packet_kinds_have_numbers() {
    for code in 1..=7u8 {
        assert_eq!(PduId::from_code(code).map(|pdu| pdu.code()), Some(code));
    }
    assert_eq!(PduId::from_code(0), None);
    assert_eq!(PduId::from_code(8), None);
}

#[test]
fn requests_are_read() {
    let search = RequestPacket::read_from_buffer(
        PduId::SearchRequest,
        Reader::new(&[0x35, 0x00, 0x00, 0x05, 0x00]),
    );
    assert_eq!(
        search,
        Ok(RequestPacket::SearchRequest {
            service_search_patterns: DataElement::Sequence(vec![]),
            maximum_service_record_count: 5,
            continuation_state: ContinuationState::Absent,
        })
    );
    let attribute = RequestPacket::read_from_buffer(
        PduId::AttributeRequest,
        Reader::new(b"\x00\x01\x00\x01\x00\x20\x35\x00\x04cont"),
    );
    assert_eq!(
        attribute,
        Ok(RequestPacket::AttributeRequest {
            service_record_handle: 0x0001_0001,
            maximum_attribute_byte_count: 0x20,
            attribute_id_list: DataElement::Sequence(vec![]),
            continuation_state: ContinuationState::Continue,
        })
    );
    let search_attribute = RequestPacket::read_from_buffer(
        PduId::SearchAttributeRequest,
        Reader::new(&[0x35, 0x00, 0x03, 0xf0, 0x09, 0x00, 0x01, 0x00]),
    );
    assert_eq!(
        search_attribute,
        Ok(RequestPacket::SearchAttributeRequest {
            service_search_patterns: DataElement::Sequence(vec![]),
            maximum_attribute_byte_count: 0x03f0,
            attribute_id_list: DataElement::U16(1),
            continuation_state: ContinuationState::Absent,
        })
    );
}

#[test]
fn malformed_requests_are_refused() {
    let read = |pdu, octets: &[u8]| RequestPacket::read_from_buffer(pdu, Reader::new(octets));
    assert_eq!(
        read(PduId::SearchRequest, &[0x35, 0x00, 0x00]),
        Err(Error::Malformed(DecodeError::TooShort))
    );
    assert_eq!(
        read(PduId::SearchRequest, &[0x35, 0x00, 0x00, 0x05, 0x00, 0x00]),
        Err(Error::Malformed(DecodeError::TooLong))
    );
    assert_eq!(
        read(PduId::SearchRequest, &[0x35, 0x00, 0x00, 0x05, 0x01]),
        Err(Error::Malformed(DecodeError::InvalidValue))
    );
    assert_eq!(read(PduId::SearchResponse, &[]), Err(Error::InvalidRequest));
    assert_eq!(read(PduId::ErrorResponse, &[]), Err(Error::InvalidRequest));
}

fn octets(response: &ResponsePacket) -> Vec<u8> {
    let mut out = Vec::new();
    response.write_to_buffer(&mut out);
    assert_eq!(out.len(), response.byte_size());
    out
}

#[test]
fn responses_are_written() {
    let error = ResponsePacket::ErrorResponse(SdpErrorCodes::InvalidContinuationState);
    assert_eq!(error.pdu(), PduId::ErrorResponse);
    assert_eq!(octets(&error), [0x00, 0x05]);
    let search = ResponsePacket::SearchResponse {
        total_service_record_count: 3,
        current_service_record_count: 2,
        service_record_handles: vec![0x0001_0001, 0x0001_0002],
        continuation_state: ContinuationState::Absent,
    };
    assert_eq!(search.pdu(), PduId::SearchResponse);
    assert_eq!(octets(&search), [0, 3, 0, 2, 0, 1, 0, 1, 0, 1, 0, 2, 0]);
    let attribute = ResponsePacket::AttributeResponse {
        attribute_list_size: 2,
        attribute_list: Bytes::from_static(&[0x35, 0x00]),
        continuation_state: ContinuationState::Continue,
    };
    assert_eq!(attribute.pdu(), PduId::AttributeResponse);
    assert_eq!(octets(&attribute), b"\x00\x02\x35\x00\x04cont");
    let search_attribute = ResponsePacket::SearchAttributeResponse {
        attribute_list_size: 2,
        attribute_list: Bytes::from_static(&[0x35, 0x00]),
        continuation_state: ContinuationState::Absent,
    };
    assert_eq!(search_attribute.pdu(), PduId::SearchAttributeResponse);
    assert_eq!(octets(&search_attribute), [0x00, 0x02, 0x35, 0x00, 0x00]);
}

#[test]
fn packets_are_framed() {
    let error = ResponsePacket::ErrorResponse(SdpErrorCodes::InvalidRequestSyntax);
    assert_eq!(error.to_packet(0x0102).unwrap(), &[0x01, 0x01, 0x02, 0x00, 0x02, 0x00, 0x03][..]);
}

#[test]
fn packets_have_a_limit() {
    let response = |n: usize| ResponsePacket::AttributeResponse {
        attribute_list_size: 0,
        attribute_list: Bytes::from(vec![0; n]),
        continuation_state: ContinuationState::Absent,
    };
    assert_eq!(response(0xffff - 3).to_packet(0).unwrap().len(), 5 + 0xffff);
    assert_eq!(response(0xffff - 2).to_packet(0), Err(PacketTooLong));
}

#[test]
fn errors_have_codes() {
    let code = |e: Error| SdpErrorCodes::from(e);
    assert_eq!(
        code(Error::Malformed(DecodeError::TooLong)),
        SdpErrorCodes::InvalidRequestSyntax
    );
    assert_eq!(code(Error::UnexpectedDataType), SdpErrorCodes::InvalidRequestSyntax);
    assert_eq!(code(Error::InvalidRequest), SdpErrorCodes::InvalidRequestSyntax);
    assert_eq!(
        code(Error::InvalidContinuationState),
        SdpErrorCodes::InvalidContinuationState
    );
    assert_eq!(
        code(Error::UnknownServiceRecordHandle(1)),
        SdpErrorCodes::InvalidServiceRecordHandle
    );
    assert_eq!(SdpErrorCodes::InvalidSdpVersion.code(), 1);
    assert_eq!(SdpErrorCodes::InvalidServiceRecordHandle.code(), 2);
    assert_eq!(SdpErrorCodes::InvalidRequestSyntax.code(), 3);
    assert_eq!(SdpErrorCodes::InvalidPduSize.code(), 4);
    assert_eq!(SdpErrorCodes::InvalidContinuationState.code(), 5);
    assert_eq!(SdpErrorCodes::InsufficientResources.code(), 6);
}
