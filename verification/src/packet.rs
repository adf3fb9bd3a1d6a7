//! The packets of the protocol.

use bytes::Bytes;
use vstd::prelude::*;
use crate::buffer::{buffer_from_slice, bytes_as_slice, bytes_content};
use crate::codec::decode;
use crate::data_element::{DataElement, Element};
use crate::error::{DecodeError, Error, PacketTooLong, SdpErrorCodes};
use crate::octets::{
    at_end, be_bytes, lemma_be_bytes_len, lemma_be_limits, take_be, write_be, Reader,
};

verus! {

/// The kinds of packets.
#[derive(Debug, Clone, Copy, PartialEq, Eq, Structural)]
pub enum PduId {
    /// The answer to a request that cannot be answered.
    ErrorResponse,
    /// A request for the handles of the service records that match a pattern.
    SearchRequest,
    /// The answer to a search.
    SearchResponse,
    /// A request for attributes of a service record.
    AttributeRequest,
    /// The answer to a request for attributes.
    AttributeResponse,
    /// A request for attributes of the service records that match a pattern.
    SearchAttributeRequest,
    /// The answer to a search for attributes.
    SearchAttributeResponse,
}

impl PduId {
    /// The number that stands for the kind.
    pub open spec fn number(self) -> u8 {
        match self {
            PduId::ErrorResponse => 0x01,
            PduId::SearchRequest => 0x02,
            PduId::SearchResponse => 0x03,
            PduId::AttributeRequest => 0x04,
            PduId::AttributeResponse => 0x05,
            PduId::SearchAttributeRequest => 0x06,
            PduId::SearchAttributeResponse => 0x07,
        }
    }

    /// The number that stands for the kind.
    pub fn code(self) -> (r: u8)
        ensures
            r == self.number(),
    {
        match self {
            PduId::ErrorResponse => 0x01,
            PduId::SearchRequest => 0x02,
            PduId::SearchResponse => 0x03,
            PduId::AttributeRequest => 0x04,
            PduId::AttributeResponse => 0x05,
            PduId::SearchAttributeRequest => 0x06,
            PduId::SearchAttributeResponse => 0x07,
        }
    }

    /// The kind that a number stands for.
    pub fn from_code(code: u8) -> (r: Option<PduId>)
        ensures
            r == pdu_of_number(code as nat),
    {
        match code {
            0x01 => Some(PduId::ErrorResponse),
            0x02 => Some(PduId::SearchRequest),
            0x03 => Some(PduId::SearchResponse),
            0x04 => Some(PduId::AttributeRequest),
            0x05 => Some(PduId::AttributeResponse),
            0x06 => Some(PduId::SearchAttributeRequest),
            0x07 => Some(PduId::SearchAttributeResponse),
            _ => None,
        }
    }
}

/// The kind of packet that a number stands for.
pub open spec fn pdu_of_number(n: nat) -> Option<PduId> {
    if n == 0x01 {
        Some(PduId::ErrorResponse)
    } else if n == 0x02 {
        Some(PduId::SearchRequest)
    } else if n == 0x03 {
        Some(PduId::SearchResponse)
    } else if n == 0x04 {
        Some(PduId::AttributeRequest)
    } else if n == 0x05 {
        Some(PduId::AttributeResponse)
    } else if n == 0x06 {
        Some(PduId::SearchAttributeRequest)
    } else if n == 0x07 {
        Some(PduId::SearchAttributeResponse)
    } else {
        None
    }
}

/// The octets that a continuation state consists of when there is more to come.
pub const CONTINUATION_STATE: [u8; 4] = [0x63, 0x6f, 0x6e, 0x74];

/// Whether an answer is complete, or a request asks for the rest of one.
#[derive(Debug, Clone, Copy, PartialEq, Eq, Structural)]
pub enum ContinuationState {
    /// There is no more, or nothing has been asked for yet.
    Absent,
    /// There is more, or more is asked for.
    Continue,
}

impl ContinuationState {
    /// The octets of the state: a count of octets, then the octets.
    pub open spec fn octets(self) -> Seq<u8> {
        match self {
            ContinuationState::Absent => seq![0u8],
            ContinuationState::Continue => seq![4u8, 0x63u8, 0x6fu8, 0x6eu8, 0x74u8],
        }
    }
}

/// Takes a continuation state off the front of `s`.
pub open spec fn take_continuation(s: Seq<u8>) -> Result<
    (ContinuationState, Seq<u8>),
    DecodeError,
> {
    if s.len() == 0 {
        Err(DecodeError::TooShort)
    } else if s[0] == 0 {
        Ok((ContinuationState::Absent, s.skip(1)))
    } else if s[0] != 4 {
        Err(DecodeError::InvalidValue)
    } else if s.len() < 5 {
        Err(DecodeError::TooShort)
    } else if s.take(5) == ContinuationState::Continue.octets() {
        Ok((ContinuationState::Continue, s.skip(5)))
    } else {
        Err(DecodeError::InvalidValue)
    }
}

/// What is left to read after `s` turned out to hold no continuation state: the octets that were
/// looked at are gone.
pub open spec fn continuation_stop(s: Seq<u8>) -> Seq<u8> {
    if s.len() == 0 {
        s
    } else if s[0] == 4 && s.len() >= 5 {
        s.skip(5)
    } else {
        s.skip(1)
    }
}

impl ContinuationState {
    /// The state of an answer, by whether it is the last one.
    pub fn last_message(last: bool) -> (r: ContinuationState)
        ensures
            r == (if last {
                ContinuationState::Absent
            } else {
                ContinuationState::Continue
            }),
    {
        if last {
            ContinuationState::Absent
        } else {
            ContinuationState::Continue
        }
    }

    /// The number of octets of the state.
    pub fn byte_size(self) -> (r: usize)
        ensures
            r == self.octets().len(),
            r == (match self {
                ContinuationState::Absent => 1int,
                ContinuationState::Continue => 5int,
            }),
    {
        match self {
            ContinuationState::Absent => 1,
            ContinuationState::Continue => 5,
        }
    }

    /// Reads a state.
    pub fn read_from_buffer(reader: &mut Reader) -> (r: Result<ContinuationState, DecodeError>)
        ensures
            match take_continuation(old(reader).rest()) {
                Ok((state, rest)) => r == Ok::<_, DecodeError>(state) && final(reader).rest()
                    == rest,
                Err(e) => r == Err::<ContinuationState, DecodeError>(e) && final(reader).rest()
                    == continuation_stop(old(reader).rest()),
            },
    {
        let ghost s = reader.rest();
        let len: u8 = match reader.read_slice(1) {
            Ok(octets) => octets[0],
            Err(e) => {
                return Err(e);
            },
        };
        match len {
            0 => Ok(ContinuationState::Absent),
            4 => {
                let octets = match reader.read_slice(4) {
                    Ok(octets) => octets,
                    Err(e) => {
                        return Err(e);
                    },
                };
                proof {
                    assert(s.take(5) =~= seq![s[0], s[1], s[2], s[3], s[4]]);
                    assert(s.skip(1).skip(4) =~= s.skip(5));
                }
                if octets[0] == CONTINUATION_STATE[0] && octets[1] == CONTINUATION_STATE[1]
                    && octets[2] == CONTINUATION_STATE[2] && octets[3] == CONTINUATION_STATE[3] {
                    Ok(ContinuationState::Continue)
                } else {
                    proof {
                        let t = ContinuationState::Continue.octets();
                        if s.take(5) == t {
                            assert(s[1] == t[1] && s[2] == t[2] && s[3] == t[3] && s[4] == t[4]);
                        }
                    }
                    Err(DecodeError::InvalidValue)
                }
            },
            _ => Err(DecodeError::InvalidValue),
        }
    }

    /// Appends the state's octets.
    pub fn write_to_buffer(&self, out: &mut Vec<u8>)
        ensures
            final(out)@ == old(out)@ + self.octets(),
    {
        match self {
            ContinuationState::Absent => {
                out.push(0);
            },
            ContinuationState::Continue => {
                out.push(4);
                out.push(CONTINUATION_STATE[0]);
                out.push(CONTINUATION_STATE[1]);
                out.push(CONTINUATION_STATE[2]);
                out.push(CONTINUATION_STATE[3]);
            },
        }
        assert(out@ =~= old(out)@ + self.octets());
    }
}

/// What stands before the parameters of a packet.
#[derive(Debug, Clone, Copy, PartialEq, Eq, Structural)]
pub struct SdpHeader {
    /// The kind of packet.
    pub pdu: PduId,
    /// The number by which the client tells answers apart.
    pub transaction_id: u16,
    /// The number of octets of the parameters, as the packet states it.
    pub parameter_length: u16,
}

impl SdpHeader {
    /// The octets of the header.
    pub open spec fn octets(self) -> Seq<u8> {
        seq![self.pdu.number()] + be_bytes(self.transaction_id as nat, 2) + be_bytes(
            self.parameter_length as nat,
            2,
        )
    }
}

/// Takes a header off the front of `s`. The length that it states is taken as it stands.
pub open spec fn take_header(s: Seq<u8>) -> Result<(SdpHeader, Seq<u8>), DecodeError> {
    match take_be(s, 1) {
        Ok((n, s1)) => match pdu_of_number(n) {
            Some(pdu) => match take_be(s1, 2) {
                Ok((transaction_id, s2)) => match take_be(s2, 2) {
                    Ok((parameter_length, s3)) => Ok(
                        (
                            SdpHeader {
                                pdu,
                                transaction_id: transaction_id as u16,
                                parameter_length: parameter_length as u16,
                            },
                            s3,
                        ),
                    ),
                    Err(e) => Err(e),
                },
                Err(e) => Err(e),
            },
            None => Err(DecodeError::InvalidValue),
        },
        Err(e) => Err(e),
    }
}

/// What is left to read after `s` turned out to hold no header: the fields that could be read are
/// gone.
pub open spec fn header_stop(s: Seq<u8>) -> Seq<u8> {
    match take_be(s, 1) {
        Ok((n, s1)) => if pdu_of_number(n) is None {
            s1
        } else {
            match take_be(s1, 2) {
                Ok((_, s2)) => s2,
                Err(_) => s1,
            }
        },
        Err(_) => s,
    }
}

impl SdpHeader {
    /// Reads a header.
    pub fn read_from_buffer(reader: &mut Reader) -> (r: Result<SdpHeader, DecodeError>)
        ensures
            match take_header(old(reader).rest()) {
                Ok((header, rest)) => r == Ok::<_, DecodeError>(header) && final(reader).rest()
                    == rest,
                Err(e) => r == Err::<SdpHeader, DecodeError>(e) && final(reader).rest()
                    == header_stop(old(reader).rest()),
            },
    {
        proof {
            lemma_be_limits();
        }
        let code: u8 = match reader.read_be(1) {
            Ok(code) => code as u8,
            Err(e) => {
                return Err(e);
            },
        };
        let pdu = match PduId::from_code(code) {
            Some(pdu) => pdu,
            None => {
                return Err(DecodeError::InvalidValue);
            },
        };
        let transaction_id: u16 = match reader.read_be(2) {
            Ok(v) => v as u16,
            Err(e) => {
                return Err(e);
            },
        };
        let parameter_length: u16 = match reader.read_be(2) {
            Ok(v) => v as u16,
            Err(e) => {
                return Err(e);
            },
        };
        Ok(SdpHeader { pdu, transaction_id, parameter_length })
    }

    /// Appends the header's octets.
    pub fn write_to_buffer(&self, out: &mut Vec<u8>)
        ensures
            final(out)@ == old(out)@ + self.octets(),
    {
        out.push(self.pdu.code());
        write_be(out, self.transaction_id as u128, 2);
        write_be(out, self.parameter_length as u128, 2);
        assert(out@ =~= old(out)@ + self.octets());
    }
}

/// What a request asks for.
pub enum Request {
    /// The handles of the service records that match a pattern.
    Search { patterns: Element, maximum: u16, continuation: ContinuationState },
    /// Attributes of a service record.
    Attribute { handle: u32, maximum: u16, ids: Element, continuation: ContinuationState },
    /// Attributes of the service records that match a pattern.
    SearchAttribute {
        patterns: Element,
        maximum: u16,
        ids: Element,
        continuation: ContinuationState,
    },
}

/// A request, as it is read.
#[derive(Debug, PartialEq, Eq)]
pub enum RequestPacket {
    /// A search for service records.
    SearchRequest {
        /// The identifiers to look for.
        service_search_patterns: DataElement,
        /// How many handles the client takes.
        maximum_service_record_count: u16,
        /// Whether the rest of an earlier answer is asked for.
        continuation_state: ContinuationState,
    },
    /// A request for attributes of a service record.
    AttributeRequest {
        /// The service record.
        service_record_handle: u32,
        /// How many octets of attributes the client takes.
        maximum_attribute_byte_count: u16,
        /// The ids of the attributes, and ranges of ids.
        attribute_id_list: DataElement,
        /// Whether the rest of an earlier answer is asked for.
        continuation_state: ContinuationState,
    },
    /// A search for attributes.
    SearchAttributeRequest {
        /// The identifiers to look for.
        service_search_patterns: DataElement,
        /// How many octets of attributes the client takes.
        maximum_attribute_byte_count: u16,
        /// The ids of the attributes, and ranges of ids.
        attribute_id_list: DataElement,
        /// Whether the rest of an earlier answer is asked for.
        continuation_state: ContinuationState,
    },
}

impl View for RequestPacket {
    type V = Request;

    open spec fn view(&self) -> Request {
        match *self {
            RequestPacket::SearchRequest {
                service_search_patterns,
                maximum_service_record_count,
                continuation_state,
            } => Request::Search {
                patterns: service_search_patterns@,
                maximum: maximum_service_record_count,
                continuation: continuation_state,
            },
            RequestPacket::AttributeRequest {
                service_record_handle,
                maximum_attribute_byte_count,
                attribute_id_list,
                continuation_state,
            } => Request::Attribute {
                handle: service_record_handle,
                maximum: maximum_attribute_byte_count,
                ids: attribute_id_list@,
                continuation: continuation_state,
            },
            RequestPacket::SearchAttributeRequest {
                service_search_patterns,
                maximum_attribute_byte_count,
                attribute_id_list,
                continuation_state,
            } => Request::SearchAttribute {
                patterns: service_search_patterns@,
                maximum: maximum_attribute_byte_count,
                ids: attribute_id_list@,
                continuation: continuation_state,
            },
        }
    }
}

/// The continuation state that `s` consists of.
pub open spec fn last_continuation(s: Seq<u8>) -> Result<ContinuationState, DecodeError> {
    match take_continuation(s) {
        Ok((continuation, rest)) => match at_end(rest) {
            Ok(_) => Ok(continuation),
            Err(e) => Err(e),
        },
        Err(e) => Err(e),
    }
}

/// The parameters of a search: a pattern, a count and a continuation state.
pub open spec fn parse_search(s: Seq<u8>) -> Result<Request, DecodeError> {
    match decode(s) {
        Ok((patterns, s1)) => match take_be(s1, 2) {
            Ok((maximum, s2)) => match last_continuation(s2) {
                Ok(continuation) => Ok(
                    Request::Search { patterns, maximum: maximum as u16, continuation },
                ),
                Err(e) => Err(e),
            },
            Err(e) => Err(e),
        },
        Err(e) => Err(e),
    }
}

/// The parameters of a request for attributes: a handle, a count, ids and a continuation state.
pub open spec fn parse_attribute(s: Seq<u8>) -> Result<Request, DecodeError> {
    match take_be(s, 4) {
        Ok((handle, s1)) => match take_be(s1, 2) {
            Ok((maximum, s2)) => match decode(s2) {
                Ok((ids, s3)) => match last_continuation(s3) {
                    Ok(continuation) => Ok(
                        Request::Attribute {
                            handle: handle as u32,
                            maximum: maximum as u16,
                            ids,
                            continuation,
                        },
                    ),
                    Err(e) => Err(e),
                },
                Err(e) => Err(e),
            },
            Err(e) => Err(e),
        },
        Err(e) => Err(e),
    }
}

/// The parameters of a search for attributes: a pattern, a count, ids and a continuation state.
pub open spec fn parse_search_attribute(s: Seq<u8>) -> Result<Request, DecodeError> {
    match decode(s) {
        Ok((patterns, s1)) => match take_be(s1, 2) {
            Ok((maximum, s2)) => match decode(s2) {
                Ok((ids, s3)) => match last_continuation(s3) {
                    Ok(continuation) => Ok(
                        Request::SearchAttribute {
                            patterns,
                            maximum: maximum as u16,
                            ids,
                            continuation,
                        },
                    ),
                    Err(e) => Err(e),
                },
                Err(e) => Err(e),
            },
            Err(e) => Err(e),
        },
        Err(e) => Err(e),
    }
}

/// A request whose octets do not follow its layout is malformed.
pub open spec fn or_malformed(r: Result<Request, DecodeError>) -> Result<Request, Error> {
    match r {
        Ok(request) => Ok(request),
        Err(e) => Err(Error::Malformed(e)),
    }
}

/// The request that the parameters `s` of a packet of kind `pdu` make.
pub open spec fn parse_request(pdu: PduId, s: Seq<u8>) -> Result<Request, Error> {
    match pdu {
        PduId::SearchRequest => or_malformed(parse_search(s)),
        PduId::AttributeRequest => or_malformed(parse_attribute(s)),
        PduId::SearchAttributeRequest => or_malformed(parse_search_attribute(s)),
        _ => Err(Error::InvalidRequest),
    }
}

/// What was read is the request that was to be read, or the reason why there is none.
pub open spec fn is_read_as(
    r: Result<RequestPacket, Error>,
    expected: Result<Request, Error>,
) -> bool {
    match expected {
        Ok(request) => r is Ok && r->Ok_0@ == request,
        Err(e) => r is Err && r->Err_0 == e,
    }
}

/// Reads a continuation state that ends the packet.
fn read_last_continuation(mut reader: Reader) -> (r: Result<ContinuationState, DecodeError>)
    ensures
        r == last_continuation(reader.rest()),
{
    let continuation_state = match ContinuationState::read_from_buffer(&mut reader) {
        Ok(state) => state,
        Err(e) => {
            return Err(e);
        },
    };
    match reader.finish() {
        Ok(_) => Ok(continuation_state),
        Err(e) => Err(e),
    }
}

/// Reads a number of two octets.
fn read_u16(reader: &mut Reader) -> (r: Result<u16, DecodeError>)
    ensures
        match take_be(old(reader).rest(), 2) {
            Ok((v, rest)) => r == Ok::<u16, DecodeError>(v as u16) && final(reader).rest() == rest,
            Err(e) => r == Err::<u16, DecodeError>(e) && final(reader).rest() == old(reader).rest(),
        },
{
    proof {
        lemma_be_limits();
    }
    match reader.read_be(2) {
        Ok(v) => Ok(v as u16),
        Err(e) => Err(e),
    }
}

impl RequestPacket {
    /// Reads the parameters of a search.
    fn read_search(mut reader: Reader) -> (r: Result<RequestPacket, DecodeError>)
        ensures
            match parse_search(reader.rest()) {
                Ok(request) => r is Ok && r->Ok_0@ == request,
                Err(e) => r is Err && r->Err_0 == e,
            },
    {
        let service_search_patterns = match DataElement::read_from_buffer(&mut reader) {
            Ok(element) => element,
            Err(e) => {
                return Err(e);
            },
        };
        let maximum_service_record_count: u16 = match read_u16(&mut reader) {
            Ok(v) => v,
            Err(e) => {
                return Err(e);
            },
        };
        let continuation_state = match read_last_continuation(reader) {
            Ok(state) => state,
            Err(e) => {
                return Err(e);
            },
        };
        Ok(
            RequestPacket::SearchRequest {
                service_search_patterns,
                maximum_service_record_count,
                continuation_state,
            },
        )
    }

    /// Reads the parameters of a request for attributes.
    fn read_attribute(mut reader: Reader) -> (r: Result<RequestPacket, DecodeError>)
        ensures
            match parse_attribute(reader.rest()) {
                Ok(request) => r is Ok && r->Ok_0@ == request,
                Err(e) => r is Err && r->Err_0 == e,
            },
    {
        proof {
            lemma_be_limits();
        }
        let service_record_handle: u32 = match reader.read_be(4) {
            Ok(v) => v as u32,
            Err(e) => {
                return Err(e);
            },
        };
        let maximum_attribute_byte_count: u16 = match read_u16(&mut reader) {
            Ok(v) => v,
            Err(e) => {
                return Err(e);
            },
        };
        let attribute_id_list = match DataElement::read_from_buffer(&mut reader) {
            Ok(element) => element,
            Err(e) => {
                return Err(e);
            },
        };
        let continuation_state = match read_last_continuation(reader) {
            Ok(state) => state,
            Err(e) => {
                return Err(e);
            },
        };
        Ok(
            RequestPacket::AttributeRequest {
                service_record_handle,
                maximum_attribute_byte_count,
                attribute_id_list,
                continuation_state,
            },
        )
    }

    /// Reads the parameters of a search for attributes.
    fn read_search_attribute(mut reader: Reader) -> (r: Result<RequestPacket, DecodeError>)
        ensures
            match parse_search_attribute(reader.rest()) {
                Ok(request) => r is Ok && r->Ok_0@ == request,
                Err(e) => r is Err && r->Err_0 == e,
            },
    {
        let service_search_patterns = match DataElement::read_from_buffer(&mut reader) {
            Ok(element) => element,
            Err(e) => {
                return Err(e);
            },
        };
        let maximum_attribute_byte_count: u16 = match read_u16(&mut reader) {
            Ok(v) => v,
            Err(e) => {
                return Err(e);
            },
        };
        let attribute_id_list = match DataElement::read_from_buffer(&mut reader) {
            Ok(element) => element,
            Err(e) => {
                return Err(e);
            },
        };
        let continuation_state = match read_last_continuation(reader) {
            Ok(state) => state,
            Err(e) => {
                return Err(e);
            },
        };
        Ok(
            RequestPacket::SearchAttributeRequest {
                service_search_patterns,
                maximum_attribute_byte_count,
                attribute_id_list,
                continuation_state,
            },
        )
    }

    /// Reads the parameters of a packet of kind `pdu`, up to its end.
    pub fn read_from_buffer(pdu: PduId, reader: Reader) -> (r: Result<RequestPacket, Error>)
        ensures
            is_read_as(r, parse_request(pdu, reader.rest())),
    {
        let parsed = match pdu {
            PduId::SearchRequest => RequestPacket::read_search(reader),
            PduId::AttributeRequest => RequestPacket::read_attribute(reader),
            PduId::SearchAttributeRequest => RequestPacket::read_search_attribute(reader),
            _ => {
                return Err(Error::InvalidRequest);
            },
        };
        match parsed {
            Ok(request) => Ok(request),
            Err(e) => Err(Error::Malformed(e)),
        }
    }
}

/// What an answer says.
pub enum Response {
    /// The request cannot be answered.
    Error(SdpErrorCodes),
    /// Handles of service records.
    Search { total: u16, current: u16, handles: Seq<u32>, continuation: ContinuationState },
    /// Octets of a list of attributes.
    Attribute { size: u16, list: Seq<u8>, continuation: ContinuationState },
    /// Octets of a list of lists of attributes.
    SearchAttribute { size: u16, list: Seq<u8>, continuation: ContinuationState },
}

/// An answer, as it is written.
#[derive(Debug)]
pub enum ResponsePacket {
    /// The request cannot be answered.
    ErrorResponse(SdpErrorCodes),
    /// The answer to a search.
    SearchResponse {
        /// How many service records match, up to the number of handles that the client takes.
        total_service_record_count: u16,
        /// How many handles this answer holds.
        current_service_record_count: u16,
        /// The handles of service records that match.
        service_record_handles: Vec<u32>,
        /// Whether there is more.
        continuation_state: ContinuationState,
    },
    /// The answer to a request for attributes.
    AttributeResponse {
        /// How many octets of attributes this answer holds.
        attribute_list_size: u16,
        /// The octets.
        attribute_list: Bytes,
        /// Whether there is more.
        continuation_state: ContinuationState,
    },
    /// The answer to a search for attributes.
    SearchAttributeResponse {
        /// How many octets of attributes this answer holds.
        attribute_list_size: u16,
        /// The octets.
        attribute_list: Bytes,
        /// Whether there is more.
        continuation_state: ContinuationState,
    },
}

impl View for ResponsePacket {
    type V = Response;

    open spec fn view(&self) -> Response {
        match *self {
            ResponsePacket::ErrorResponse(code) => Response::Error(code),
            ResponsePacket::SearchResponse {
                total_service_record_count,
                current_service_record_count,
                service_record_handles,
                continuation_state,
            } => Response::Search {
                total: total_service_record_count,
                current: current_service_record_count,
                handles: service_record_handles@,
                continuation: continuation_state,
            },
            ResponsePacket::AttributeResponse {
                attribute_list_size,
                attribute_list,
                continuation_state,
            } => Response::Attribute {
                size: attribute_list_size,
                list: bytes_content(attribute_list),
                continuation: continuation_state,
            },
            ResponsePacket::SearchAttributeResponse {
                attribute_list_size,
                attribute_list,
                continuation_state,
            } => Response::SearchAttribute {
                size: attribute_list_size,
                list: bytes_content(attribute_list),
                continuation: continuation_state,
            },
        }
    }
}

/// The octets of handles that follow each other.
pub open spec fn handle_octets(handles: Seq<u32>) -> Seq<u8>
    decreases handles.len(),
{
    if handles.len() == 0 {
        Seq::empty()
    } else {
        handle_octets(handles.drop_last()) + be_bytes(handles.last() as nat, 4)
    }
}

impl Response {
    /// The kind of packet that carries the answer.
    pub open spec fn pdu(self) -> PduId {
        match self {
            Response::Error(_) => PduId::ErrorResponse,
            Response::Search { .. } => PduId::SearchResponse,
            Response::Attribute { .. } => PduId::AttributeResponse,
            Response::SearchAttribute { .. } => PduId::SearchAttributeResponse,
        }
    }

    /// The octets of the answer, as they follow the header.
    pub open spec fn octets(self) -> Seq<u8> {
        match self {
            Response::Error(code) => be_bytes(code.number() as nat, 2),
            Response::Search { total, current, handles, continuation } => be_bytes(total as nat, 2)
                + be_bytes(current as nat, 2) + handle_octets(handles) + continuation.octets(),
            Response::Attribute { size, list, continuation } => be_bytes(size as nat, 2) + list
                + continuation.octets(),
            Response::SearchAttribute { size, list, continuation } => be_bytes(size as nat, 2)
                + list + continuation.octets(),
        }
    }
}

/// The octets of a packet that carries an answer.
pub open spec fn response_packet(transaction_id: u16, response: Response) -> Seq<u8> {
    (SdpHeader {
        pdu: response.pdu(),
        transaction_id,
        parameter_length: response.octets().len() as u16,
    }).octets() + response.octets()
}

/// Each handle takes up four octets.
pub proof fn lemma_handle_octets_len(handles: Seq<u32>)
    ensures
        handle_octets(handles).len() == 4 * handles.len(),
    decreases handles.len(),
{
    if handles.len() > 0 {
        lemma_handle_octets_len(handles.drop_last());
        lemma_be_bytes_len(handles.last() as nat, 4);
    }
}

/// How many octets an answer takes up.
pub proof fn lemma_response_len(response: Response)
    ensures
        response.octets().len() == (match response {
            Response::Error(_) => 2,
            Response::Search { handles, continuation, .. } => 4 + 4 * handles.len()
                + continuation.octets().len(),
            Response::Attribute { list, continuation, .. } => 2 + list.len()
                + continuation.octets().len(),
            Response::SearchAttribute { list, continuation, .. } => 2 + list.len()
                + continuation.octets().len(),
        }),
{
    match response {
        Response::Error(code) => {
            lemma_be_bytes_len(code.number() as nat, 2);
        },
        Response::Search { total, current, handles, .. } => {
            lemma_be_bytes_len(total as nat, 2);
            lemma_be_bytes_len(current as nat, 2);
            lemma_handle_octets_len(handles);
        },
        Response::Attribute { size, .. } => {
            lemma_be_bytes_len(size as nat, 2);
        },
        Response::SearchAttribute { size, .. } => {
            lemma_be_bytes_len(size as nat, 2);
        },
    }
}

impl ResponsePacket {
    /// The kind of packet that carries the answer.
    pub fn pdu(&self) -> (r: PduId)
        ensures
            r == self@.pdu(),
    {
        match self {
            ResponsePacket::ErrorResponse(_) => PduId::ErrorResponse,
            ResponsePacket::SearchResponse { .. } => PduId::SearchResponse,
            ResponsePacket::AttributeResponse { .. } => PduId::AttributeResponse,
            ResponsePacket::SearchAttributeResponse { .. } => PduId::SearchAttributeResponse,
        }
    }

    /// The number of octets of the answer.
    pub fn byte_size(&self) -> (r: usize)
        requires
            self@.octets().len() <= usize::MAX,
        ensures
            r == self@.octets().len(),
    {
        proof {
            lemma_response_len(self@);
        }
        match self {
            ResponsePacket::ErrorResponse(_) => 2,
            ResponsePacket::SearchResponse { service_record_handles, continuation_state, .. } => {
                2 * 2 + service_record_handles.len() * 4 + continuation_state.byte_size()
            },
            ResponsePacket::AttributeResponse { attribute_list, continuation_state, .. } => {
                2 + attribute_list.len() + continuation_state.byte_size()
            },
            ResponsePacket::SearchAttributeResponse { attribute_list, continuation_state, .. } => {
                2 + attribute_list.len() + continuation_state.byte_size()
            },
        }
    }

    /// Appends the answer's octets.
    pub fn write_to_buffer(&self, out: &mut Vec<u8>)
        ensures
            final(out)@ == old(out)@ + self@.octets(),
    {
        match self {
            ResponsePacket::ErrorResponse(code) => {
                write_be(out, code.code() as u128, 2);
            },
            ResponsePacket::SearchResponse {
                total_service_record_count,
                current_service_record_count,
                service_record_handles,
                continuation_state,
            } => {
                write_be(out, *total_service_record_count as u128, 2);
                write_be(out, *current_service_record_count as u128, 2);
                write_handles(out, service_record_handles);
                continuation_state.write_to_buffer(out);
            },
            ResponsePacket::AttributeResponse {
                attribute_list_size,
                attribute_list,
                continuation_state,
            } => {
                write_be(out, *attribute_list_size as u128, 2);
                out.extend_from_slice(bytes_as_slice(attribute_list));
                continuation_state.write_to_buffer(out);
            },
            ResponsePacket::SearchAttributeResponse {
                attribute_list_size,
                attribute_list,
                continuation_state,
            } => {
                write_be(out, *attribute_list_size as u128, 2);
                out.extend_from_slice(bytes_as_slice(attribute_list));
                continuation_state.write_to_buffer(out);
            },
        }
        assert(out@ =~= old(out)@ + self@.octets());
    }
}

impl ResponsePacket {
    /// The packet that carries the answer: its header, then its octets. It is an error if the
    /// header cannot state their number.
    pub fn to_packet(&self, transaction_id: u16) -> (r: Result<Bytes, PacketTooLong>)
        requires
            self@.octets().len() <= usize::MAX,
        ensures
            if self@.octets().len() <= u16::MAX {
                r is Ok && bytes_content(r->Ok_0) == response_packet(transaction_id, self@)
            } else {
                r is Err
            },
    {
        let size: usize = self.byte_size();
        if size > 0xffff {
            return Err(PacketTooLong);
        }
        let header = SdpHeader {
            pdu: self.pdu(),
            transaction_id,
            parameter_length: size as u16,
        };
        let mut packet: Vec<u8> = Vec::new();
        header.write_to_buffer(&mut packet);
        self.write_to_buffer(&mut packet);
        assert(packet@ =~= response_packet(transaction_id, self@));
        Ok(buffer_from_slice(packet.as_slice()).freeze())
    }
}

/// Appends handles, one after the other.
fn write_handles(out: &mut Vec<u8>, handles: &Vec<u32>)
    ensures
        final(out)@ == old(out)@ + handle_octets(handles@),
{
    let mut i: usize = 0;
    assert(out@ =~= old(out)@ + handle_octets(handles@.take(0)));
    while i < handles.len()
        invariant
            i <= handles@.len(),
            out@ == old(out)@ + handle_octets(handles@.take(i as int)),
        decreases handles@.len() - i,
    {
        write_be(out, handles[i] as u128, 4);
        proof {
            assert(handles@.take(i + 1).drop_last() =~= handles@.take(i as int));
            assert(out@ =~= old(out)@ + handle_octets(handles@.take(i + 1)));
        }
        i = i + 1;
    }
    assert(handles@.take(i as int) =~= handles@);
}

} // verus!
