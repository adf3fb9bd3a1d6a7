//! Which octets stand where in the packets of the protocol.

use vstd::prelude::*;
use crate::answer::{
    answer, pending_after, pending_after_packet, refusal_of, reply_to, request_of,
    response_to,
};
use crate::buffer::bytes_content;
use crate::codec::decode;
use crate::data_element::Element;
use crate::error::{error_code, DecodeError, Error, SdpErrorCodes};
use crate::laws::{law_answer_kind, law_packet_is_framed};
use crate::octets::{
    be_bytes, be_value, lemma_be_bytes_len, lemma_be_limits, lemma_be_value_bound,
    lemma_be_value_of_bytes, take_be,
};
use crate::packet::{
    continuation_stop, handle_octets, header_stop, is_read_as, last_continuation,
    lemma_handle_octets_len, parse_attribute, parse_search, parse_search_attribute, pdu_of_number,
    response_packet, take_continuation, take_header, ContinuationState, PduId, Request,
    RequestPacket, Response, ResponsePacket,
};
use crate::service::Attribute;

verus! {

/// A number in two octets, the upper one first.
pub open spec fn two(n: nat) -> Seq<u8> {
    seq![(n / 0x100) as u8, (n % 0x100) as u8]
}

/// A number in four octets, the uppermost one first.
pub open spec fn four(n: nat) -> Seq<u8> {
    seq![
        (n / 0x100_0000) as u8,
        (n / 0x1_0000 % 0x100) as u8,
        (n / 0x100 % 0x100) as u8,
        (n % 0x100) as u8,
    ]
}

/// Numbers are written and read with the uppermost octet first.
pub proof fn law_uppermost_octet_first(n: nat, s: Seq<u8>)
    ensures
        n < 0x1_0000 ==> be_bytes(n, 2) == two(n),
        n < 0x1_0000_0000 ==> be_bytes(n, 4) == four(n),
        s.len() == 1 ==> be_value(s) == s[0],
        s.len() == 2 ==> be_value(s) == s[0] * 0x100 + s[1] && s == two(be_value(s)),
        s.len() == 4 ==> be_value(s) == s[0] * 0x100_0000 + s[1] * 0x1_0000 + s[2] * 0x100 + s[3]
            && s == four(be_value(s)),
{
    reveal_with_fuel(be_bytes, 5);
    reveal_with_fuel(be_value, 5);
    if n < 0x1_0000 {
        assert(be_bytes(n, 2) =~= two(n));
    }
    if n < 0x1_0000_0000 {
        assert(be_bytes(n, 4) =~= four(n));
    }
    if s.len() == 2 {
        assert(s =~= two(be_value(s)));
    }
    if s.len() == 4 {
        assert(s =~= four(be_value(s)));
    }
}

/// Octets stand for a number if and only if they are the octets that it is written as.
proof fn lemma_two_and_four(n: nat, s: Seq<u8>)
    ensures
        s.len() == 2 && n < 0x1_0000 ==> (be_value(s) == n <==> s == two(n)),
        s.len() == 4 && n < 0x1_0000_0000 ==> (be_value(s) == n <==> s == four(n)),
        s.len() == 2 ==> be_value(s) < 0x1_0000,
        s.len() == 4 ==> be_value(s) < 0x1_0000_0000,
{
    law_uppermost_octet_first(n, s);
    lemma_be_limits();
    lemma_be_value_bound(s);
    if n < 0x1_0000 {
        lemma_be_value_of_bytes(n, 2);
    }
    if n < 0x1_0000_0000 {
        lemma_be_value_of_bytes(n, 4);
    }
}

/// The octets of a continuation state: none, counted, or the four of the word.
pub open spec fn state_octets(state: ContinuationState) -> Seq<u8> {
    match state {
        ContinuationState::Absent => seq![0u8],
        ContinuationState::Continue => seq![4u8, 0x63u8, 0x6fu8, 0x6eu8, 0x74u8],
    }
}

/// Each kind of packet has the number that the protocol gives it.
pub proof fn law_kinds_of_packets(pdu: PduId, n: nat)
    ensures
        pdu.number() == (match pdu {
            PduId::ErrorResponse => 1int,
            PduId::SearchRequest => 2,
            PduId::SearchResponse => 3,
            PduId::AttributeRequest => 4,
            PduId::AttributeResponse => 5,
            PduId::SearchAttributeRequest => 6,
            PduId::SearchAttributeResponse => 7,
        }),
        match pdu_of_number(n) {
            Some(kind) => 1 <= n <= 7 && kind.number() == n,
            None => n == 0 || n > 7,
        },
{
}

/// Each reason for a refusal is told by the number that the protocol gives it.
pub proof fn law_numbers_of_reasons(error: Error, code: SdpErrorCodes)
    ensures
        error_code(error).number() == (match error {
            Error::UnknownServiceRecordHandle(_) => 2int,
            Error::Malformed(_) => 3,
            Error::UnexpectedDataType => 3,
            Error::InvalidRequest => 3,
            Error::InvalidContinuationState => 5,
        }),
        code.number() == (match code {
            SdpErrorCodes::InvalidSdpVersion => 1int,
            SdpErrorCodes::InvalidServiceRecordHandle => 2,
            SdpErrorCodes::InvalidRequestSyntax => 3,
            SdpErrorCodes::InvalidPduSize => 4,
            SdpErrorCodes::InvalidContinuationState => 5,
            SdpErrorCodes::InsufficientResources => 6,
        }),
{
}

/// A header is the number of the kind, the transaction in two octets and the length in two octets.
/// It is too short if fewer than five octets are there, and has no meaning if the first is not the
/// number of a kind.
pub proof fn law_header_layout(s: Seq<u8>)
    ensures
        match take_header(s) {
            Ok((header, rest)) => {
                &&& s.len() >= 5
                &&& header.pdu.number() == s[0]
                &&& header.transaction_id == s[1] * 0x100 + s[2]
                &&& header.parameter_length == s[3] * 0x100 + s[4]
                &&& rest == s.skip(5)
                &&& header.octets() == s.take(5)
            },
            Err(e) => if s.len() > 0 && !(1 <= s[0] <= 7) {
                &&& e == DecodeError::InvalidValue
                &&& header_stop(s) == s.skip(1)
            } else {
                &&& e == DecodeError::TooShort
                &&& s.len() < 5
                &&& header_stop(s) == s.skip(
                    if s.len() == 0 {
                        0
                    } else if s.len() < 3 {
                        1
                    } else {
                        3
                    },
                )
            },
        },
{
    if s.len() > 0 {
        law_uppermost_octet_first(0, s.take(1));
        law_kinds_of_packets(PduId::ErrorResponse, be_value(s.take(1)));
        let s1 = s.skip(1);
        if s.len() >= 3 {
            let s2 = s1.skip(2);
            assert(s2 =~= s.skip(3));
            law_uppermost_octet_first(0, s1.take(2));
            if s.len() >= 5 {
                law_uppermost_octet_first(0, s2.take(2));
                assert(s2.skip(2) =~= s.skip(5));
                if let Ok((header, rest)) = take_header(s) {
                    law_uppermost_octet_first(header.transaction_id as nat, Seq::empty());
                    law_uppermost_octet_first(header.parameter_length as nat, Seq::empty());
                    assert(header.octets() =~= s.take(5));
                }
            }
        }
    } else {
        assert(s.skip(0) =~= s);
    }
}

/// What a packet starts with: the number of its kind, the transaction and the number of octets that
/// follow.
pub open spec fn starts(kind: u8, transaction_id: u16, length: nat) -> Seq<u8> {
    seq![kind] + two(transaction_id as nat) + two(length)
}

/// Each kind of answer is laid out as the protocol says. A refusal is its number in two octets. The
/// answer to a search is two counts of two octets, each handle in four octets, and the state. The
/// other answers are a count of two octets, the list and the state. Left out are answers with more
/// octets than a header can state, which are not sent.
#[verifier::spinoff_prover]
#[verifier::rlimit(50)]
pub proof fn law_answer_layout(transaction_id: u16, response: Response)
    requires
        response.octets().len() <= u16::MAX,
    ensures
        match response {
            Response::Error(code) => response_packet(transaction_id, response) == starts(
                1,
                transaction_id,
                2,
            ) + two(code.number() as nat),
            Response::Search { total, current, handles, continuation } => {
                let packet = response_packet(transaction_id, response);
                let n = 4 * handles.len();
                &&& packet.take(9) == starts(
                    3,
                    transaction_id,
                    4 + n + state_octets(continuation).len(),
                ) + two(total as nat) + two(current as nat)
                &&& forall|k: int|
                    0 <= k < handles.len() ==> packet.subrange(9 + 4 * k, 13 + 4 * k) == four(
                        (#[trigger] handles[k]) as nat,
                    )
                &&& packet.skip(9 + n as int) == state_octets(continuation)
            },
            Response::Attribute { size, list, continuation } => response_packet(
                transaction_id,
                response,
            ) == starts(5, transaction_id, 2 + list.len() + state_octets(continuation).len())
                + two(size as nat) + list + state_octets(continuation),
            Response::SearchAttribute { size, list, continuation } => response_packet(
                transaction_id,
                response,
            ) == starts(7, transaction_id, 2 + list.len() + state_octets(continuation).len())
                + two(size as nat) + list + state_octets(continuation),
        },
{
    let packet = response_packet(transaction_id, response);
    let length = response.octets().len();
    law_uppermost_octet_first(transaction_id as nat, Seq::empty());
    law_uppermost_octet_first(length, Seq::empty());
    law_kinds_of_packets(response.pdu(), 0);
    match response {
        Response::Error(code) => {
            law_uppermost_octet_first(code.number() as nat, Seq::empty());
            assert(packet =~= starts(1, transaction_id, 2) + two(code.number() as nat));
        },
        Response::Search { total, current, handles, continuation } => {
            let n = 4 * handles.len();
            law_uppermost_octet_first(total as nat, Seq::empty());
            law_uppermost_octet_first(current as nat, Seq::empty());
            lemma_handle_octets_len(handles);
            assert(packet.take(9) =~= starts(
                3,
                transaction_id,
                4 + n + state_octets(continuation).len(),
            ) + two(total as nat) + two(current as nat));
            assert(packet.skip(9 + n as int) =~= state_octets(continuation));
            assert(packet.subrange(9, 9 + n as int) =~= handle_octets(handles));
            assert forall|k: int| 0 <= k < handles.len() implies packet.subrange(
                9 + 4 * k,
                13 + 4 * k,
            ) == four((#[trigger] handles[k]) as nat) by {
                lemma_handle_place(handles, k);
                assert(packet.subrange(9 + 4 * k, 13 + 4 * k) =~= handle_octets(handles).subrange(
                    4 * k,
                    4 * k + 4,
                ));
            }
        },
        Response::Attribute { size, list, continuation } => {
            law_uppermost_octet_first(size as nat, Seq::empty());
            assert(packet =~= starts(
                5,
                transaction_id,
                2 + list.len() + state_octets(continuation).len(),
            ) + two(size as nat) + list + state_octets(continuation));
        },
        Response::SearchAttribute { size, list, continuation } => {
            law_uppermost_octet_first(size as nat, Seq::empty());
            assert(packet =~= starts(
                7,
                transaction_id,
                2 + list.len() + state_octets(continuation).len(),
            ) + two(size as nat) + list + state_octets(continuation));
        },
    }
}

/// Each handle stands in its place.
proof fn lemma_handle_place(handles: Seq<u32>, k: int)
    requires
        0 <= k < handles.len(),
    ensures
        handle_octets(handles).len() == 4 * handles.len(),
        handle_octets(handles).subrange(4 * k, 4 * k + 4) == four(handles[k] as nat),
    decreases handles.len(),
{
    let front = handles.drop_last();
    lemma_handle_octets_len(handles);
    lemma_handle_octets_len(front);
    law_uppermost_octet_first(handles.last() as nat, Seq::empty());
    if k < front.len() {
        lemma_handle_place(front, k);
        assert(handle_octets(handles).subrange(4 * k, 4 * k + 4) =~= handle_octets(
            front,
        ).subrange(4 * k, 4 * k + 4));
    } else {
        assert(handle_octets(handles).subrange(4 * k, 4 * k + 4) =~= four(handles[k] as nat));
    }
}

/// A continuation state is read from its octets and from no others. What is left is what follows
/// the octets that were looked at.
pub proof fn law_continuation_layout(s: Seq<u8>, state: ContinuationState, tail: Seq<u8>)
    ensures
        take_continuation(s) == Ok::<_, DecodeError>((state, tail)) <==> s == state_octets(state)
            + tail,
        last_continuation(s) == Ok::<_, DecodeError>(state) <==> s == state_octets(state),
        state.octets() == state_octets(state),
        take_continuation(s) matches Err(e) ==> {
            &&& last_continuation(s) == Err::<ContinuationState, DecodeError>(e)
            &&& if s.len() == 0 {
                e == DecodeError::TooShort && continuation_stop(s) == s
            } else if s[0] != 4 {
                e == DecodeError::InvalidValue && continuation_stop(s) == s.skip(1)
            } else if s.len() < 5 {
                e == DecodeError::TooShort && continuation_stop(s) == s.skip(1)
            } else {
                e == DecodeError::InvalidValue && continuation_stop(s) == s.skip(5)
            }
        },
        take_continuation(s) is Ok && last_continuation(s) is Err ==> last_continuation(s) == Err::<
            ContinuationState,
            DecodeError,
        >(DecodeError::TooLong),
{
    let n = state_octets(state).len() as int;
    assert((state_octets(state) + tail).skip(n) =~= tail);
    assert((state_octets(state) + tail).take(n) =~= state_octets(state));
    if let Ok((found, rest)) = take_continuation(s) {
        let m = state_octets(found).len() as int;
        assert(s.take(m) =~= state_octets(found)) by {
            if found == ContinuationState::Absent {
                assert(s.take(1) =~= seq![0u8]);
            }
        }
        assert(s =~= s.take(m) + s.skip(m));
        if rest.len() == 0 {
            assert(rest =~= Seq::empty());
            assert(state_octets(found) + rest =~= state_octets(found));
        }
    }
    if s == state_octets(state) {
        assert(s.skip(n) =~= Seq::empty());
        assert(s.take(n) =~= s);
    }
    if s == state_octets(state) + tail {
        assert(s[0] == state_octets(state)[0]);
        assert(s.take(n) =~= state_octets(state));
    }
}

/// A count and a continuation state that end a packet are read from their octets and no others.
proof fn lemma_count_and_state(s: Seq<u8>, maximum: u16, state: ContinuationState)
    ensures
        (take_be(s, 2) matches Ok((n, rest)) && n as u16 == maximum && last_continuation(rest)
            == Ok::<_, DecodeError>(state)) <==> s == two(maximum as nat) + state_octets(state),
        take_be(s, 2) matches Ok((n, _)) ==> n <= u16::MAX,
{
    let whole = two(maximum as nat) + state_octets(state);
    if let Ok((n, rest)) = take_be(s, 2) {
        law_uppermost_octet_first(0, s.take(2));
        law_continuation_layout(rest, state, Seq::empty());
        assert(s =~= s.take(2) + s.skip(2));
    }
    if s == whole {
        assert(s.take(2) =~= two(maximum as nat));
        assert(s.skip(2) =~= state_octets(state));
        law_uppermost_octet_first(maximum as nat, s.take(2));
    }
}

/// A packet is a search if and only if its kind is that of a search and what follows the header is
/// a pattern, a count in two octets and a continuation state, and nothing more.
pub proof fn law_search_request_layout(
    packet: Seq<u8>,
    patterns: Element,
    maximum: u16,
    continuation: ContinuationState,
)
    ensures
        request_of(packet) == Ok::<_, Error>(Request::Search { patterns, maximum, continuation })
            <==> packet.len() >= 5 && packet[0] == 2 && decode(packet.skip(5)) == Ok::<
            _,
            DecodeError,
        >((patterns, two(maximum as nat) + state_octets(continuation))),
{
    law_header_layout(packet);
    if packet.len() >= 5 && packet[0] == 2 {
        law_kinds_of_packets(take_header(packet)->Ok_0.0.pdu, 0);
        if let Ok((found, tail)) = decode(packet.skip(5)) {
            lemma_count_and_state(tail, maximum, continuation);
        }
    } else if take_header(packet) is Ok {
        law_kinds_of_packets(take_header(packet)->Ok_0.0.pdu, 0);
    }
}

/// A packet is a search for attributes if and only if its kind is that of one and what follows the
/// header is a pattern, a count in two octets, an id list and a continuation state, and nothing
/// more.
#[verifier::spinoff_prover]
#[verifier::rlimit(50)]
pub proof fn law_search_attribute_request_layout(
    packet: Seq<u8>,
    patterns: Element,
    maximum: u16,
    ids: Element,
    continuation: ContinuationState,
)
    ensures
        request_of(packet) == Ok::<_, Error>(
            Request::SearchAttribute { patterns, maximum, ids, continuation },
        ) <==> packet.len() >= 5 && packet[0] == 6 && (decode(packet.skip(5)) matches Ok(
            (found, tail),
        ) && found == patterns && tail.len() >= 2 && tail.take(2) == two(maximum as nat) && decode(
            tail.skip(2),
        ) == Ok::<_, DecodeError>((ids, state_octets(continuation)))),
{
    law_header_layout(packet);
    if take_header(packet) is Ok {
        law_kinds_of_packets(take_header(packet)->Ok_0.0.pdu, 0);
    }
    if packet.len() >= 5 && packet[0] == 6 {
        if let Ok((found, tail)) = decode(packet.skip(5)) {
            if tail.len() >= 2 {
                law_uppermost_octet_first(maximum as nat, tail.take(2));
                if let Ok((ids, rest)) = decode(tail.skip(2)) {
                    law_continuation_layout(rest, continuation, Seq::empty());
                }
            }
        }
    }
}

/// A packet is a request for attributes if and only if its kind is that of one and what follows the
/// header is a handle in four octets, a count in two octets, an id list and a continuation state,
/// and nothing more.
#[verifier::spinoff_prover]
#[verifier::rlimit(50)]
pub proof fn law_attribute_request_layout(
    packet: Seq<u8>,
    handle: u32,
    maximum: u16,
    ids: Element,
    continuation: ContinuationState,
)
    ensures
        request_of(packet) == Ok::<_, Error>(
            Request::Attribute { handle, maximum, ids, continuation },
        ) <==> packet.len() >= 11 && packet[0] == 4 && packet.subrange(5, 9) == four(handle as nat)
            && packet.subrange(9, 11) == two(maximum as nat) && decode(packet.skip(11)) == Ok::<
            _,
            DecodeError,
        >((ids, state_octets(continuation))),
{
    law_header_layout(packet);
    if take_header(packet) is Ok {
        law_kinds_of_packets(take_header(packet)->Ok_0.0.pdu, 0);
        let s = packet.skip(5);
        if s.len() >= 4 {
            assert(s.take(4) =~= packet.subrange(5, 9));
            lemma_two_and_four(handle as nat, s.take(4));
            let s1 = s.skip(4);
            if s1.len() >= 2 {
                assert(s1.take(2) =~= packet.subrange(9, 11));
                lemma_two_and_four(maximum as nat, s1.take(2));
                assert(s1.skip(2) =~= packet.skip(11));
                if let Ok((found, rest)) = decode(packet.skip(11)) {
                    law_continuation_layout(rest, continuation, Seq::empty());
                }
            }
        }
    }
}

/// Why the continuation state at the end of a packet cannot be read, or what follows it.
pub open spec fn end_error(s: Seq<u8>) -> Option<DecodeError> {
    if s.len() == 0 {
        Some(DecodeError::TooShort)
    } else if s[0] == 0 {
        if s.len() == 1 {
            None
        } else {
            Some(DecodeError::TooLong)
        }
    } else if s[0] != 4 {
        Some(DecodeError::InvalidValue)
    } else if s.len() < 5 {
        Some(DecodeError::TooShort)
    } else if s.take(5) != state_octets(ContinuationState::Continue) {
        Some(DecodeError::InvalidValue)
    } else if s.len() == 5 {
        None
    } else {
        Some(DecodeError::TooLong)
    }
}

/// What is wrong with the end of a packet is what its reader says.
proof fn lemma_end_error(s: Seq<u8>)
    ensures
        match last_continuation(s) {
            Ok(_) => end_error(s) is None,
            Err(e) => end_error(s) == Some(e),
        },
{
}

/// What is wrong with the parameters of a search.
proof fn lemma_search_fault(s: Seq<u8>)
    ensures
        match decode(s) {
            Err(e) => parse_search(s) == Err::<Request, DecodeError>(e),
            Ok((_, tail)) => if tail.len() < 2 {
                parse_search(s) == Err::<Request, DecodeError>(DecodeError::TooShort)
            } else {
                end_error(tail.skip(2)) matches Some(e) ==> parse_search(s) == Err::<
                    Request,
                    DecodeError,
                >(e)
            },
        },
{
    if let Ok((_, tail)) = decode(s) {
        lemma_end_error(tail.skip(2));
    }
}

/// What is wrong with the parameters of a request for attributes.
proof fn lemma_attribute_fault(s: Seq<u8>)
    ensures
        if s.len() < 6 {
            parse_attribute(s) == Err::<Request, DecodeError>(DecodeError::TooShort)
        } else {
            match decode(s.skip(6)) {
                Err(e) => parse_attribute(s) == Err::<Request, DecodeError>(e),
                Ok((_, tail)) => end_error(tail) matches Some(e) ==> parse_attribute(s) == Err::<
                    Request,
                    DecodeError,
                >(e),
            }
        },
{
    if s.len() >= 6 {
        assert(s.skip(4).skip(2) =~= s.skip(6));
        if let Ok((_, tail)) = decode(s.skip(6)) {
            lemma_end_error(tail);
        }
    }
}

/// What is wrong with the parameters of a search for attributes.
proof fn lemma_search_attribute_fault(s: Seq<u8>)
    ensures
        match decode(s) {
            Err(e) => parse_search_attribute(s) == Err::<Request, DecodeError>(e),
            Ok((_, tail)) => if tail.len() < 2 {
                parse_search_attribute(s) == Err::<Request, DecodeError>(DecodeError::TooShort)
            } else {
                match decode(tail.skip(2)) {
                    Err(e) => parse_search_attribute(s) == Err::<Request, DecodeError>(e),
                    Ok((_, end)) => end_error(end) matches Some(e) ==> parse_search_attribute(s)
                        == Err::<Request, DecodeError>(e),
                }
            },
        },
{
    if let Ok((_, tail)) = decode(s) {
        if let Ok((_, end)) = decode(tail.skip(2)) {
            lemma_end_error(end);
        }
    }
}

/// A packet that makes no request is refused for the first thing that is wrong with it: its header,
/// its kind, the element, the count or the state that cannot be read, or octets that are left over.
#[verifier::spinoff_prover]
#[verifier::rlimit(50)]
pub proof fn law_first_fault_counts(packet: Seq<u8>)
    ensures
        match take_header(packet) {
            Err(e) => request_of(packet) == Err::<Request, Error>(Error::Malformed(e)),
            Ok((header, s)) => {
                let malformed = |e: DecodeError| Err::<Request, Error>(Error::Malformed(e));
                if packet[0] == 2 {
                    match decode(s) {
                        Err(e) => request_of(packet) == malformed(e),
                        Ok((_, tail)) => if tail.len() < 2 {
                            request_of(packet) == malformed(DecodeError::TooShort)
                        } else {
                            end_error(tail.skip(2)) matches Some(e) ==> request_of(packet)
                                == malformed(e)
                        },
                    }
                } else if packet[0] == 4 {
                    if s.len() < 6 {
                        request_of(packet) == malformed(DecodeError::TooShort)
                    } else {
                        match decode(s.skip(6)) {
                            Err(e) => request_of(packet) == malformed(e),
                            Ok((_, tail)) => end_error(tail) matches Some(e) ==> request_of(packet)
                                == malformed(e),
                        }
                    }
                } else if packet[0] == 6 {
                    match decode(s) {
                        Err(e) => request_of(packet) == malformed(e),
                        Ok((_, tail)) => if tail.len() < 2 {
                            request_of(packet) == malformed(DecodeError::TooShort)
                        } else {
                            match decode(tail.skip(2)) {
                                Err(e) => request_of(packet) == malformed(e),
                                Ok((_, end)) => end_error(end) matches Some(e) ==> request_of(
                                    packet,
                                ) == malformed(e),
                            }
                        },
                    }
                } else {
                    request_of(packet) == Err::<Request, Error>(Error::InvalidRequest)
                }
            },
        },
{
    law_header_layout(packet);
    if let Ok((header, s)) = take_header(packet) {
        law_kinds_of_packets(header.pdu, 0);
        lemma_search_fault(s);
        lemma_attribute_fault(s);
        lemma_search_attribute_fault(s);
    }
}

/// The answer to a packet is the answer to the request that it makes, and where there is none, the
/// number of the reason. What is left over changes only by a request.
#[verifier::spinoff_prover]
#[verifier::rlimit(50)]
pub proof fn law_packets_are_answered(
    records: Map<u32, Seq<Attribute>>,
    pending: Seq<u8>,
    packet: Seq<u8>,
    transaction_id: u16,
)
    ensures
        ({
            let request = request_of(packet);
            let response = response_to(records, pending, request);
            let left = pending_after_packet(records, pending, request);
            let refusal = refusal_of(records, pending, request);
            let refused = |e: Error, n: nat|
                refusal == Some(e) && response_packet(transaction_id, response) == starts(
                    1,
                    transaction_id,
                    2,
                ) + two(n);
            match request {
                Ok(asked) => {
                    &&& left == pending_after(records, pending, asked)
                    &&& match answer(records, pending, asked) {
                        Ok(given) => response == given && refusal is None,
                        Err(Error::UnknownServiceRecordHandle(h)) => refused(
                            Error::UnknownServiceRecordHandle(h),
                            2,
                        ),
                        Err(Error::InvalidContinuationState) => refused(
                            Error::InvalidContinuationState,
                            5,
                        ),
                        Err(e) => refused(e, 3),
                    }
                },
                Err(e) => left == pending && (e is Malformed || e is InvalidRequest) && refused(
                    e,
                    3,
                ),
            }
        }),
{
    let request = request_of(packet);
    let response = response_to(records, pending, request);
    law_first_fault_counts(packet);
    if let Response::Error(code) = response {
        lemma_be_bytes_len(code.number() as nat, 2);
        law_answer_layout(transaction_id, response);
    }
    if let Some(e) = refusal_of(records, pending, request) {
        law_numbers_of_reasons(e, error_code(e));
        lemma_be_bytes_len(error_code(e).number() as nat, 2);
        law_answer_layout(transaction_id, response);
    }
}

/// A reply has the transaction of the packet that it replies to and states the number of its
/// octets. Its kind is that of a refusal if the packet was refused, and else the one that goes with
/// the packet's. There is a reply unless the header cannot be read or the answer is too long for one.
#[verifier::spinoff_prover]
#[verifier::rlimit(50)]
pub proof fn law_reply_goes_with_its_packet(
    records: Map<u32, Seq<Attribute>>,
    pending: Seq<u8>,
    packet: Seq<u8>,
)
    ensures
        match reply_to(records, pending, packet) {
            Some(reply) => {
                &&& packet.len() >= 5
                &&& reply.len() >= 5
                &&& reply[1] == packet[1]
                &&& reply[2] == packet[2]
                &&& reply[3] * 0x100 + reply[4] == reply.len() - 5
                &&& match refusal_of(records, pending, request_of(packet)) {
                    Some(_) => reply[0] == 1,
                    None => reply[0] == packet[0] + 1,
                }
                &&& reply.skip(5) == response_to(records, pending, request_of(packet)).octets()
            },
            None => {
                ||| packet.len() < 5
                ||| !(1 <= packet[0] <= 7)
                ||| response_to(records, pending, request_of(packet)).octets().len() > 0xffff
            },
        },
        packet.len() < 5 || !(1 <= packet[0] <= 7) ==> reply_to(records, pending, packet) is None,
{
    let request = request_of(packet);
    let response = response_to(records, pending, request);
    law_header_layout(packet);
    if let Ok((header, _)) = take_header(packet) {
        law_kinds_of_packets(header.pdu, 0);
        law_kinds_of_packets(response.pdu(), 0);
        if response.octets().len() <= 0xffff {
            let reply = response_packet(header.transaction_id, response);
            law_packet_is_framed(header.transaction_id, response);
            law_header_layout(reply);
            lemma_two_and_four(header.transaction_id as nat, packet.subrange(1, 3));
            assert(reply[1] == packet[1] && reply[2] == packet[2]);
        }
        if let Ok(asked) = request {
            law_answer_kind(records, pending, asked);
        }
    }
}

/// A request, as it is read, asks for what its fields say.
pub proof fn law_request_is_its_fields(packet: RequestPacket)
    ensures
        match packet {
            RequestPacket::SearchRequest {
                service_search_patterns,
                maximum_service_record_count,
                continuation_state,
            } => packet@ == (Request::Search {
                patterns: service_search_patterns@,
                maximum: maximum_service_record_count,
                continuation: continuation_state,
            }),
            RequestPacket::AttributeRequest {
                service_record_handle,
                maximum_attribute_byte_count,
                attribute_id_list,
                continuation_state,
            } => packet@ == (Request::Attribute {
                handle: service_record_handle,
                maximum: maximum_attribute_byte_count,
                ids: attribute_id_list@,
                continuation: continuation_state,
            }),
            RequestPacket::SearchAttributeRequest {
                service_search_patterns,
                maximum_attribute_byte_count,
                attribute_id_list,
                continuation_state,
            } => packet@ == (Request::SearchAttribute {
                patterns: service_search_patterns@,
                maximum: maximum_attribute_byte_count,
                ids: attribute_id_list@,
                continuation: continuation_state,
            }),
        },
{
}

/// What is read is what was to be read: the request itself, or the very reason why there is none.
pub proof fn law_reading_tells_requests_from_faults(
    read: Result<RequestPacket, Error>,
    request: Request,
    reason: Error,
)
    ensures
        is_read_as(read, Ok(request)) <==> (read matches Ok(packet) && packet@ == request),
        is_read_as(read, Err(reason)) <==> (read matches Err(e) && e == reason),
{
}

/// An answer, as it is written, says what its fields say.
pub proof fn law_answer_is_its_fields(packet: ResponsePacket)
    ensures
        match packet {
            ResponsePacket::ErrorResponse(code) => packet@ == Response::Error(code),
            ResponsePacket::SearchResponse {
                total_service_record_count,
                current_service_record_count,
                service_record_handles,
                continuation_state,
            } => packet@ == (Response::Search {
                total: total_service_record_count,
                current: current_service_record_count,
                handles: service_record_handles@,
                continuation: continuation_state,
            }),
            ResponsePacket::AttributeResponse {
                attribute_list_size,
                attribute_list,
                continuation_state,
            } => packet@ == (Response::Attribute {
                size: attribute_list_size,
                list: bytes_content(attribute_list),
                continuation: continuation_state,
            }),
            ResponsePacket::SearchAttributeResponse {
                attribute_list_size,
                attribute_list,
                continuation_state,
            } => packet@ == (Response::SearchAttribute {
                size: attribute_list_size,
                list: bytes_content(attribute_list),
                continuation: continuation_state,
            }),
        },
{
}

} // verus!
