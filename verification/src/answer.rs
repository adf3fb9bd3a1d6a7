//! Which answer a request gets.

use vstd::prelude::*;
use vstd::std_specs::range::RangeInclusiveView;
use crate::codec::encode;
use crate::data_element::{Element, Uuid};
use crate::error::{error_code, Error};
use crate::packet::{
    parse_request, response_packet, take_header, ContinuationState, Request, Response,
};
use crate::query::{attribute_id_ranges, attribute_list, search_pattern};
use crate::service::{service_mentions, Attribute};

verus! {

/// One of the identifiers occurs in the record.
pub open spec fn service_matches(service: Seq<Attribute>, patterns: Seq<Uuid>) -> bool {
    exists|i: int| 0 <= i < patterns.len() && service_mentions(service, #[trigger] patterns[i])
}

/// The handles below `n` of the records in which one of the identifiers occurs, in rising order.
pub open spec fn handles_below(
    records: Map<u32, Seq<Attribute>>,
    patterns: Seq<Uuid>,
    n: nat,
) -> Seq<u32>
    decreases n,
{
    if n == 0 {
        Seq::empty()
    } else {
        let handle = (n - 1) as u32;
        let lower = handles_below(records, patterns, (n - 1) as nat);
        if records.contains_key(handle) && service_matches(records[handle], patterns) {
            lower.push(handle)
        } else {
            lower
        }
    }
}

/// The handles of the records in which one of the identifiers occurs, in rising order.
pub open spec fn matching_handles(
    records: Map<u32, Seq<Attribute>>,
    patterns: Seq<Uuid>,
) -> Seq<u32> {
    handles_below(records, patterns, 0x1_0000_0000)
}

/// The list of the attribute lists of the records under `handles`, without the empty ones.
pub open spec fn nonempty_lists(
    records: Map<u32, Seq<Attribute>>,
    handles: Seq<u32>,
    ranges: Seq<RangeInclusiveView<u16>>,
) -> Seq<Element>
    decreases handles.len(),
{
    if handles.len() == 0 {
        Seq::empty()
    } else {
        let front = nonempty_lists(records, handles.drop_last(), ranges);
        let list = attribute_list(records[handles.last()], ranges);
        if list == Element::Sequence(Seq::empty()) {
            front
        } else {
            front.push(list)
        }
    }
}

/// The number of octets of `pending` that an answer of at most `maximum` octets takes.
pub open spec fn fragment_len(pending: Seq<u8>, maximum: u16) -> int {
    if pending.len() <= maximum {
        pending.len() as int
    } else {
        maximum as int
    }
}

/// Whether the answer that takes its share of `pending` is the last one.
pub open spec fn fragment_state(pending: Seq<u8>, maximum: u16) -> ContinuationState {
    if pending.len() <= maximum {
        ContinuationState::Absent
    } else {
        ContinuationState::Continue
    }
}

/// What is left of `pending` after an answer took its share.
pub open spec fn fragment_rest(pending: Seq<u8>, maximum: u16) -> Seq<u8> {
    pending.skip(fragment_len(pending, maximum))
}

/// The answer to a search, or the reason why there is none.
pub open spec fn search_answer(
    records: Map<u32, Seq<Attribute>>,
    patterns: Element,
    maximum: u16,
    continuation: ContinuationState,
) -> Result<Response, Error> {
    if continuation != ContinuationState::Absent {
        Err(Error::InvalidContinuationState)
    } else {
        match search_pattern(patterns) {
            Ok(uuids) => {
                let matching = matching_handles(records, uuids);
                let handles = if matching.len() <= maximum {
                    matching
                } else {
                    matching.take(maximum as int)
                };
                Ok(
                    Response::Search {
                        total: handles.len() as u16,
                        current: handles.len() as u16,
                        handles,
                        continuation: ContinuationState::Absent,
                    },
                )
            },
            Err(e) => Err(e),
        }
    }
}

/// The octets that answer a new request for attributes, or the reason why there are none.
pub open spec fn attribute_octets(
    records: Map<u32, Seq<Attribute>>,
    handle: u32,
    ids: Element,
) -> Result<Seq<u8>, Error> {
    match attribute_id_ranges(ids) {
        Ok(ranges) => if records.contains_key(handle) {
            Ok(encode(attribute_list(records[handle], ranges)))
        } else {
            Err(Error::UnknownServiceRecordHandle(handle))
        },
        Err(e) => Err(e),
    }
}

/// The octets that answer a new search for attributes, or the reason why there are none.
pub open spec fn search_attribute_octets(
    records: Map<u32, Seq<Attribute>>,
    patterns: Element,
    ids: Element,
) -> Result<Seq<u8>, Error> {
    match search_pattern(patterns) {
        Ok(uuids) => match attribute_id_ranges(ids) {
            Ok(ranges) => Ok(
                encode(
                    Element::Sequence(
                        nonempty_lists(records, matching_handles(records, uuids), ranges),
                    ),
                ),
            ),
            Err(e) => Err(e),
        },
        Err(e) => Err(e),
    }
}

/// The octets that there are to send: those that a new request asks for, or, where a request
/// asks to go on, those that are left over from the last answer.
pub open spec fn pending_octets(
    fresh: Result<Seq<u8>, Error>,
    pending: Seq<u8>,
    continuation: ContinuationState,
) -> Result<Seq<u8>, Error> {
    match continuation {
        ContinuationState::Absent => fresh,
        ContinuationState::Continue => if pending.len() == 0 {
            Err(Error::InvalidContinuationState)
        } else {
            Ok(pending)
        },
    }
}

/// What a request for attributes finds to send.
pub open spec fn octets_to_send(
    records: Map<u32, Seq<Attribute>>,
    pending: Seq<u8>,
    request: Request,
) -> Result<Seq<u8>, Error> {
    match request {
        Request::Attribute { handle, ids, continuation, .. } => pending_octets(
            attribute_octets(records, handle, ids),
            pending,
            continuation,
        ),
        Request::SearchAttribute { patterns, ids, continuation, .. } => pending_octets(
            search_attribute_octets(records, patterns, ids),
            pending,
            continuation,
        ),
        Request::Search { .. } => Ok(pending),
    }
}

/// The answer to a request, or the reason why there is none. `pending` is what is left over from
/// the last answer.
pub open spec fn answer(
    records: Map<u32, Seq<Attribute>>,
    pending: Seq<u8>,
    request: Request,
) -> Result<Response, Error> {
    match request {
        Request::Search { patterns, maximum, continuation } => search_answer(
            records,
            patterns,
            maximum,
            continuation,
        ),
        Request::Attribute { maximum, .. } => match octets_to_send(records, pending, request) {
            Ok(octets) => Ok(
                Response::Attribute {
                    size: fragment_len(octets, maximum) as u16,
                    list: octets.take(fragment_len(octets, maximum)),
                    continuation: fragment_state(octets, maximum),
                },
            ),
            Err(e) => Err(e),
        },
        Request::SearchAttribute { maximum, .. } => match octets_to_send(
            records,
            pending,
            request,
        ) {
            Ok(octets) => Ok(
                Response::SearchAttribute {
                    size: fragment_len(octets, maximum) as u16,
                    list: octets.take(fragment_len(octets, maximum)),
                    continuation: fragment_state(octets, maximum),
                },
            ),
            Err(e) => Err(e),
        },
    }
}

/// What is left over after a request. A search leaves it as it was. A request for attributes
/// takes its share; one that is refused leaves nothing.
pub open spec fn pending_after(
    records: Map<u32, Seq<Attribute>>,
    pending: Seq<u8>,
    request: Request,
) -> Seq<u8> {
    match request {
        Request::Search { .. } => pending,
        Request::Attribute { maximum, .. } => match octets_to_send(records, pending, request) {
            Ok(octets) => fragment_rest(octets, maximum),
            Err(_) => Seq::empty(),
        },
        Request::SearchAttribute { maximum, .. } => match octets_to_send(
            records,
            pending,
            request,
        ) {
            Ok(octets) => fragment_rest(octets, maximum),
            Err(_) => Seq::empty(),
        },
    }
}

/// Why a packet is refused, if it is.
pub open spec fn refusal_of(
    records: Map<u32, Seq<Attribute>>,
    pending: Seq<u8>,
    request: Result<Request, Error>,
) -> Option<Error> {
    match request {
        Ok(request) => match answer(records, pending, request) {
            Ok(_) => None,
            Err(e) => Some(e),
        },
        Err(e) => Some(e),
    }
}

/// The answer that is sent: where a request cannot be answered, the code of the reason.
pub open spec fn response_to(
    records: Map<u32, Seq<Attribute>>,
    pending: Seq<u8>,
    request: Result<Request, Error>,
) -> Response {
    match request {
        Ok(request) => match answer(records, pending, request) {
            Ok(response) => response,
            Err(e) => Response::Error(error_code(e)),
        },
        Err(e) => Response::Error(error_code(e)),
    }
}

/// What is left over after a packet. One that makes no request leaves it as it was.
pub open spec fn pending_after_packet(
    records: Map<u32, Seq<Attribute>>,
    pending: Seq<u8>,
    request: Result<Request, Error>,
) -> Seq<u8> {
    match request {
        Ok(request) => pending_after(records, pending, request),
        Err(_) => pending,
    }
}

/// The packet that is sent in reply to a packet. There is none where the header cannot be read, and
/// none where the answer has more octets than a header can state.
pub open spec fn reply_to(
    records: Map<u32, Seq<Attribute>>,
    pending: Seq<u8>,
    packet: Seq<u8>,
) -> Option<Seq<u8>> {
    match take_header(packet) {
        Ok((header, _)) => {
            let response = response_to(records, pending, request_of(packet));
            if response.octets().len() <= u16::MAX {
                Some(response_packet(header.transaction_id, response))
            } else {
                None
            }
        },
        Err(_) => None,
    }
}

/// The request that a packet makes after its header.
pub open spec fn request_of(packet: Seq<u8>) -> Result<Request, Error> {
    match take_header(packet) {
        Ok((header, parameters)) => parse_request(header.pdu, parameters),
        Err(e) => Err(Error::Malformed(e)),
    }
}

} // verus!
