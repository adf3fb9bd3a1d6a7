//! What holds of the server as a whole.

use vstd::prelude::*;
use vstd::std_specs::range::RangeInclusiveView;
use crate::answer::{
    answer, fragment_len, handles_below, matching_handles, nonempty_lists, octets_to_send,
    pending_after, pending_after_packet, refusal_of, request_of, response_to, service_matches,
};
use crate::codec::{decode, encodable, encode};
use crate::codec_laws::law_decode_encode;
use crate::data_element::{Element, Uuid};
use crate::error::{error_code, DecodeError, Error};
use crate::octets::{be_bytes, lemma_be_bytes_len, lemma_be_limits, lemma_take_be, take_be};
use crate::packet::{
    lemma_response_len, pdu_of_number, response_packet, take_continuation, take_header,
    ContinuationState, PduId, Request, Response, SdpHeader,
};
use crate::query::{attribute_list, listed, search_pattern, with_value};
use crate::server::rising;
use crate::service::{ascending, in_ranges, law_filter_keeps_order, selected, Attribute};

verus! {

/// Reading a continuation state back from the octets it was written as gives the state, and
/// leaves what follows them.
pub proof fn law_continuation_round_trip(state: ContinuationState, tail: Seq<u8>)
    ensures
        take_continuation(state.octets() + tail) == Ok::<_, DecodeError>((state, tail)),
{
    let s = state.octets() + tail;
    assert(s.skip(state.octets().len() as int) =~= tail);
    assert(s.take(state.octets().len() as int) =~= state.octets());
}

/// Each kind of packet and its number determine each other.
pub proof fn law_pdu_numbers(pdu: PduId, n: nat)
    ensures
        pdu_of_number(n) == Some(pdu) <==> pdu.number() == n,
{
}

/// Reading a header back from the octets it was written as gives the header, and leaves what
/// follows them.
pub proof fn law_header_round_trip(header: SdpHeader, tail: Seq<u8>)
    ensures
        header.octets().len() == 5,
        take_header(header.octets() + tail) == Ok::<_, DecodeError>((header, tail)),
{
    lemma_be_limits();
    let n = header.pdu.number() as nat;
    let t = header.transaction_id as nat;
    let l = header.parameter_length as nat;
    lemma_be_bytes_len(t, 2);
    lemma_be_bytes_len(l, 2);
    reveal_with_fuel(be_bytes, 2);
    assert(be_bytes(n, 1) =~= seq![header.pdu.number()]);
    assert(header.octets() + tail =~= be_bytes(n, 1) + (be_bytes(t, 2) + (be_bytes(l, 2)
        + tail)));
    lemma_take_be(n, 1, be_bytes(t, 2) + (be_bytes(l, 2) + tail));
    lemma_take_be(t, 2, be_bytes(l, 2) + tail);
    lemma_take_be(l, 2, tail);
    law_pdu_numbers(header.pdu, n);
}

/// The header of a packet that carries an answer states the kind of the answer, the transaction
/// that it belongs to and the number of octets that follow. Left out are answers with more octets
/// than a header can state, which are not sent.
pub proof fn law_packet_is_framed(transaction_id: u16, response: Response)
    requires
        response.octets().len() <= u16::MAX,
    ensures
        take_header(response_packet(transaction_id, response)) == Ok::<_, DecodeError>(
            (
                SdpHeader {
                    pdu: response.pdu(),
                    transaction_id,
                    parameter_length: response.octets().len() as u16,
                },
                response.octets(),
            ),
        ),
        response_packet(transaction_id, response).len() == 5 + response.octets().len(),
{
    let header = SdpHeader {
        pdu: response.pdu(),
        transaction_id,
        parameter_length: response.octets().len() as u16,
    };
    law_header_round_trip(header, response.octets());
}

/// A packet that makes no request, or one that cannot be granted, is answered by the code of the
/// reason; any other packet is not.
pub proof fn law_refusal_is_answered(
    records: Map<u32, Seq<Attribute>>,
    pending: Seq<u8>,
    packet: Seq<u8>,
)
    ensures
        request_of(packet) matches Err(e) ==> response_to(records, pending, request_of(packet))
            == Response::Error(error_code(e)) && pending_after_packet(
            records,
            pending,
            request_of(packet),
        ) == pending,
        request_of(packet) matches Ok(request) ==> (answer(records, pending, request) matches Err(
            e,
        ) ==> response_to(records, pending, request_of(packet)) == Response::Error(
            error_code(e),
        )),
        match refusal_of(records, pending, request_of(packet)) {
            Some(e) => response_to(records, pending, request_of(packet)) == Response::Error(
                error_code(e),
            ),
            None => !(response_to(records, pending, request_of(packet)) is Error),
        },
{
}

/// The answer to a request is of the kind that goes with it, or it is a refusal.
pub proof fn law_answer_kind(
    records: Map<u32, Seq<Attribute>>,
    pending: Seq<u8>,
    request: Request,
)
    ensures
        answer(records, pending, request) matches Ok(response) ==> response.pdu() == (
        match request {
            Request::Search { .. } => PduId::SearchResponse,
            Request::Attribute { .. } => PduId::AttributeResponse,
            Request::SearchAttribute { .. } => PduId::SearchAttributeResponse,
        }),
{
}

/// A search cannot be continued.
pub proof fn law_search_is_not_continued(
    records: Map<u32, Seq<Attribute>>,
    pending: Seq<u8>,
    patterns: Element,
    maximum: u16,
)
    ensures
        answer(
            records,
            pending,
            Request::Search { patterns, maximum, continuation: ContinuationState::Continue },
        ) == Err::<Response, Error>(Error::InvalidContinuationState),
{
}

/// Where nothing is left over, a request to go on is refused.
pub proof fn law_nothing_to_continue(records: Map<u32, Seq<Attribute>>, request: Request)
    requires
        match request {
            Request::Search { continuation, .. } => continuation == ContinuationState::Continue,
            Request::Attribute { continuation, .. } => continuation == ContinuationState::Continue,
            Request::SearchAttribute { continuation, .. } => continuation
                == ContinuationState::Continue,
        },
    ensures
        answer(records, Seq::empty(), request) == Err::<Response, Error>(
            Error::InvalidContinuationState,
        ),
        pending_after(records, Seq::empty(), request) == Seq::<u8>::empty(),
{
}

/// Below `n` there are just the handles of the records that match, in rising order.
proof fn lemma_handles_below(records: Map<u32, Seq<Attribute>>, patterns: Seq<Uuid>, n: nat)
    requires
        n <= 0x1_0000_0000,
    ensures
        rising(handles_below(records, patterns, n)),
        forall|h: u32| #[trigger]
            handles_below(records, patterns, n).contains(h) <==> h < n && records.contains_key(h)
                && service_matches(records[h], patterns),
    decreases n,
{
    if n > 0 {
        let handle = (n - 1) as u32;
        let lower = handles_below(records, patterns, (n - 1) as nat);
        let all = handles_below(records, patterns, n);
        lemma_handles_below(records, patterns, (n - 1) as nat);
        assert forall|i: int, j: int| 0 <= i < j < all.len() implies (#[trigger] all[i]) < (
        #[trigger] all[j]) by {
            assert(lower.contains(lower[i]));
            if j < lower.len() {
                assert(lower[i] < lower[j]);
            }
        }
        assert forall|h: u32| #[trigger]
            all.contains(h) <==> h < n && records.contains_key(h) && service_matches(
                records[h],
                patterns,
            ) by {
            if all.contains(h) {
                let i = all.index_of(h);
                if i < lower.len() {
                    assert(lower.contains(lower[i]));
                }
            }
            if h < n && records.contains_key(h) && service_matches(records[h], patterns) {
                if h == handle {
                    assert(all[all.len() - 1] == h);
                } else {
                    assert(lower.contains(h));
                    let i = lower.index_of(h);
                    assert(all[i] == h);
                }
            }
        }
    }
}

/// A search finds each record in which one of the identifiers occurs, and no other, in the rising
/// order of the handles.
pub proof fn law_search_finds_what_matches(
    records: Map<u32, Seq<Attribute>>,
    patterns: Seq<Uuid>,
)
    ensures
        rising(matching_handles(records, patterns)),
        forall|h: u32| #[trigger]
            matching_handles(records, patterns).contains(h) <==> records.contains_key(h)
                && service_matches(records[h], patterns),
{
    lemma_handles_below(records, patterns, 0x1_0000_0000);
}

/// A search without identifiers finds nothing.
pub proof fn law_empty_pattern_finds_nothing(records: Map<u32, Seq<Attribute>>)
    ensures
        matching_handles(records, Seq::empty()) == Seq::<u32>::empty(),
{
    let found = matching_handles(records, Seq::empty());
    law_search_finds_what_matches(records, Seq::empty());
    if found.len() > 0 {
        assert(found.contains(found[0]));
    }
    assert(found =~= Seq::empty());
}

/// The counts of an answer to a search are the number of handles that it lists, which are those of
/// the records that match, in rising order, as many as the client takes.
pub proof fn law_search_counts_what_it_lists(
    records: Map<u32, Seq<Attribute>>,
    patterns: Element,
    uuids: Seq<Uuid>,
    maximum: u16,
    pending: Seq<u8>,
)
    requires
        search_pattern(patterns) == Ok::<Seq<Uuid>, Error>(uuids),
    ensures
        answer(
            records,
            pending,
            Request::Search { patterns, maximum, continuation: ContinuationState::Absent },
        ) matches Ok(Response::Search { total, current, handles, continuation }) && {
            &&& total == handles.len()
            &&& current == handles.len()
            &&& continuation == ContinuationState::Absent
            &&& handles.is_prefix_of(matching_handles(records, uuids))
            &&& handles.len() == maximum || handles == matching_handles(records, uuids)
        },
{
}

/// An answer holds no more handles, or octets of a list, than the client takes.
pub proof fn law_maximum_is_kept(
    records: Map<u32, Seq<Attribute>>,
    pending: Seq<u8>,
    request: Request,
)
    ensures
        answer(records, pending, request) matches Ok(response) ==> match (request, response) {
            (Request::Search { maximum, .. }, Response::Search { handles, .. }) => handles.len()
                <= maximum,
            (
                Request::Attribute { maximum, .. },
                Response::Attribute { size, list, .. },
            ) => list.len() == size && size <= maximum,
            (
                Request::SearchAttribute { maximum, .. },
                Response::SearchAttribute { size, list, .. },
            ) => list.len() == size && size <= maximum,
            _ => false,
        },
{
}

/// The attributes that are listed of a record are just those whose ids lie within one of the
/// ranges and that have a value, in the rising order of their ids.
pub proof fn law_attributes_are_selected(
    service: Seq<Attribute>,
    ranges: Seq<RangeInclusiveView<u16>>,
)
    requires
        ascending(service),
    ensures
        ascending(with_value(selected(service, ranges))),
        forall|a: Attribute| #[trigger]
            with_value(selected(service, ranges)).contains(a) <==> service.contains(a)
                && in_ranges(ranges, a.id) && a.value != Element::Nil,
{
    let wanted = |a: Attribute| in_ranges(ranges, a.id);
    let valued = |a: Attribute| a.value != Element::Nil;
    let some = selected(service, ranges);
    let kept = with_value(some);
    law_filter_keeps_order(service, wanted);
    law_filter_keeps_order(some, valued);
    assert forall|a: Attribute| #[trigger]
        kept.contains(a) <==> service.contains(a) && in_ranges(ranges, a.id) && a.value
            != Element::Nil by {
        if kept.contains(a) {
            let i = kept.index_of(a);
            assert(some.contains(kept[i]) && valued(kept[i]));
            let j = some.index_of(a);
            assert(service.contains(some[j]) && wanted(some[j]));
        }
        if service.contains(a) && in_ranges(ranges, a.id) && a.value != Element::Nil {
            let i = service.index_of(a);
            assert(wanted(service[i]));
            let j = some.index_of(a);
            assert(valued(some[j]));
        }
    }
}

/// A list holds the id and the value of each attribute, one after the other.
pub proof fn law_list_alternates(attributes: Seq<Attribute>)
    ensures
        listed(attributes).len() == 2 * attributes.len(),
        forall|i: int|
            0 <= i < attributes.len() ==> listed(attributes)[2 * i] == Element::U16(
                (#[trigger] attributes[i]).id,
            ) && listed(attributes)[2 * i + 1] == attributes[i].value,
    decreases attributes.len(),
{
    if attributes.len() > 0 {
        let front = attributes.drop_last();
        law_list_alternates(front);
        assert forall|i: int| 0 <= i < attributes.len() implies listed(attributes)[2 * i]
            == Element::U16((#[trigger] attributes[i]).id) && listed(attributes)[2 * i + 1]
            == attributes[i].value by {
            if i < front.len() {
                assert(front[i] == attributes[i]);
            }
        }
    }
}

/// A search for attributes lists the attribute list of each record under the handles, unless it is
/// empty, and nothing else.
pub proof fn law_lists_of_records(
    records: Map<u32, Seq<Attribute>>,
    handles: Seq<u32>,
    ranges: Seq<RangeInclusiveView<u16>>,
)
    ensures
        forall|list: Element| #[trigger]
            nonempty_lists(records, handles, ranges).contains(list) <==> list
                != Element::Sequence(Seq::empty()) && exists|i: int|
                0 <= i < handles.len() && attribute_list(records[#[trigger] handles[i]], ranges)
                    == list,
    decreases handles.len(),
{
    if handles.len() > 0 {
        let front = handles.drop_last();
        let lower = nonempty_lists(records, front, ranges);
        let all = nonempty_lists(records, handles, ranges);
        let last = attribute_list(records[handles.last()], ranges);
        law_lists_of_records(records, front, ranges);
        assert forall|list: Element| #[trigger]
            all.contains(list) <==> list != Element::Sequence(Seq::empty()) && exists|i: int|
                0 <= i < handles.len() && attribute_list(records[#[trigger] handles[i]], ranges)
                    == list by {
            if all.contains(list) {
                let k = all.index_of(list);
                if k < lower.len() {
                    assert(lower.contains(lower[k]));
                    let i = choose|i: int|
                        0 <= i < front.len() && attribute_list(
                            records[#[trigger] front[i]],
                            ranges,
                        ) == list;
                    assert(handles[i] == front[i]);
                } else {
                    assert(handles[handles.len() - 1] == handles.last());
                }
            }
            if list != Element::Sequence(Seq::empty()) && exists|i: int|
                0 <= i < handles.len() && attribute_list(records[#[trigger] handles[i]], ranges)
                    == list {
                let i = choose|i: int|
                    0 <= i < handles.len() && attribute_list(
                        records[#[trigger] handles[i]],
                        ranges,
                    ) == list;
                if i < front.len() {
                    assert(front[i] == handles[i]);
                    assert(lower.contains(list));
                    let k = lower.index_of(list);
                    assert(all[k] == list);
                } else {
                    assert(all[all.len() - 1] == list);
                }
            }
        }
    }
}

/// The octets of a list that an answer carries.
pub open spec fn carried(response: Response) -> Seq<u8> {
    match response {
        Response::Attribute { list, .. } => list,
        Response::SearchAttribute { list, .. } => list,
        _ => Seq::empty(),
    }
}

/// Whether an answer says that there is more.
pub open spec fn says_more(response: Response) -> bool {
    match response {
        Response::Attribute { continuation, .. } => continuation == ContinuationState::Continue,
        Response::SearchAttribute { continuation, .. } => continuation
            == ContinuationState::Continue,
        _ => false,
    }
}

/// The octets that an answer carries and those that are left over make up what there was to send,
/// and the answer says that there is more if and only if something is left over.
pub proof fn law_nothing_is_lost(
    records: Map<u32, Seq<Attribute>>,
    pending: Seq<u8>,
    request: Request,
)
    requires
        !(request is Search),
    ensures
        match (answer(records, pending, request), octets_to_send(records, pending, request)) {
            (Ok(response), Ok(octets)) => {
                let rest = pending_after(records, pending, request);
                &&& carried(response) + rest == octets
                &&& says_more(response) <==> rest.len() > 0
            },
            (Err(e), Err(reason)) => e == reason && pending_after(records, pending, request)
                == Seq::<u8>::empty(),
            _ => false,
        },
{
    if let Ok(octets) = octets_to_send(records, pending, request) {
        let maximum = match request {
            Request::Search { maximum, .. } => maximum,
            Request::Attribute { maximum, .. } => maximum,
            Request::SearchAttribute { maximum, .. } => maximum,
        };
        let n = fragment_len(octets, maximum);
        assert(octets.take(n) + octets.skip(n) =~= octets);
    }
}

/// The request asks to go on with a list of attributes.
pub open spec fn goes_on(request: Request) -> bool {
    match request {
        Request::Search { .. } => false,
        Request::Attribute { continuation, .. } => continuation == ContinuationState::Continue,
        Request::SearchAttribute { continuation, .. } => continuation
            == ContinuationState::Continue,
    }
}

/// The request takes no other list: it goes on with the one at hand, or it is a search.
pub open spec fn keeps_place(request: Request) -> bool {
    goes_on(request) || request is Search
}

/// The octets that a row of requests is sent, one answer after the other. What is left over of
/// one answer is what the next starts from.
pub open spec fn carried_in_all(
    records: Map<u32, Seq<Attribute>>,
    pending: Seq<u8>,
    requests: Seq<Request>,
) -> Seq<u8>
    decreases requests.len(),
{
    if requests.len() == 0 {
        Seq::empty()
    } else {
        let first = match answer(records, pending, requests[0]) {
            Ok(response) => carried(response),
            Err(_) => Seq::empty(),
        };
        first + carried_in_all(
            records,
            pending_after(records, pending, requests[0]),
            requests.drop_first(),
        )
    }
}

/// What is left over after a row of requests.
pub open spec fn pending_after_all(
    records: Map<u32, Seq<Attribute>>,
    pending: Seq<u8>,
    requests: Seq<Request>,
) -> Seq<u8>
    decreases requests.len(),
{
    if requests.len() == 0 {
        pending
    } else {
        pending_after_all(
            records,
            pending_after(records, pending, requests[0]),
            requests.drop_first(),
        )
    }
}

/// However small the answers are, a row of requests to go on is sent what was left over, in order,
/// with nothing lost and nothing sent twice, whatever searches come in between.
pub proof fn law_continuation_resumes(
    records: Map<u32, Seq<Attribute>>,
    pending: Seq<u8>,
    requests: Seq<Request>,
)
    requires
        forall|i: int| 0 <= i < requests.len() ==> keeps_place(#[trigger] requests[i]),
    ensures
        carried_in_all(records, pending, requests) + pending_after_all(records, pending, requests)
            == pending,
    decreases requests.len(),
{
    if requests.len() > 0 {
        let first = requests[0];
        let others = requests.drop_first();
        let rest = pending_after(records, pending, first);
        assert forall|i: int| 0 <= i < others.len() implies keeps_place(#[trigger] others[i]) by {
            assert(others[i] == requests[i + 1]);
        }
        if !(first is Search) {
            law_nothing_is_lost(records, pending, first);
        }
        law_continuation_resumes(records, rest, others);
        let tail = carried_in_all(records, rest, others);
        let left = pending_after_all(records, rest, others);
        match answer(records, pending, first) {
            Ok(response) => {
                assert((carried(response) + tail) + left =~= carried(response) + (tail + left));
                assert(carried(response) + rest =~= pending);
            },
            Err(_) => {
                assert((Seq::<u8>::empty() + tail) + left =~= tail + left);
                assert(rest =~= pending);
            },
        }
    } else {
        assert(Seq::<u8>::empty() + pending =~= pending);
    }
}

/// A new request for attributes and the requests that go on with it, up to the one after which
/// nothing is left over, are together sent the octets of the whole list, whatever searches come in
/// between. What was left over before plays no part.
pub proof fn law_list_arrives_whole(
    records: Map<u32, Seq<Attribute>>,
    pending: Seq<u8>,
    requests: Seq<Request>,
)
    requires
        requests.len() > 0,
        !(requests[0] is Search),
        !goes_on(requests[0]),
        octets_to_send(records, pending, requests[0]) is Ok,
        forall|i: int| 1 <= i < requests.len() ==> keeps_place(#[trigger] requests[i]),
    ensures
        octets_to_send(records, pending, requests[0]) == octets_to_send(
            records,
            Seq::empty(),
            requests[0],
        ),
        carried_in_all(records, pending, requests) + pending_after_all(records, pending, requests)
            == octets_to_send(records, pending, requests[0])->Ok_0,
        pending_after_all(records, pending, requests).len() == 0 ==> carried_in_all(
            records,
            pending,
            requests,
        ) == octets_to_send(records, pending, requests[0])->Ok_0,
{
    let first = requests[0];
    let others = requests.drop_first();
    let rest = pending_after(records, pending, first);
    assert forall|i: int| 0 <= i < others.len() implies keeps_place(#[trigger] others[i]) by {
        assert(others[i] == requests[i + 1]);
    }
    law_nothing_is_lost(records, pending, first);
    law_continuation_resumes(records, rest, others);
    let tail = carried_in_all(records, rest, others);
    let left = pending_after_all(records, rest, others);
    let response = answer(records, pending, first)->Ok_0;
    assert((carried(response) + tail) + left =~= carried(response) + (tail + left));
    if left.len() == 0 {
        assert(carried_in_all(records, pending, requests) + left =~= carried_in_all(
            records,
            pending,
            requests,
        ));
    }
}

/// The octets of a list that the answer to a packet brings. An answer that is too long for a
/// packet is not sent, and brings nothing.
pub open spec fn brought(
    records: Map<u32, Seq<Attribute>>,
    pending: Seq<u8>,
    packet: Seq<u8>,
) -> Seq<u8> {
    let response = response_to(records, pending, request_of(packet));
    if response.octets().len() <= u16::MAX {
        carried(response)
    } else {
        Seq::empty()
    }
}

/// The octets that a row of packets is sent in lists, one answer after the other. What is left
/// over of one answer is what the next starts from.
pub open spec fn carried_by_packets(
    records: Map<u32, Seq<Attribute>>,
    pending: Seq<u8>,
    packets: Seq<Seq<u8>>,
) -> Seq<u8>
    decreases packets.len(),
{
    if packets.len() == 0 {
        Seq::empty()
    } else {
        brought(records, pending, packets[0]) + carried_by_packets(
            records,
            pending_after_packet(records, pending, request_of(packets[0])),
            packets.drop_first(),
        )
    }
}

/// What is left over after a row of packets.
pub open spec fn pending_after_packets(
    records: Map<u32, Seq<Attribute>>,
    pending: Seq<u8>,
    packets: Seq<Seq<u8>>,
) -> Seq<u8>
    decreases packets.len(),
{
    if packets.len() == 0 {
        pending
    } else {
        pending_after_packets(
            records,
            pending_after_packet(records, pending, request_of(packets[0])),
            packets.drop_first(),
        )
    }
}

/// Each answer to a row of packets is sent: none has more octets than a header can state.
pub open spec fn all_sent(
    records: Map<u32, Seq<Attribute>>,
    pending: Seq<u8>,
    packets: Seq<Seq<u8>>,
) -> bool
    decreases packets.len(),
{
    packets.len() > 0 ==> {
        &&& response_to(records, pending, request_of(packets[0])).octets().len() <= u16::MAX
        &&& all_sent(
            records,
            pending_after_packet(records, pending, request_of(packets[0])),
            packets.drop_first(),
        )
    }
}

/// The packet takes no other list: it goes on with the one at hand, it is a search, or it cannot
/// be read.
pub open spec fn packet_keeps_place(packet: Seq<u8>) -> bool {
    request_of(packet) matches Ok(request) ==> keeps_place(request)
}

/// A packet that takes no other list is sent part of what was left over, and the rest stays.
#[verifier::spinoff_prover]
#[verifier::rlimit(50)]
proof fn lemma_packet_loses_nothing(
    records: Map<u32, Seq<Attribute>>,
    pending: Seq<u8>,
    packet: Seq<u8>,
)
    requires
        response_to(records, pending, request_of(packet)).octets().len() <= u16::MAX,
        packet_keeps_place(packet),
    ensures
        brought(records, pending, packet) + pending_after_packet(
            records,
            pending,
            request_of(packet),
        ) == pending,
{
    let request = request_of(packet);
    let rest = pending_after_packet(records, pending, request);
    if let Ok(asked) = request {
        if !(asked is Search) {
            law_nothing_is_lost(records, pending, asked);
        }
    }
    assert(brought(records, pending, packet) + rest =~= pending);
}

/// A row of packets that go on is sent what was left over, in order, with nothing lost and nothing
/// sent twice, whatever searches and unreadable packets come in between. Left out are rows with an
/// answer that is too long to be sent, which ends the connection.
#[verifier::spinoff_prover]
#[verifier::rlimit(50)]
pub proof fn law_packets_resume(
    records: Map<u32, Seq<Attribute>>,
    pending: Seq<u8>,
    packets: Seq<Seq<u8>>,
)
    requires
        all_sent(records, pending, packets),
        forall|i: int| 0 <= i < packets.len() ==> packet_keeps_place(#[trigger] packets[i]),
    ensures
        carried_by_packets(records, pending, packets) + pending_after_packets(
            records,
            pending,
            packets,
        ) == pending,
    decreases packets.len(),
{
    if packets.len() > 0 {
        let request = request_of(packets[0]);
        let others = packets.drop_first();
        let rest = pending_after_packet(records, pending, request);
        let first = brought(records, pending, packets[0]);
        assert forall|i: int| 0 <= i < others.len() implies packet_keeps_place(
            #[trigger] others[i],
        ) by {
            assert(others[i] == packets[i + 1]);
        }
        assert(packet_keeps_place(packets[0]));
        lemma_packet_loses_nothing(records, pending, packets[0]);
        law_packets_resume(records, rest, others);
        let tail = carried_by_packets(records, rest, others);
        let left = pending_after_packets(records, rest, others);
        assert((first + tail) + left =~= first + (tail + left));
    } else {
        assert(Seq::<u8>::empty() + pending =~= pending);
    }
}

/// A packet that asks for a list and the packets that go on with it are together sent the octets of
/// the whole list, up to what is left over, whatever searches and unreadable packets come in
/// between; once nothing is left over, the client reads the list from them. Left out are rows with
/// an answer that is too long to be sent, and lists with more octets than any count can tell.
#[verifier::spinoff_prover]
#[verifier::rlimit(50)]
pub proof fn law_list_arrives_in_packets(
    records: Map<u32, Seq<Attribute>>,
    pending: Seq<u8>,
    packets: Seq<Seq<u8>>,
    request: Request,
    list: Element,
)
    requires
        packets.len() > 0,
        request_of(packets[0]) == Ok::<Request, Error>(request),
        !(request is Search),
        !goes_on(request),
        octets_to_send(records, pending, request) == Ok::<Seq<u8>, Error>(encode(list)),
        all_sent(records, pending, packets),
        forall|i: int| 1 <= i < packets.len() ==> packet_keeps_place(#[trigger] packets[i]),
    ensures
        carried_by_packets(records, pending, packets) + pending_after_packets(
            records,
            pending,
            packets,
        ) == encode(list),
        encodable(list) && pending_after_packets(records, pending, packets).len() == 0 ==> decode(
            carried_by_packets(records, pending, packets),
        ) == Ok::<_, DecodeError>((list, Seq::<u8>::empty())),
{
    let others = packets.drop_first();
    let rest = pending_after_packet(records, pending, request_of(packets[0]));
    let first = brought(records, pending, packets[0]);
    assert forall|i: int| 0 <= i < others.len() implies packet_keeps_place(
        #[trigger] others[i],
    ) by {
        assert(others[i] == packets[i + 1]);
    }
    law_nothing_is_lost(records, pending, request);
    law_packets_resume(records, rest, others);
    let tail = carried_by_packets(records, rest, others);
    let left = pending_after_packets(records, rest, others);
    assert((first + tail) + left =~= first + (tail + left));
    if encodable(list) && left.len() == 0 {
        assert((first + tail) + left =~= first + tail);
        law_decode_encode(list, Seq::empty());
        assert(encode(list) + Seq::<u8>::empty() =~= encode(list));
    }
}

/// The octets of a list stand in the packet that carries them behind the header and their count.
#[verifier::spinoff_prover]
#[verifier::rlimit(50)]
proof fn lemma_list_in_packet(
    transaction_id: u16,
    response: Response,
    size: u16,
    list: Seq<u8>,
    state: ContinuationState,
)
    requires
        response == (Response::Attribute { size, list, continuation: state }) || response == (
        Response::SearchAttribute { size, list, continuation: state }),
        size == list.len(),
    ensures
        ({
            let packet = response_packet(transaction_id, response);
            let n = list.len();
            &&& take_be(packet.skip(5), 2) == Ok::<_, DecodeError>((n, packet.skip(7)))
            &&& packet.skip(7).take(n as int) == list
            &&& take_continuation(packet.skip(7 + n as int)) == Ok::<_, DecodeError>(
                (state, Seq::<u8>::empty()),
            )
        }),
{
    let packet = response_packet(transaction_id, response);
    let n = list.len();
    let header = SdpHeader {
        pdu: response.pdu(),
        transaction_id,
        parameter_length: response.octets().len() as u16,
    };
    law_header_round_trip(header, response.octets());
    lemma_be_limits();
    lemma_be_bytes_len(n, 2);
    let tail = list + state.octets();
    assert(response.octets() =~= be_bytes(n, 2) + tail);
    assert(packet.skip(5) =~= response.octets());
    lemma_take_be(n, 2, tail);
    assert(packet.skip(7) =~= tail);
    assert(tail.take(n as int) =~= list);
    assert(packet.skip(7 + n as int) =~= state.octets() + Seq::<u8>::empty());
    law_continuation_round_trip(state, Seq::empty());
}

/// The octets of a list stand in the packet that carries them behind the header and their count.
#[verifier::spinoff_prover]
#[verifier::rlimit(50)]
pub proof fn law_list_stands_in_packet(
    records: Map<u32, Seq<Attribute>>,
    pending: Seq<u8>,
    request: Request,
    transaction_id: u16,
)
    requires
        !(request is Search),
        answer(records, pending, request) is Ok,
    ensures
        ({
            let response = answer(records, pending, request)->Ok_0;
            let packet = response_packet(transaction_id, response);
            let n = carried(response).len();
            &&& take_be(packet.skip(5), 2) == Ok::<_, DecodeError>((n, packet.skip(7)))
            &&& packet.skip(7).take(n as int) == carried(response)
            &&& take_continuation(packet.skip(7 + n as int)) == Ok::<_, DecodeError>(
                (
                    if says_more(response) {
                        ContinuationState::Continue
                    } else {
                        ContinuationState::Absent
                    },
                    Seq::<u8>::empty(),
                ),
            )
        }),
{
    let response = answer(records, pending, request)->Ok_0;
    law_maximum_is_kept(records, pending, request);
    match response {
        Response::Attribute { size, list, continuation } => {
            lemma_list_in_packet(transaction_id, response, size, list, continuation);
        },
        Response::SearchAttribute { size, list, continuation } => {
            lemma_list_in_packet(transaction_id, response, size, list, continuation);
        },
        _ => {},
    }
}

/// A request to go on that takes at least one octet leaves less over than there was, so the list
/// comes to its end.
pub proof fn law_continuation_advances(
    records: Map<u32, Seq<Attribute>>,
    pending: Seq<u8>,
    request: Request,
)
    requires
        goes_on(request),
        pending.len() > 0,
        match request {
            Request::Search { maximum, .. } => maximum > 0,
            Request::Attribute { maximum, .. } => maximum > 0,
            Request::SearchAttribute { maximum, .. } => maximum > 0,
        },
    ensures
        answer(records, pending, request) is Ok,
        pending_after(records, pending, request).len() < pending.len(),
{
}

/// A client that asks for a list, goes on until nothing is left over and puts the answers together
/// reads the list that it asked for, whatever searches it makes in between. Left out are lists with
/// more octets than any count of octets can tell.
pub proof fn law_list_is_read_back(
    records: Map<u32, Seq<Attribute>>,
    pending: Seq<u8>,
    requests: Seq<Request>,
    list: Element,
)
    requires
        requests.len() > 0,
        !(requests[0] is Search),
        !goes_on(requests[0]),
        octets_to_send(records, pending, requests[0]) == Ok::<Seq<u8>, Error>(encode(list)),
        encodable(list),
        forall|i: int| 1 <= i < requests.len() ==> keeps_place(#[trigger] requests[i]),
        pending_after_all(records, pending, requests).len() == 0,
    ensures
        decode(carried_in_all(records, pending, requests)) == Ok::<_, DecodeError>(
            (list, Seq::<u8>::empty()),
        ),
{
    law_list_arrives_whole(records, pending, requests);
    law_decode_encode(list, Seq::empty());
    assert(encode(list) + Seq::<u8>::empty() =~= encode(list));
}

/// A search leaves what is left over as it was.
pub proof fn law_search_keeps_pending(
    records: Map<u32, Seq<Attribute>>,
    pending: Seq<u8>,
    request: Request,
)
    requires
        request is Search,
    ensures
        pending_after(records, pending, request) == pending,
{
}

/// An answer is sent where the client takes few enough handles, or octets of a list, for a header
/// to state their number together with the rest.
pub proof fn law_small_answers_are_sent(
    records: Map<u32, Seq<Attribute>>,
    pending: Seq<u8>,
    request: Request,
)
    requires
        match request {
            Request::Search { maximum, .. } => maximum <= 16382,
            Request::Attribute { maximum, .. } => maximum <= u16::MAX - 7,
            Request::SearchAttribute { maximum, .. } => maximum <= u16::MAX - 7,
        },
    ensures
        response_to(records, pending, Ok(request)).octets().len() <= u16::MAX,
{
    lemma_response_len(response_to(records, pending, Ok(request)));
}

} // verus!
