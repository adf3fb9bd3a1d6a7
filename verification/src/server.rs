//! The server: service records, and the answers to requests for them.

use bytes::{Bytes, BytesMut};
use std::collections::BTreeMap;
use std::sync::Arc;
use vstd::prelude::*;
use vstd::std_specs::cmp::OrdSpec;
use vstd::std_specs::iter::IteratorSpec;
use crate::answer::{
    answer, attribute_octets, fragment_len, fragment_rest, fragment_state, handles_below,
    matching_handles, nonempty_lists, pending_after, pending_after_packet, refusal_of,
    reply_to, request_of, response_to, search_answer, search_attribute_octets, service_matches,
};
use crate::buffer::{buffer_content, buffer_from_slice, bytes_content};
use crate::codec::encode;
use crate::data_element::{elements, DataElement, Element, Uuid};
use crate::error::{DecodeError, Error, PacketTooLong, SdpErrorCodes};
use crate::octets::Reader;
use crate::packet::{
    is_read_as, lemma_response_len, parse_request, response_packet, take_header,
    ContinuationState, Request, RequestPacket, ResponsePacket, SdpHeader,
};
use crate::query::{collect_attributes, convert_attribute_id_list, convert_search_pattern};
use crate::service::{ascending, range_models, service_mentions, Attribute, Service};

verus! {

/// The service records that requests are answered from.
pub struct SdpServer {
    records: Arc<BTreeMap<u32, Service>>,
}

impl Clone for SdpServer {
    fn clone(&self) -> (r: SdpServer)
        ensures
            r@ == self@,
    {
        proof {
            use_type_invariant(self);
        }
        SdpServer { records: self.records.clone() }
    }
}

/// The attributes of each record, by its handle.
pub open spec fn record_models(records: Map<u32, Service>) -> Map<u32, Seq<Attribute>> {
    records.map_values(|s: Service| s@)
}

impl View for SdpServer {
    type V = Map<u32, Seq<Attribute>>;

    closed spec fn view(&self) -> Map<u32, Seq<Attribute>> {
        record_models((*self.records)@)
    }
}

impl SdpServer {
    /// The ids of each record rise from one attribute to the next.
    #[verifier::type_invariant]
    pub closed spec fn well_formed(self) -> bool {
        records_ascend(self@)
    }

    /// The records of a server hold their attributes in the order of the ids.
    pub proof fn law_records_ascend(self)
        requires
            self.well_formed(),
        ensures
            records_ascend(self@),
    {
    }

    /// The server with these records. Where a handle occurs more than once, the last record under
    /// it counts.
    pub fn from_records(records: Vec<(u32, Service)>) -> (r: SdpServer)
        ensures
            r@ == record_map(record_pairs(records@)),
            records_ascend(r@),
    {
        let mut left: Vec<(u32, Service)> = records;
        let mut map: BTreeMap<u32, Service> = BTreeMap::new();
        let ghost goal = record_map(record_pairs(records@));
        proof {
            lemma_handles_are_ordered();
            assert(goal.union_prefer_right(record_models(map@)) =~= goal);
        }
        while left.len() > 0
            invariant
                vstd::laws_cmp::obeys_cmp::<u32>(),
                records_ascend(record_models(map@)),
                goal == record_map(record_pairs(left@)).union_prefer_right(record_models(map@)),
            decreases left@.len(),
        {
            let ghost before = record_pairs(left@);
            match left.pop() {
                Some((handle, service)) => {
                    let ghost held = map@;
                    proof {
                        use_type_invariant(&service);
                        service.lemma_ascends();
                        assert(before.drop_last() =~= record_pairs(left@));
                        assert(before.last() == (handle, service@));
                    }
                    if !map.contains_key(&handle) {
                        map.insert(handle, service);
                        proof {
                            assert(record_models(map@) =~= record_models(held).insert(
                                handle,
                                service@,
                            ));
                        }
                    }
                    proof {
                        assert(record_map(before).union_prefer_right(record_models(held))
                            =~= record_map(record_pairs(left@)).union_prefer_right(
                            record_models(map@),
                        ));
                    }
                },
                None => {},
            }
        }
        proof {
            assert(record_pairs(left@) =~= Seq::empty());
            assert(goal =~= record_models(map@));
        }
        SdpServer { records: Arc::new(map) }
    }
}

/// The ids of each record rise from one attribute to the next.
pub open spec fn records_ascend(records: Map<u32, Seq<Attribute>>) -> bool {
    forall|h: u32| #[trigger] records.contains_key(h) ==> ascending(records[h])
}

/// What each of the records says.
pub open spec fn record_pairs(records: Seq<(u32, Service)>) -> Seq<(u32, Seq<Attribute>)> {
    records.map_values(|kv: (u32, Service)| (kv.0, kv.1@))
}

/// The record under each handle, where of several under one handle the last counts.
pub open spec fn record_map(records: Seq<(u32, Seq<Attribute>)>) -> Map<u32, Seq<Attribute>>
    decreases records.len(),
{
    if records.len() == 0 {
        Map::empty()
    } else {
        record_map(records.drop_last()).insert(records.last().0, records.last().1)
    }
}

/// Where there are no records, no handles are added.
proof fn lemma_no_handles_between(
    records: Map<u32, Seq<Attribute>>,
    patterns: Seq<Uuid>,
    m: nat,
    n: nat,
)
    requires
        m <= n <= 0x1_0000_0000,
        forall|h: u32| m <= h < n ==> !(#[trigger] records.contains_key(h)),
    ensures
        handles_below(records, patterns, n) == handles_below(records, patterns, m),
    decreases n,
{
    if m < n {
        lemma_no_handles_between(records, patterns, m, (n - 1) as nat);
    }
}

/// Whether one of the identifiers occurs in the record.
fn matches_any(service: &Service, patterns: &[Uuid]) -> (r: bool)
    ensures
        r == service_matches(service@, patterns@),
{
    let mut i: usize = 0;
    while i < patterns.len()
        invariant
            i <= patterns@.len(),
            forall|k: int|
                0 <= k < i ==> !service_mentions(service@, #[trigger] patterns@[k]),
        decreases patterns@.len() - i,
    {
        if service.contains(patterns[i]) {
            return true;
        }
        i = i + 1;
    }
    false
}

/// Handles are ordered as numbers, so a map that is keyed by them is walked in rising order.
proof fn lemma_handles_are_ordered()
    ensures
        vstd::laws_cmp::obeys_cmp::<u32>(),
        vstd::std_specs::btree::key_obeys_cmp_spec::<u32>(),
        forall|s: Seq<u32>| #[trigger]
            vstd::std_specs::btree::increasing_seq(s) ==> rising(s),
{
    broadcast use vstd::laws_cmp::group_laws_cmp;

    assert(vstd::laws_cmp::obeys_cmp::<u32>());
    assert forall|s: Seq<u32>| #[trigger]
        vstd::std_specs::btree::increasing_seq(s) implies rising(s) by {
        assert forall|i: int, j: int| 0 <= i < j < s.len() implies (#[trigger] s[i]) < (
        #[trigger] s[j]) by {
            assert(s[i].cmp_spec(&s[j]) is Less);
        }
    }
}

/// The numbers rise from one to the next.
pub open spec fn rising(s: Seq<u32>) -> bool {
    forall|i: int, j: int| 0 <= i < j < s.len() ==> (#[trigger] s[i]) < (#[trigger] s[j])
}

/// The keys of the entries.
spec fn keys_of(entries: Seq<(&u32, &Service)>) -> Seq<u32> {
    entries.map_values(|kv: (&u32, &Service)| *kv.0)
}

/// What a walk over the records still has to come to: each record from handle `bound` on, in
/// rising order.
spec fn walk_from(
    entries: Seq<(&u32, &Service)>,
    records: Map<u32, Seq<Attribute>>,
    bound: nat,
) -> bool {
    &&& rising(keys_of(entries))
    &&& forall|i: int|
        0 <= i < entries.len() ==> {
            &&& bound <= *(#[trigger] entries[i]).0
            &&& records.contains_key(*entries[i].0)
            &&& records[*entries[i].0] == entries[i].1@
        }
    &&& forall|h: u32| #[trigger]
        records.contains_key(h) && bound <= h ==> keys_of(entries).contains(h)
}

/// After its first entry a walk comes to the records behind that entry's handle.
proof fn lemma_walk_on(
    entries: Seq<(&u32, &Service)>,
    records: Map<u32, Seq<Attribute>>,
    bound: nat,
)
    requires
        walk_from(entries, records, bound),
        entries.len() > 0,
    ensures
        walk_from(entries.drop_first(), records, (*entries[0].0 + 1) as nat),
        forall|h: u32| bound <= h < *entries[0].0 ==> !(#[trigger] records.contains_key(h)),
{
    let keys = keys_of(entries);
    let others = entries.drop_first();
    assert(keys_of(others) =~= keys.drop_first());
    assert forall|i: int, j: int| 0 <= i < j < others.len() implies (#[trigger] keys_of(others)[i])
        < (#[trigger] keys_of(others)[j]) by {
        assert(keys[i + 1] < keys[j + 1]);
    }
    assert forall|i: int| 0 <= i < others.len() implies ({
        &&& (*entries[0].0 + 1) as nat <= *(#[trigger] others[i]).0
        &&& records.contains_key(*others[i].0)
        &&& records[*others[i].0] == others[i].1@
    }) by {
        assert(others[i] == entries[i + 1]);
        assert(keys[0] < keys[i + 1]);
    }
    assert forall|h: u32| #[trigger]
        records.contains_key(h) && (*entries[0].0 + 1) as nat <= h implies keys_of(
        others,
    ).contains(h) by {
        let i = keys.index_of(h);
        assert(keys[i] == h);
        assert(keys_of(others)[i - 1] == h);
    }
    assert forall|h: u32| bound <= h < *entries[0].0 implies !(#[trigger] records.contains_key(
        h,
    )) by {
        if records.contains_key(h) {
            let i = keys.index_of(h);
            assert(keys[i] == h);
            if i > 0 {
                assert(keys[0] < keys[i]);
            }
        }
    }
}

impl SdpServer {
    /// The records in which one of the identifiers occurs, in the order of their handles.
    pub fn collecting_matching_records(&self, service_search_patterns: &[Uuid]) -> (r: Vec<
        (u32, &Service),
    >)
        ensures
            r@.map_values(|kv: (u32, &Service)| kv.0) == matching_handles(
                self@,
                service_search_patterns@,
            ),
            forall|i: int|
                0 <= i < r@.len() ==> self@.contains_key((#[trigger] r@[i]).0) && self@[r@[i].0]
                    == r@[i].1@,
    {
        let mut r: Vec<(u32, &Service)> = Vec::new();
        let ghost patterns = service_search_patterns@;
        let ghost mut bound: nat = 0;
        proof {
            lemma_handles_are_ordered();
        }
        let walk = self.records.iter();
        proof {
            let raw = (*self.records)@;
            let entries = walk.remaining();
            assert(keys_of(entries) =~= entries.map_values(|kv: (&u32, &Service)| *kv.0));
            assert forall|h: u32| #[trigger] self@.contains_key(h) implies keys_of(
                entries,
            ).contains(h) by {
                assert(raw.contains_key(h));
                let i = entries.index_of((&h, &raw[h]));
                assert(keys_of(entries)[i] == h);
            }
            assert forall|i: int| 0 <= i < entries.len() implies self@.contains_key(
                *(#[trigger] entries[i]).0,
            ) && self@[*entries[i].0] == entries[i].1@ by {
                assert(raw.contains_key(*entries[i].0));
            }
            assert(walk_from(entries, self@, 0));
            assert(entries.skip(0) =~= entries);
        }
        for entry in it: walk
            invariant
                patterns == service_search_patterns@,
                bound <= 0x1_0000_0000,
                walk_from(it.seq().skip(it.index()), self@, bound),
                it.index() == it.seq().len() ==> forall|h: u32| #[trigger]
                    self@.contains_key(h) ==> h < bound,
                r@.map_values(|kv: (u32, &Service)| kv.0) == handles_below(
                    self@,
                    patterns,
                    bound,
                ),
                forall|i: int|
                    0 <= i < r@.len() ==> self@.contains_key((#[trigger] r@[i]).0)
                        && self@[r@[i].0] == r@[i].1@,
        {
            let (handle, service) = entry;
            let ghost before = r@;
            proof {
                let entries = it.seq().skip(it.index());
                lemma_walk_on(entries, self@, bound);
                assert(entries[0].0 == handle && entries[0].1 == service);
                assert(entries.drop_first() =~= it.seq().skip(it.index() + 1));
                lemma_no_handles_between(self@, patterns, bound, *handle as nat);
            }
            if matches_any(service, service_search_patterns) {
                r.push((*handle, service));
                proof {
                    assert(r@.map_values(|kv: (u32, &Service)| kv.0) =~= before.map_values(
                        |kv: (u32, &Service)| kv.0,
                    ).push(*handle));
                }
            }
            proof {
                bound = (*handle + 1) as nat;
            }
        }
        proof {
            lemma_no_handles_between(self@, patterns, bound, 0x1_0000_0000);
        }
        r
    }
}

/// Takes the share of an answer of at most `maximum` octets out of the buffer.
fn take_fragment(buffer: &mut BytesMut, maximum: u16) -> (r: (u16, Bytes, ContinuationState))
    ensures
        r.0 == fragment_len(buffer_content(*old(buffer)), maximum),
        bytes_content(r.1) == buffer_content(*old(buffer)).take(
            fragment_len(buffer_content(*old(buffer)), maximum),
        ),
        r.2 == fragment_state(buffer_content(*old(buffer)), maximum),
        buffer_content(*final(buffer)) == fragment_rest(buffer_content(*old(buffer)), maximum),
{
    let available: usize = buffer.len();
    let share: usize = if available <= maximum as usize {
        available
    } else {
        maximum as usize
    };
    let to_send = buffer.split_to(share);
    let size: u16 = to_send.len() as u16;
    (size, to_send.freeze(), ContinuationState::last_message(buffer.is_empty()))
}

/// Puts the octets of `element` in the buffer's place.
fn refill(buffer: &mut BytesMut, element: &DataElement)
    ensures
        buffer_content(*final(buffer)) == encode(element@),
{
    let mut octets: Vec<u8> = Vec::new();
    element.write_to_buffer(&mut octets);
    assert(octets@ =~= encode(element@));
    *buffer = buffer_from_slice(octets.as_slice());
}

impl SdpServer {
    /// The answer to a search, or the reason why there is none.
    fn search(
        &self,
        service_search_patterns: DataElement,
        maximum_service_record_count: u16,
        continuation_state: ContinuationState,
    ) -> (r: Result<ResponsePacket, Error>)
        ensures
            match search_answer(
                self@,
                service_search_patterns@,
                maximum_service_record_count,
                continuation_state,
            ) {
                Ok(response) => r is Ok && r->Ok_0@ == response,
                Err(e) => r is Err && r->Err_0 == e,
            },
    {
        match continuation_state {
            ContinuationState::Absent => {},
            ContinuationState::Continue => {
                return Err(Error::InvalidContinuationState);
            },
        }
        let patterns = match convert_search_pattern(service_search_patterns) {
            Ok(patterns) => patterns,
            Err(e) => {
                return Err(e);
            },
        };
        let matching = self.collecting_matching_records(patterns.as_slice());
        let ghost all = matching_handles(self@, patterns@);
        assert(all.len() == matching@.len());
        let mut handles: Vec<u32> = Vec::new();
        let mut i: usize = 0;
        while i < matching.len() && i < maximum_service_record_count as usize
            invariant
                i <= matching@.len(),
                i <= maximum_service_record_count,
                all == matching@.map_values(|kv: (u32, &Service)| kv.0),
                handles@ == all.take(i as int),
            decreases matching@.len() - i,
        {
            assert(all[i as int] == matching@[i as int].0);
            handles.push(matching[i].0);
            assert(handles@ =~= all.take(i + 1));
            i = i + 1;
        }
        assert(all.take(all.len() as int) =~= all);
        let count: u16 = handles.len() as u16;
        Ok(
            ResponsePacket::SearchResponse {
                total_service_record_count: count,
                current_service_record_count: count,
                service_record_handles: handles,
                continuation_state: ContinuationState::Absent,
            },
        )
    }

    /// The attribute list that answers a new request for attributes, or the reason why there is
    /// none.
    fn attributes_of(&self, service_record_handle: u32, attribute_id_list: DataElement) -> (r:
        Result<DataElement, Error>)
        ensures
            match attribute_octets(self@, service_record_handle, attribute_id_list@) {
                Ok(octets) => r is Ok && encode(r->Ok_0@) == octets,
                Err(e) => r is Err && r->Err_0 == e,
            },
    {
        let ranges = match convert_attribute_id_list(attribute_id_list) {
            Ok(ranges) => ranges,
            Err(e) => {
                return Err(e);
            },
        };
        proof {
            lemma_handles_are_ordered();
        }
        match self.records.get(&service_record_handle) {
            Some(service) => Ok(collect_attributes(service, ranges.as_slice())),
            None => Err(Error::UnknownServiceRecordHandle(service_record_handle)),
        }
    }

    /// The list of attribute lists that answers a new search for attributes, or the reason why
    /// there is none.
    fn attributes_of_matching(
        &self,
        service_search_patterns: DataElement,
        attribute_id_list: DataElement,
    ) -> (r: Result<DataElement, Error>)
        ensures
            match search_attribute_octets(
                self@,
                service_search_patterns@,
                attribute_id_list@,
            ) {
                Ok(octets) => r is Ok && encode(r->Ok_0@) == octets,
                Err(e) => r is Err && r->Err_0 == e,
            },
    {
        let patterns = match convert_search_pattern(service_search_patterns) {
            Ok(patterns) => patterns,
            Err(e) => {
                return Err(e);
            },
        };
        let ranges = match convert_attribute_id_list(attribute_id_list) {
            Ok(ranges) => ranges,
            Err(e) => {
                return Err(e);
            },
        };
        let matching = self.collecting_matching_records(patterns.as_slice());
        let ghost handles = matching_handles(self@, patterns@);
        let mut lists: Vec<DataElement> = Vec::new();
        let mut i: usize = 0;
        assert(elements(lists@) =~= Seq::empty());
        while i < matching.len()
            invariant
                i <= matching@.len(),
                handles == matching@.map_values(|kv: (u32, &Service)| kv.0),
                forall|k: int|
                    0 <= k < matching@.len() ==> self@.contains_key((#[trigger] matching@[k]).0)
                        && self@[matching@[k].0] == matching@[k].1@,
                elements(lists@) == nonempty_lists(
                    self@,
                    handles.take(i as int),
                    range_models(ranges@),
                ),
            decreases matching@.len() - i,
        {
            let ghost held = elements(lists@);
            let list = collect_attributes(matching[i].1, ranges.as_slice());
            proof {
                assert(handles.take(i + 1).drop_last() =~= handles.take(i as int));
                assert(handles.take(i + 1).last() == matching@[i as int].0);
                if let Element::Sequence(items) = list@ {
                    assert((items.len() == 0) == (items =~= Seq::empty()));
                }
            }
            if !list.is_empty() {
                let ghost model = list@;
                lists.push(list);
                assert(elements(lists@) =~= held.push(model));
            }
            i = i + 1;
        }
        assert(handles.take(i as int) =~= handles);
        Ok(DataElement::Sequence(lists))
    }

    /// Answers a request, or says why it cannot be answered. `buffer` holds what is left over
    /// from the last answer.
    pub fn respond(&self, request: RequestPacket, buffer: &mut BytesMut) -> (r: Result<
        ResponsePacket,
        Error,
    >)
        ensures
            match answer(self@, buffer_content(*old(buffer)), request@) {
                Ok(response) => r is Ok && r->Ok_0@ == response,
                Err(e) => r is Err && r->Err_0 == e,
            },
            buffer_content(*final(buffer)) == pending_after(
                self@,
                buffer_content(*old(buffer)),
                request@,
            ),
    {
        match request {
            RequestPacket::SearchRequest {
                service_search_patterns,
                maximum_service_record_count,
                continuation_state,
            } => self.search(
                service_search_patterns,
                maximum_service_record_count,
                continuation_state,
            ),
            RequestPacket::AttributeRequest {
                service_record_handle,
                maximum_attribute_byte_count,
                attribute_id_list,
                continuation_state,
            } => {
                match continuation_state {
                    ContinuationState::Absent => {
                        buffer.clear();
                        match self.attributes_of(service_record_handle, attribute_id_list) {
                            Ok(list) => refill(buffer, &list),
                            Err(e) => {
                                return Err(e);
                            },
                        }
                    },
                    ContinuationState::Continue => if buffer.is_empty() {
                        assert(buffer_content(*buffer) =~= Seq::empty());
                        return Err(Error::InvalidContinuationState);
                    },
                }
                let (attribute_list_size, attribute_list, continuation_state) = take_fragment(
                    buffer,
                    maximum_attribute_byte_count,
                );
                Ok(
                    ResponsePacket::AttributeResponse {
                        attribute_list_size,
                        attribute_list,
                        continuation_state,
                    },
                )
            },
            RequestPacket::SearchAttributeRequest {
                service_search_patterns,
                maximum_attribute_byte_count,
                attribute_id_list,
                continuation_state,
            } => {
                match continuation_state {
                    ContinuationState::Absent => {
                        buffer.clear();
                        match self.attributes_of_matching(
                            service_search_patterns,
                            attribute_id_list,
                        ) {
                            Ok(list) => refill(buffer, &list),
                            Err(e) => {
                                return Err(e);
                            },
                        }
                    },
                    ContinuationState::Continue => if buffer.is_empty() {
                        assert(buffer_content(*buffer) =~= Seq::empty());
                        return Err(Error::InvalidContinuationState);
                    },
                }
                let (attribute_list_size, attribute_list, continuation_state) = take_fragment(
                    buffer,
                    maximum_attribute_byte_count,
                );
                Ok(
                    ResponsePacket::SearchAttributeResponse {
                        attribute_list_size,
                        attribute_list,
                        continuation_state,
                    },
                )
            },
        }
    }
}

/// What comes of a packet.
#[derive(Debug, PartialEq, Eq)]
pub enum Outcome {
    /// The header cannot be read, and nothing is sent.
    Unreadable(DecodeError),
    /// A packet is sent.
    Reply {
        /// The packet.
        packet: Bytes,
        /// Why the request was refused, if it was.
        refusal: Option<Error>,
    },
}

impl SdpServer {
    /// Answers a packet: hands back the packet to send, unless the header cannot be read.
    /// `buffer` holds what is left over from the last answer. It is an error if the answer has
    /// more octets than a header can state.
    pub fn handle_packet(&self, packet: &[u8], buffer: &mut BytesMut) -> (r: Result<
        Outcome,
        PacketTooLong,
    >)
        ensures
            match take_header(packet@) {
                Ok((header, _)) => {
                    let pending = buffer_content(*old(buffer));
                    let response = response_to(self@, pending, request_of(packet@));
                    &&& buffer_content(*final(buffer)) == pending_after_packet(
                        self@,
                        pending,
                        request_of(packet@),
                    )
                    &&& if response.octets().len() <= u16::MAX {
                        &&& r matches Ok(Outcome::Reply { packet: reply, refusal })
                        &&& bytes_content(reply) == response_packet(
                            header.transaction_id,
                            response,
                        )
                        &&& refusal == refusal_of(self@, pending, request_of(packet@))
                    } else {
                        r is Err
                    }
                },
                Err(e) => (r matches Ok(Outcome::Unreadable(reason)) && reason == e)
                    && buffer_content(*final(buffer)) == buffer_content(*old(buffer)),
            },
            match reply_to(self@, buffer_content(*old(buffer)), packet@) {
                Some(octets) => r matches Ok(Outcome::Reply { packet: reply, .. }) && bytes_content(
                    reply,
                ) == octets,
                None => !(r matches Ok(Outcome::Reply { .. })),
            },
    {
        let mut reader = Reader::new(packet);
        let header = match SdpHeader::read_from_buffer(&mut reader) {
            Ok(header) => header,
            Err(e) => {
                return Ok(Outcome::Unreadable(e));
            },
        };
        let pdu = header.pdu;
        let read = || -> (r: Result<RequestPacket, Error>)
            ensures
                is_read_as(r, parse_request(pdu, reader.rest())),
            { RequestPacket::read_from_buffer(pdu, reader) };
        let request = catch_error(read);
        let answered = match request {
            Ok(request) => self.respond(request, buffer),
            Err(e) => Err(e),
        };
        let (reply, refusal) = match answered {
            Ok(reply) => (reply, None),
            Err(e) => (ResponsePacket::ErrorResponse(SdpErrorCodes::from(e)), Some(e)),
        };
        proof {
            lemma_response_fits(self@, buffer_content(*old(buffer)), request_of(packet@));
        }
        match reply.to_packet(header.transaction_id) {
            Ok(packet) => Ok(Outcome::Reply { packet, refusal }),
            Err(e) => Err(e),
        }
    }
}

/// An answer has few enough octets to be counted.
proof fn lemma_response_fits(
    records: Map<u32, Seq<Attribute>>,
    pending: Seq<u8>,
    request: Result<Request, Error>,
)
    ensures
        response_to(records, pending, request).octets().len() <= 4 + 4 * 0xffff + 5,
{
    lemma_response_len(response_to(records, pending, request));
}

/// Runs a computation that may fail and hands back what it came to, so that a failure within it
/// ends it and not its caller.
pub fn catch_error<F, E, R>(f: F) -> (r: Result<R, E>) where F: FnOnce() -> Result<R, E>
    requires
        f.requires(()),
    ensures
        f.ensures((), r),
{
    f()
}

} // verus!
