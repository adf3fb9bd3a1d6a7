//! What service records are made of.

use vstd::prelude::*;
use std::ops::RangeInclusive;
use crate::answer::matching_handles;
use crate::audio_sink::{audio_sink_record, AUDIO_SINK_HANDLE};
use crate::data_element::{Element, Uuid};
use crate::query_laws::{
    element_at, has_one_of, in_order_of_ids, in_rising_order,
    law_records_with_one_of_the_items_match, leads_to,
};
use crate::server::{
    record_map, record_models, record_pairs, records_ascend, rising, SdpServer,
};
use crate::service::{
    ascending, attribute_map, attribute_models, range_models, Attribute, Service, ServiceAttribute,
};

verus! {

/// The attribute at `i` is the last one with its id.
pub open spec fn is_last_with_id(attributes: Seq<Attribute>, i: int) -> bool {
    0 <= i < attributes.len() && forall|j: int|
        i < j < attributes.len() ==> (#[trigger] attributes[j]).id != attributes[i].id
}

/// Of the attributes with one id, the last counts.
pub proof fn law_last_attribute_counts(attributes: Seq<Attribute>, id: u16, value: Element)
    ensures
        attribute_map(attributes).contains_pair(id, value) <==> exists|i: int| #[trigger]
            is_last_with_id(attributes, i) && attributes[i] == (Attribute { id, value }),
    decreases attributes.len(),
{
    if attributes.len() > 0 {
        let front = attributes.drop_last();
        let n = attributes.len() - 1;
        law_last_attribute_counts(front, id, value);
        assert(is_last_with_id(attributes, n));
        assert forall|i: int| 0 <= i < n && attributes[i].id == id && attributes[n].id
            != id implies is_last_with_id(front, i) == #[trigger] is_last_with_id(
            attributes,
            i,
        ) by {
            if is_last_with_id(attributes, i) {
                assert forall|j: int| i < j < front.len() implies (#[trigger] front[j]).id
                    != front[i].id by {
                    assert(attributes[j] == front[j]);
                }
            }
            if is_last_with_id(front, i) {
                assert forall|j: int| i < j < attributes.len() implies (#[trigger] attributes[j]).id
                    != attributes[i].id by {
                    if j < n {
                        assert(attributes[j] == front[j]);
                    }
                }
            }
        }
        if attribute_map(attributes).contains_pair(id, value) && attributes[n].id != id {
            let i = choose|i: int| #[trigger]
                is_last_with_id(front, i) && front[i] == (Attribute { id, value });
            assert(attributes[i].id == id);
            assert(is_last_with_id(attributes, i));
        }
        if exists|i: int| #[trigger]
            is_last_with_id(attributes, i) && attributes[i] == (Attribute { id, value }) {
            let i = choose|i: int| #[trigger]
                is_last_with_id(attributes, i) && attributes[i] == (Attribute { id, value });
            if i < n {
                assert(attributes[n].id != id);
                assert(is_last_with_id(front, i));
                assert(front[i] == (Attribute { id, value }));
            }
        }
    }
}

/// A record has just those of the attributes it was made of that are the last with their id, in the
/// rising order of their ids.
pub proof fn law_record_has_its_attributes(given: Seq<Attribute>, record: Seq<Attribute>)
    requires
        ascending(record),
        attribute_map(record) == attribute_map(given),
    ensures
        in_order_of_ids(record),
        forall|a: Attribute| #[trigger]
            record.contains(a) <==> exists|i: int| #[trigger]
                is_last_with_id(given, i) && given[i] == a,
{
    assert forall|a: Attribute| #[trigger] record.contains(a) <==> exists|i: int| #[trigger]
        is_last_with_id(given, i) && given[i] == a by {
        law_last_attribute_counts(given, a.id, a.value);
        law_last_attribute_counts(record, a.id, a.value);
        if record.contains(a) {
            let i = record.index_of(a);
            assert(is_last_with_id(record, i)) by {
                assert forall|j: int| i < j < record.len() implies (#[trigger] record[j]).id
                    != record[i].id by {}
            }
        }
        if attribute_map(given).contains_pair(a.id, a.value) {
            let i = choose|i: int| #[trigger]
                is_last_with_id(record, i) && record[i] == (Attribute { id: a.id, value: a.value });
            assert(record[i] == a);
        }
    }
}

/// The record at `i` is the last one under its handle.
pub open spec fn is_last_under_handle(records: Seq<(u32, Seq<Attribute>)>, i: int) -> bool {
    0 <= i < records.len() && forall|j: int|
        i < j < records.len() ==> (#[trigger] records[j]).0 != records[i].0
}

/// Of the records under one handle, the last counts.
pub proof fn law_last_record_counts(
    records: Seq<(u32, Seq<Attribute>)>,
    handle: u32,
    record: Seq<Attribute>,
)
    ensures
        record_map(records).contains_pair(handle, record) <==> exists|i: int| #[trigger]
            is_last_under_handle(records, i) && records[i] == (handle, record),
    decreases records.len(),
{
    if records.len() > 0 {
        let front = records.drop_last();
        let n = records.len() - 1;
        law_last_record_counts(front, handle, record);
        assert(is_last_under_handle(records, n));
        assert forall|i: int| 0 <= i < n && records[i].0 == handle && records[n].0
            != handle implies is_last_under_handle(front, i) == #[trigger] is_last_under_handle(
            records,
            i,
        ) by {
            if is_last_under_handle(records, i) {
                assert forall|j: int| i < j < front.len() implies (#[trigger] front[j]).0
                    != front[i].0 by {
                    assert(records[j] == front[j]);
                }
            }
            if is_last_under_handle(front, i) {
                assert forall|j: int| i < j < records.len() implies (#[trigger] records[j]).0
                    != records[i].0 by {
                    if j < n {
                        assert(records[j] == front[j]);
                    }
                }
            }
        }
        if record_map(records).contains_pair(handle, record) && records[n].0 != handle {
            let i = choose|i: int| #[trigger]
                is_last_under_handle(front, i) && front[i] == (handle, record);
            assert(records[i].0 == handle);
            assert(is_last_under_handle(records, i));
        }
        if exists|i: int| #[trigger]
            is_last_under_handle(records, i) && records[i] == (handle, record) {
            let i = choose|i: int| #[trigger]
                is_last_under_handle(records, i) && records[i] == (handle, record);
            if i < n {
                assert(records[n].0 != handle);
                assert(is_last_under_handle(front, i));
                assert(front[i] == (handle, record));
            }
        }
    }
}

/// Attributes, records and ranges say what their parts say, each in its place.
pub proof fn law_parts_keep_their_places(
    attributes: Seq<ServiceAttribute>,
    pairs: Seq<(u32, Service)>,
    records: Map<u32, Service>,
    ranges: Seq<RangeInclusive<u16>>,
)
    ensures
        attribute_models(attributes).len() == attributes.len(),
        forall|i: int|
            0 <= i < attributes.len() ==> #[trigger] attribute_models(attributes)[i] == (Attribute {
                id: attributes[i].id,
                value: attributes[i].value@,
            }),
        record_pairs(pairs).len() == pairs.len(),
        forall|i: int|
            0 <= i < pairs.len() ==> #[trigger] record_pairs(pairs)[i] == (
                pairs[i].0,
                pairs[i].1@,
            ),
        forall|h: u32| #[trigger]
            record_models(records).contains_key(h) <==> records.contains_key(h),
        forall|h: u32|
            records.contains_key(h) ==> #[trigger] record_models(records)[h] == records[h]@,
        range_models(ranges).len() == ranges.len(),
        forall|i: int| 0 <= i < ranges.len() ==> #[trigger] range_models(ranges)[i] == ranges[i]@,
{
}

/// What is in order is in rising order.
pub proof fn law_order_is_rising(
    record: Seq<Attribute>,
    records: Map<u32, Seq<Attribute>>,
    handles: Seq<u32>,
)
    ensures
        ascending(record) <==> in_order_of_ids(record),
        records_ascend(records) <==> forall|h: u32| #[trigger]
            records.contains_key(h) ==> in_order_of_ids(records[h]),
        rising(handles) <==> in_rising_order(handles),
{
}

/// The records of a server, and the attributes of a record, stand in the order of their ids.
pub proof fn law_servers_keep_order(server: SdpServer, service: Service)
    requires
        server.well_formed(),
        service.well_formed(),
    ensures
        forall|h: u32| #[trigger] server@.contains_key(h) ==> in_order_of_ids(server@[h]),
        in_order_of_ids(service@),
{
    server.law_records_ascend();
    service.lemma_ascends();
}

/// A short UUID, as the full one that it stands for.
pub open spec fn full_uuid(short: int) -> Uuid {
    Uuid {
        value: (0x1000_8000_0080_5f9b_34fb + short * 0x1_0000_0000_0000_0000_0000_0000) as u128,
    }
}

/// The audio sink's record has its handle, its class, its protocols, its browse group and its
/// profile, each under its id.
pub proof fn law_audio_sink_record()
    ensures
        AUDIO_SINK_HANDLE == 0x0001_0001,
        audio_sink_record() == seq![
            Attribute { id: 0x0000, value: Element::U32(0x0001_0001) },
            Attribute {
                id: 0x0001,
                value: Element::Sequence(seq![Element::Uuid(full_uuid(0x110b))]),
            },
            Attribute {
                id: 0x0004,
                value: Element::Sequence(
                    seq![
                        Element::Sequence(
                            seq![Element::Uuid(full_uuid(0x0100)), Element::U16(0x0019)],
                        ),
                        Element::Sequence(
                            seq![Element::Uuid(full_uuid(0x0019)), Element::U16(0x0103)],
                        ),
                    ],
                ),
            },
            Attribute {
                id: 0x0005,
                value: Element::Sequence(seq![Element::Uuid(full_uuid(0x1002))]),
            },
            Attribute {
                id: 0x0009,
                value: Element::Sequence(
                    seq![
                        Element::Sequence(
                            seq![Element::Uuid(full_uuid(0x110d)), Element::U16(0x0103)],
                        ),
                    ],
                ),
            },
        ],
{
}

/// Whatever else is looked for and whatever other records there are, the audio sink's record is
/// found by its class, by each of its protocols, by its browse group and by its profile.
pub proof fn law_audio_sink_is_found(
    records: Map<u32, Seq<Attribute>>,
    uuids: Seq<Uuid>,
    j: int,
)
    requires
        records.contains_key(0x0001_0001),
        records[0x0001_0001] == audio_sink_record(),
        0 <= j < uuids.len(),
        uuids[j] == full_uuid(0x110b) || uuids[j] == full_uuid(0x0100) || uuids[j] == full_uuid(
            0x0019,
        ) || uuids[j] == full_uuid(0x1002) || uuids[j] == full_uuid(0x110d),
    ensures
        matching_handles(records, uuids).contains(0x0001_0001),
{
    law_audio_sink_record();
    law_records_with_one_of_the_items_match(records, uuids);
    let record = audio_sink_record();
    let items = uuids.map_values(|uuid: Uuid| Element::Uuid(uuid));
    let uuid = uuids[j];
    reveal_with_fuel(element_at, 3);
    let inner = Seq::empty().push(0int);
    let pair = seq![0int, 0int];
    let second = seq![1int, 0int];
    assert(inner.drop_first() =~= Seq::empty());
    assert(pair.drop_first() =~= inner);
    assert(second.drop_first() =~= inner);
    assert(items[j] == Element::Uuid(uuid));
    if uuid == full_uuid(0x110b) {
        assert(element_at(record[1].value, inner) == Some(Element::Uuid(uuid)));
        assert(leads_to(record[1].value, uuid));
    } else if uuid == full_uuid(0x0100) {
        assert(element_at(record[2].value, pair) == Some(Element::Uuid(uuid)));
        assert(leads_to(record[2].value, uuid));
    } else if uuid == full_uuid(0x0019) {
        assert(element_at(record[2].value, second) == Some(Element::Uuid(uuid)));
        assert(leads_to(record[2].value, uuid));
    } else if uuid == full_uuid(0x1002) {
        assert(element_at(record[3].value, inner) == Some(Element::Uuid(uuid)));
        assert(leads_to(record[3].value, uuid));
    } else {
        assert(element_at(record[4].value, pair) == Some(Element::Uuid(uuid)));
        assert(leads_to(record[4].value, uuid));
    }
    assert(has_one_of(records[0x0001_0001], items));
}

} // verus!
