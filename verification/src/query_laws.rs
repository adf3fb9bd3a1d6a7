//! What requests are answered, said of the records and of the items of the request alone.

use vstd::prelude::*;
use vstd::std_specs::range::RangeInclusiveView;
use crate::answer::{
    answer, matching_handles, nonempty_lists, pending_after, service_matches,
};
use crate::codec::encode;
use crate::data_element::{mentions, Element, Uuid};
use crate::error::Error;
use crate::laws::{
    law_attributes_are_selected, law_list_alternates, law_search_finds_what_matches,
};
use crate::packet::{ContinuationState, Request, Response};
use crate::query::{
    attribute_id_ranges, attribute_list, search_pattern, with_value,
};
use crate::service::{
    covers, in_ranges, law_filter_keeps_order, selected, service_mentions, Attribute,
};

verus! {

/// The element that a path of indices leads to, from a sequence or an alternative to one of its
/// items at each step.
pub open spec fn element_at(element: Element, path: Seq<int>) -> Option<Element>
    decreases path.len(),
{
    if path.len() == 0 {
        Some(element)
    } else {
        let items = match element {
            Element::Sequence(items) => items,
            Element::Alternative(items) => items,
            _ => Seq::empty(),
        };
        if 0 <= path[0] < items.len() {
            element_at(items[path[0]], path.drop_first())
        } else {
            None
        }
    }
}

/// Some path into the element leads to `uuid`.
pub open spec fn leads_to(element: Element, uuid: Uuid) -> bool {
    exists|path: Seq<int>| #[trigger] element_at(element, path) == Some(Element::Uuid(uuid))
}

/// An identifier occurs in an element if and only if some path leads to it, however long.
pub proof fn law_identifiers_are_found_at_any_depth(element: Element, uuid: Uuid)
    ensures
        mentions(element, uuid) <==> leads_to(element, uuid),
    decreases element,
{
    if mentions(element, uuid) {
        match element {
            Element::Sequence(items) => {
                let i = choose|i: int|
                    0 <= i < items.len() && mentions(#[trigger] items[i], uuid);
                law_identifiers_are_found_at_any_depth(items[i], uuid);
                let path = choose|path: Seq<int>| #[trigger]
                    element_at(items[i], path) == Some(Element::Uuid(uuid));
                let longer = seq![i] + path;
                assert(longer.drop_first() =~= path);
                assert(element_at(element, longer) == Some(Element::Uuid(uuid)));
            },
            Element::Alternative(items) => {
                let i = choose|i: int|
                    0 <= i < items.len() && mentions(#[trigger] items[i], uuid);
                law_identifiers_are_found_at_any_depth(items[i], uuid);
                let path = choose|path: Seq<int>| #[trigger]
                    element_at(items[i], path) == Some(Element::Uuid(uuid));
                let longer = seq![i] + path;
                assert(longer.drop_first() =~= path);
                assert(element_at(element, longer) == Some(Element::Uuid(uuid)));
            },
            _ => {
                assert(element_at(element, Seq::empty()) == Some(Element::Uuid(uuid)));
            },
        }
    }
    if leads_to(element, uuid) {
        let path = choose|path: Seq<int>| #[trigger]
            element_at(element, path) == Some(Element::Uuid(uuid));
        if path.len() > 0 {
            let items = match element {
                Element::Sequence(items) => items,
                Element::Alternative(items) => items,
                _ => Seq::empty(),
            };
            let item = items[path[0]];
            assert(element_at(item, path.drop_first()) == Some(Element::Uuid(uuid)));
            match element {
                Element::Sequence(inner) => {
                    law_identifiers_are_found_at_any_depth(inner[path[0]], uuid);
                },
                Element::Alternative(inner) => {
                    law_identifiers_are_found_at_any_depth(inner[path[0]], uuid);
                },
                _ => {},
            }
        }
    }
}

/// One of the items is an identifier that occurs in the value of one of the record's attributes,
/// whatever the attribute's id and whatever the place of the item.
pub open spec fn has_one_of(record: Seq<Attribute>, items: Seq<Element>) -> bool {
    exists|i: int, j: int, uuid: Uuid|
        0 <= i < record.len() && 0 <= j < items.len() && #[trigger] items[j] == Element::Uuid(uuid)
            && #[trigger] leads_to(record[i].value, uuid)
}

/// A record mentions an identifier as soon as the value of any one of its attributes holds it.
pub proof fn law_every_attribute_is_looked_at(record: Seq<Attribute>, uuid: Uuid)
    ensures
        service_mentions(record, uuid) <==> exists|i: int|
            0 <= i < record.len() && leads_to((#[trigger] record[i]).value, uuid),
{
    assert forall|i: int| 0 <= i < record.len() implies mentions((#[trigger] record[i]).value, uuid)
        == leads_to(record[i].value, uuid) by {
        law_identifiers_are_found_at_any_depth(record[i].value, uuid);
    }
    if exists|i: int| 0 <= i < record.len() && leads_to((#[trigger] record[i]).value, uuid) {
        let i = choose|i: int|
            0 <= i < record.len() && leads_to((#[trigger] record[i]).value, uuid);
        assert(mentions(record[i].value, uuid));
    }
}

/// Every item is an identifier.
pub open spec fn all_identifiers(items: Seq<Element>) -> bool {
    forall|i: int| 0 <= i < items.len() ==> (#[trigger] items[i]) is Uuid
}

/// The element is a sequence of identifiers.
pub open spec fn is_pattern(pattern: Element) -> bool {
    match pattern {
        Element::Sequence(items) => all_identifiers(items),
        _ => false,
    }
}

/// A pattern stands for its items, each in its place. What is no sequence of identifiers is of the
/// wrong type.
pub proof fn law_pattern_is_its_items(pattern: Element)
    ensures
        match search_pattern(pattern) {
            Ok(uuids) => pattern == Element::Sequence(
                uuids.map_values(|uuid: Uuid| Element::Uuid(uuid)),
            ),
            Err(e) => !is_pattern(pattern) && e == Error::UnexpectedDataType,
        },
{
    if let Ok(uuids) = search_pattern(pattern) {
        if let Element::Sequence(items) = pattern {
            assert(items =~= uuids.map_values(|uuid: Uuid| Element::Uuid(uuid)));
        }
    }
}

/// A record matches a pattern if and only if it has one of the pattern's items.
proof fn lemma_matches(record: Seq<Attribute>, items: Seq<Element>)
    requires
        all_identifiers(items),
    ensures
        search_pattern(Element::Sequence(items)) matches Ok(uuids) && (service_matches(
            record,
            uuids,
        ) <==> has_one_of(record, items)),
{
    law_pattern_is_its_items(Element::Sequence(items));
    let uuids = search_pattern(Element::Sequence(items))->Ok_0;
    assert forall|j: int| 0 <= j < uuids.len() implies items[j] == Element::Uuid(
        #[trigger] uuids[j],
    ) by {}
    if service_matches(record, uuids) {
        let j = choose|j: int|
            0 <= j < uuids.len() && service_mentions(record, #[trigger] uuids[j]);
        law_every_attribute_is_looked_at(record, uuids[j]);
        let i = choose|i: int|
            0 <= i < record.len() && leads_to((#[trigger] record[i]).value, uuids[j]);
        assert(items[j] == Element::Uuid(uuids[j]) && leads_to(record[i].value, uuids[j]));
    }
    if has_one_of(record, items) {
        let (i, j, uuid) = choose|i: int, j: int, uuid: Uuid|
            0 <= i < record.len() && 0 <= j < items.len() && #[trigger] items[j] == Element::Uuid(
                uuid,
            ) && #[trigger] leads_to(record[i].value, uuid);
        assert(uuids[j] == uuid);
        assert(leads_to(record[i].value, uuid));
        law_every_attribute_is_looked_at(record, uuid);
        assert(service_mentions(record, uuids[j]));
    }
}

/// The numbers rise from one to the next.
pub open spec fn in_rising_order(handles: Seq<u32>) -> bool {
    forall|i: int, j: int|
        0 <= i < j < handles.len() ==> (#[trigger] handles[i]) < (#[trigger] handles[j])
}

/// The records that match a pattern are those that have one of its items, in the rising order of
/// their handles. In particular a record is among them as soon as any one of its attributes has any
/// one of the items.
pub proof fn law_records_with_one_of_the_items_match(
    records: Map<u32, Seq<Attribute>>,
    uuids: Seq<Uuid>,
)
    ensures
        in_rising_order(matching_handles(records, uuids)),
        forall|h: u32| #[trigger]
            matching_handles(records, uuids).contains(h) <==> records.contains_key(h)
                && has_one_of(records[h], uuids.map_values(|uuid: Uuid| Element::Uuid(uuid))),
        forall|h: u32, i: int, j: int|
            records.contains_key(h) && 0 <= i < records[h].len() && 0 <= j < uuids.len()
                && #[trigger] mentions((#[trigger] records[h][i]).value, uuids[j])
                ==> matching_handles(records, uuids).contains(h),
{
    let items = uuids.map_values(|uuid: Uuid| Element::Uuid(uuid));
    let found = search_pattern(Element::Sequence(items))->Ok_0;
    law_search_finds_what_matches(records, uuids);
    law_pattern_is_its_items(Element::Sequence(items));
    assert(found =~= uuids) by {
        assert forall|j: int| 0 <= j < uuids.len() implies found[j] == uuids[j] by {
            assert(items[j] == Element::Uuid(uuids[j]));
        }
    }
    assert forall|h: u32| #[trigger]
        matching_handles(records, uuids).contains(h) <==> records.contains_key(h) && has_one_of(
            records[h],
            items,
        ) by {
        lemma_matches(records[h], items);
    }
    assert forall|h: u32, i: int, j: int|
        records.contains_key(h) && 0 <= i < records[h].len() && 0 <= j < uuids.len()
            && #[trigger] mentions((#[trigger] records[h][i]).value, uuids[j]) implies
        matching_handles(records, uuids).contains(h) by {
        law_identifiers_are_found_at_any_depth(records[h][i].value, uuids[j]);
        assert(items[j] == Element::Uuid(uuids[j]) && leads_to(records[h][i].value, uuids[j]));
    }
}

/// A search is answered with the handles of the records that have one of the items of its pattern,
/// in rising order, up to as many as the client takes: one that is left out comes after all that
/// are listed. Both counts are the number of handles listed. What was left over stays.
pub proof fn law_search_is_answered(
    records: Map<u32, Seq<Attribute>>,
    pending: Seq<u8>,
    items: Seq<Element>,
    maximum: u16,
)
    requires
        all_identifiers(items),
    ensures
        ({
            let request = Request::Search {
                patterns: Element::Sequence(items),
                maximum,
                continuation: ContinuationState::Absent,
            };
            &&& pending_after(records, pending, request) == pending
            &&& answer(records, pending, request) matches Ok(
                Response::Search { total, current, handles, continuation },
            ) && {
                &&& continuation == ContinuationState::Absent
                &&& total == handles.len()
                &&& current == handles.len()
                &&& handles.len() <= maximum
                &&& in_rising_order(handles)
                &&& forall|h: u32| #[trigger]
                    handles.contains(h) ==> records.contains_key(h) && has_one_of(
                        records[h],
                        items,
                    )
                &&& forall|h: u32|
                    #![trigger records.contains_key(h)]
                    records.contains_key(h) && has_one_of(records[h], items) && !handles.contains(
                        h,
                    ) ==> handles.len() == maximum && forall|k: int|
                        0 <= k < handles.len() ==> (#[trigger] handles[k]) < h
            }
        }),
{
    let uuids = search_pattern(Element::Sequence(items))->Ok_0;
    law_pattern_is_its_items(Element::Sequence(items));
    law_records_with_one_of_the_items_match(records, uuids);
    let all = matching_handles(records, uuids);
    assert(items =~= uuids.map_values(|uuid: Uuid| Element::Uuid(uuid)));
    let handles = if all.len() <= maximum {
        all
    } else {
        all.take(maximum as int)
    };
    assert forall|h: u32| #[trigger] handles.contains(h) implies records.contains_key(h)
        && has_one_of(records[h], items) by {
        let k = handles.index_of(h);
        assert(all[k] == h);
        assert(all.contains(h));
    }
    assert forall|h: u32|
        #![trigger records.contains_key(h)]
        records.contains_key(h) && has_one_of(records[h], items) && !handles.contains(
            h,
        ) implies handles.len() == maximum && forall|k: int|
        0 <= k < handles.len() ==> (#[trigger] handles[k]) < h by {
        assert(all.contains(h));
        let at = all.index_of(h);
        if at < handles.len() {
            assert(handles[at] == h);
        }
        assert forall|k: int| 0 <= k < handles.len() implies (#[trigger] handles[k]) < h by {
            assert(all[k] < all[at]);
        }
    }
}

/// An entry of an id list asks for an id: the entry is the id, or a range, with its first id in the
/// upper half and its last one in the lower half, that takes in the id. A range takes in both its
/// ends.
pub open spec fn entry_asks_for(entry: Element, id: u16) -> bool {
    match entry {
        Element::U16(n) => n == id,
        Element::U32(n) => n / 0x1_0000 <= id <= n % 0x1_0000,
        _ => false,
    }
}

/// One of the entries asks for the id.
pub open spec fn asked_for(entries: Seq<Element>, id: u16) -> bool {
    exists|i: int| 0 <= i < entries.len() && entry_asks_for(#[trigger] entries[i], id)
}

/// Every entry is an id or a range.
pub open spec fn all_entries(entries: Seq<Element>) -> bool {
    forall|i: int|
        0 <= i < entries.len() ==> (#[trigger] entries[i]) is U16 || entries[i] is U32
}

/// The element is a sequence of ids and ranges.
pub open spec fn is_id_list(list: Element) -> bool {
    match list {
        Element::Sequence(entries) => all_entries(entries),
        _ => false,
    }
}

/// Some range takes in the id. A range takes in its first id and all up to its last one, and the
/// last one too unless the range has been used up.
pub open spec fn taken_in(ranges: Seq<RangeInclusiveView<u16>>, id: u16) -> bool {
    exists|i: int|
        0 <= i < ranges.len() && (#[trigger] ranges[i]).start <= id && (id < ranges[i].end || (id
            == ranges[i].end && !ranges[i].exhausted))
}

/// An id lies within ranges if and only if one of them, wherever it stands, takes it in.
pub proof fn law_ranges_take_in_their_ends(ranges: Seq<RangeInclusiveView<u16>>, id: u16)
    ensures
        in_ranges(ranges, id) <==> taken_in(ranges, id),
{
    if in_ranges(ranges, id) {
        let i = choose|i: int| 0 <= i < ranges.len() && covers(#[trigger] ranges[i], id);
        assert(ranges[i].start <= id);
    }
    if taken_in(ranges, id) {
        let i = choose|i: int|
            0 <= i < ranges.len() && (#[trigger] ranges[i]).start <= id && (id < ranges[i].end || (
            id == ranges[i].end && !ranges[i].exhausted));
        assert(covers(ranges[i], id));
    }
}

/// An entry that is an id asks for that id and no other.
pub proof fn law_id_asks_for_itself(id: u16, other: u16)
    ensures
        attribute_id_ranges(Element::Sequence(seq![Element::U16(id)])) matches Ok(ranges) && (
        in_ranges(ranges, other) <==> other == id),
{
    law_id_list_asks_for_its_entries(Element::Sequence(seq![Element::U16(id)]));
    let entries = seq![Element::U16(id)];
    let ranges = attribute_id_ranges(Element::Sequence(entries))->Ok_0;
    assert(entries[0] == Element::U16(id));
    assert(in_ranges(ranges, other) <==> asked_for(entries, other));
}

/// An entry that is a range asks for its first id, its last id and those in between, and for no
/// other.
pub proof fn law_range_asks_for_what_lies_between(start: u16, end: u16, id: u16)
    ensures
        attribute_id_ranges(
            Element::Sequence(seq![Element::U32((start * 0x1_0000 + end) as u32)]),
        ) matches Ok(ranges) && (in_ranges(ranges, id) <==> start <= id <= end),
{
    let n = (start * 0x1_0000 + end) as u32;
    let entries = seq![Element::U32(n)];
    law_id_list_asks_for_its_entries(Element::Sequence(entries));
    let ranges = attribute_id_ranges(Element::Sequence(entries))->Ok_0;
    assert(entries[0] == Element::U32(n));
    assert(n / 0x1_0000 == start && n % 0x1_0000 == end);
    assert(in_ranges(ranges, id) <==> asked_for(entries, id));
}

/// An id list asks for what its entries ask for, each in its place. What is no sequence of ids and
/// ranges is of the wrong type.
pub proof fn law_id_list_asks_for_its_entries(list: Element)
    ensures
        match attribute_id_ranges(list) {
            Ok(ranges) => list matches Element::Sequence(entries) && {
                &&& all_entries(entries)
                &&& entries.len() == ranges.len()
                &&& forall|i: int|
                    0 <= i < ranges.len() ==> match #[trigger] entries[i] {
                        Element::U16(id) => ranges[i].start == id && ranges[i].end == id,
                        Element::U32(n) => n == ranges[i].start * 0x1_0000 + ranges[i].end,
                        _ => false,
                    }
                &&& forall|i: int| 0 <= i < ranges.len() ==> !(#[trigger] ranges[i]).exhausted
                &&& forall|id: u16| #[trigger] in_ranges(ranges, id) <==> asked_for(entries, id)
            },
            Err(e) => !is_id_list(list) && e == Error::UnexpectedDataType,
        },
{
    if let Element::Sequence(entries) = list {
        if let Ok(ranges) = attribute_id_ranges(list) {
            assert forall|i: int| 0 <= i < ranges.len() implies match #[trigger] entries[i] {
                Element::U16(id) => ranges[i].start == id && ranges[i].end == id,
                Element::U32(n) => n == ranges[i].start * 0x1_0000 + ranges[i].end,
                _ => false,
            } && !ranges[i].exhausted by {}
            assert forall|id: u16| #[trigger] in_ranges(ranges, id) <==> asked_for(
                entries,
                id,
            ) by {
                law_ranges_take_in_their_ends(ranges, id);
                if taken_in(ranges, id) {
                    let i = choose|i: int|
                        0 <= i < ranges.len() && (#[trigger] ranges[i]).start <= id && (id
                            < ranges[i].end || (id == ranges[i].end && !ranges[i].exhausted));
                    assert(entry_asks_for(entries[i], id));
                }
                if asked_for(entries, id) {
                    let i = choose|i: int|
                        0 <= i < entries.len() && entry_asks_for(#[trigger] entries[i], id);
                    assert(ranges[i].start <= id);
                }
            }
        }
    }
}

/// `picked` are the attributes of the record that are asked for and have a value, all of them and
/// no other, in the rising order of their ids.
pub open spec fn are_picked(
    picked: Seq<Attribute>,
    record: Seq<Attribute>,
    asked: spec_fn(u16) -> bool,
) -> bool {
    &&& forall|i: int, j: int|
        0 <= i < j < picked.len() ==> (#[trigger] picked[i]).id < (#[trigger] picked[j]).id
    &&& forall|a: Attribute| #[trigger]
        picked.contains(a) <==> record.contains(a) && asked(a.id) && !(a.value is Nil)
}

/// The element is the sequence of the id and the value of each attribute in turn.
pub open spec fn spells_out(list: Element, picked: Seq<Attribute>) -> bool {
    list matches Element::Sequence(items) && {
        &&& items.len() == 2 * picked.len()
        &&& forall|i: int|
            0 <= i < picked.len() ==> items[2 * i] == Element::U16((#[trigger] picked[i]).id)
                && items[2 * i + 1] == picked[i].value
    }
}

/// The element lists the attributes of the record that are asked for and have a value, and nothing
/// else.
pub open spec fn lists(list: Element, record: Seq<Attribute>, asked: spec_fn(u16) -> bool) -> bool {
    exists|picked: Seq<Attribute>| #[trigger]
        are_picked(picked, record, asked) && spells_out(list, picked)
}

/// The element lists the attributes of the record that one of the entries asks for and that have a
/// value, and nothing else.
pub open spec fn lists_asked(
    list: Element,
    record: Seq<Attribute>,
    entries: Seq<Element>,
) -> bool {
    lists(list, record, |id: u16| asked_for(entries, id))
}

/// The ids rise from one attribute to the next.
pub open spec fn in_order_of_ids(record: Seq<Attribute>) -> bool {
    forall|i: int, j: int|
        0 <= i < j < record.len() ==> (#[trigger] record[i]).id < (#[trigger] record[j]).id
}

/// What is picked out of a record by ranges: the attributes whose ids one of the ranges takes in,
/// with or without a value, in the order of the record.
pub proof fn law_ranges_pick_attributes(
    record: Seq<Attribute>,
    ranges: Seq<RangeInclusiveView<u16>>,
)
    requires
        in_order_of_ids(record),
    ensures
        in_order_of_ids(selected(record, ranges)),
        forall|a: Attribute| #[trigger]
            selected(record, ranges).contains(a) <==> record.contains(a) && taken_in(ranges, a.id),
{
    let wanted = |a: Attribute| in_ranges(ranges, a.id);
    let some = selected(record, ranges);
    law_filter_keeps_order(record, wanted);
    assert forall|a: Attribute| #[trigger] some.contains(a) <==> record.contains(a) && taken_in(
        ranges,
        a.id,
    ) by {
        law_ranges_take_in_their_ends(ranges, a.id);
        if some.contains(a) {
            let i = some.index_of(a);
            assert(record.contains(some[i]) && wanted(some[i]));
        }
        if record.contains(a) && in_ranges(ranges, a.id) {
            let i = record.index_of(a);
            assert(wanted(record[i]));
        }
    }
}

/// The attribute list of a record lists the attributes whose ids one of the ranges takes in and
/// that have a value, and nothing else.
pub proof fn law_attribute_list_lists(
    record: Seq<Attribute>,
    ranges: Seq<RangeInclusiveView<u16>>,
)
    requires
        in_order_of_ids(record),
    ensures
        lists(attribute_list(record, ranges), record, |id: u16| taken_in(ranges, id)),
{
    let picked = with_value(selected(record, ranges));
    let asked = |id: u16| taken_in(ranges, id);
    law_attributes_are_selected(record, ranges);
    law_list_alternates(picked);
    assert forall|a: Attribute| #[trigger] picked.contains(a) <==> record.contains(a) && asked(a.id)
        && !(a.value is Nil) by {
        law_ranges_take_in_their_ends(ranges, a.id);
    }
    assert(are_picked(picked, record, asked));
    assert(spells_out(attribute_list(record, ranges), picked));
}

/// What the attribute list of a record lists for the ranges of an id list.
proof fn lemma_list_for_entries(record: Seq<Attribute>, entries: Seq<Element>)
    requires
        in_order_of_ids(record),
        all_entries(entries),
    ensures
        attribute_id_ranges(Element::Sequence(entries)) matches Ok(ranges) && lists_asked(
            attribute_list(record, ranges),
            record,
            entries,
        ),
{
    law_id_list_asks_for_its_entries(Element::Sequence(entries));
    let ranges = attribute_id_ranges(Element::Sequence(entries))->Ok_0;
    let list = attribute_list(record, ranges);
    let by_ranges = |id: u16| taken_in(ranges, id);
    let by_entries = |id: u16| asked_for(entries, id);
    law_attribute_list_lists(record, ranges);
    let picked = choose|picked: Seq<Attribute>| #[trigger]
        are_picked(picked, record, by_ranges) && spells_out(list, picked);
    assert forall|id: u16| by_ranges(id) == #[trigger] by_entries(id) by {
        law_ranges_take_in_their_ends(ranges, id);
        assert(in_ranges(ranges, id) <==> asked_for(entries, id));
    }
    assert forall|a: Attribute| #[trigger] picked.contains(a) <==> record.contains(a) && by_entries(
        a.id,
    ) && !(a.value is Nil) by {
        assert(by_ranges(a.id) == by_entries(a.id));
    }
    assert(are_picked(picked, record, by_entries));
}

/// The request is answered with `octets`: the answer has the first of them, as many as the client
/// takes, and states how many; what it does not have is left over, and the answer says that there
/// is more if and only if something is left over.
pub open spec fn is_sent(
    records: Map<u32, Seq<Attribute>>,
    pending: Seq<u8>,
    request: Request,
    maximum: u16,
    octets: Seq<u8>,
) -> bool {
    let n: int = if octets.len() < maximum {
        octets.len() as int
    } else {
        maximum as int
    };
    &&& pending_after(records, pending, request) == octets.skip(n)
    &&& match answer(records, pending, request) {
        Ok(Response::Attribute { size, list, continuation }) => {
            &&& request is Attribute
            &&& size == n
            &&& list == octets.take(n)
            &&& continuation == ContinuationState::Continue <==> octets.len() > n
        },
        Ok(Response::SearchAttribute { size, list, continuation }) => {
            &&& request is SearchAttribute
            &&& size == n
            &&& list == octets.take(n)
            &&& continuation == ContinuationState::Continue <==> octets.len() > n
        },
        _ => false,
    }
}

/// A new request for attributes of a known record is answered with the list of those attributes
/// that any entry of the id list asks for and that have a value, and no other. What was left over
/// before plays no part.
pub proof fn law_attributes_are_answered(
    records: Map<u32, Seq<Attribute>>,
    pending: Seq<u8>,
    handle: u32,
    maximum: u16,
    entries: Seq<Element>,
)
    requires
        records.contains_key(handle),
        in_order_of_ids(records[handle]),
        all_entries(entries),
    ensures
        exists|list: Element| #[trigger]
            lists_asked(list, records[handle], entries) && is_sent(
                records,
                pending,
                Request::Attribute {
                    handle,
                    maximum,
                    ids: Element::Sequence(entries),
                    continuation: ContinuationState::Absent,
                },
                maximum,
                encode(list),
            ),
{
    lemma_list_for_entries(records[handle], entries);
    let ranges = attribute_id_ranges(Element::Sequence(entries))->Ok_0;
    let list = attribute_list(records[handle], ranges);
    assert(lists_asked(list, records[handle], entries));
    assert(is_sent(
        records,
        pending,
        Request::Attribute {
            handle,
            maximum,
            ids: Element::Sequence(entries),
            continuation: ContinuationState::Absent,
        },
        maximum,
        encode(list),
    ));
}

/// The record has an attribute that one of the entries asks for and that has a value.
pub open spec fn has_asked_for(record: Seq<Attribute>, entries: Seq<Element>) -> bool {
    exists|i: int|
        0 <= i < record.len() && asked_for(entries, (#[trigger] record[i]).id)
            && !(record[i].value is Nil)
}

/// `found` are the attribute lists of the records under `handles`, which are those that have one of
/// the items and something that is asked for, all of them and no other, in rising order.
pub open spec fn are_found(
    found: Seq<Element>,
    handles: Seq<u32>,
    records: Map<u32, Seq<Attribute>>,
    items: Seq<Element>,
    entries: Seq<Element>,
) -> bool {
    &&& in_rising_order(handles)
    &&& forall|h: u32| #[trigger]
        handles.contains(h) <==> records.contains_key(h) && has_one_of(records[h], items)
            && has_asked_for(records[h], entries)
    &&& found.len() == handles.len()
    &&& forall|k: int|
        0 <= k < found.len() ==> lists_asked(#[trigger] found[k], records[handles[k]], entries)
}

/// The handles whose attribute lists are not empty.
spec fn with_lists(
    records: Map<u32, Seq<Attribute>>,
    handles: Seq<u32>,
    ranges: Seq<RangeInclusiveView<u16>>,
) -> Seq<u32>
    decreases handles.len(),
{
    if handles.len() == 0 {
        Seq::empty()
    } else {
        let front = with_lists(records, handles.drop_last(), ranges);
        if attribute_list(records[handles.last()], ranges) == Element::Sequence(Seq::empty()) {
            front
        } else {
            front.push(handles.last())
        }
    }
}

/// The lists that are not empty are those of the handles whose lists are not empty, in their order.
proof fn lemma_with_lists(
    records: Map<u32, Seq<Attribute>>,
    handles: Seq<u32>,
    ranges: Seq<RangeInclusiveView<u16>>,
)
    requires
        in_rising_order(handles),
    ensures
        ({
            let kept = with_lists(records, handles, ranges);
            let found = nonempty_lists(records, handles, ranges);
            &&& in_rising_order(kept)
            &&& forall|h: u32| #[trigger]
                kept.contains(h) <==> handles.contains(h) && attribute_list(records[h], ranges)
                    != Element::Sequence(Seq::empty())
            &&& found.len() == kept.len()
            &&& forall|k: int|
                0 <= k < found.len() ==> #[trigger] found[k] == attribute_list(
                    records[kept[k]],
                    ranges,
                )
        }),
    decreases handles.len(),
{
    if handles.len() > 0 {
        let front = handles.drop_last();
        let last = handles.last();
        let fewer = with_lists(records, front, ranges);
        let kept = with_lists(records, handles, ranges);
        let found = nonempty_lists(records, handles, ranges);
        assert forall|i: int, j: int| 0 <= i < j < front.len() implies (#[trigger] front[i]) < (
        #[trigger] front[j]) by {
            assert(handles[i] < handles[j]);
        }
        lemma_with_lists(records, front, ranges);
        assert forall|h: u32| #[trigger] kept.contains(h) <==> handles.contains(h)
            && attribute_list(records[h], ranges) != Element::Sequence(Seq::empty()) by {
            assert(handles.contains(h) <==> front.contains(h) || h == last) by {
                if handles.contains(h) {
                    let k = handles.index_of(h);
                    if k < front.len() {
                        assert(front[k] == h);
                    }
                }
                if front.contains(h) {
                    let k = front.index_of(h);
                    assert(handles[k] == h);
                }
                assert(handles[handles.len() - 1] == last);
            }
            assert(kept.contains(h) <==> fewer.contains(h) || (h == last && kept != fewer)) by {
                if kept != fewer {
                    if kept.contains(h) {
                        let k = kept.index_of(h);
                        if k < fewer.len() {
                            assert(fewer[k] == h);
                        }
                    }
                    if fewer.contains(h) {
                        let k = fewer.index_of(h);
                        assert(kept[k] == h);
                    }
                    assert(kept[kept.len() - 1] == last);
                }
            }
            if kept == fewer {
                if attribute_list(records[last], ranges) != Element::Sequence(Seq::empty()) {
                    assert(kept.len() == fewer.len() + 1);
                }
            }
        }
        assert forall|i: int, j: int| 0 <= i < j < kept.len() implies (#[trigger] kept[i]) < (
        #[trigger] kept[j]) by {
            if j < fewer.len() {
                assert(fewer[i] < fewer[j]);
            } else {
                assert(fewer.contains(fewer[i]));
                let k = front.index_of(fewer[i]);
                assert(handles[k] < handles[handles.len() - 1]);
            }
        }
    }
}

/// A list is empty if and only if nothing is asked for.
proof fn lemma_empty_list(list: Element, record: Seq<Attribute>, entries: Seq<Element>)
    requires
        lists_asked(list, record, entries),
    ensures
        list == Element::Sequence(Seq::empty()) <==> !has_asked_for(record, entries),
{
    let asked = |id: u16| asked_for(entries, id);
    let picked = choose|picked: Seq<Attribute>| #[trigger]
        are_picked(picked, record, asked) && spells_out(list, picked);
    if let Element::Sequence(items) = list {
        assert(items.len() == 0 ==> items =~= Seq::empty());
        if picked.len() > 0 {
            let a = picked[0];
            assert(picked.contains(a));
            let i = record.index_of(a);
            assert(asked(record[i].id));
            assert(asked_for(entries, record[i].id));
        }
        if has_asked_for(record, entries) {
            let i = choose|i: int|
                0 <= i < record.len() && asked_for(entries, (#[trigger] record[i]).id)
                    && !(record[i].value is Nil);
            assert(asked(record[i].id));
            assert(record.contains(record[i]));
            assert(picked.contains(record[i]));
        }
    }
}

/// A new search for attributes is answered with the attribute lists of the records that have any of
/// the items of the pattern and anything that the id list asks for, all of them and no other, in
/// the rising order of their handles. What was left over before plays no part.
pub proof fn law_search_for_attributes_is_answered(
    records: Map<u32, Seq<Attribute>>,
    pending: Seq<u8>,
    items: Seq<Element>,
    maximum: u16,
    entries: Seq<Element>,
)
    requires
        forall|h: u32| #[trigger] records.contains_key(h) ==> in_order_of_ids(records[h]),
        all_identifiers(items),
        all_entries(entries),
    ensures
        exists|found: Seq<Element>, handles: Seq<u32>| #[trigger]
            are_found(found, handles, records, items, entries) && is_sent(
                records,
                pending,
                Request::SearchAttribute {
                    patterns: Element::Sequence(items),
                    maximum,
                    ids: Element::Sequence(entries),
                    continuation: ContinuationState::Absent,
                },
                maximum,
                encode(Element::Sequence(found)),
            ),
{
    let uuids = search_pattern(Element::Sequence(items))->Ok_0;
    law_pattern_is_its_items(Element::Sequence(items));
    law_records_with_one_of_the_items_match(records, uuids);
    assert(items =~= uuids.map_values(|uuid: Uuid| Element::Uuid(uuid)));
    law_id_list_asks_for_its_entries(Element::Sequence(entries));
    let ranges = attribute_id_ranges(Element::Sequence(entries))->Ok_0;
    let matching = matching_handles(records, uuids);
    let handles = with_lists(records, matching, ranges);
    let found = nonempty_lists(records, matching, ranges);
    lemma_with_lists(records, matching, ranges);
    assert forall|h: u32| #[trigger] handles.contains(h) <==> records.contains_key(h) && has_one_of(
        records[h],
        items,
    ) && has_asked_for(records[h], entries) by {
        assert(matching.contains(h) <==> records.contains_key(h) && has_one_of(records[h], items));
        if records.contains_key(h) {
            lemma_list_for_entries(records[h], entries);
            lemma_empty_list(attribute_list(records[h], ranges), records[h], entries);
        }
    }
    assert forall|k: int| 0 <= k < found.len() implies lists_asked(
        #[trigger] found[k],
        records[handles[k]],
        entries,
    ) by {
        assert(handles.contains(handles[k]));
        lemma_list_for_entries(records[handles[k]], entries);
    }
    assert(are_found(found, handles, records, items, entries));
    assert(is_sent(
        records,
        pending,
        Request::SearchAttribute {
            patterns: Element::Sequence(items),
            maximum,
            ids: Element::Sequence(entries),
            continuation: ContinuationState::Absent,
        },
        maximum,
        encode(Element::Sequence(found)),
    ));
}

/// A request to go on is answered with what is left over, whatever else it says. Where nothing is
/// left over it is refused.
pub proof fn law_going_on_sends_what_is_left(
    records: Map<u32, Seq<Attribute>>,
    pending: Seq<u8>,
    handle: u32,
    patterns: Element,
    maximum: u16,
    ids: Element,
)
    ensures
        ({
            let of_record = Request::Attribute {
                handle,
                maximum,
                ids,
                continuation: ContinuationState::Continue,
            };
            let of_search = Request::SearchAttribute {
                patterns,
                maximum,
                ids,
                continuation: ContinuationState::Continue,
            };
            if pending.len() > 0 {
                &&& is_sent(records, pending, of_record, maximum, pending)
                &&& is_sent(records, pending, of_search, maximum, pending)
            } else {
                let refused = Err::<Response, Error>(Error::InvalidContinuationState);
                &&& answer(records, pending, of_record) == refused
                &&& answer(records, pending, of_search) == refused
                &&& pending_after(records, pending, of_record).len() == 0
                &&& pending_after(records, pending, of_search).len() == 0
            }
        }),
{
}

/// A search is refused if it asks to go on, or else if its pattern is no sequence of identifiers,
/// and for no other reason.
pub proof fn law_refused_searches(
    records: Map<u32, Seq<Attribute>>,
    pending: Seq<u8>,
    patterns: Element,
    maximum: u16,
    continuation: ContinuationState,
)
    ensures
        ({
            let request = Request::Search { patterns, maximum, continuation };
            &&& pending_after(records, pending, request) == pending
            &&& if continuation == ContinuationState::Continue {
                answer(records, pending, request) == Err::<Response, Error>(
                    Error::InvalidContinuationState,
                )
            } else if !is_pattern(patterns) {
                answer(records, pending, request) == Err::<Response, Error>(
                    Error::UnexpectedDataType,
                )
            } else {
                answer(records, pending, request) is Ok
            }
        }),
{
    law_pattern_is_its_items(patterns);
}

/// A new request for attributes is refused if its id list is none, or else if there is no record
/// under its handle, and for no other reason. Nothing is left over after a refusal.
pub proof fn law_refused_requests_for_attributes(
    records: Map<u32, Seq<Attribute>>,
    pending: Seq<u8>,
    handle: u32,
    maximum: u16,
    ids: Element,
)
    ensures
        ({
            let request = Request::Attribute {
                handle,
                maximum,
                ids,
                continuation: ContinuationState::Absent,
            };
            &&& if !is_id_list(ids) {
                answer(records, pending, request) == Err::<Response, Error>(
                    Error::UnexpectedDataType,
                )
            } else if !records.contains_key(handle) {
                answer(records, pending, request) == Err::<Response, Error>(
                    Error::UnknownServiceRecordHandle(handle),
                )
            } else {
                answer(records, pending, request) is Ok
            }
            &&& answer(records, pending, request) is Err ==> pending_after(
                records,
                pending,
                request,
            ).len() == 0
        }),
{
    law_id_list_asks_for_its_entries(ids);
}

/// A new search for attributes is refused if its pattern is no sequence of identifiers or its id
/// list is none, and for no other reason. Nothing is left over after a refusal.
pub proof fn law_refused_searches_for_attributes(
    records: Map<u32, Seq<Attribute>>,
    pending: Seq<u8>,
    patterns: Element,
    maximum: u16,
    ids: Element,
)
    ensures
        ({
            let request = Request::SearchAttribute {
                patterns,
                maximum,
                ids,
                continuation: ContinuationState::Absent,
            };
            &&& if !is_pattern(patterns) || !is_id_list(ids) {
                answer(records, pending, request) == Err::<Response, Error>(
                    Error::UnexpectedDataType,
                )
            } else {
                answer(records, pending, request) is Ok
            }
            &&& answer(records, pending, request) is Err ==> pending_after(
                records,
                pending,
                request,
            ).len() == 0
        }),
{
    law_pattern_is_its_items(patterns);
    law_id_list_asks_for_its_entries(ids);
}

} // verus!
