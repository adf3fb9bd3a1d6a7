//! What a request asks for, and the attributes that it gets.

use std::ops::RangeInclusive;
use vstd::prelude::*;
use vstd::std_specs::range::RangeInclusiveView;
use crate::data_element::{elements, DataElement, Element, Uuid};
use crate::error::Error;
use crate::service::{range_models, selected, Attribute, Service, ServiceAttribute};

verus! {

/// The identifiers that a search pattern lists: a sequence of identifiers and nothing else.
pub open spec fn search_pattern(pattern: Element) -> Result<Seq<Uuid>, Error> {
    match pattern {
        Element::Sequence(items) => if forall|i: int|
            0 <= i < items.len() ==> (#[trigger] items[i]) is Uuid {
            Ok(items.map_values(|item: Element| item->Uuid_0))
        } else {
            Err(Error::UnexpectedDataType)
        },
        _ => Err(Error::UnexpectedDataType),
    }
}

/// The attribute ids that an entry of an id list stands for: one id, or a range with its first id
/// in the upper half of the number and its last id in the lower half.
pub open spec fn id_range(item: Element) -> Option<RangeInclusiveView<u16>> {
    match item {
        Element::U16(id) => Some(RangeInclusiveView { start: id, end: id, exhausted: false }),
        Element::U32(range) => Some(
            RangeInclusiveView {
                start: (range / 0x1_0000) as u16,
                end: (range % 0x1_0000) as u16,
                exhausted: false,
            },
        ),
        _ => None,
    }
}

/// The ranges that an id list is made of: a sequence of ids and ranges and nothing else.
pub open spec fn attribute_id_ranges(list: Element) -> Result<
    Seq<RangeInclusiveView<u16>>,
    Error,
> {
    match list {
        Element::Sequence(items) => if forall|i: int|
            0 <= i < items.len() ==> id_range(#[trigger] items[i]) is Some {
            Ok(items.map_values(|item: Element| id_range(item)->0))
        } else {
            Err(Error::UnexpectedDataType)
        },
        _ => Err(Error::UnexpectedDataType),
    }
}

/// The attributes that have a value.
pub open spec fn with_value(attributes: Seq<Attribute>) -> Seq<Attribute> {
    attributes.filter(|a: Attribute| a.value != Element::Nil)
}

/// The id and the value of each attribute, one after the other.
pub open spec fn listed(attributes: Seq<Attribute>) -> Seq<Element>
    decreases attributes.len(),
{
    if attributes.len() == 0 {
        Seq::empty()
    } else {
        listed(attributes.drop_last()) + seq![
            Element::U16(attributes.last().id),
            attributes.last().value,
        ]
    }
}

/// The list of the attributes of a record that lie within the ranges and have a value.
pub open spec fn attribute_list(
    service: Seq<Attribute>,
    ranges: Seq<RangeInclusiveView<u16>>,
) -> Element {
    Element::Sequence(listed(with_value(selected(service, ranges))))
}

/// The list of attributes of `service` whose ids lie within the ranges and that have a value: the
/// id and the value of each, in the order of the record.
pub fn collect_attributes(service: &Service, attribute_id_list: &[RangeInclusive<u16>]) -> (r:
    DataElement)
    ensures
        r@ == attribute_list(service@, range_models(attribute_id_list@)),
{
    let found = service.attributes(attribute_id_list);
    let ghost models = found@.map_values(|a: &ServiceAttribute| a@);
    let ghost valued = |a: Attribute| a.value != Element::Nil;
    let mut items: Vec<DataElement> = Vec::new();
    let mut i: usize = 0;
    proof {
        reveal(Seq::filter);
        assert(models.take(0).filter(valued) =~= Seq::empty());
        assert(elements(items@) =~= Seq::empty());
    }
    while i < found.len()
        invariant
            i <= found@.len(),
            models == found@.map_values(|a: &ServiceAttribute| a@),
            valued == (|a: Attribute| a.value != Element::Nil),
            elements(items@) == listed(models.take(i as int).filter(valued)),
        decreases found@.len() - i,
    {
        let attribute = found[i];
        let ghost before = models.take(i as int).filter(valued);
        let ghost held = elements(items@);
        proof {
            reveal(Seq::filter);
            assert(models.take(i + 1).drop_last() =~= models.take(i as int));
            assert(models.take(i + 1).last() == attribute@);
        }
        match &attribute.value {
            DataElement::Nil => {},
            value => {
                items.push(DataElement::U16(attribute.id));
                items.push(value.clone());
                proof {
                    assert(elements(items@) =~= held + seq![
                        Element::U16(attribute.id),
                        attribute.value@,
                    ]);
                    assert(before.push(attribute@).drop_last() =~= before);
                }
            },
        }
        i = i + 1;
    }
    assert(models.take(i as int) =~= models);
    DataElement::Sequence(items)
}

/// The identifiers that a search pattern lists.
pub fn convert_search_pattern(pattern: DataElement) -> (r: Result<Vec<Uuid>, Error>)
    ensures
        match search_pattern(pattern@) {
            Ok(uuids) => r is Ok && r->Ok_0@ == uuids,
            Err(e) => r is Err && r->Err_0 == e,
        },
{
    let items = match pattern.as_sequence() {
        Ok(items) => items,
        Err(e) => {
            return Err(e);
        },
    };
    let ghost models = elements(items@);
    let mut uuids: Vec<Uuid> = Vec::new();
    let mut i: usize = 0;
    while i < items.len()
        invariant
            i <= items@.len(),
            models == elements(items@),
            pattern@ == Element::Sequence(models),
            uuids@.len() == i,
            forall|k: int|
                0 <= k < i ==> (#[trigger] models[k]) is Uuid && uuids@[k] == models[k]->Uuid_0,
        decreases items@.len() - i,
    {
        assert(models[i as int] == items@[i as int]@);
        match items[i].as_uuid() {
            Ok(uuid) => {
                uuids.push(uuid);
            },
            Err(e) => {
                return Err(e);
            },
        }
        i = i + 1;
    }
    assert(uuids@ =~= models.map_values(|item: Element| item->Uuid_0));
    Ok(uuids)
}

/// The ranges that an id list is made of.
pub fn convert_attribute_id_list(list: DataElement) -> (r: Result<
    Vec<RangeInclusive<u16>>,
    Error,
>)
    ensures
        match attribute_id_ranges(list@) {
            Ok(ranges) => r is Ok && range_models(r->Ok_0@) == ranges,
            Err(e) => r is Err && r->Err_0 == e,
        },
{
    let items = match list.as_sequence() {
        Ok(items) => items,
        Err(e) => {
            return Err(e);
        },
    };
    let ghost models = elements(items@);
    let mut ranges: Vec<RangeInclusive<u16>> = Vec::new();
    let mut i: usize = 0;
    while i < items.len()
        invariant
            i <= items@.len(),
            models == elements(items@),
            list@ == Element::Sequence(models),
            ranges@.len() == i,
            forall|k: int|
                0 <= k < i ==> id_range(#[trigger] models[k]) == Some(ranges@[k]@),
        decreases items@.len() - i,
    {
        assert(models[i as int] == items@[i as int]@);
        match &items[i] {
            DataElement::U16(id) => {
                ranges.push(RangeInclusive::new(*id, *id));
            },
            DataElement::U32(range) => {
                let n: u32 = *range;
                assert(n >> 16 == n / 0x1_0000 && n >> 16 <= 0xffff) by (bit_vector);
                assert(n & 0xffff == n % 0x1_0000 && n & 0xffff <= 0xffff) by (bit_vector);
                let start: u16 = (n >> 16) as u16;
                let end: u16 = (n & 0xffff) as u16;
                ranges.push(RangeInclusive::new(start, end));
            },
            _ => {
                assert(id_range(models[i as int]) is None);
                return Err(Error::UnexpectedDataType);
            },
        }
        i = i + 1;
    }
    assert(range_models(ranges@) =~= models.map_values(|item: Element| id_range(item)->0));
    Ok(ranges)
}

} // verus!
