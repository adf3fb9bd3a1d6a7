//! Service records and their attributes.

use vstd::prelude::*;
use vstd::std_specs::range::RangeInclusiveView;
use std::ops::RangeInclusive;
use crate::data_element::{mentions, DataElement, Element, Uuid};

verus! {

/// What an attribute of a service record says: a value under an id.
pub struct Attribute {
    pub id: u16,
    pub value: Element,
}

/// An attribute of a service record.
#[derive(Debug, PartialEq, Eq)]
pub struct ServiceAttribute {
    /// The attribute's id.
    pub id: u16,
    /// The attribute's value.
    pub value: DataElement,
}

impl View for ServiceAttribute {
    type V = Attribute;

    open spec fn view(&self) -> Attribute {
        Attribute { id: self.id, value: self.value@ }
    }
}

impl ServiceAttribute {
    /// The attribute that holds `value` under `id`.
    pub fn new(id: u16, value: DataElement) -> (r: ServiceAttribute)
        ensures
            r@ == (Attribute { id, value: value@ }),
    {
        ServiceAttribute { id, value }
    }
}

/// What each of the attributes says.
pub open spec fn attribute_models(attributes: Seq<ServiceAttribute>) -> Seq<Attribute> {
    attributes.map_values(|a: ServiceAttribute| a@)
}

/// The value under each id, where of several under one id the last counts.
pub open spec fn attribute_map(attributes: Seq<Attribute>) -> Map<u16, Element>
    decreases attributes.len(),
{
    if attributes.len() == 0 {
        Map::empty()
    } else {
        attribute_map(attributes.drop_last()).insert(
            attributes.last().id,
            attributes.last().value,
        )
    }
}

/// The ids rise from one attribute to the next.
pub open spec fn ascending(attributes: Seq<Attribute>) -> bool {
    forall|i: int, j: int|
        0 <= i < j < attributes.len() ==> (#[trigger] attributes[i]).id < (
        #[trigger] attributes[j]).id
}

/// `id` lies within the range.
pub open spec fn covers(range: RangeInclusiveView<u16>, id: u16) -> bool {
    range.start <= id && (if range.exhausted {
        id < range.end
    } else {
        id <= range.end
    })
}

/// `id` lies within one of the ranges.
pub open spec fn in_ranges(ranges: Seq<RangeInclusiveView<u16>>, id: u16) -> bool {
    exists|i: int| 0 <= i < ranges.len() && covers(#[trigger] ranges[i], id)
}

/// What each of the ranges is.
pub open spec fn range_models(ranges: Seq<RangeInclusive<u16>>) -> Seq<RangeInclusiveView<u16>> {
    ranges.map_values(|r: RangeInclusive<u16>| r@)
}

/// The attributes whose ids lie within one of the ranges.
pub open spec fn selected(
    attributes: Seq<Attribute>,
    ranges: Seq<RangeInclusiveView<u16>>,
) -> Seq<Attribute> {
    attributes.filter(|a: Attribute| in_ranges(ranges, a.id))
}

/// `uuid` occurs in the value of one of the attributes, at any depth.
pub open spec fn service_mentions(attributes: Seq<Attribute>, uuid: Uuid) -> bool {
    exists|i: int| 0 <= i < attributes.len() && mentions((#[trigger] attributes[i]).value, uuid)
}

/// In a sequence without repeated ids, the value under each id is the one that stands there.
proof fn lemma_attribute_map(attributes: Seq<Attribute>)
    requires
        forall|i: int, j: int|
            0 <= i < j < attributes.len() ==> (#[trigger] attributes[i]).id != (
            #[trigger] attributes[j]).id,
    ensures
        forall|i: int|
            0 <= i < attributes.len() ==> attribute_map(attributes).contains_pair(
                (#[trigger] attributes[i]).id,
                attributes[i].value,
            ),
        forall|id: u16| #[trigger]
            attribute_map(attributes).contains_key(id) ==> exists|i: int|
                0 <= i < attributes.len() && (#[trigger] attributes[i]).id == id,
    decreases attributes.len(),
{
    if attributes.len() > 0 {
        let front = attributes.drop_last();
        lemma_attribute_map(front);
        assert forall|i: int| 0 <= i < attributes.len() implies attribute_map(
            attributes,
        ).contains_pair((#[trigger] attributes[i]).id, attributes[i].value) by {
            if i < front.len() {
                assert(front[i] == attributes[i]);
            }
        }
        assert forall|id: u16| #[trigger]
            attribute_map(attributes).contains_key(id) implies exists|i: int|
            0 <= i < attributes.len() && (#[trigger] attributes[i]).id == id by {
            if id == attributes.last().id {
                assert(attributes[attributes.len() - 1].id == id);
            } else {
                assert(attribute_map(front).contains_key(id));
                let i = choose|i: int| 0 <= i < front.len() && (#[trigger] front[i]).id == id;
                assert(attributes[i].id == id);
            }
        }
    }
}

/// Putting an attribute with a new id in its place adds its value under its id.
proof fn lemma_insert(attributes: Seq<Attribute>, at: int, a: Attribute)
    requires
        ascending(attributes),
        0 <= at <= attributes.len(),
        forall|i: int| 0 <= i < at ==> (#[trigger] attributes[i]).id < a.id,
        forall|i: int| at <= i < attributes.len() ==> a.id < (#[trigger] attributes[i]).id,
    ensures
        ascending(attributes.insert(at, a)),
        attribute_map(attributes.insert(at, a)) == attribute_map(attributes).insert(a.id, a.value),
{
    let more = attributes.insert(at, a);
    assert(ascending(more));
    lemma_attribute_map(attributes);
    lemma_attribute_map(more);
    let m = attribute_map(attributes).insert(a.id, a.value);
    assert forall|id: u16| attribute_map(more).contains_key(id) == m.contains_key(id) by {
        if attribute_map(more).contains_key(id) {
            let i = choose|i: int| 0 <= i < more.len() && (#[trigger] more[i]).id == id;
            if i < at {
                assert(attributes[i] == more[i]);
            } else if i > at {
                assert(attributes[i - 1] == more[i]);
            }
        }
        if m.contains_key(id) {
            if id == a.id {
                assert(more[at].id == id);
            } else {
                let i = choose|i: int|
                    0 <= i < attributes.len() && (#[trigger] attributes[i]).id == id;
                if i < at {
                    assert(more[i].id == id);
                } else {
                    assert(more[i + 1].id == id);
                }
            }
        }
    }
    assert forall|id: u16| attribute_map(more).contains_key(id) implies attribute_map(more)[id]
        == m[id] by {
        let i = choose|i: int| 0 <= i < more.len() && (#[trigger] more[i]).id == id;
        if i < at {
            assert(attributes[i] == more[i]);
        } else if i > at {
            assert(attributes[i - 1] == more[i]);
        }
    }
    assert(attribute_map(more) =~= m);
}

/// Attributes in the order of their ids are determined by the value under each id.
pub proof fn law_record_is_determined(a: Seq<Attribute>, b: Seq<Attribute>)
    requires
        ascending(a),
        ascending(b),
        attribute_map(a) == attribute_map(b),
    ensures
        a == b,
    decreases a.len(),
{
    lemma_attribute_map(a);
    lemma_attribute_map(b);
    if a.len() > 0 {
        assert(attribute_map(b).contains_key(a.last().id));
    }
    if b.len() > 0 {
        assert(attribute_map(a).contains_key(b.last().id));
    }
    if a.len() > 0 && b.len() > 0 {
        let i = choose|i: int| 0 <= i < b.len() && (#[trigger] b[i]).id == a.last().id;
        let j = choose|j: int| 0 <= j < a.len() && (#[trigger] a[j]).id == b.last().id;
        assert(a.last().id == b.last().id) by {
            if i < b.len() - 1 {
                assert(b[i].id < b[b.len() - 1].id);
            }
            if j < a.len() - 1 {
                assert(a[j].id < a[a.len() - 1].id);
            }
        }
        assert(a.last() == b.last());
        lemma_attribute_map(a.drop_last());
        lemma_attribute_map(b.drop_last());
        let id = a.last().id;
        assert(!attribute_map(a.drop_last()).contains_key(id));
        assert(!attribute_map(b.drop_last()).contains_key(id));
        assert(attribute_map(a.drop_last()) =~= attribute_map(a).remove(id));
        assert(attribute_map(b.drop_last()) =~= attribute_map(b).remove(id));
        law_record_is_determined(a.drop_last(), b.drop_last());
        assert(a =~= a.drop_last().push(a.last()));
        assert(b =~= b.drop_last().push(b.last()));
    } else {
        assert(a =~= b);
    }
}

/// The attributes that are picked out of a record keep the order of their ids.
pub proof fn law_filter_keeps_order(attributes: Seq<Attribute>, pred: spec_fn(Attribute) -> bool)
    requires
        ascending(attributes),
    ensures
        ascending(attributes.filter(pred)),
        forall|i: int|
            0 <= i < attributes.filter(pred).len() ==> attributes.contains(
                #[trigger] attributes.filter(pred)[i],
            ) && pred(attributes.filter(pred)[i]),
        forall|i: int|
            0 <= i < attributes.len() && pred(#[trigger] attributes[i]) ==> attributes.filter(
                pred,
            ).contains(attributes[i]),
    decreases attributes.len(),
{
    reveal(Seq::filter);
    if attributes.len() > 0 {
        let front = attributes.drop_last();
        law_filter_keeps_order(front, pred);
        let all = attributes.filter(pred);
        let kept = front.filter(pred);
        assert forall|i: int| 0 <= i < all.len() implies attributes.contains(#[trigger] all[i])
            && pred(all[i]) by {
            if i < kept.len() {
                assert(all[i] == kept[i]);
                let k = front.index_of(kept[i]);
                assert(attributes[k] == all[i]);
            } else {
                assert(attributes[attributes.len() - 1] == all[i]);
            }
        }
        assert forall|i: int| 0 <= i < attributes.len() && pred(
            #[trigger] attributes[i],
        ) implies all.contains(attributes[i]) by {
            if i < front.len() {
                assert(front[i] == attributes[i]);
                let k = kept.index_of(front[i]);
                assert(all[k] == attributes[i]);
            } else {
                assert(all[all.len() - 1] == attributes[i]);
            }
        }
        assert forall|i: int, j: int| 0 <= i < j < all.len() implies (#[trigger] all[i]).id < (
        #[trigger] all[j]).id by {
            if j < kept.len() {
                assert(kept[i].id < kept[j].id);
            } else {
                let k = front.index_of(kept[i]);
                assert(attributes[k].id < attributes[attributes.len() - 1].id);
            }
        }
    }
}

/// A service record: attributes in the order of their ids.
#[derive(Debug, PartialEq, Eq)]
pub struct Service {
    attributes: Vec<ServiceAttribute>,
}

impl View for Service {
    type V = Seq<Attribute>;

    closed spec fn view(&self) -> Seq<Attribute> {
        attribute_models(self.attributes@)
    }
}

impl Service {
    /// The ids rise from one attribute to the next.
    #[verifier::type_invariant]
    pub closed spec fn well_formed(self) -> bool {
        ascending(self@)
    }

    /// The attributes of a record stand in the order of their ids.
    pub proof fn lemma_ascends(self)
        requires
            self.well_formed(),
        ensures
            ascending(self@),
    {
    }

    /// The record with these attributes, put in the order of their ids. Where an id occurs more
    /// than once, the last attribute with it counts.
    pub fn from_attributes(attributes: Vec<ServiceAttribute>) -> (r: Service)
        ensures
            ascending(r@),
            attribute_map(r@) == attribute_map(attribute_models(attributes@)),
    {
        let mut left: Vec<ServiceAttribute> = attributes;
        let mut sorted: Vec<ServiceAttribute> = Vec::new();
        let ghost given = attribute_models(attributes@);
        let ghost goal = attribute_map(given);
        assert(attribute_models(sorted@) =~= Seq::empty());
        assert(attribute_map(given).union_prefer_right(Map::empty()) =~= goal);
        while left.len() > 0
            invariant
                ascending(attribute_models(sorted@)),
                goal == attribute_map(attribute_models(left@)).union_prefer_right(
                    attribute_map(attribute_models(sorted@)),
                ),
            decreases left@.len(),
        {
            let ghost before = attribute_models(left@);
            match left.pop() {
                Some(a) => {
                    let ghost held = attribute_models(sorted@);
                    let mut at: usize = 0;
                    while at < sorted.len() && sorted[at].id < a.id
                        invariant
                            at <= sorted@.len(),
                            forall|i: int| 0 <= i < at ==> (#[trigger] sorted@[i]).id < a.id,
                        decreases sorted@.len() - at,
                    {
                        at = at + 1;
                    }
                    proof {
                        assert(before.drop_last() =~= attribute_models(left@));
                        assert(before.last() == a@);
                        lemma_attribute_map(held);
                        assert forall|i: int| 0 <= i < at implies (#[trigger] held[i]).id < a.id by {
                            assert(sorted@[i].id < a.id);
                        }
                    }
                    if at < sorted.len() && sorted[at].id == a.id {
                        proof {
                            assert(held[at as int].id == a.id);
                            assert(attribute_map(before).union_prefer_right(attribute_map(held))
                                =~= attribute_map(before.drop_last()).union_prefer_right(
                                attribute_map(held),
                            ));
                        }
                    } else {
                        proof {
                            assert forall|i: int| at <= i < held.len() implies a.id < (
                            #[trigger] held[i]).id by {
                                assert(held[at as int].id > a.id);
                            }
                            lemma_insert(held, at as int, a@);
                        }
                        sorted.insert(at, a);
                        proof {
                            assert(attribute_models(sorted@) =~= held.insert(at as int, a@));
                            assert(!attribute_map(held).contains_key(a@.id));
                            assert(attribute_map(before).union_prefer_right(attribute_map(held))
                                =~= attribute_map(before.drop_last()).union_prefer_right(
                                attribute_map(attribute_models(sorted@)),
                            ));
                        }
                    }
                },
                None => {},
            }
        }
        proof {
            assert(attribute_models(left@) =~= Seq::empty());
            assert(goal =~= attribute_map(attribute_models(sorted@)));
        }
        Service { attributes: sorted }
    }

    /// Whether `uuid` occurs in the value of one of the attributes, at any depth.
    pub fn contains(&self, uuid: Uuid) -> (r: bool)
        ensures
            r == service_mentions(self@, uuid),
    {
        let mut i: usize = 0;
        while i < self.attributes.len()
            invariant
                i <= self.attributes@.len(),
                forall|k: int| 0 <= k < i ==> !mentions((#[trigger] self@[k]).value, uuid),
            decreases self.attributes@.len() - i,
        {
            if self.attributes[i].value.contains(uuid) {
                assert(mentions(self@[i as int].value, uuid));
                return true;
            }
            i = i + 1;
        }
        false
    }

    /// The attributes whose ids lie within one of the ranges, in the order of the record.
    pub fn attributes(&self, ranges: &[RangeInclusive<u16>]) -> (r: Vec<&ServiceAttribute>)
        ensures
            r@.map_values(|a: &ServiceAttribute| a@) == selected(self@, range_models(ranges@)),
    {
        let mut r: Vec<&ServiceAttribute> = Vec::new();
        let mut i: usize = 0;
        let ghost wanted = |a: Attribute| in_ranges(range_models(ranges@), a.id);
        assert(self@.take(0).filter(wanted) =~= Seq::empty()) by {
            reveal(Seq::filter);
        }
        while i < self.attributes.len()
            invariant
                i <= self.attributes@.len(),
                wanted == (|a: Attribute| in_ranges(range_models(ranges@), a.id)),
                r@.map_values(|a: &ServiceAttribute| a@) == self@.take(i as int).filter(wanted),
            decreases self.attributes@.len() - i,
        {
            let a = &self.attributes[i];
            let ghost before = r@;
            proof {
                reveal(Seq::filter);
                assert(self@.take(i + 1).drop_last() =~= self@.take(i as int));
                assert(self@.take(i + 1).last() == a@);
            }
            if id_in_ranges(ranges, a.id) {
                r.push(a);
                proof {
                    assert(r@.map_values(|a: &ServiceAttribute| a@) =~= before.map_values(
                        |a: &ServiceAttribute| a@,
                    ).push(a@));
                }
            }
            i = i + 1;
        }
        assert(self@.take(i as int) =~= self@);
        r
    }
}

/// Whether `id` lies within one of the ranges.
fn id_in_ranges(ranges: &[RangeInclusive<u16>], id: u16) -> (r: bool)
    ensures
        r == in_ranges(range_models(ranges@), id),
{
    let mut i: usize = 0;
    while i < ranges.len()
        invariant
            i <= ranges@.len(),
            forall|k: int|
                0 <= k < i ==> !covers(#[trigger] range_models(ranges@)[k], id),
        decreases ranges@.len() - i,
    {
        if ranges[i].contains(&id) {
            assert(covers(range_models(ranges@)[i as int], id));
            return true;
        }
        i = i + 1;
    }
    false
}

} // verus!
