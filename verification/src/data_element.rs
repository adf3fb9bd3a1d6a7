//! Data elements: the typed values that requests and service records are made of.

use vstd::prelude::*;
use crate::error::Error;

verus! {

/// The UUID from which the short ones are counted.
pub const BLUETOOTH_BASE_UUID: u128 = 0x0000_0000_0000_1000_8000_0080_5F9B_34FB;

/// The weight of a short UUID within the full one.
pub const SHORT_UUID_WEIGHT: u128 = 0x1_0000_0000_0000_0000_0000_0000;

/// A universally unique identifier. A short one is held as the full one that it stands for.
#[derive(Debug, Clone, Copy, PartialEq, Eq, Structural)]
pub struct Uuid {
    /// The identifier as a number of 128 bits.
    pub value: u128,
}

/// The full UUID that the short UUID `short` stands for.
pub open spec fn uuid_of_short(short: nat) -> Uuid {
    Uuid { value: (BLUETOOTH_BASE_UUID + short * SHORT_UUID_WEIGHT) as u128 }
}

impl Uuid {
    /// The short UUID that stands for this one, if there is one.
    pub open spec fn short(self) -> Option<nat> {
        if self.value % SHORT_UUID_WEIGHT == BLUETOOTH_BASE_UUID {
            Some((self.value / SHORT_UUID_WEIGHT) as nat)
        } else {
            None
        }
    }

    /// The UUID that a short UUID of 16 bits stands for.
    pub fn from_u16(uuid: u16) -> (r: Uuid)
        ensures
            r == uuid_of_short(uuid as nat),
    {
        Uuid { value: BLUETOOTH_BASE_UUID + uuid as u128 * SHORT_UUID_WEIGHT }
    }

    /// The UUID that a short UUID of 32 bits stands for.
    pub fn from_u32(uuid: u32) -> (r: Uuid)
        ensures
            r == uuid_of_short(uuid as nat),
    {
        Uuid { value: BLUETOOTH_BASE_UUID + uuid as u128 * SHORT_UUID_WEIGHT }
    }

    /// The short UUID that stands for this one, if there is one.
    pub fn as_short(self) -> (r: Option<u32>)
        ensures
            match self.short() {
                Some(n) => r == Some(n as u32) && n <= u32::MAX,
                None => r is None,
            },
    {
        if self.value % SHORT_UUID_WEIGHT == BLUETOOTH_BASE_UUID {
            Some((self.value / SHORT_UUID_WEIGHT) as u32)
        } else {
            None
        }
    }
}

/// A UUID of 32 bits or fewer and the full one that it stands for determine each other.
pub proof fn lemma_short_uuid(short: nat, uuid: Uuid)
    requires
        short <= u32::MAX,
    ensures
        uuid_of_short(short).short() == Some(short),
        uuid.short() == Some(short) ==> uuid == uuid_of_short(short),
{
}

/// What a data element holds, as a mathematical value.
pub enum Element {
    Nil,
    U8(u8),
    U16(u16),
    U32(u32),
    U64(u64),
    U128(u128),
    I8(i8),
    I16(i16),
    I32(i32),
    I64(i64),
    I128(i128),
    Uuid(Uuid),
    Text(Seq<u8>),
    Bool(bool),
    Sequence(Seq<Element>),
    Alternative(Seq<Element>),
    Url(Seq<u8>),
}

/// A data element.
#[derive(Debug, PartialEq, Eq)]
pub enum DataElement {
    /// The null type.
    Nil,
    /// An unsigned integer of one octet.
    U8(u8),
    /// An unsigned integer of two octets.
    U16(u16),
    /// An unsigned integer of four octets.
    U32(u32),
    /// An unsigned integer of eight octets.
    U64(u64),
    /// An unsigned integer of sixteen octets.
    U128(u128),
    /// A signed integer of one octet.
    I8(i8),
    /// A signed integer of two octets.
    I16(i16),
    /// A signed integer of four octets.
    I32(i32),
    /// A signed integer of eight octets.
    I64(i64),
    /// A signed integer of sixteen octets.
    I128(i128),
    /// A universally unique identifier.
    Uuid(Uuid),
    /// A text string, in the octets of its encoding.
    Text(Vec<u8>),
    /// A truth value.
    Bool(bool),
    /// A sequence of data elements, all of which are meant.
    Sequence(Vec<DataElement>),
    /// A sequence of data elements, one of which is to be chosen.
    Alternative(Vec<DataElement>),
    /// A uniform resource locator.
    Url(Vec<u8>),
}

/// What each of `items` holds.
pub open spec fn elements(items: Seq<DataElement>) -> Seq<Element>
    decreases items,
{
    Seq::new(
        items.len(),
        |i: int|
            if 0 <= i < items.len() {
                items[i].model()
            } else {
                Element::Nil
            },
    )
}

impl DataElement {
    /// What the element holds.
    pub open spec fn model(self) -> Element
        decreases self,
    {
        match self {
            DataElement::Nil => Element::Nil,
            DataElement::U8(v) => Element::U8(v),
            DataElement::U16(v) => Element::U16(v),
            DataElement::U32(v) => Element::U32(v),
            DataElement::U64(v) => Element::U64(v),
            DataElement::U128(v) => Element::U128(v),
            DataElement::I8(v) => Element::I8(v),
            DataElement::I16(v) => Element::I16(v),
            DataElement::I32(v) => Element::I32(v),
            DataElement::I64(v) => Element::I64(v),
            DataElement::I128(v) => Element::I128(v),
            DataElement::Uuid(v) => Element::Uuid(v),
            DataElement::Text(v) => Element::Text(v@),
            DataElement::Bool(v) => Element::Bool(v),
            DataElement::Sequence(v) => Element::Sequence(elements(v@)),
            DataElement::Alternative(v) => Element::Alternative(elements(v@)),
            DataElement::Url(v) => Element::Url(v@),
        }
    }
}

impl View for DataElement {
    type V = Element;

    open spec fn view(&self) -> Element {
        self.model()
    }
}

/// `uuid` occurs in the element, at any depth.
pub open spec fn mentions(element: Element, uuid: Uuid) -> bool
    decreases element,
{
    match element {
        Element::Uuid(u) => u == uuid,
        Element::Sequence(items) => any_mentions(items, uuid),
        Element::Alternative(items) => any_mentions(items, uuid),
        _ => false,
    }
}

/// `uuid` occurs in one of the elements, at any depth.
pub open spec fn any_mentions(items: Seq<Element>, uuid: Uuid) -> bool
    decreases items,
{
    exists|i: int| 0 <= i < items.len() && mentions(#[trigger] items[i], uuid)
}

/// Copies the items one by one.
fn clone_items(items: &Vec<DataElement>) -> (r: Vec<DataElement>)
    ensures
        elements(r@) == elements(items@),
    decreases items@,
{
    let mut r: Vec<DataElement> = Vec::new();
    let mut i: usize = 0;
    while i < items.len()
        invariant
            i <= items@.len(),
            r@.len() == i,
            forall|k: int| 0 <= k < i ==> (#[trigger] r@[k])@ == items@[k]@,
        decreases items@.len() - i,
    {
        r.push(items[i].clone());
        i = i + 1;
    }
    proof {
        assert(elements(r@) =~= elements(items@)) by {
            assert forall|k: int| 0 <= k < r@.len() implies elements(r@)[k] == elements(
                items@,
            )[k] by {
                assert(r@[k]@ == items@[k]@);
            }
        }
    }
    r
}

/// Copies octets.
fn clone_octets(octets: &Vec<u8>) -> (r: Vec<u8>)
    ensures
        r@ == octets@,
{
    vstd::slice::slice_to_vec(octets.as_slice())
}

impl Clone for DataElement {
    fn clone(&self) -> (r: DataElement)
        ensures
            r@ == self@,
        decreases self,
    {
        match self {
            DataElement::Nil => DataElement::Nil,
            DataElement::U8(v) => DataElement::U8(*v),
            DataElement::U16(v) => DataElement::U16(*v),
            DataElement::U32(v) => DataElement::U32(*v),
            DataElement::U64(v) => DataElement::U64(*v),
            DataElement::U128(v) => DataElement::U128(*v),
            DataElement::I8(v) => DataElement::I8(*v),
            DataElement::I16(v) => DataElement::I16(*v),
            DataElement::I32(v) => DataElement::I32(*v),
            DataElement::I64(v) => DataElement::I64(*v),
            DataElement::I128(v) => DataElement::I128(*v),
            DataElement::Uuid(v) => DataElement::Uuid(*v),
            DataElement::Text(v) => DataElement::Text(clone_octets(v)),
            DataElement::Bool(v) => DataElement::Bool(*v),
            DataElement::Sequence(v) => DataElement::Sequence(clone_items(v)),
            DataElement::Alternative(v) => DataElement::Alternative(clone_items(v)),
            DataElement::Url(v) => DataElement::Url(clone_octets(v)),
        }
    }
}

impl DataElement {
    /// The items of a sequence.
    pub fn as_sequence(&self) -> (r: Result<&Vec<DataElement>, Error>)
        ensures
            match self@ {
                Element::Sequence(items) => r is Ok && elements(r->Ok_0@) == items,
                _ => r is Err && r->Err_0 == Error::UnexpectedDataType,
            },
    {
        match self {
            DataElement::Sequence(items) => Ok(items),
            _ => Err(Error::UnexpectedDataType),
        }
    }

    /// The identifier that the element is.
    pub fn as_uuid(&self) -> (r: Result<Uuid, Error>)
        ensures
            match self@ {
                Element::Uuid(uuid) => r == Ok::<Uuid, Error>(uuid),
                _ => r == Err::<Uuid, Error>(Error::UnexpectedDataType),
            },
    {
        match self {
            DataElement::Uuid(uuid) => Ok(*uuid),
            _ => Err(Error::UnexpectedDataType),
        }
    }

    /// Whether the element is a sequence without items.
    pub fn is_empty(&self) -> (r: bool)
        ensures
            r == (self@ matches Element::Sequence(items) && items.len() == 0),
    {
        match self {
            DataElement::Sequence(items) => items.len() == 0,
            _ => false,
        }
    }

    /// Whether `uuid` occurs in the element, at any depth.
    pub fn contains(&self, uuid: Uuid) -> (r: bool)
        ensures
            r == mentions(self@, uuid),
        decreases self,
    {
        match self {
            DataElement::Uuid(u) => u.value == uuid.value,
            DataElement::Sequence(items) => items_contain(items, uuid),
            DataElement::Alternative(items) => items_contain(items, uuid),
            _ => false,
        }
    }
}

/// Whether `uuid` occurs in one of the items, at any depth.
fn items_contain(items: &Vec<DataElement>, uuid: Uuid) -> (r: bool)
    ensures
        r == any_mentions(elements(items@), uuid),
    decreases items@,
{
    let mut i: usize = 0;
    while i < items.len()
        invariant
            i <= items@.len(),
            forall|k: int| 0 <= k < i ==> !mentions(#[trigger] elements(items@)[k], uuid),
        decreases items@.len() - i,
    {
        if items[i].contains(uuid) {
            assert(mentions(elements(items@)[i as int], uuid));
            return true;
        }
        i = i + 1;
    }
    false
}

} // verus!
