//! The records of a server that offers an audio sink.

use vstd::prelude::*;
use crate::data_element::{elements, uuid_of_short, DataElement, Element, Uuid};
use crate::server::{record_map, record_pairs, SdpServer};
use crate::service::{
    ascending, attribute_models, law_record_is_determined, Attribute, Service,
    ServiceAttribute,
};

verus! {

pub const SDP_SERVICE_RECORD_HANDLE_ATTRIBUTE_ID: u16 = 0x0000;

pub const SDP_SERVICE_CLASS_ID_LIST_ATTRIBUTE_ID: u16 = 0x0001;

pub const SDP_PROTOCOL_DESCRIPTOR_LIST_ATTRIBUTE_ID: u16 = 0x0004;

pub const SDP_BROWSE_GROUP_LIST_ATTRIBUTE_ID: u16 = 0x0005;

pub const SDP_BLUETOOTH_PROFILE_DESCRIPTOR_LIST_ATTRIBUTE_ID: u16 = 0x0009;

/// Short UUIDs of the services and protocols that the record names.
pub const SDP_PUBLIC_BROWSE_ROOT: u16 = 0x1002;

pub const BT_AUDIO_SINK_SERVICE: u16 = 0x110b;

pub const BT_L2CAP_PROTOCOL_ID: u16 = 0x0100;

pub const BT_AVDTP_PROTOCOL_ID: u16 = 0x0019;

pub const BT_ADVANCED_AUDIO_DISTRIBUTION_SERVICE: u16 = 0x110d;

/// The channel number of the audio transport.
pub const AVDTP_PSM: u16 = 0x0019;

/// The handle of the audio sink's record.
pub const AUDIO_SINK_HANDLE: u32 = 0x0001_0001;

/// Version 1.3: the major number in the upper octet, the minor one in the lower.
pub const PROFILE_VERSION: u16 = 0x0103;

/// A short UUID as an element.
pub open spec fn uuid_element(short: u16) -> Element {
    Element::Uuid(uuid_of_short(short as nat))
}

/// A short UUID and the number that goes with it.
pub open spec fn pair_element(short: u16, value: u16) -> Element {
    Element::Sequence(seq![uuid_element(short), Element::U16(value)])
}

/// The audio sink's record.
pub open spec fn audio_sink_record() -> Seq<Attribute> {
    seq![
        Attribute {
            id: SDP_SERVICE_RECORD_HANDLE_ATTRIBUTE_ID,
            value: Element::U32(AUDIO_SINK_HANDLE),
        },
        Attribute {
            id: SDP_SERVICE_CLASS_ID_LIST_ATTRIBUTE_ID,
            value: Element::Sequence(seq![uuid_element(BT_AUDIO_SINK_SERVICE)]),
        },
        Attribute {
            id: SDP_PROTOCOL_DESCRIPTOR_LIST_ATTRIBUTE_ID,
            value: Element::Sequence(
                seq![
                    pair_element(BT_L2CAP_PROTOCOL_ID, AVDTP_PSM),
                    pair_element(BT_AVDTP_PROTOCOL_ID, PROFILE_VERSION),
                ],
            ),
        },
        Attribute {
            id: SDP_BROWSE_GROUP_LIST_ATTRIBUTE_ID,
            value: Element::Sequence(seq![uuid_element(SDP_PUBLIC_BROWSE_ROOT)]),
        },
        Attribute {
            id: SDP_BLUETOOTH_PROFILE_DESCRIPTOR_LIST_ATTRIBUTE_ID,
            value: Element::Sequence(
                seq![pair_element(BT_ADVANCED_AUDIO_DISTRIBUTION_SERVICE, PROFILE_VERSION)],
            ),
        },
    ]
}

/// A sequence of one UUID.
fn uuid_list(short: u16) -> (r: DataElement)
    ensures
        r@ == Element::Sequence(seq![uuid_element(short)]),
{
    let mut items: Vec<DataElement> = Vec::new();
    items.push(DataElement::Uuid(Uuid::from_u16(short)));
    assert(elements(items@) =~= seq![uuid_element(short)]);
    DataElement::Sequence(items)
}

/// A UUID and the number that goes with it.
fn uuid_and_number(short: u16, value: u16) -> (r: DataElement)
    ensures
        r@ == pair_element(short, value),
{
    let mut items: Vec<DataElement> = Vec::new();
    items.push(DataElement::Uuid(Uuid::from_u16(short)));
    items.push(DataElement::U16(value));
    assert(elements(items@) =~= seq![uuid_element(short), Element::U16(value)]);
    DataElement::Sequence(items)
}

/// The audio sink's record.
fn audio_sink() -> (r: Service)
    ensures
        r@ == audio_sink_record(),
{
    let mut protocols: Vec<DataElement> = Vec::new();
    protocols.push(uuid_and_number(BT_L2CAP_PROTOCOL_ID, AVDTP_PSM));
    protocols.push(uuid_and_number(BT_AVDTP_PROTOCOL_ID, PROFILE_VERSION));
    assert(elements(protocols@) =~= seq![
        pair_element(BT_L2CAP_PROTOCOL_ID, AVDTP_PSM),
        pair_element(BT_AVDTP_PROTOCOL_ID, PROFILE_VERSION),
    ]);
    let mut profiles: Vec<DataElement> = Vec::new();
    profiles.push(uuid_and_number(BT_ADVANCED_AUDIO_DISTRIBUTION_SERVICE, PROFILE_VERSION));
    assert(elements(profiles@) =~= seq![
        pair_element(BT_ADVANCED_AUDIO_DISTRIBUTION_SERVICE, PROFILE_VERSION),
    ]);
    let mut attributes: Vec<ServiceAttribute> = Vec::new();
    attributes.push(
        ServiceAttribute::new(
            SDP_SERVICE_RECORD_HANDLE_ATTRIBUTE_ID,
            DataElement::U32(AUDIO_SINK_HANDLE),
        ),
    );
    attributes.push(
        ServiceAttribute::new(
            SDP_SERVICE_CLASS_ID_LIST_ATTRIBUTE_ID,
            uuid_list(BT_AUDIO_SINK_SERVICE),
        ),
    );
    attributes.push(
        ServiceAttribute::new(
            SDP_PROTOCOL_DESCRIPTOR_LIST_ATTRIBUTE_ID,
            DataElement::Sequence(protocols),
        ),
    );
    attributes.push(
        ServiceAttribute::new(
            SDP_BROWSE_GROUP_LIST_ATTRIBUTE_ID,
            uuid_list(SDP_PUBLIC_BROWSE_ROOT),
        ),
    );
    attributes.push(
        ServiceAttribute::new(
            SDP_BLUETOOTH_PROFILE_DESCRIPTOR_LIST_ATTRIBUTE_ID,
            DataElement::Sequence(profiles),
        ),
    );
    assert(attribute_models(attributes@) =~= audio_sink_record());
    let service = Service::from_attributes(attributes);
    proof {
        assert(ascending(audio_sink_record()));
        law_record_is_determined(service@, audio_sink_record());
    }
    service
}

impl Default for SdpServer {
    /// A server that offers an audio sink and nothing else.
    fn default() -> (r: SdpServer)
        ensures
            r@ == Map::<u32, Seq<Attribute>>::empty().insert(
                AUDIO_SINK_HANDLE,
                audio_sink_record(),
            ),
    {
        let mut records: Vec<(u32, Service)> = Vec::new();
        records.push((AUDIO_SINK_HANDLE, audio_sink()));
        proof {
            let pairs = record_pairs(records@);
            assert(pairs =~= seq![(AUDIO_SINK_HANDLE, audio_sink_record())]);
            reveal_with_fuel(record_map, 2);
            assert(pairs.drop_last() =~= Seq::empty());
        }
        SdpServer::from_records(records)
    }
}

} // verus!
