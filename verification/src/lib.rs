//! The Service Discovery Protocol server of a Bluetooth host: the part that reads a request,
//! decides on the answer and writes it down.

pub mod answer;
pub mod audio_sink;
pub mod buffer;
pub mod codec;
pub mod codec_laws;
pub mod data_element;
pub mod element_laws;
pub mod error;
pub mod laws;
pub mod octets;
pub mod packet;
pub mod packet_laws;
pub mod query;
pub mod query_laws;
pub mod record_laws;
pub mod server;
pub mod service;

pub use data_element::{DataElement, Uuid};
pub use server::SdpServer;
