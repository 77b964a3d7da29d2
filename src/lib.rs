//! An authoritative name-resolution responder.
//!
//! The wire codec (`header`, `name`, `question`, `answer`, `packet`) decodes and writes
//! messages, each function tied to a byte-level grammar given as spec functions; the record
//! store (`zone_config`) answers lookups; `reply` decides the reply to a query; `transport`
//! holds the decisions of the datagram and stream servers, whose sockets live outside this
//! library.
pub mod answer;
pub mod error;
pub mod header;
pub mod name;
pub mod packet;
pub mod protocol_class;
pub mod question;
pub mod record_type;
pub mod reply;
pub mod transport;
pub mod wire;
pub mod zone_config;

pub use answer::{parse_dns_answer, DnsAnswer, RData};
pub use error::ParseError;
pub use header::{parse_dns_header, DnsHeader, OpCode, RCode};
pub use name::{parse_dns_name, serialize_dns_name};
pub use packet::{parse_dns_query, DnsPacket};
pub use protocol_class::Class;
pub use question::{parse_dns_question, DnsQuestion};
pub use record_type::Type;
pub use reply::construct_reply;
pub use transport::{
    after_work, answer_frame, answer_message, frame_message, LoopAction, StreamBuffer,
    StreamError, WorkKind,
};
pub use zone_config::{
    find_record, record_from_config, record_kind_from_token, ConfigError, Record, Zone, ZoneConfig,
};
