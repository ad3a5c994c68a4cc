//! A DNS wire-format codec over a fixed 512-byte packet buffer, together
//! with the decision logic of an iterative resolver.

pub mod buffer_error;
pub mod wire;
pub mod name;
pub mod byte_packet_buffer;
pub mod emission;
pub mod query_type;
pub mod result_code;
pub mod dns_header;
pub mod dns_question;
pub mod dns_record;
pub mod dns_packet;
pub mod resolver;
pub mod service;
pub mod round_trip;
