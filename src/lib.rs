// The DNS wire protocol over a fixed-size datagram buffer: names with compression
// pointers, the header, questions, resource records and whole messages, the laws that
// tie their encoders to their decoders, and the decisions of an iterative resolver.

pub mod error;
pub mod header;
pub mod name;
pub mod named_root;
pub mod packet;
pub mod packet_buffer;
pub mod query_type;
pub mod question;
pub mod record;
pub mod resolver;
pub mod result_code;
pub mod round_trip;
