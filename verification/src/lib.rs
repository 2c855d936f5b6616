//! Wire codec for DNS messages carried over UDP.
//!
//! A datagram is decoded into a header, its questions and, for a response,
//! its answer records; a response is built from a decoded query and
//! flattened back into bytes. Every function is verified against a
//! mathematical description of the wire format.

pub mod error;
pub mod header;
pub mod name;
pub mod packet;
pub mod question;
pub mod reader;
pub mod resource;
pub mod response;
pub mod wire;

pub use error::DecodeError;
pub use error::EncodeError;
pub use header::DnsHeader;
pub use header::OpCode;
pub use header::ResponseCode;
pub use name::DomainName;
pub use packet::DnsPacket;
pub use question::DnsQuestion;
pub use question::QClass;
pub use question::QType;
pub use reader::PacketReader;
pub use resource::DnsResource;
pub use resource::RData;
pub use response::DnsResponse;
