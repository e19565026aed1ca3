//! Wire-format layer of the DNS message protocol: the 12-byte header bit
//! layout, questions, resource records, and the pointer-compressed
//! domain-name encoding, together with the helper queries that extract
//! nameserver and address information from a parsed packet.

pub mod buffer;
pub mod error;
pub mod header;
pub mod packet;
pub mod query;
pub mod question;
pub mod record;
pub mod wire;
