//! Masked authenticated messaging over balanced-ternary data: a sponge
//! construction, a schema-driven wire encoding, a Merkle one-time signature
//! scheme and the signed-packet message.

pub mod trits;
pub mod spongos;
pub mod pb3;
pub mod mss;
pub mod ids;
pub mod signed_packet;
