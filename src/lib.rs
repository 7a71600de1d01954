//! A bencode codec: a cursor-based decoder and an appending encoder for the
//! four bencode token kinds (integers, byte strings, lists and dictionaries),
//! with the wire grammar stated as spec functions in `grammar` and the laws
//! that tie the two directions together in `laws`.
pub mod de;
pub mod error;
pub mod grammar;
pub mod laws;
pub mod ser;

pub use de::Deserializer;
pub use error::Error;
pub use ser::Serializer;
