//! Single File Assets: a container that packs named, length-prefixed
//! image payloads behind the marker `SFA;`.

pub mod codec;
pub mod error;
pub mod format;
pub mod laws;
pub mod reader;
pub mod table;
pub mod writer;

pub use error::{Error, ErrorKind};
pub use reader::{decode_from_bytes, latest_payloads, parse};
pub use writer::{encode, encode_payloads, encode_source};
