//! Bencode: a value model, its canonical byte encoding, a pull decoder that
//! walks the bytes once, and a push encoder that keeps dictionary keys sorted.
pub mod de;
pub mod decode;
pub mod digits;
pub mod encode;
pub mod error;
pub mod round_trip;
pub mod ser;
pub mod torrent;
pub mod value;

pub use de::{Deserializer, Kind};
pub use decode::{decode, Decoder};
pub use encode::encode;
pub use error::{Error, Result};
pub use ser::{Serializer, SortedMapSerializer};
pub use torrent::{Info, Torrent};
pub use value::Value;
