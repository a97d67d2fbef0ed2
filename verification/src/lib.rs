pub mod data;
pub mod data_bytes;
pub mod data_text;
pub mod de_bytes;
pub mod de_text;
pub mod error;
pub mod format;
pub mod merging;
pub mod ser;
pub mod utils;

pub use de_bytes::BytesDeserializer;
pub use de_text::TextDeserializer;
pub use error::Error;
pub use merging::merge;
pub use ser::{to_bytes, Serializer};
pub use utils::gcd;
