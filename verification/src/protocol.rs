pub mod decode;
pub mod format;

pub use decode::Decoder;
pub use format::{DecodeError, Flags, Header, HEADER_SIZE, MAGIC, VERSION};
