//! Decoding of NWA compressed audio streams, and of the NWK and OVK archives
//! that hold them, into uncompressed PCM WAVE files.
pub mod archive;
pub mod bitreader;
pub mod bytes;
pub mod decoder;
pub mod error;
pub mod file;
pub mod filetype;
pub mod header;
pub mod wave;

pub use archive::{decode_entry, entry_slice, read_index, IndexEntry};
pub use bitreader::BitReader;
pub use decoder::DecoderState;
pub use error::NwaError;
pub use file::NWAFile;
pub use filetype::{get_filetype, FileType};
pub use header::NWAHeader;
