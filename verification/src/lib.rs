//! A decoder for a tagged, self-describing binary term format: a byte
//! buffer is turned into an owned tree of typed term values.
//!
//! The cursor over the buffer lives in [`reader`], the tag table in
//! [`constants`], and the decode engine in [`decoder`]. What decoding
//! returns is pinned down, byte for byte, by the mathematical model in
//! [`model`], and the executable decoder is proved to match it.
pub mod constants;
pub mod decoder;
pub mod model;
pub mod reader;
