//! Tag bytes of the wire format: one byte in front of every term selects its
//! kind, and a fixed version marker opens every encoded buffer.
use vstd::prelude::*;

verus! {

/// Version marker that every encoded buffer must start with.
pub const VERSION: u8 = 131;

pub const NEW_FLOAT_EXT: u8 = 70;
pub const BIT_BINARY_EXT: u8 = 77;
pub const NEW_PID_EXT: u8 = 88;
pub const NEW_PORT_EXT: u8 = 89;
pub const NEWER_REFERENCE_EXT: u8 = 90;
pub const SMALL_INTEGER_EXT: u8 = 97;
pub const INTEGER_EXT: u8 = 98;
pub const FLOAT_EXT: u8 = 99;
pub const DEPRECATED_ATOM_EXT: u8 = 100;
pub const DEPRECATED_REFERENCE_EXT: u8 = 101;
pub const PORT_EXT: u8 = 102;
pub const PID_EXT: u8 = 103;
pub const SMALL_TUPLE_EXT: u8 = 104;
pub const LARGE_TUPLE_EXT: u8 = 105;
pub const NIL_EXT: u8 = 106;
pub const STRING_EXT: u8 = 107;
pub const LIST_EXT: u8 = 108;
pub const BINARY_EXT: u8 = 109;
pub const SMALL_BIG_EXT: u8 = 110;
pub const LARGE_BIG_EXT: u8 = 111;
pub const NEW_FUN_EXT: u8 = 112;
pub const EXPORT_EXT: u8 = 113;
pub const NEW_REFERENCE_EXT: u8 = 114;
pub const DEPRECATED_SMALL_ATOM_EXT: u8 = 115;
pub const MAP_EXT: u8 = 116;
pub const REMOVED_FUN_EXT: u8 = 117;
pub const ATOM_UTF_8_EXT: u8 = 118;
pub const SMALL_ATOM_UTF_8_EXT: u8 = 119;
pub const V4_PORT_EXT: u8 = 120;

} // verus!
