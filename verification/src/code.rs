//! Metadata error codes carried on the wire.

use vstd::prelude::*;

verus! {

/// Path not found.
pub const NOT_FOUND: u8 = 1;

/// Path already exists.
pub const ALREADY_EXISTS: u8 = 2;

/// Expected a directory.
pub const NOT_A_DIRECTORY: u8 = 3;

/// Expected a file.
pub const IS_A_DIRECTORY: u8 = 4;

/// Directory still has children.
pub const NOT_EMPTY: u8 = 5;

/// Malformed path.
pub const INVALID_PATH: u8 = 6;

} // verus!
