//! A binary container format for large structured datasets: fixed-size
//! bit-packed records, zero-copy read views, bounded-memory streaming
//! writers, and a size-prefixed, schema-checked resource framing protocol.

use vstd::prelude::*;

pub mod arrayview;
pub mod bits;
pub mod error;
pub mod memstorage;
pub mod multiarrayview;
pub mod multivector;
pub mod records;
pub mod sort;
pub mod storage;
pub mod test_structs;
pub mod vector;

verus! {

/// Number of zero bytes reserved past the last record of every buffer, so
/// that multi-byte reads at the tail never touch unallocated memory.
pub const PADDING_SIZE: usize = 8;

/// Width in bytes of the little-endian size header that frames a resource.
pub const SIZE_TYPE_BYTES: usize = 8;

} // verus!
