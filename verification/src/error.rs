//! Errors reported by resource storage and the streaming containers.

use vstd::prelude::*;

verus! {

/// Why a storage or container operation failed.
#[derive(Debug, Clone, PartialEq, Eq)]
pub enum ResourceStorageError {
    /// The resource, or its schema companion, is not in the storage.
    NotFound { resource_name: String },
    /// The resource is already mapped read-only and cannot be opened for
    /// mutation (or the other way round).
    PermissionDenied { resource_name: String },
    /// An archive marker with this name already exists; creating it again
    /// would silently overwrite an existing archive.
    AlreadyExists { resource_name: String },
    /// The resource's physical size disagrees with its size header, or a
    /// byte region is not shaped as its record layout demands.
    UnexpectedDataSize,
    /// The stored schema is not valid UTF-8 text.
    InvalidText,
    /// The stored schema differs from the expected schema; `diff` holds a
    /// human-readable line diff of the two texts.
    SchemaMismatch { resource_name: String, diff: String },
    /// The underlying sink reported an input/output failure.
    Io { message: String },
    /// Two records of a supposedly sorted container admit no order: the
    /// record type's order is partial on this data.
    IncomparableRecords,
}

} // verus!
