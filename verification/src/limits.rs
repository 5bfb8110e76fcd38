//! System limits shared by every component of the host.

use vstd::prelude::*;

verus! {

/// Largest payload, in bytes, of one inbox message.
pub const MAX_INPUT_MESSAGE_SIZE: usize = 4096;

/// Largest payload, in bytes, of one outbox message.
pub const MAX_OUTPUT_SIZE: usize = 4096;

/// Largest number of bytes that a single store write may carry during a
/// chunked transfer.
pub const MAX_FILE_CHUNK_SIZE: usize = 2048;

/// Largest length, in bytes, of a value held by the durable store.
pub const MAX_VALUE_SIZE: usize = 2147483647;

/// Length, in bytes, of a preimage hash.
pub const PREIMAGE_HASH_SIZE: usize = 32;

/// Largest length, in bytes, of one revealed page.
pub const MAX_PAGE_SIZE: usize = 4096;

/// Deepest nesting of pages that a reveal traversal follows.
pub const MAX_DAC_LEVELS: usize = 4;

/// Length, in bytes, of a raw rollup address.
pub const RAW_ROLLUP_ADDRESS_SIZE: usize = 20;

/// Length, in bytes, of encoded rollup metadata: the address followed by the
/// origination level.
pub const METADATA_SIZE: usize = 24;

} // verus!
