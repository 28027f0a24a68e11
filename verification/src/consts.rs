use vstd::prelude::*;

verus! {

/// Number of bytes of the data slot of one record.
pub const MAX_RECORD_LENGTH: usize = 30;

/// Byte that fills the unused tail of a data slot.
pub const PADDING_CHAR: u8 = 0;

/// Number of bytes of one encoded record: the key and the data id, 8 bytes each.
pub const RECORD_SIZE: usize = 16;

} // verus!
