//! Process-wide settings for a write-ahead log.

use vstd::prelude::*;

verus! {

/// Settings for a write-ahead log.
#[derive(Debug, Copy, Clone, PartialEq, Eq, Structural)]
pub struct Config {
    /// Maximum number of entries a single segment may hold; 0 selects a default.
    pub entry_per_segment: usize,
    /// Whether reads verify each entry's stored checksum.
    pub check_crc32: bool,
}

} // verus!
