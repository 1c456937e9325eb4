//! Fixed sizes and reserved page identifiers of the on-disk format.

use vstd::prelude::*;

verus! {

/// A stable logical identifier for a page, independent of where the page is
/// physically stored.
pub type PageId = u64;

/// Log records carry a header of at most this many bytes:
/// kind (1) | page id (8) | LSN (8) | payload length (8) | CRC32 (4).
pub const MAX_MSG_HEADER_LEN: usize = 29;

/// Every log segment begins with a header of this many bytes.
pub const SEG_HEADER_LEN: usize = 20;

/// The minimum number of records per segment. A payload larger than this
/// fraction of a segment's capacity is stored out of line as a blob.
pub const MINIMUM_ITEMS_PER_SEGMENT: usize = 4;

/// The reserved page holding the name-to-root directory.
pub const META_PID: PageId = 0;

/// The reserved page holding the monotonic allocation counter.
pub const COUNTER_PID: PageId = 1;

/// A sentinel near the top of the id space, used for batch-commit
/// bookkeeping and never handed out as a real page.
pub const BATCH_MANIFEST_PID: PageId = u64::MAX - 666;

/// A fragment chain longer than this many deltas is folded into a fresh
/// base page on the next update.
pub const PAGE_CONSOLIDATION_THRESHOLD: usize = 10;

} // verus!
