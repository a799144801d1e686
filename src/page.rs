use vstd::prelude::*;
use crate::perms::MmapPerms;

verus! {

/// Size of the pages that are captured, tracked and restored.
pub const SNAPSHOT_PAGE_SIZE: usize = 4096;

/// Start of the page that holds address `a`.
pub open spec fn page_of(a: int) -> int {
    a - a % (SNAPSHOT_PAGE_SIZE as int)
}

/// Whether `a` is the start of a page.
pub open spec fn is_page(a: int) -> bool {
    a % (SNAPSHOT_PAGE_SIZE as int) == 0
}

/// Start of the page that holds `addr`.
pub fn page_start(addr: u64) -> (r: u64)
    ensures
        r == page_of(addr as int),
        is_page(r as int),
        r <= addr,
        addr < r + SNAPSHOT_PAGE_SIZE,
{
    addr - addr % (SNAPSHOT_PAGE_SIZE as u64)
}

/// What is recorded of one page of the baseline.
#[derive(Debug)]
pub struct SnapshotPageInfo {
    pub addr: u64,
    pub perms: MmapPerms,
    pub private: bool,
    pub dirty: bool,
    /// One page of the baseline's bytes, kept only for pages that were
    /// writable when captured.
    pub data: Option<Vec<u8>>,
}

} // verus!
