//! Hands out runs of virtual pages from one region, front to back.

use vstd::prelude::*;
use super::paging::PageIter;

verus! {

/// The part of a region of virtual pages that is not handed out yet.
/// Pages are never taken back.
#[derive(Debug)]
pub struct PageAllocator {
    pub range: PageIter,
}

impl PageAllocator {
    pub fn new(page_range: PageIter) -> (allocator: PageAllocator)
        ensures
            allocator.range == page_range,
    {
        PageAllocator { range: page_range }
    }

    /// Hands out the next `size_in_pages` pages of the region. A request
    /// for no pages, or for more than are left, gets nothing and leaves
    /// the region as it is.
    pub fn allocate(&mut self, size_in_pages: u64) -> (pages: Option<PageIter>)
        requires
            old(self).range.end.number < u64::MAX,
        ensures
            match pages {
                Some(run) => {
                    &&& 0 < size_in_pages <= old(self).range.len()
                    &&& run == old(self).range.front(size_in_pages)
                    &&& final(self).range == old(self).range.rest(size_in_pages)
                },
                None => (size_in_pages == 0 || old(self).range.len() < size_in_pages) && *final(self)
                    == *old(self),
            },
    {
        self.range.take(size_in_pages)
    }
}

} // verus!
