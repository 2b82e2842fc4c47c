//! Hands out mapped runs of virtual pages from one region, front to back.

use vstd::prelude::*;
use super::paging::entry::{valid_flags, EntryFlags};
use super::paging::mapper::{lemma_page_bound, page_at};
use super::paging::{ActivePageTable, PageIter, VirtualAddress};
use super::region::{hand_out, handed_out, paid_with};
use super::{FrameAllocator, PAGE_SIZE};

verus! {

/// A run of pages that was handed out, mapped to fresh frames.
#[derive(Debug, PartialEq, Eq, Structural)]
pub struct Grant {
    pub start: VirtualAddress,
    pub size: u64,
}

impl Grant {
    /// The address of the grant's first byte.
    pub fn start_address(&self) -> (address: VirtualAddress)
        ensures
            address == self.start,
    {
        self.start
    }

    /// The grant's size in bytes.
    pub fn size(&self) -> (size: u64)
        ensures
            size == self.size,
    {
        self.size
    }
}

/// The part of a region of virtual pages that is not handed out yet.
/// Pages are never taken back.
#[derive(Debug)]
pub struct GrantAllocator {
    pub range: PageIter,
}

impl GrantAllocator {
    pub fn new(page_range: PageIter) -> (allocator: GrantAllocator)
        ensures
            allocator.range == page_range,
    {
        GrantAllocator { range: page_range }
    }

    /// Hands out the next `size_in_pages` pages of the region, mapped to
    /// fresh frames with the flags `flags` and `PRESENT`.
    ///
    /// A request for no pages, or for more than are left, gets nothing
    /// and changes nothing. Where the frames run out while the pages are
    /// mapped, what was mapped is unmapped again, the region stays as it
    /// was, and nothing is returned.
    pub fn allocate<FA: FrameAllocator>(
        &mut self,
        active_table: &mut ActivePageTable,
        frame_allocator: &mut FA,
        size_in_pages: u64,
        flags: EntryFlags,
    ) -> (grant: Option<Grant>)
        requires
            old(self).range.usable(),
            old(self).range.unmapped_in(&old(active_table).mapper),
            old(active_table).mapper.wf(),
            old(frame_allocator).inv(),
            old(active_table).mapper.apart_from(old(frame_allocator).available()),
            valid_flags(flags),
        ensures
            final(frame_allocator).inv(),
            handed_out(
                &old(active_table).mapper,
                &final(active_table).mapper,
                old(self).range,
                final(self).range,
                size_in_pages,
                flags,
                old(frame_allocator).available(),
                final(frame_allocator).available(),
                grant.is_some(),
            ),
            paid_with(
                old(frame_allocator),
                final(frame_allocator),
                &final(active_table).mapper,
                old(self).range,
                size_in_pages,
                flags,
                grant.is_some(),
            ),
            final(active_table).mapper.root == old(active_table).mapper.root,
            final(active_table).mapper.p4_spec() == old(active_table).mapper.p4_spec(),
            match grant {
                Some(granted) => {
                    &&& granted.start == old(self).range.start.number * PAGE_SIZE
                    &&& granted.size == size_in_pages * PAGE_SIZE
                },
                None => true,
            },
    {
        proof {
            if 0 < size_in_pages <= self.range.len() {
                assert(page_at(self.range, size_in_pages - 1).valid());
                assert(page_at(self.range, 0) == self.range.start);
                lemma_page_bound(page_at(self.range, size_in_pages - 1));
            }
        }
        match hand_out(&mut self.range, active_table, frame_allocator, size_in_pages, flags) {
            Some(pages) => Some(
                Grant { start: pages.start.start_address(), size: size_in_pages * PAGE_SIZE },
            ),
            None => None,
        }
    }
}

} // verus!
