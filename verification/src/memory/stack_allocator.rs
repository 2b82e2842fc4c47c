//! Hands out mapped stacks from one region of virtual pages, front to back.

use vstd::prelude::*;
use super::paging::entry::WRITABLE;
use super::paging::mapper::{lemma_flag_facts, lemma_page_bound, page_at};
use super::paging::{ActivePageTable, PageIter};
use super::region::{hand_out, handed_out, paid_with};
use super::{FrameAllocator, PAGE_SIZE};

verus! {

/// A mapped stack: `bottom` is the address of its first byte, `top` the
/// address behind its last.
#[derive(Debug, PartialEq, Eq, Structural)]
pub struct Stack {
    pub top: u64,
    pub bottom: u64,
}

impl Stack {
    pub fn new(top: u64, bottom: u64) -> (stack: Stack)
        requires
            top > bottom,
        ensures
            stack.top == top,
            stack.bottom == bottom,
    {
        Stack { top, bottom }
    }

    /// The address behind the stack's last byte.
    pub fn top(&self) -> (address: u64)
        ensures
            address == self.top,
    {
        self.top
    }

    /// The address of the stack's first byte.
    pub fn bottom(&self) -> (address: u64)
        ensures
            address == self.bottom,
    {
        self.bottom
    }
}

/// The part of a region of virtual pages that is not handed out yet.
/// Pages are never taken back.
#[derive(Debug)]
pub struct StackAllocator {
    pub range: PageIter,
}

impl StackAllocator {
    pub fn new(page_range: PageIter) -> (allocator: StackAllocator)
        ensures
            allocator.range == page_range,
    {
        StackAllocator { range: page_range }
    }

    /// Hands out the next `size_in_pages` pages of the region as a stack,
    /// mapped writable to fresh frames.
    ///
    /// A request for no pages, or for more than are left, gets nothing
    /// and changes nothing. Where the frames run out while the pages are
    /// mapped, what was mapped is unmapped again, the region stays as it
    /// was, and nothing is returned.
    pub fn alloc_stack<FA: FrameAllocator>(
        &mut self,
        active_table: &mut ActivePageTable,
        frame_allocator: &mut FA,
        size_in_pages: u64,
    ) -> (stack: Option<Stack>)
        requires
            old(self).range.usable(),
            old(self).range.unmapped_in(&old(active_table).mapper),
            old(active_table).mapper.wf(),
            old(frame_allocator).inv(),
            old(active_table).mapper.apart_from(old(frame_allocator).available()),
        ensures
            final(frame_allocator).inv(),
            handed_out(
                &old(active_table).mapper,
                &final(active_table).mapper,
                old(self).range,
                final(self).range,
                size_in_pages,
                WRITABLE,
                old(frame_allocator).available(),
                final(frame_allocator).available(),
                stack.is_some(),
            ),
            paid_with(
                old(frame_allocator),
                final(frame_allocator),
                &final(active_table).mapper,
                old(self).range,
                size_in_pages,
                WRITABLE,
                stack.is_some(),
            ),
            final(active_table).mapper.root == old(active_table).mapper.root,
            final(active_table).mapper.p4_spec() == old(active_table).mapper.p4_spec(),
            match stack {
                Some(made) => {
                    &&& made.bottom == old(self).range.start.number * PAGE_SIZE
                    &&& made.top == made.bottom + size_in_pages * PAGE_SIZE
                },
                None => true,
            },
    {
        proof {
            lemma_flag_facts();
            if 0 < size_in_pages <= self.range.len() {
                assert(page_at(self.range, size_in_pages - 1).valid());
                assert(page_at(self.range, 0) == self.range.start);
                lemma_page_bound(page_at(self.range, size_in_pages - 1));
            }
        }
        match hand_out(&mut self.range, active_table, frame_allocator, size_in_pages, WRITABLE) {
            Some(pages) => {
                let top_of_stack = pages.end.start_address() + PAGE_SIZE;
                Some(Stack::new(top_of_stack, pages.start.start_address()))
            },
            None => None,
        }
    }
}

} // verus!
