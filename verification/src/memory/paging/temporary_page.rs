//! One page kept free to look at a frame that no table of the loaded tree
//! shows.

use vstd::prelude::*;
use super::entry::{pack, PRESENT, WRITABLE};
use super::mapper::{lemma_flag_facts, single, CpuAction, MapError};
use super::table::recursive;
use super::tree::only_adds;
use super::{ActivePageTable, Page, VirtualAddress};
use crate::memory::{lasts, out_of_frames, spends, Frame, FrameAllocator, MAX_FRAMES, PAGE_SIZE};

verus! {

/// A page that is mapped for a moment to whatever frame has to be read or
/// written, and unmapped again before its next use.
#[derive(Debug)]
pub struct TemporaryPage {
    pub page: Page,
}

impl TemporaryPage {
    pub fn new(page: Page) -> (temporary: TemporaryPage)
        ensures
            temporary.page == page,
    {
        TemporaryPage { page }
    }

    /// Whether the page can be used: it is canonical, lies outside the
    /// recursive part of the address space, and can be given a mapping in
    /// the tree that `active_table` works on.
    pub open spec fn free_in(&self, active_table: &ActivePageTable) -> bool {
        &&& self.page.valid()
        &&& !recursive(self.page)
        &&& active_table.mapper.can_map(self.page)
    }

    /// Maps the page to `frame` in the active table, writable, and
    /// returns the address of the page's first byte.
    pub fn map<A: FrameAllocator>(
        &mut self,
        frame: Frame,
        active_table: &mut ActivePageTable,
        allocator: &mut A,
    ) -> (result: Result<VirtualAddress, MapError>)
        requires
            old(active_table).mapper.wf(),
            old(allocator).inv(),
            old(active_table).mapper.apart_from(old(allocator).available()),
            old(self).free_in(old(active_table)),
            frame.number < MAX_FRAMES,
        ensures
            spends(old(allocator), final(allocator), 3),
            lasts(old(allocator), 3) ==> result.is_ok(),
            result.is_err() ==> out_of_frames(final(allocator)),
            old(active_table).mapper.path_complete(old(self).page) ==> *final(allocator) == *old(allocator),
            only_adds(
                &old(active_table).mapper.memory,
                &final(active_table).mapper.memory,
                old(allocator).available(),
            ),
            *final(self) == *old(self),
            final(allocator).inv(),
            final(active_table).mapper.follows(
                &old(active_table).mapper,
                old(allocator).available(),
                final(allocator).available(),
            ),
            final(active_table).mapper.same_but(&old(active_table).mapper, old(self).page),
            final(active_table).mapper.actions == old(active_table).mapper.actions,
            match result {
                Ok(address) => {
                    &&& address == old(self).page.number * PAGE_SIZE
                    &&& final(active_table).mapper.translation(old(self).page) == Some(frame.number)
                    &&& final(active_table).mapper.leaf_entry(old(self).page) == Some(
                        pack(frame.number, WRITABLE | PRESENT),
                    )
                },
                Err(_) => {
                    &&& final(active_table).mapper.translation(old(self).page).is_none()
                    &&& final(self).free_in(final(active_table))
                    &&& !old(active_table).mapper.path_complete(old(self).page)
                },
            },
    {
        proof {
            lemma_flag_facts();
        }
        match active_table.mapper.map_to(self.page, frame, WRITABLE, allocator) {
            Ok(_) => Ok(self.page.start_address()),
            Err(error) => Err(error),
        }
    }

    /// Takes the page's mapping in the active table away and hands its
    /// frame back to `allocator`. The tables on the page's path stay, so
    /// that mapping the page again takes no frame.
    pub fn unmap<A: FrameAllocator>(&mut self, active_table: &mut ActivePageTable, allocator: &mut A)
        requires
            old(active_table).mapper.wf(),
            old(allocator).inv(),
            old(self).page.valid(),
            !recursive(old(self).page),
            old(active_table).mapper.mapped_small(old(self).page),
        ensures
            *final(allocator) == old(allocator).given_back(
                single(old(active_table).mapper.translation(old(self).page).unwrap()),
            ),
            final(active_table).mapper.path_complete(old(self).page),
            spends(old(allocator), final(allocator), 0),
            forall|count: u64| #[trigger] final(allocator).answer(count) == old(allocator).answer(count),
            *final(self) == *old(self),
            final(allocator).inv(),
            final(allocator).available() == old(allocator).available(),
            final(active_table).mapper.wf(),
            final(active_table).mapper.grown_from(&old(active_table).mapper, Set::empty()),
            final(active_table).mapper.same_but(&old(active_table).mapper, old(self).page),
            final(active_table).mapper.keeps_windows(&old(active_table).mapper),
            final(active_table).mapper.actions@ == old(active_table).mapper.actions@.push(
                CpuAction::FlushPage((old(self).page.number * PAGE_SIZE) as u64),
            ),
            final(self).free_in(final(active_table)),
            final(active_table).mapper.translation(old(self).page).is_none(),
            forall|frame: u64| #[trigger]
                final(active_table).mapper.memory.is_table(final(active_table).mapper.p4_spec(), frame)
                    == old(active_table).mapper.memory.is_table(
                    old(active_table).mapper.p4_spec(),
                    frame,
                ),
    {
        active_table.mapper.unmap(self.page, allocator)
    }

    /// Maps the page to `frame`, which holds a table, and returns the
    /// frame that the processor then reaches through the page: `frame`.
    pub fn map_table_frame<A: FrameAllocator>(
        &mut self,
        frame: Frame,
        active_table: &mut ActivePageTable,
        allocator: &mut A,
    ) -> (result: Result<Frame, MapError>)
        requires
            old(active_table).loaded(),
            old(allocator).inv(),
            old(active_table).mapper.apart_from(old(allocator).available()),
            old(self).free_in(old(active_table)),
            frame.number < MAX_FRAMES,
        ensures
            spends(old(allocator), final(allocator), 3),
            lasts(old(allocator), 3) ==> result.is_ok(),
            result.is_err() ==> out_of_frames(final(allocator)),
            old(active_table).mapper.path_complete(old(self).page) ==> *final(allocator) == *old(allocator),
            only_adds(
                &old(active_table).mapper.memory,
                &final(active_table).mapper.memory,
                old(allocator).available(),
            ),
            *final(self) == *old(self),
            final(active_table).loaded(),
            final(allocator).inv(),
            final(active_table).mapper.follows(
                &old(active_table).mapper,
                old(allocator).available(),
                final(allocator).available(),
            ),
            final(active_table).mapper.same_but(&old(active_table).mapper, old(self).page),
            final(active_table).mapper.actions == old(active_table).mapper.actions,
            match result {
                Ok(seen) => {
                    &&& seen == frame
                    &&& final(active_table).mapper.translation(old(self).page) == Some(frame.number)
                    &&& final(active_table).mapper.leaf_entry(old(self).page) == Some(
                        pack(frame.number, WRITABLE | PRESENT),
                    )
                },
                Err(_) => {
                    &&& final(active_table).mapper.translation(old(self).page).is_none()
                    &&& final(self).free_in(final(active_table))
                    &&& !old(active_table).mapper.path_complete(old(self).page)
                },
            },
    {
        let ghost spare = allocator.available();
        let ghost before = active_table.mapper;
        let number = frame.number;
        if let Err(error) = self.map(frame, active_table, allocator) {
            proof {
                active_table.mapper.lemma_grown_loaded(&before, spare);
            }
            return Err(error);
        }
        proof {
            active_table.mapper.lemma_grown_loaded(&before, spare);
            active_table.mapper.lemma_aligned(self.page);
        }
        match active_table.mapper.resolve(self.page) {
            Some(seen) => Ok(seen),
            None => Ok(Frame { number }),
        }
    }
}

} // verus!
