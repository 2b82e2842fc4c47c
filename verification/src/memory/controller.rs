//! The one place through which the rest of the kernel asks for memory.

use vstd::prelude::*;
use super::area_frame_allocator::AreaFrameAllocator;
use super::grant_allocator::{Grant, GrantAllocator};
use super::page_allocator::PageAllocator;
use super::paging::entry::{pack, valid_flags, EntryFlags, PRESENT, WRITABLE};
use super::paging::mapper::{flushes, lemma_unmapped, page_at, page_of, CpuAction, MapError, Mapper};
use super::paging::table::{recursive, RECURSIVE_INDEX};
use super::paging::temporary_page::TemporaryPage;
use super::paging::tree::clear_of;
use super::paging::{
    canonical, ActivePageTable, InactivePageTable, Page, PageIter, PhysicalAddress, VirtualAddress,
};
use super::region::{hand_out, handed_out, paid_with};
use super::stack_allocator::{Stack, StackAllocator};
use super::{
    lasts, lemma_lasts_less, lemma_request_spends, lemma_spends, lemma_spends_nothing, lemma_spent,
    out_of_frames, spends, Frame, FrameAllocator, FrameIter, PAGE_SIZE,
};

verus! {

/// The active address space, the frame allocator, the three regions of
/// virtual pages from which stacks, mappings and grants are handed out,
/// and the page that is kept free as the temporary page.
pub struct MemoryController {
    pub active_table: ActivePageTable,
    pub frame_allocator: AreaFrameAllocator,
    pub stack_allocator: StackAllocator,
    pub page_allocator: PageAllocator,
    pub grant_allocator: GrantAllocator,
    pub temporary_page: TemporaryPage,
}

/// Whether no page is in both runs.
pub open spec fn runs_apart(a: PageIter, b: PageIter) -> bool {
    forall|number: u64| a.contains(number) ==> !b.contains(number)
}

/// A run of usable pages that could all be given mappings can still be
/// given them after pages outside of it were mapped.
pub proof fn lemma_run_kept(run: PageIter, before: &Mapper, after: &Mapper, whole: PageIter)
    requires
        run.usable(),
        run.unmapped_in(before),
        after.same_outside(before, whole),
        runs_apart(run, whole),
    ensures
        run.unmapped_in(after),
{
    assert forall|i: int| 0 <= i < run.len() implies after.can_map(#[trigger] page_at(run, i)) by {
        assert(before.can_map(page_at(run, i)));
        assert(run.contains(page_at(run, i).number));
    }
}

/// A run of usable pages that could all be given mappings can still be
/// given them while every page is mapped as it was.
pub proof fn lemma_run_same(run: PageIter, before: &Mapper, after: &Mapper)
    requires
        run.usable(),
        run.unmapped_in(before),
        after.same_pages(before),
    ensures
        run.unmapped_in(after),
{
    assert forall|i: int| 0 <= i < run.len() implies after.can_map(#[trigger] page_at(run, i)) by {
        assert(before.can_map(page_at(run, i)));
    }
}

/// What is left of a run from which pages were taken lies in the run.
pub proof fn lemma_rest_within(whole: PageIter, count: u64, other: PageIter)
    requires
        whole.end.number < u64::MAX,
        count <= whole.len(),
        runs_apart(other, whole),
    ensures
        runs_apart(other, whole.rest(count)),
        runs_apart(whole.rest(count), other),
        runs_apart(whole, other),
        forall|number: u64| whole.rest(count).contains(number) ==> whole.contains(number),
{
}

/// How many pages hold `size` bytes.
pub open spec fn pages_for(size: u64) -> u64 {
    ((size + PAGE_SIZE - 1) / PAGE_SIZE as int) as u64
}

/// How many pages hold `size` bytes.
pub fn page_count(size: u64) -> (count: u64)
    ensures
        count == pages_for(size),
{
    if size % PAGE_SIZE == 0 {
        size / PAGE_SIZE
    } else {
        size / PAGE_SIZE + 1
    }
}

impl MemoryController {
    /// The active table is loaded and shares no frame with what the
    /// allocator can still hand out, and the regions and the temporary
    /// page are free in it.
    pub open spec fn wf(&self) -> bool {
        &&& self.active_table.loaded()
        &&& self.frame_allocator.inv()
        &&& self.active_table.mapper.apart_from(self.frame_allocator.available())
        &&& self.laid_out(&self.active_table.mapper)
    }

    /// Whether the three regions and the temporary page are free with
    /// `mapper`: the regions are made of usable pages that can be given
    /// mappings, no page is in two of them, and the temporary page is a
    /// canonical page outside the recursive part of the address space and
    /// outside the regions that can be given a mapping.
    pub open spec fn laid_out(&self, mapper: &Mapper) -> bool {
        &&& self.stack_allocator.range.usable()
        &&& self.stack_allocator.range.unmapped_in(mapper)
        &&& self.page_allocator.range.usable()
        &&& self.page_allocator.range.unmapped_in(mapper)
        &&& self.grant_allocator.range.usable()
        &&& self.grant_allocator.range.unmapped_in(mapper)
        &&& self.temporary_page.page.valid()
        &&& !recursive(self.temporary_page.page)
        &&& mapper.can_map(self.temporary_page.page)
        &&& !self.stack_allocator.range.contains(self.temporary_page.page.number)
        &&& !self.page_allocator.range.contains(self.temporary_page.page.number)
        &&& !self.grant_allocator.range.contains(self.temporary_page.page.number)
        &&& runs_apart(self.stack_allocator.range, self.page_allocator.range)
        &&& runs_apart(self.stack_allocator.range, self.grant_allocator.range)
        &&& runs_apart(self.page_allocator.range, self.grant_allocator.range)
    }

    /// Puts the parts together.
    pub fn new(
        active_table: ActivePageTable,
        frame_allocator: AreaFrameAllocator,
        stack_allocator: StackAllocator,
        page_allocator: PageAllocator,
        grant_allocator: GrantAllocator,
        temporary_page: TemporaryPage,
    ) -> (controller: MemoryController)
        ensures
            controller.active_table == active_table,
            controller.frame_allocator == frame_allocator,
            controller.stack_allocator == stack_allocator,
            controller.page_allocator == page_allocator,
            controller.grant_allocator == grant_allocator,
            controller.temporary_page == temporary_page,
    {
        MemoryController {
            active_table,
            frame_allocator,
            stack_allocator,
            page_allocator,
            grant_allocator,
            temporary_page,
        }
    }

    /// Makes a new, empty address space from a fresh frame. Nothing is
    /// returned where the allocator has no frame for it, or none for a
    /// table that is missing on the path of the temporary page: with an
    /// allocator that answers four requests for a frame, the table is made.
    pub fn new_page_table(&mut self) -> (table: Option<InactivePageTable>)
        requires
            old(self).wf(),
        ensures
            final(self).wf(),
            final(self).active_table.mapper.root == old(self).active_table.mapper.root,
            final(self).stack_allocator == old(self).stack_allocator,
            final(self).page_allocator == old(self).page_allocator,
            final(self).grant_allocator == old(self).grant_allocator,
            final(self).temporary_page == old(self).temporary_page,
            final(self).frame_allocator.available().subset_of(old(self).frame_allocator.available()),
            spends(&old(self).frame_allocator, &final(self).frame_allocator, 4),
            lasts(&old(self).frame_allocator, 4) ==> table.is_some(),
            forall|page: Page|
                #![trigger final(self).active_table.mapper.translation(page)]
                #![trigger old(self).active_table.mapper.translation(page)]
                !recursive(page) ==> final(self).active_table.mapper.translation(page) == old(
                    self).active_table.mapper.translation(page),
            match table {
                Some(made) => {
                    &&& old(self).frame_allocator.answer(1) == Some(
                        (FrameIter { start: made.p4_frame, end: made.p4_frame }),
                    )
                    &&& forall|index: int|
                        0 <= index < 512 && index != RECURSIVE_INDEX
                            ==> #[trigger] final(self).active_table.mapper.memory.entry(
                            made.p4_frame.number,
                            index,
                        ) == 0
                    &&& final(self).active_table.mapper.memory.entry(
                        made.p4_frame.number,
                        RECURSIVE_INDEX as int,
                    ) == pack(made.p4_frame.number, PRESENT | WRITABLE)
                    &&& old(self).frame_allocator.available().contains(made.p4_frame.number)
                    &&& made.ready(&final(self).active_table.mapper)
                    &&& clear_of(
                        &final(self).active_table.mapper.memory,
                        made.p4_frame.number,
                        final(self).frame_allocator.available(),
                    )
                    &&& forall|page: Page|
                        !recursive(page) ==> (#[trigger] made.translation(
                            &final(self).active_table.mapper,
                            page,
                        )).is_none()
                    &&& forall|page: Page|
                        !recursive(page) ==> #[trigger] final(self).active_table.mapper.memory.can_map(
                            made.p4_frame.number,
                            page,
                        )
                },
                None => {
                    ||| old(self).frame_allocator.refuses(1)
                        && final(self).frame_allocator == old(self).frame_allocator
                        && final(self).active_table == old(self).active_table
                    ||| !old(self).active_table.mapper.path_complete(old(self).temporary_page.page)
                        && out_of_frames(&final(self).frame_allocator)
                },
            },
    {
        let ghost spare = self.frame_allocator.available();
        let ghost before = self.active_table.mapper;
        let ghost first_allocator = self.frame_allocator;
        proof {
            lemma_request_spends(&first_allocator);
            lemma_spends_nothing(&first_allocator, 4);
            if lasts(&first_allocator, 4) {
                lemma_lasts_less(&first_allocator, 4, 1);
            }
        }
        let frame = match self.frame_allocator.allocate_frames(1) {
            Some(frames) => {
                assert(frames.contains(frames.start.number));
                frames.start
            },
            None => { return None; },
        };
        let ghost second_allocator = self.frame_allocator;
        proof {
            if lasts(&first_allocator, 4) {
                lemma_spent(&first_allocator, &second_allocator, 1, 4, 3);
            }
        }
        proof {
            self.active_table.mapper.lemma_apart_from_less(spare, self.frame_allocator.available());
            assert(!self.active_table.mapper.is_table(frame.number)) by {
                reveal(Mapper::apart_from);
            }
        }
        let made = InactivePageTable::new(
            frame,
            &mut self.active_table,
            &mut self.temporary_page,
            &mut self.frame_allocator,
        );
        proof {
            let now = self.active_table.mapper;
            lemma_spends(&first_allocator, &second_allocator, &self.frame_allocator, 1, 3, 4);
            lemma_run_same(self.stack_allocator.range, &before, &now);
            lemma_run_same(self.page_allocator.range, &before, &now);
            lemma_run_same(self.grant_allocator.range, &before, &now);
        }
        match made {
            Ok(table) => Some(table),
            Err(_) => None,
        }
    }

    /// Lets `f` work on the address space `table` while the active one
    /// stays loaded, with the controller's own temporary page and frame
    /// allocator. What `with` of the active table asks and gives holds
    /// here: the active address space and the regions are as they were,
    /// `table` is what `f` left, and the flushes that fell due are noted.
    /// It fails only where a table is missing on the path of the temporary
    /// page and the allocator refuses a frame for it, which an allocator
    /// that answers three requests for a frame does not; `f` does not run
    /// then.
    pub fn with_inactive_table<R, F: FnOnce(&mut Mapper, &mut AreaFrameAllocator) -> R>(
        &mut self,
        table: &mut InactivePageTable,
        f: F,
    ) -> (result: Result<R, MapError>)
        requires
            old(self).wf(),
            old(table).ready(&old(self).active_table.mapper),
            clear_of(
                &old(self).active_table.mapper.memory,
                old(table).p4_frame.number,
                old(self).frame_allocator.available(),
            ),
            forall|m: &mut Mapper, a: &mut AreaFrameAllocator|
                m.wf() && a.inv() && m.apart_from(a.available()) && m.root == old(
                    self).active_table.mapper.root && m.p4_spec() == old(table).p4_frame.number
                    && a.available().subset_of(old(self).frame_allocator.available()) && (forall|
                    page: Page,
                |
                    !recursive(page) ==> #[trigger] m.translation(page) == old(table).translation(
                        &old(self).active_table.mapper,
                        page,
                    )) && (forall|page: Page|
                    !recursive(page) ==> #[trigger] m.can_map(page) == old(
                        self).active_table.mapper.memory.can_map(old(table).p4_frame.number, page))
                    ==> #[trigger] call_requires(f, (m, a)),
            forall|m: &mut Mapper, a: &mut AreaFrameAllocator, r: R| #[trigger]
                call_ensures(f, (m, a), r) ==> {
                    &&& final(m).wf()
                    &&& final(a).inv()
                    &&& final(a).available().subset_of(a.available())
                    &&& final(m).apart_from(final(a).available())
                    &&& final(m).grown_from(&*m, a.available())
                    &&& m.actions@.is_prefix_of(final(m).actions@)
                },
        ensures
            final(self).wf(),
            lasts(&old(self).frame_allocator, 3) ==> result.is_ok(),
            result.is_err() ==> spends(&old(self).frame_allocator, &final(self).frame_allocator, 3),
            *final(table) == *old(table),
            final(self).active_table.mapper.root == old(self).active_table.mapper.root,
            final(self).stack_allocator == old(self).stack_allocator,
            final(self).page_allocator == old(self).page_allocator,
            final(self).grant_allocator == old(self).grant_allocator,
            final(self).temporary_page == old(self).temporary_page,
            final(self).frame_allocator.available().subset_of(old(self).frame_allocator.available()),
            final(table).ready(&final(self).active_table.mapper),
            clear_of(
                &final(self).active_table.mapper.memory,
                old(table).p4_frame.number,
                final(self).frame_allocator.available(),
            ),
            final(self).active_table.mapper.same_pages(&old(self).active_table.mapper),
            final(self).active_table.mapper.keeps_windows(&old(self).active_table.mapper),
            final(self).active_table.mapper.memory.entry(
                old(self).active_table.mapper.root.number,
                RECURSIVE_INDEX as int,
            ) == old(self).active_table.mapper.memory.entry(
                old(self).active_table.mapper.root.number,
                RECURSIVE_INDEX as int,
            ),
            old(self).active_table.mapper.actions@.is_prefix_of(final(self).active_table.mapper.actions@),
            result.is_ok() ==> exists|m: &mut Mapper, a: &mut AreaFrameAllocator, returned: R|
                {
                    &&& #[trigger] call_ensures(f, (m, a), returned)
                    &&& result == Ok::<R, MapError>(returned)
                    &&& m.wf()
                    &&& m.root == old(self).active_table.mapper.root
                    &&& m.p4_spec() == old(table).p4_frame.number
                    &&& a.available().subset_of(old(self).frame_allocator.available())
                    &&& final(a).available() == final(self).frame_allocator.available()
                    &&& forall|count: u64| #[trigger]
                        final(a).answer(count) == final(self).frame_allocator.answer(count)
                    &&& spends(&old(self).frame_allocator, &*a, 3)
                    &&& forall|k: nat| #[trigger]
                        spends(&*a, &*final(a), k) ==> spends(
                            &old(self).frame_allocator,
                            &final(self).frame_allocator,
                            k + 3,
                        )
                    &&& forall|page: Page|
                        !recursive(page) ==> #[trigger] m.translation(page) == old(table).translation(
                            &old(self).active_table.mapper,
                            page,
                        )
                    &&& forall|page: Page|
                        !recursive(page) ==> #[trigger] m.can_map(page) == old(
                            self).active_table.mapper.memory.can_map(old(table).p4_frame.number, page)
                    &&& forall|page: Page|
                        !recursive(page) ==> #[trigger] final(table).translation(
                            &final(self).active_table.mapper,
                            page,
                        ) == final(m).translation(page)
                    &&& forall|page: Page|
                        !recursive(page) ==> #[trigger] final(self).active_table.mapper.memory.leaf_entry(
                            old(table).p4_frame.number,
                            page,
                        ) == final(m).leaf_entry(page)
                    &&& forall|page: Page|
                        !recursive(page) ==> #[trigger] final(self).active_table.mapper.memory.can_map(
                            old(table).p4_frame.number,
                            page,
                        ) == final(m).can_map(page)
                },
            match result {
                Ok(_) => {
                    let actions = final(self).active_table.mapper.actions@;
                    let before = old(self).active_table.mapper.actions@;
                    &&& actions.len() >= before.len() + 3
                    &&& actions[before.len() as int] == CpuAction::FlushAll
                    &&& actions[actions.len() - 2] == CpuAction::FlushAll
                    &&& actions[actions.len() - 1] == CpuAction::FlushPage(
                        (old(self).temporary_page.page.number * PAGE_SIZE) as u64,
                    )
                },
                Err(_) => {
                    &&& !old(self).active_table.mapper.path_complete(old(self).temporary_page.page)
                    &&& out_of_frames(&final(self).frame_allocator)
                    &&& final(self).active_table.mapper.actions == old(self).active_table.mapper.actions
                    &&& forall|page: Page|
                        !recursive(page) ==> #[trigger] final(table).translation(
                            &final(self).active_table.mapper,
                            page,
                        ) == old(table).translation(&old(self).active_table.mapper, page)
                },
            },
    {
        let ghost before = self.active_table.mapper;
        let result = self.active_table.with(table, &mut self.temporary_page, &mut self.frame_allocator, f);
        proof {
            let now = self.active_table.mapper;
            lemma_run_same(self.stack_allocator.range, &before, &now);
            lemma_run_same(self.page_allocator.range, &before, &now);
            lemma_run_same(self.grant_allocator.range, &before, &now);
        }
        result
    }

    /// The physical address that `address` is mapped to in the active
    /// address space.
    pub fn translate_address(&mut self, address: VirtualAddress) -> (physical: Option<PhysicalAddress>)
        requires
            old(self).wf(),
            canonical(address),
            old(self).active_table.mapper.memory.aligned(
                old(self).active_table.mapper.p4_spec(),
                page_of(address),
            ),
        ensures
            *final(self) == *old(self),
            physical == old(self).active_table.mapper.address_of(address),
    {
        self.active_table.mapper.translate(address)
    }

    /// Hands out the next pages of the page region that hold `size`
    /// bytes, mapped to fresh frames with the flags `flags` and
    /// `PRESENT`, and returns the address of the first.
    ///
    /// The request is met wherever the region has the pages and the frame
    /// allocator has a run of as many frames and, after it, three frames
    /// for each page, which the tables take at most. A request that is not
    /// met leaves the region as it was, with none of its pages mapped.
    pub fn alloc_vm(&mut self, size: u64, flags: EntryFlags) -> (address: Option<VirtualAddress>)
        requires
            old(self).wf(),
            valid_flags(flags),
        ensures
            final(self).wf(),
            final(self).stack_allocator == old(self).stack_allocator,
            final(self).grant_allocator == old(self).grant_allocator,
            final(self).temporary_page == old(self).temporary_page,
            final(self).active_table.mapper.root == old(self).active_table.mapper.root,
            handed_out(
                &old(self).active_table.mapper,
                &final(self).active_table.mapper,
                old(self).page_allocator.range,
                final(self).page_allocator.range,
                pages_for(size),
                flags,
                old(self).frame_allocator.available(),
                final(self).frame_allocator.available(),
                address.is_some(),
            ),
            paid_with(
                &old(self).frame_allocator,
                &final(self).frame_allocator,
                &final(self).active_table.mapper,
                old(self).page_allocator.range,
                pages_for(size),
                flags,
                address.is_some(),
            ),
            0 < pages_for(size) <= old(self).page_allocator.range.len() && old(self).frame_allocator.answer(
                pages_for(size),
            ).is_some() && lasts(&old(self).frame_allocator.after(pages_for(size)), 3 * pages_for(size) as nat)
                ==> address.is_some(),
            match address {
                Some(start) => start == old(self).page_allocator.range.start.number * PAGE_SIZE,
                None => true,
            },
    {
        let ghost before = self.active_table.mapper;
        let ghost whole = self.page_allocator.range;
        let count = page_count(size);
        proof {
            if 0 < count <= whole.len() {
                assert(page_at(whole, 0) == whole.start);
            }
        }
        let pages = hand_out(
            &mut self.page_allocator.range,
            &mut self.active_table,
            &mut self.frame_allocator,
            count,
            flags,
        );
        proof {
            let now = self.active_table.mapper;
            lemma_rest_within(whole, if count <= whole.len() { count } else { 0 }, self.stack_allocator.range);
            lemma_rest_within(whole, if count <= whole.len() { count } else { 0 }, self.grant_allocator.range);
            lemma_run_kept(self.stack_allocator.range, &before, &now, whole);
            lemma_run_kept(self.grant_allocator.range, &before, &now, whole);
            assert(before.can_map(self.temporary_page.page));
            assert(self.page_allocator.range.end == whole.end);
        }
        match pages {
            Some(run) => Some(run.start.start_address()),
            None => None,
        }
    }

    /// Hands out the next pages of the page region that hold `size`
    /// bytes, mapped to the frames from the one that holds `address` on,
    /// with the flags `flags` and `PRESENT`, and returns the address of
    /// the first page.
    ///
    /// A request for no bytes, or for more pages than are left, gets
    /// nothing and changes nothing. Where the frames for tables run out,
    /// what was mapped is unmapped again, the region stays as it was, and
    /// nothing is returned. The tables take three frames for each page at
    /// most.
    pub fn map_pm(&mut self, address: PhysicalAddress, size: u64, flags: EntryFlags) -> (start: Option<
        VirtualAddress,
    >)
        requires
            old(self).wf(),
            valid_flags(flags),
            address + size <= 0x10_0000_0000_0000,
        ensures
            final(self).wf(),
            final(self).stack_allocator == old(self).stack_allocator,
            final(self).grant_allocator == old(self).grant_allocator,
            final(self).temporary_page == old(self).temporary_page,
            final(self).active_table.mapper.root == old(self).active_table.mapper.root,
            final(self).frame_allocator.available().subset_of(old(self).frame_allocator.available()),
            0 < pages_for(size) <= old(self).page_allocator.range.len() && lasts(
                &old(self).frame_allocator,
                3 * pages_for(size) as nat,
            ) ==> start.is_some(),
            0 < pages_for(size) <= old(self).page_allocator.range.len() ==> {
                &&& spends(&old(self).frame_allocator, &final(self).frame_allocator, 3 * pages_for(size) as nat)
                &&& start.is_none() ==> out_of_frames(&final(self).frame_allocator)
            },
            pages_for(size) == 0 || old(self).page_allocator.range.len() < pages_for(size)
                ==> final(self).frame_allocator == old(self).frame_allocator,
            forall|other: Page|
                #![trigger final(self).active_table.mapper.translation(other)]
                #![trigger old(self).active_table.mapper.translation(other)]
                !recursive(other) && other.valid() && !old(self).page_allocator.range.contains(
                    other.number,
                ) ==> final(self).active_table.mapper.translation(other) == old(
                    self).active_table.mapper.translation(other),
            pages_for(size) == 0 || old(self).page_allocator.range.len() < pages_for(size) ==> {
                &&& start.is_none()
                &&& final(self).active_table == old(self).active_table
                &&& final(self).frame_allocator.available() == old(self).frame_allocator.available()
            },
            match start {
                Some(first) => {
                    &&& first == old(self).page_allocator.range.start.number * PAGE_SIZE
                    &&& final(self).page_allocator.range == old(self).page_allocator.range.rest(
                        pages_for(size),
                    )
                    &&& final(self).active_table.mapper.actions == old(self).active_table.mapper.actions
                    &&& forall|i: int|
                        0 <= i < pages_for(size) ==> final(self).active_table.mapper.paired(
                            #[trigger] page_at(old(self).page_allocator.range, i),
                            FrameIter {
                                start: Frame { number: address / PAGE_SIZE },
                                end: Frame { number: ((address + size - 1) / PAGE_SIZE as int) as u64 },
                            },
                            i,
                            flags,
                        )
                },
                None => {
                    &&& final(self).page_allocator == old(self).page_allocator
                    &&& forall|i: int|
                        0 <= i < old(self).page_allocator.range.len()
                            ==> (#[trigger] final(self).active_table.mapper.translation(
                            page_at(old(self).page_allocator.range, i),
                        )).is_none()
                    &&& exists|undone: nat|
                        undone <= pages_for(size) && final(self).active_table.mapper.actions@
                            == old(self).active_table.mapper.actions@ + #[trigger] flushes(
                            old(self).page_allocator.range,
                            undone,
                        )
                },
            },
    {
        let ghost before = self.active_table.mapper;
        let whole = self.page_allocator.range;
        let ghost spare = self.frame_allocator.available();
        let ghost first_allocator = self.frame_allocator;
        let count = page_count(size);
        proof {
            before.lemma_grown_from_self(spare);
            if 0 < count <= whole.len() {
                assert(page_at(whole, 0) == whole.start);
                assert(page_at(whole, count - 1).valid());
                assert(page_at(whole, whole.len() - 1) == whole.end);
            }
            assert forall|i: int| 0 <= i < whole.len() implies (#[trigger] before.translation(
                page_at(whole, i),
            )).is_none() by {
                lemma_unmapped(&before.memory, before.p4_spec(), page_at(whole, i));
            }
        }
        let pages = match self.page_allocator.allocate(count) {
            Some(pages) => pages,
            None => {
                proof {
                    assert(before.actions@ =~= before.actions@ + flushes(whole, 0nat));
                }
                return None;
            },
        };
        let start_address = pages.start.start_address();
        let start_frame = Frame::containing_address(address);
        let end_frame = Frame::containing_address(address + size - 1);
        let frames = Frame::range_inclusive(start_frame, end_frame);
        proof {
            assert(frames.len() >= count);
            assert forall|i: int| 0 <= i < pages.len() implies (#[trigger] page_at(pages, i)).valid()
                && !recursive(page_at(pages, i)) && self.active_table.mapper.can_map(
                page_at(pages, i),
            ) by {
                assert(page_at(pages, i) == page_at(whole, i));
            }
        }
        let mapped = self.active_table.mapper.map_range_to(pages, frames, flags, &mut self.frame_allocator);
        proof {
            let now = self.active_table.mapper;
            now.lemma_grown_loaded(&before, spare);
            let rest = self.page_allocator.range;
            lemma_rest_within(whole, count, self.stack_allocator.range);
            lemma_rest_within(whole, count, self.grant_allocator.range);
            assert(runs_apart(self.stack_allocator.range, pages));
            assert(runs_apart(self.grant_allocator.range, pages));
            lemma_run_kept(self.stack_allocator.range, &before, &now, pages);
            lemma_run_kept(self.grant_allocator.range, &before, &now, pages);
            assert(before.can_map(self.temporary_page.page));
            assert forall|i: int| 0 <= i < rest.len() implies (#[trigger] page_at(rest, i)).valid()
                && !recursive(page_at(rest, i)) && now.can_map(page_at(rest, i)) by {
                assert(page_at(rest, i) == page_at(whole, i + count));
                assert(before.can_map(page_at(rest, i)));
            }
            if rest.len() > 0 {
                assert(page_at(rest, 0) == rest.start);
            }
            assert forall|i: int| 0 <= i < count implies {
                ||| now.paired(#[trigger] page_at(whole, i), frames, i, flags)
                ||| mapped.is_err() && now.translation(page_at(whole, i)).is_none()
            } by {
                assert(page_at(pages, i) == page_at(whole, i));
            }
        }
        match mapped {
            Ok(_) => Some(start_address),
            Err(_) => {
                // The request is not met: what was mapped of it goes
                // again, and the region gets its pages back.
                let ghost half = self.active_table.mapper;
                let ghost half_allocator = self.frame_allocator;
                let undone = self.active_table.mapper.unmap_front(pages, &mut self.frame_allocator);
                self.page_allocator.range = whole;
                proof {
                    let now = self.active_table.mapper;
                    now.lemma_grown_twice(&half, &before, spare, Set::empty());
                    assert(now.root == half.root && now.p4_spec() == half.p4_spec()) by {
                        reveal(Mapper::grown_from);
                    }
                    now.lemma_apart_from_same(&half, self.frame_allocator.available());
                    now.lemma_grown_loaded(&before, spare);
                    lemma_spends(
                        &first_allocator,
                        &half_allocator,
                        &self.frame_allocator,
                        3 * count as nat,
                        0,
                        3 * count as nat,
                    );
                    assert(now.actions@ =~= before.actions@ + flushes(whole, undone as nat)) by {
                        assert(flushes(pages, undone as nat) =~= flushes(whole, undone as nat));
                    }
                    lemma_run_kept(self.stack_allocator.range, &half, &now, pages);
                    lemma_run_kept(self.grant_allocator.range, &half, &now, pages);
                    assert forall|i: int| 0 <= i < whole.len() implies now.can_map(
                        #[trigger] page_at(whole, i),
                    ) && now.translation(page_at(whole, i)).is_none() by {
                        if i < count {
                            assert(page_at(pages, i) == page_at(whole, i));
                        } else {
                            assert(page_at(whole, i) == page_at(whole.rest(count), i - count));
                            assert(half.can_map(page_at(whole, i)));
                            assert(!pages.contains(page_at(whole, i).number));
                            lemma_unmapped(&now.memory, now.p4_spec(), page_at(whole, i));
                        }
                    }
                }
                None
            },
        }
    }

    /// Hands out the next `size_in_pages` pages of the stack region as a
    /// stack, mapped writable to fresh frames.
    ///
    /// The request is met wherever the region has the pages and the frame
    /// allocator has a run of as many frames and, after it, three frames
    /// for each page. A request that is not met leaves the region as it
    /// was, with none of its pages mapped.
    pub fn alloc_stack(&mut self, size_in_pages: u64) -> (stack: Option<Stack>)
        requires
            old(self).wf(),
        ensures
            final(self).wf(),
            final(self).page_allocator == old(self).page_allocator,
            final(self).grant_allocator == old(self).grant_allocator,
            final(self).temporary_page == old(self).temporary_page,
            final(self).active_table.mapper.root == old(self).active_table.mapper.root,
            handed_out(
                &old(self).active_table.mapper,
                &final(self).active_table.mapper,
                old(self).stack_allocator.range,
                final(self).stack_allocator.range,
                size_in_pages,
                WRITABLE,
                old(self).frame_allocator.available(),
                final(self).frame_allocator.available(),
                stack.is_some(),
            ),
            paid_with(
                &old(self).frame_allocator,
                &final(self).frame_allocator,
                &final(self).active_table.mapper,
                old(self).stack_allocator.range,
                size_in_pages,
                WRITABLE,
                stack.is_some(),
            ),
            0 < size_in_pages <= old(self).stack_allocator.range.len() && old(self).frame_allocator.answer(
                size_in_pages,
            ).is_some() && lasts(&old(self).frame_allocator.after(size_in_pages), 3 * size_in_pages as nat)
                ==> stack.is_some(),
            match stack {
                Some(made) => {
                    &&& made.bottom == old(self).stack_allocator.range.start.number * PAGE_SIZE
                    &&& made.top == made.bottom + size_in_pages * PAGE_SIZE
                },
                None => true,
            },
    {
        let ghost before = self.active_table.mapper;
        let ghost whole = self.stack_allocator.range;
        let stack = self.stack_allocator.alloc_stack(
            &mut self.active_table,
            &mut self.frame_allocator,
            size_in_pages,
        );
        proof {
            let now = self.active_table.mapper;
            let count = if size_in_pages <= whole.len() {
                size_in_pages
            } else {
                0
            };
            lemma_rest_within(whole, count, self.page_allocator.range);
            lemma_rest_within(whole, count, self.grant_allocator.range);
            lemma_run_kept(self.page_allocator.range, &before, &now, whole);
            lemma_run_kept(self.grant_allocator.range, &before, &now, whole);
            assert(before.can_map(self.temporary_page.page));
            assert(self.stack_allocator.range.end == whole.end);
        }
        stack
    }

    /// Hands out the next `size_in_pages` pages of the grant region,
    /// mapped to fresh frames with the flags `flags` and `PRESENT`.
    ///
    /// The request is met wherever the region has the pages and the frame
    /// allocator has a run of as many frames and, after it, three frames
    /// for each page. A request that is not met leaves the region as it
    /// was, with none of its pages mapped.
    pub fn alloc_grant(&mut self, size_in_pages: u64, flags: EntryFlags) -> (grant: Option<Grant>)
        requires
            old(self).wf(),
            valid_flags(flags),
        ensures
            final(self).wf(),
            final(self).stack_allocator == old(self).stack_allocator,
            final(self).page_allocator == old(self).page_allocator,
            final(self).temporary_page == old(self).temporary_page,
            final(self).active_table.mapper.root == old(self).active_table.mapper.root,
            handed_out(
                &old(self).active_table.mapper,
                &final(self).active_table.mapper,
                old(self).grant_allocator.range,
                final(self).grant_allocator.range,
                size_in_pages,
                flags,
                old(self).frame_allocator.available(),
                final(self).frame_allocator.available(),
                grant.is_some(),
            ),
            paid_with(
                &old(self).frame_allocator,
                &final(self).frame_allocator,
                &final(self).active_table.mapper,
                old(self).grant_allocator.range,
                size_in_pages,
                flags,
                grant.is_some(),
            ),
            0 < size_in_pages <= old(self).grant_allocator.range.len() && old(self).frame_allocator.answer(
                size_in_pages,
            ).is_some() && lasts(&old(self).frame_allocator.after(size_in_pages), 3 * size_in_pages as nat)
                ==> grant.is_some(),
            match grant {
                Some(granted) => {
                    &&& granted.start == old(self).grant_allocator.range.start.number * PAGE_SIZE
                    &&& granted.size == size_in_pages * PAGE_SIZE
                },
                None => true,
            },
    {
        let ghost before = self.active_table.mapper;
        let ghost whole = self.grant_allocator.range;
        let grant = self.grant_allocator.allocate(
            &mut self.active_table,
            &mut self.frame_allocator,
            size_in_pages,
            flags,
        );
        proof {
            let now = self.active_table.mapper;
            let count = if size_in_pages <= whole.len() {
                size_in_pages
            } else {
                0
            };
            lemma_rest_within(whole, count, self.stack_allocator.range);
            lemma_rest_within(whole, count, self.page_allocator.range);
            lemma_run_kept(self.stack_allocator.range, &before, &now, whole);
            lemma_run_kept(self.page_allocator.range, &before, &now, whole);
            assert(before.can_map(self.temporary_page.page));
            assert(self.grant_allocator.range.end == whole.end);
        }
        grant
    }
}

} // verus!
