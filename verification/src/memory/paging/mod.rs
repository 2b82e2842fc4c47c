//! Pages, page tables and the switch between address spaces.

use vstd::prelude::*;
use core::ops::{Add, Sub};
use super::{
    lasts, lemma_request_spends, lemma_spends, lemma_spends_nothing, lemma_spent, out_of_frames,
    spends, Frame, FrameAllocator, MAX_FRAMES, PAGE_SIZE,
};
use self::entry::{is_present, pack, Entry, PRESENT, WRITABLE};
use self::window::{lemma_walk_kept, lemma_window_path, upper_table};
use self::mapper::{lemma_flag_facts, CpuAction, MapError, Mapper};
use self::table::{recursive, PhysicalMemory, RECURSIVE_INDEX};
use self::identity::{covered, frames_in, regions_ok};
use self::temporary_page::TemporaryPage;
use crate::memory::boot_info::BootInformation;
use self::tree::{
    apart, clear_of, lemma_empty_tree, lemma_preserved, same_slot, shaped, sound, written,
};

pub mod entry;
pub mod table;
pub mod tree;
pub mod window;
pub mod mapper;
pub mod temporary_page;
pub mod identity;

verus! {

/// Entries in one page table.
pub const ENTRY_COUNT: u64 = 512;

/// An address as the processor takes it from a program.
pub type VirtualAddress = u64;

/// An address in memory itself.
pub type PhysicalAddress = u64;

/// Whether `address` lies in the lower or in the upper half of the address
/// space, the only addresses the processor takes.
pub open spec fn canonical(address: VirtualAddress) -> bool {
    address < 0x0000_8000_0000_0000 || address >= 0xffff_8000_0000_0000
}

/// One page of virtual memory, named by its address divided by the page size.
#[derive(Debug, Clone, Copy, PartialEq, Eq, PartialOrd, Ord, Structural)]
pub struct Page {
    pub number: u64,
}

impl Page {
    /// Whether the page's addresses are canonical.
    pub open spec fn valid(&self) -> bool {
        self.number < 0x8_0000_0000 || 0xf_fff8_0000_0000 <= self.number < 0x10_0000_0000_0000
    }

    /// The page's index in the table of the highest level.
    pub open spec fn p4(&self) -> int {
        ((self.number >> 27) & 0o777) as int
    }

    /// The page's index in the table of level 3.
    pub open spec fn p3(&self) -> int {
        ((self.number >> 18) & 0o777) as int
    }

    /// The page's index in the table of level 2.
    pub open spec fn p2(&self) -> int {
        ((self.number >> 9) & 0o777) as int
    }

    /// The page's index in the table of the lowest level.
    pub open spec fn p1(&self) -> int {
        (self.number & 0o777) as int
    }

    /// The page that holds the byte at `address`.
    pub fn containing_address(address: VirtualAddress) -> (page: Page)
        requires
            canonical(address),
        ensures
            page.number == address / PAGE_SIZE,
            page.valid(),
    {
        Page { number: address / PAGE_SIZE }
    }

    /// The address of the page's first byte.
    pub fn start_address(&self) -> (address: VirtualAddress)
        requires
            self.number * PAGE_SIZE <= u64::MAX,
        ensures
            address == self.number * PAGE_SIZE,
    {
        self.number * PAGE_SIZE
    }

    /// The page's index in the table of the highest level.
    pub fn p4_index(&self) -> (index: usize)
        ensures
            index == self.p4(),
            index < 512,
    {
        let number = self.number;
        assert((number >> 27) & 0o777 < 512) by (bit_vector);
        ((self.number >> 27) & 0o777) as usize
    }

    /// The page's index in the table of level 3.
    pub fn p3_index(&self) -> (index: usize)
        ensures
            index == self.p3(),
            index < 512,
    {
        let number = self.number;
        assert((number >> 18) & 0o777 < 512) by (bit_vector);
        ((self.number >> 18) & 0o777) as usize
    }

    /// The page's index in the table of level 2.
    pub fn p2_index(&self) -> (index: usize)
        ensures
            index == self.p2(),
            index < 512,
    {
        let number = self.number;
        assert((number >> 9) & 0o777 < 512) by (bit_vector);
        ((self.number >> 9) & 0o777) as usize
    }

    /// The page's index in the table of the lowest level.
    pub fn p1_index(&self) -> (index: usize)
        ensures
            index == self.p1(),
            index < 512,
    {
        let number = self.number;
        assert(number & 0o777 < 512) by (bit_vector);
        (self.number & 0o777) as usize
    }

    /// The pages from `start` to `end`, both included.
    pub fn range_inclusive(start: Page, end: Page) -> (range: PageIter)
        ensures
            range.start == start,
            range.end == end,
    {
        PageIter { start, end }
    }
}

impl Add<u64> for Page {
    type Output = Page;

    /// The page `rhs` pages further up.
    fn add(self, rhs: u64) -> (page: Page) {
        Page { number: self.number + rhs }
    }
}

impl vstd::std_specs::ops::AddSpecImpl<u64> for Page {
    open spec fn obeys_add_spec() -> bool {
        true
    }

    open spec fn add_req(self, rhs: u64) -> bool {
        self.number + rhs <= u64::MAX
    }

    open spec fn add_spec(self, rhs: u64) -> Page {
        Page { number: (self.number + rhs) as u64 }
    }
}

impl Sub<u64> for Page {
    type Output = Page;

    /// The page `rhs` pages further down.
    fn sub(self, rhs: u64) -> (page: Page) {
        Page { number: self.number - rhs }
    }
}

impl vstd::std_specs::ops::SubSpecImpl<u64> for Page {
    open spec fn obeys_sub_spec() -> bool {
        true
    }

    open spec fn sub_req(self, rhs: u64) -> bool {
        rhs <= self.number
    }

    open spec fn sub_spec(self, rhs: u64) -> Page {
        Page { number: (self.number - rhs) as u64 }
    }
}

/// A run of pages with consecutive numbers, from `start` to `end`, both
/// included; it is empty when `start` lies after `end`.
#[derive(Debug, Clone, Copy, PartialEq, Eq, Structural)]
pub struct PageIter {
    pub start: Page,
    pub end: Page,
}

impl PageIter {
    /// How many pages are left in the run.
    pub open spec fn len(&self) -> nat {
        if self.start.number <= self.end.number {
            (self.end.number - self.start.number + 1) as nat
        } else {
            0
        }
    }

    /// Whether the page with this number is still in the run.
    pub open spec fn contains(&self, number: u64) -> bool {
        self.start.number <= number <= self.end.number
    }

    /// How many pages the run holds. The run is not empty and is shorter
    /// than the whole address space.
    pub fn size(&self) -> (pages: u64)
        requires
            0 < self.len() <= u64::MAX,
        ensures
            pages == self.len(),
    {
        self.end.number - self.start.number + 1
    }

    /// Whether the run is made of canonical pages outside the recursive
    /// part of the address space, and ends before the last page number.
    pub open spec fn usable(&self) -> bool {
        &&& self.end.number < u64::MAX
        &&& self.len() > 0 ==> self.start.valid() && self.end.valid()
        &&& forall|i: int|
            0 <= i < self.len() ==> (#[trigger] mapper::page_at(*self, i)).valid() && !recursive(
                mapper::page_at(*self, i),
            )
    }

    /// Whether each page of the run can be given a mapping by `mapper`.
    pub open spec fn unmapped_in(&self, mapper: &Mapper) -> bool {
        forall|i: int| 0 <= i < self.len() ==> mapper.can_map(#[trigger] mapper::page_at(*self, i))
    }

    /// The first `count` pages of the run.
    pub open spec fn front(&self, count: u64) -> PageIter {
        PageIter { start: self.start, end: Page { number: (self.start.number + count - 1) as u64 } }
    }

    /// The run without its first `count` pages.
    pub open spec fn rest(&self, count: u64) -> PageIter {
        PageIter { start: Page { number: (self.start.number + count) as u64 }, end: self.end }
    }

    /// Takes the first `count` pages off the run and returns them as a run
    /// of their own. Where `count` is 0 or the run is shorter than that,
    /// the run stays as it is and nothing is returned.
    pub fn take(&mut self, count: u64) -> (taken: Option<PageIter>)
        requires
            old(self).end.number < u64::MAX,
        ensures
            match taken {
                Some(pages) => {
                    &&& 0 < count <= old(self).len()
                    &&& pages == old(self).front(count)
                    &&& *final(self) == old(self).rest(count)
                },
                None => (count == 0 || old(self).len() < count) && *final(self) == *old(self),
            },
    {
        if count == 0 {
            return None;
        }
        // Work on a copy: the run changes only if the request is met.
        let mut range = *self;
        let start_page = range.next();
        let end_page = if count == 1 {
            start_page
        } else {
            range.nth(count - 2)
        };
        match (start_page, end_page) {
            (Some(start), Some(end)) => {
                *self = range;
                Some(Page::range_inclusive(start, end))
            },
            _ => None,
        }
    }

    /// Takes the first page off the run.
    pub fn next(&mut self) -> (page: Option<Page>)
        requires
            old(self).end.number < u64::MAX,
        ensures
            final(self).end == old(self).end,
            match page {
                Some(first) => {
                    &&& old(self).len() > 0
                    &&& first == old(self).start
                    &&& final(self).start.number == old(self).start.number + 1
                },
                None => old(self).len() == 0 && *final(self) == *old(self),
            },
    {
        if self.start.number <= self.end.number {
            let page = self.start;
            self.start.number += 1;
            Some(page)
        } else {
            None
        }
    }

    /// Takes `n` pages off the run and then one more, which it returns.
    /// A run that holds no more than `n` pages stays as it is.
    pub fn nth(&mut self, n: u64) -> (page: Option<Page>)
        requires
            old(self).end.number < u64::MAX,
        ensures
            final(self).end == old(self).end,
            match page {
                Some(found) => {
                    &&& n < old(self).len()
                    &&& found.number == old(self).start.number + n
                    &&& final(self).start.number == old(self).start.number + n + 1
                },
                None => old(self).len() <= n && *final(self) == *old(self),
            },
    {
        if self.start.number <= self.end.number && n <= self.end.number - self.start.number {
            let page = self.start + n;
            self.start.number += n + 1;
            Some(page)
        } else {
            None
        }
    }
}

/// The address space that the processor has loaded. There is one of
/// these: it owns the machine's table memory and the name of the loaded
/// table.
pub struct ActivePageTable {
    pub mapper: Mapper,
}

impl ActivePageTable {
    /// The mapper is well formed and works on the loaded tree itself: the
    /// recursive slot of the loaded table points at that table.
    pub open spec fn loaded(&self) -> bool {
        self.mapper.wf() && self.mapper.p4_spec() == self.mapper.root.number
    }

    /// An address space with nothing in it but the recursive slot of its
    /// highest table, which is put in `frame`, and loaded on a machine
    /// whose table memory is otherwise empty.
    pub fn new(frame: Frame) -> (table: ActivePageTable)
        requires
            frame.number < MAX_FRAMES,
        ensures
            table.loaded(),
            table.mapper.root == frame,
            table.mapper.actions@.len() == 0,
            forall|number: u64| #[trigger] table.mapper.is_table(number) <==> number == frame.number,
            forall|page: Page| !recursive(page) ==> (#[trigger] table.mapper.translation(page)).is_none(),
            forall|page: Page| !recursive(page) ==> #[trigger] table.mapper.can_map(page),
            forall|number: u64, index: int|
                number != frame.number ==> #[trigger] table.mapper.memory.entry(number, index) == 0,
    {
        let mut memory = PhysicalMemory::new();
        let mut entry = Entry { value: 0 };
        proof {
            lemma_flag_facts();
        }
        entry.set(frame.clone(), PRESENT | WRITABLE);
        memory.write(&frame, RECURSIVE_INDEX, entry);
        let table = ActivePageTable { mapper: Mapper { memory, root: frame, actions: Vec::new() } };
        proof {
            reveal(Mapper::wf);
            entry::lemma_pack(frame.number, PRESENT | WRITABLE);
            lemma_empty_tree(&table.mapper.memory, frame.number);
            tree::lemma_zero_entry();
            assert forall|page: Page| !recursive(page) implies #[trigger] table.mapper.can_map(page) by {
                assert(table.mapper.memory.table_for(frame.number, page, 3).is_none());
                assert(table.mapper.memory.entry(frame.number, page.p4()) == 0);
            }
        }
        table
    }

    /// Lets `f` work on the tree of `table` while the active table stays
    /// loaded.
    ///
    /// The loaded table is mapped to the temporary page, so that it can be
    /// reached later. Its recursive slot is pointed at `table`, the cached
    /// translations are flushed, and `f` runs on a mapper that now sees the
    /// tree of `table`. Then the slot is pointed back, through the
    /// temporary page, the cached translations are flushed again, and the
    /// temporary page is unmapped.
    ///
    /// `f` must be able to start on any well-formed mapper that has the
    /// same table loaded and sees the tree of `table`, with its pages
    /// mapped as `table` has them, and must leave it well formed and
    /// changed by growing only. Then every page outside
    /// the recursive part is translated in the active address space after
    /// the call as it was before, the recursive slot holds what it
    /// held, and every window that showed a table shows it still. Where
    /// the temporary page cannot be mapped for want of a frame
    /// for a table on its path, `f` does not run and nothing changes but
    /// the tables that were made for the temporary page up to then. That
    /// takes three frames at most: with an allocator that answers three
    /// requests for a frame, `f` runs.
    pub fn with<A: FrameAllocator, R, F: FnOnce(&mut Mapper, &mut A) -> R>(
        &mut self,
        table: &mut InactivePageTable,
        temporary_page: &mut TemporaryPage,
        allocator: &mut A,
        f: F,
    ) -> (result: Result<R, MapError>)
        requires
            old(self).loaded(),
            old(allocator).inv(),
            old(self).mapper.apart_from(old(allocator).available()),
            old(table).ready(&old(self).mapper),
            clear_of(
                &old(self).mapper.memory,
                old(table).p4_frame.number,
                old(allocator).available(),
            ),
            old(temporary_page).free_in(old(self)),
            forall|m: &mut Mapper, a: &mut A|
                m.wf() && a.inv() && m.apart_from(a.available()) && m.root == old(self).mapper.root
                    && m.p4_spec() == old(table).p4_frame.number && a.available().subset_of(
                    old(allocator).available(),
                ) && (forall|page: Page|
                    !recursive(page) ==> #[trigger] m.translation(page) == old(table).translation(
                        &old(self).mapper,
                        page,
                    )) && (forall|page: Page|
                    !recursive(page) ==> #[trigger] m.can_map(page) == old(self).mapper.memory.can_map(
                        old(table).p4_frame.number,
                        page,
                    )) ==> #[trigger] call_requires(f, (m, a)),
            forall|m: &mut Mapper, a: &mut A, r: R| #[trigger]
                call_ensures(f, (m, a), r) ==> {
                    &&& final(m).wf()
                    &&& final(a).inv()
                    &&& final(a).available().subset_of(a.available())
                    &&& final(m).apart_from(final(a).available())
                    &&& final(m).grown_from(&*m, a.available())
                    &&& m.actions@.is_prefix_of(final(m).actions@)
                },
        ensures
            lasts(old(allocator), 3) ==> result.is_ok(),
            result.is_err() ==> spends(old(allocator), final(allocator), 3),
            result.is_err() ==> out_of_frames(final(allocator)),
            *final(table) == *old(table),
            *final(temporary_page) == *old(temporary_page),
            final(self).loaded(),
            final(self).mapper.root == old(self).mapper.root,
            final(allocator).inv(),
            final(allocator).available().subset_of(old(allocator).available()),
            final(self).mapper.apart_from(final(allocator).available()),
            final(table).ready(&final(self).mapper),
            clear_of(
                &final(self).mapper.memory,
                old(table).p4_frame.number,
                final(allocator).available(),
            ),
            final(temporary_page).free_in(final(self)),
            final(self).mapper.same_pages(&old(self).mapper),
            final(self).mapper.keeps_windows(&old(self).mapper),
            final(self).mapper.memory.entry(old(self).mapper.root.number, RECURSIVE_INDEX as int) == old(
                self).mapper.memory.entry(old(self).mapper.root.number, RECURSIVE_INDEX as int),
            old(self).mapper.actions@.is_prefix_of(final(self).mapper.actions@),
            forall|number: u64, index: int|
                !old(self).mapper.is_table(number) && !old(self).mapper.memory.is_table(
                    old(table).p4_frame.number,
                    number,
                ) && !old(allocator).available().contains(number)
                    ==> #[trigger] final(self).mapper.memory.entry(number, index) == old(
                    self).mapper.memory.entry(number, index),
            result.is_ok() ==> exists|m: &mut Mapper, a: &mut A, returned: R|
                {
                    &&& #[trigger] call_ensures(f, (m, a), returned)
                    &&& result == Ok::<R, MapError>(returned)
                    &&& m.wf()
                    &&& m.root == old(self).mapper.root
                    &&& m.p4_spec() == old(table).p4_frame.number
                    &&& a.available().subset_of(old(allocator).available())
                    &&& final(a).available() == final(allocator).available()
                    &&& forall|count: u64| #[trigger]
                        final(a).answer(count) == final(allocator).answer(count)
                    &&& spends(old(allocator), &*a, 3)
                    &&& forall|k: nat| #[trigger]
                        spends(&*a, &*final(a), k) ==> spends(old(allocator), final(allocator), k + 3)
                    &&& forall|page: Page|
                        !recursive(page) ==> #[trigger] m.translation(page) == old(
                            table).translation(&old(self).mapper, page)
                    &&& forall|page: Page|
                        !recursive(page) ==> #[trigger] m.can_map(page) == old(
                            self).mapper.memory.can_map(old(table).p4_frame.number, page)
                    &&& forall|page: Page|
                        !recursive(page) ==> #[trigger] final(table).translation(
                            &final(self).mapper,
                            page,
                        ) == final(m).translation(page)
                    &&& forall|page: Page|
                        !recursive(page) ==> #[trigger] final(self).mapper.memory.leaf_entry(
                            old(table).p4_frame.number,
                            page,
                        ) == final(m).leaf_entry(page)
                    &&& forall|page: Page|
                        !recursive(page) ==> #[trigger] final(self).mapper.memory.can_map(
                            old(table).p4_frame.number,
                            page,
                        ) == final(m).can_map(page)
                },
            match result {
                Ok(_) => {
                    let actions = final(self).mapper.actions@;
                    &&& actions.len() >= old(self).mapper.actions@.len() + 3
                    &&& actions[old(self).mapper.actions@.len() as int] == CpuAction::FlushAll
                    &&& actions[actions.len() - 2] == CpuAction::FlushAll
                    &&& actions[actions.len() - 1] == CpuAction::FlushPage(
                        (old(temporary_page).page.number * PAGE_SIZE) as u64,
                    )
                },
                Err(_) => {
                    &&& !old(self).mapper.path_complete(old(temporary_page).page)
                    &&& final(self).mapper.actions == old(self).mapper.actions
                    &&& forall|page: Page|
                        !recursive(page) ==> #[trigger] final(table).translation(
                            &final(self).mapper,
                            page,
                        ) == old(table).translation(&old(self).mapper, page)
                },
            },
    {
        let ghost first = self.mapper;
        let ghost spare = allocator.available();
        let ghost other = table.p4_frame.number;
        let backup = match self.enter(table, temporary_page, allocator) {
            Ok(backup) => backup,
            Err(error) => { return Err(error); },
        };
        let ghost third = self.mapper;
        let ghost spare_third = allocator.available();
        proof {
            reveal(ActivePageTable::borrowed);
        }
        let ghost allocator_in = *allocator;
        let returned = f(&mut self.mapper, allocator);
        let ghost allocator_out = *allocator;
        proof {
            self.lemma_borrowed_kept(&third, &first, other, temporary_page.page, spare_third, allocator.available(), spare);
        }
        let ghost fourth = self.mapper;
        self.leave(table, temporary_page, allocator, backup, Ghost(first), Ghost(spare));
        proof {
            assert forall|k: nat| #[trigger] spends(&allocator_in, &allocator_out, k) implies spends(
                old(allocator),
                &*allocator,
                k + 3,
            ) by {
                lemma_spends(old(allocator), &allocator_in, &allocator_out, 3, k, k + 3);
                lemma_spends(old(allocator), &allocator_out, &*allocator, k + 3, 0, k + 3);
            }
            assert(first.actions@.push(CpuAction::FlushAll).is_prefix_of(fourth.actions@)) by {
                reveal(ActivePageTable::borrowed);
            }
            let actions = self.mapper.actions@;
            let start = first.actions@.len() as int;
            let begun = first.actions@.push(CpuAction::FlushAll);
            assert(begun[start] == CpuAction::FlushAll);
            assert(fourth.actions@.subrange(0, begun.len() as int)[start] == fourth.actions@[start]);
            assert(fourth.actions@[start] == CpuAction::FlushAll);
            assert(actions[start] == fourth.actions@[start]);
            assert(first.actions@.is_prefix_of(begun)) by {
                assert(begun.subrange(0, start) =~= first.actions@);
            }
            assert(fourth.actions@.is_prefix_of(actions)) by {
                assert(actions.subrange(0, fourth.actions@.len() as int) =~= fourth.actions@);
            }
            lemma_prefix_chain(first.actions@, begun, fourth.actions@);
            lemma_prefix_chain(first.actions@, fourth.actions@, actions);
            let last = self.mapper;
            assert(third.wf() && third.root == first.root && third.p4_spec() == other) by {
                reveal(ActivePageTable::borrowed);
            }
            assert forall|page: Page| !recursive(page) implies #[trigger] third.translation(page)
                == first.memory.translation(other, page) by {}
            assert forall|page: Page| !recursive(page) implies #[trigger] third.can_map(page)
                == first.memory.can_map(other, page) by {}
            assert forall|page: Page| !recursive(page) implies #[trigger] table.translation(&last, page)
                == fourth.translation(page) by {}
            assert forall|page: Page| !recursive(page) implies #[trigger] last.memory.leaf_entry(
                other,
                page,
            ) == fourth.leaf_entry(page) by {}
            assert forall|page: Page| !recursive(page) implies #[trigger] last.memory.can_map(other, page)
                == fourth.can_map(page) by {}
        }
        Ok(returned)
    }

    /// Loads `new_table` and hands back the address space that was loaded
    /// up to now. That the table-base register has to take the new table
    /// is written down as an action.
    pub fn switch(&mut self, new_table: InactivePageTable) -> (old_table: InactivePageTable)
        requires
            old(self).loaded(),
            new_table.ready(&old(self).mapper),
        ensures
            final(self).loaded(),
            final(self).mapper.root == new_table.p4_frame,
            final(self).mapper.memory == old(self).mapper.memory,
            final(self).mapper.actions@ == old(self).mapper.actions@.push(
                CpuAction::LoadTable((new_table.p4_frame.number * PAGE_SIZE) as u64),
            ),
            old_table.p4_frame == old(self).mapper.root,
            old_table.ready(&final(self).mapper),
            forall|page: Page| #[trigger]
                final(self).mapper.translation(page) == new_table.translation(&old(self).mapper, page),
            forall|page: Page| #[trigger]
                old_table.translation(&final(self).mapper, page) == old(self).mapper.translation(page),
    {
        proof {
            reveal(Mapper::wf);
            lemma_flag_facts();
            entry::lemma_pack(new_table.p4_frame.number, PRESENT | WRITABLE);
            assert(self.mapper.memory.is_table(new_table.p4_frame.number, new_table.p4_frame.number));
            assert(self.mapper.memory.is_table(self.mapper.root.number, self.mapper.root.number));
        }
        let old_table = InactivePageTable { p4_frame: self.mapper.root.clone() };
        self.mapper.actions.push(CpuAction::LoadTable(new_table.p4_frame.start_address()));
        self.mapper.root = new_table.p4_frame;
        old_table
    }

    /// Whether the mapper `self.mapper` is in the middle of a `with` that
    /// started from `first`: it sees the tree below `table`, and the tree
    /// of the loaded table is as `first` had it, but for the temporary
    /// page `temporary`, which shows the loaded table.
    #[verifier::opaque]
    pub open spec fn borrowed(
        &self,
        first: &Mapper,
        table: u64,
        temporary: Page,
        spare: Set<u64>,
        spare_first: Set<u64>,
    ) -> bool {
        let now = &self.mapper;
        let root = first.root.number;
        &&& now.wf()
        &&& now.root == first.root
        &&& now.p4_spec() == table
        &&& table != root
        &&& root < MAX_FRAMES
        &&& !recursive(temporary)
        &&& spare.subset_of(spare_first)
        &&& now.apart_from(spare)
        &&& shaped(&now.memory, root)
        &&& apart(&now.memory, root, table)
        &&& clear_of(&now.memory, root, spare)
        &&& now.memory.leaf_entry(root, temporary) == Some(pack(root, WRITABLE | PRESENT))
        &&& first.actions@.push(CpuAction::FlushAll).is_prefix_of(now.actions@)
        &&& forall|page: Page|
            !recursive(page) ==> #[trigger] now.resolution(page) == if same_slot(page, temporary) {
                Some(root)
            } else {
                first.translation(page)
            }
        &&& forall|page: Page|
            !recursive(page) && !same_slot(page, temporary) && first.can_map(page)
                ==> #[trigger] now.memory.can_map(root, page)
        &&& forall|number: u64, index: int|
            !first.is_table(number) && !first.memory.is_table(table, number) && !spare_first.contains(
                number,
            ) ==> #[trigger] now.memory.entry(number, index) == first.memory.entry(number, index)
        &&& forall|number: u64| #[trigger]
            now.memory.is_table(root, number) ==> first.is_table(number) || spare_first.contains(number)
        &&& forall|number: u64| #[trigger]
            now.is_table(number) ==> first.memory.is_table(table, number) || spare_first.contains(number)
        &&& forall|number: u64, index: int|
            first.is_table(number) && !first.memory.is_table(table, number) && !spare_first.contains(number)
                && !(number == root && index == 511) ==> #[trigger] now.memory.entry(number, index)
                == first.memory.entry(number, index) || !is_present(first.memory.entry(number, index))
    }

    /// The first half of `with`: the loaded table is mapped to the
    /// temporary page and the recursive slot is pointed at `table`.
    fn enter<A: FrameAllocator>(
        &mut self,
        table: &InactivePageTable,
        temporary_page: &mut TemporaryPage,
        allocator: &mut A,
    ) -> (result: Result<Frame, MapError>)
        requires
            old(self).loaded(),
            old(allocator).inv(),
            old(self).mapper.apart_from(old(allocator).available()),
            table.ready(&old(self).mapper),
            clear_of(&old(self).mapper.memory, table.p4_frame.number, old(allocator).available()),
            old(temporary_page).free_in(old(self)),
        ensures
            spends(old(allocator), final(allocator), 3),
            lasts(old(allocator), 3) ==> result.is_ok(),
            result.is_err() ==> out_of_frames(final(allocator)),
            *final(temporary_page) == *old(temporary_page),
            final(allocator).inv(),
            final(allocator).available().subset_of(old(allocator).available()),
            final(self).mapper.root == old(self).mapper.root,
            match result {
                Ok(backup) => {
                    &&& backup == old(self).mapper.root
                    &&& final(self).borrowed(
                        &old(self).mapper,
                        table.p4_frame.number,
                        old(temporary_page).page,
                        final(allocator).available(),
                        old(allocator).available(),
                    )
                    &&& final(self).mapper.actions@ == old(self).mapper.actions@.push(CpuAction::FlushAll)
                    &&& forall|page: Page|
                        !recursive(page) ==> #[trigger] final(self).mapper.translation(page)
                            == table.translation(&old(self).mapper, page)
                    &&& forall|page: Page|
                        !recursive(page) ==> #[trigger] final(self).mapper.can_map(page) == old(
                            self).mapper.memory.can_map(table.p4_frame.number, page)
                },
                Err(_) => {
                    &&& !old(self).mapper.path_complete(old(temporary_page).page)
                    &&& final(self).loaded()
                    &&& final(self).mapper.keeps_windows(&old(self).mapper)
                    &&& final(self).mapper.apart_from(final(allocator).available())
                    &&& table.ready(&final(self).mapper)
                    &&& clear_of(
                        &final(self).mapper.memory,
                        table.p4_frame.number,
                        final(allocator).available(),
                    )
                    &&& final(temporary_page).free_in(final(self))
                    &&& final(self).mapper.actions == old(self).mapper.actions
                    &&& final(self).mapper.memory.entry(
                        old(self).mapper.root.number,
                        RECURSIVE_INDEX as int,
                    ) == old(self).mapper.memory.entry(
                        old(self).mapper.root.number,
                        RECURSIVE_INDEX as int,
                    )
                    &&& forall|page: Page|
                        !recursive(page) ==> #[trigger] final(self).mapper.translation(page) == old(
                            self).mapper.translation(page)
                    &&& forall|page: Page|
                        !recursive(page) && old(self).mapper.can_map(page) ==> #[trigger] final(
                            self).mapper.can_map(page)
                    &&& forall|page: Page|
                        !recursive(page) ==> #[trigger] table.translation(&final(self).mapper, page)
                            == table.translation(&old(self).mapper, page)
                    &&& forall|number: u64, index: int|
                        !old(self).mapper.is_table(number) && !old(allocator).available().contains(
                            number,
                        ) ==> #[trigger] final(self).mapper.memory.entry(number, index) == old(
                            self).mapper.memory.entry(number, index)
                },
            },
    {
        let ghost first = self.mapper;
        let ghost spare = allocator.available();
        let ghost root = self.mapper.root.number;
        let ghost other = table.p4_frame.number;
        proof {
            mapper::lemma_unmapped(&first.memory, first.p4_spec(), temporary_page.page);
            first.lemma_aligned(temporary_page.page);
        }
        let backup = self.mapper.root.clone();
        let mapped = temporary_page.map_table_frame(backup.clone(), self, allocator);
        let ghost second = self.mapper;
        let ghost spare_second = allocator.available();
        proof {
            second.lemma_bystander(&first, spare, other);
            second.lemma_grown_loaded(&first, spare);
            assert(second.memory.is_table(other, other));
            assert forall|page: Page| !recursive(page) && first.can_map(page) && mapped.is_err()
                implies #[trigger] second.can_map(page) by {
                if same_slot(page, temporary_page.page) {
                }
            }
            assert forall|page: Page| !recursive(page) && mapped.is_err() implies #[trigger] second.translation(
                page,
            ) == first.translation(page) by {
                if same_slot(page, temporary_page.page) {
                }
            }
            assert(second.memory.entry(root, RECURSIVE_INDEX as int) == first.memory.entry(
                root,
                RECURSIVE_INDEX as int,
            )) by {
                reveal(Mapper::wf);
            }
            assert forall|number: u64, index: int|
                !first.is_table(number) && !spare.contains(number) implies #[trigger] second.memory.entry(
                number,
                index,
            ) == first.memory.entry(number, index) by {
                reveal(Mapper::grown_from);
            }
            assert forall|number: u64| #[trigger] second.is_table(number) implies first.is_table(number)
                || spare.contains(number) by {
                reveal(Mapper::grown_from);
            }
        }
        if let Err(error) = mapped {
            return Err(error);
        }
        self.borrow_slot(table, Ghost(spare_second));
        proof {
            reveal(ActivePageTable::borrowed);
            let third = self.mapper;
            assert forall|page: Page| !recursive(page) implies #[trigger] third.resolution(page)
                == if same_slot(page, temporary_page.page) {
                Some(root)
            } else {
                first.translation(page)
            } by {
                assert(third.resolution(page) == second.translation(page));
            }
            assert forall|page: Page|
                !recursive(page) && !same_slot(page, temporary_page.page) && first.can_map(page)
                    implies #[trigger] third.memory.can_map(root, page) by {
                assert(second.can_map(page));
            }
            assert(first.memory.is_table(root, root));
            assert forall|number: u64, index: int|
                !first.is_table(number) && !first.memory.is_table(other, number) && !spare.contains(
                    number,
                ) implies #[trigger] third.memory.entry(number, index) == first.memory.entry(
                number,
                index,
            ) by {
                assert(second.memory.entry(number, index) == first.memory.entry(number, index));
            }
            assert forall|page: Page| !recursive(page) implies #[trigger] third.can_map(page)
                == first.memory.can_map(other, page) by {
                tree::lemma_path_tables(&second.memory, other, page);
                lemma_preserved(&second.memory, &third.memory, other);
            }
            assert forall|number: u64, index: int|
                first.is_table(number) && !first.memory.is_table(other, number) && !spare.contains(number)
                    && !(number == root && index == 511) implies #[trigger] third.memory.entry(
                number,
                index,
            ) == first.memory.entry(number, index) || !is_present(first.memory.entry(number, index)) by {
                assert(third.memory.entry(number, index) == second.memory.entry(number, index));
                assert(second.memory.entry(number, index) == first.memory.entry(number, index)
                    || !is_present(first.memory.entry(number, index)));
            }
        }
        Ok(backup)
    }

    /// The second half of `with`: the recursive slot is pointed back at
    /// the loaded table, and the temporary page is unmapped.
    fn leave<A: FrameAllocator>(
        &mut self,
        table: &InactivePageTable,
        temporary_page: &mut TemporaryPage,
        allocator: &mut A,
        backup: Frame,
        Ghost(first): Ghost<Mapper>,
        Ghost(spare_first): Ghost<Set<u64>>,
    )
        requires
            old(self).borrowed(
                &first,
                table.p4_frame.number,
                old(temporary_page).page,
                old(allocator).available(),
                spare_first,
            ),
            old(allocator).inv(),
            backup == first.root,
            first.wf(),
            first.p4_spec() == first.root.number,
            first.apart_from(spare_first),
            apart(&first.memory, table.p4_frame.number, first.root.number),
            old(temporary_page).page.valid(),
            !recursive(old(temporary_page).page),
            first.can_map(old(temporary_page).page),
        ensures
            final(self).mapper.keeps_windows(&first),
            spends(old(allocator), final(allocator), 0),
            forall|count: u64| #[trigger] final(allocator).answer(count) == old(allocator).answer(count),
            *final(temporary_page) == *old(temporary_page),
            final(self).loaded(),
            final(self).mapper.root == first.root,
            final(allocator).inv(),
            final(allocator).available() == old(allocator).available(),
            final(self).mapper.apart_from(final(allocator).available()),
            table.ready(&final(self).mapper),
            clear_of(&final(self).mapper.memory, table.p4_frame.number, final(allocator).available()),
            final(temporary_page).free_in(final(self)),
            forall|page: Page|
                !recursive(page) ==> #[trigger] final(self).mapper.translation(page) == first.translation(
                    page,
                ),
            forall|page: Page|
                !recursive(page) && first.can_map(page) ==> #[trigger] final(self).mapper.can_map(page),
            final(self).mapper.memory.entry(first.root.number, RECURSIVE_INDEX as int)
                == first.memory.entry(first.root.number, RECURSIVE_INDEX as int),
            final(self).mapper.actions@ == old(self).mapper.actions@.push(CpuAction::FlushAll).push(
                CpuAction::FlushPage((old(temporary_page).page.number * PAGE_SIZE) as u64),
            ),
            forall|number: u64, index: int|
                !first.is_table(number) && !first.memory.is_table(table.p4_frame.number, number)
                    && !spare_first.contains(number) ==> #[trigger] final(self).mapper.memory.entry(
                    number,
                    index,
                ) == first.memory.entry(number, index),
            forall|page: Page|
                !recursive(page) ==> #[trigger] table.translation(&final(self).mapper, page) == old(
                    self).mapper.translation(page),
            forall|page: Page|
                !recursive(page) ==> #[trigger] final(self).mapper.memory.leaf_entry(
                    table.p4_frame.number,
                    page,
                ) == old(self).mapper.leaf_entry(page),
            forall|page: Page|
                !recursive(page) ==> #[trigger] final(self).mapper.memory.can_map(
                    table.p4_frame.number,
                    page,
                ) == old(self).mapper.can_map(page),
    {
        let ghost fourth = self.mapper;
        let ghost spare = allocator.available();
        let ghost root = first.root.number;
        let ghost other = table.p4_frame.number;
        proof {
            reveal(ActivePageTable::borrowed);
            assert(same_slot(temporary_page.page, temporary_page.page));
            assert(fourth.resolution(temporary_page.page) == Some(root));
        }
        self.restore_slot(temporary_page, backup, Ghost(spare));
        let ghost fifth = self.mapper;
        proof {
            mapper::lemma_present_leaf(root);
            assert(fifth.leaf_entry(temporary_page.page) == fourth.memory.leaf_entry(
                root,
                temporary_page.page,
            ));
            assert(clear_of(&fifth.memory, other, spare)) by {
                reveal(Mapper::apart_from);
            }
        }
        proof {
            assert forall|page: Page| recursive(page) && first.resolution(page).is_some()
                implies #[trigger] fifth.resolution(page) == first.resolution(page) by {
                reveal(Mapper::wf);
                reveal(Mapper::apart_from);
                lemma_window_path(&first.memory, root, root, page);
                assert forall|number: u64| upper_table(&first.memory, root, number) implies first.is_table(
                    number,
                ) && !first.memory.is_table(other, number) && !spare_first.contains(number) by {
                    assert(first.memory.is_table(root, number));
                }
                assert forall|number: u64, index: int|
                    upper_table(&first.memory, root, number) implies #[trigger] fifth.memory.entry(
                    number,
                    index,
                ) == first.memory.entry(number, index) || !is_present(first.memory.entry(number, index)) by {
                    if number == root && index == 511 {
                        assert(fifth.memory.entry(root, 511) == first.memory.entry(root, 511));
                    } else {
                        assert(fifth.memory.entry(number, index) == fourth.memory.entry(number, index));
                    }
                }
                lemma_walk_kept(&first.memory, &fifth.memory, root, page);
            }
        }
        temporary_page.unmap(self, allocator);
        proof {
            let last = self.mapper;
            last.lemma_bystander(&fifth, Set::empty(), other);
            last.lemma_grown_loaded(&fifth, Set::empty());
            last.lemma_apart_from_same(&fifth, spare);
            mapper::lemma_unmapped(&first.memory, first.p4_spec(), temporary_page.page);
            assert(last.memory.entry(root, RECURSIVE_INDEX as int) == first.memory.entry(
                root,
                RECURSIVE_INDEX as int,
            )) by {
                reveal(Mapper::wf);
            }
            assert(!last.memory.is_table(other, last.root.number));
            assert forall|page: Page| !recursive(page) implies #[trigger] last.translation(page)
                == first.translation(page) by {
                assert(fifth.translation(page) == fourth.resolution(page));
                if same_slot(page, temporary_page.page) {
                }
            }
            assert forall|page: Page| !recursive(page) && first.can_map(page) implies #[trigger] last.can_map(
                page,
            ) by {
                if !same_slot(page, temporary_page.page) {
                    assert(fourth.memory.can_map(root, page));
                    assert(fifth.can_map(page));
                }
            }
            assert forall|number: u64, index: int|
                !first.is_table(number) && !first.memory.is_table(other, number) && !spare_first.contains(
                    number,
                ) implies #[trigger] last.memory.entry(number, index) == first.memory.entry(
                number,
                index,
            ) by {
                assert(first.memory.is_table(root, root));
                assert(fourth.memory.entry(number, index) == first.memory.entry(number, index));
                assert(fifth.memory.entry(number, index) == fourth.memory.entry(number, index));
                assert(!fourth.memory.is_table(root, number));
                assert(!fifth.is_table(number));
                reveal(Mapper::grown_from);
            }
            assert forall|page: Page| !recursive(page) implies #[trigger] last.memory.leaf_entry(
                other,
                page,
            ) == fourth.leaf_entry(page) by {
                reveal(Mapper::wf);
                assert(fourth.memory.is_table(other, other));
                lemma_preserved(&fourth.memory, &fifth.memory, other);
            }
            assert forall|page: Page| !recursive(page) implies #[trigger] last.memory.can_map(other, page)
                == fourth.can_map(page) by {
                reveal(Mapper::wf);
                assert(fourth.memory.is_table(other, other));
                lemma_preserved(&fourth.memory, &fifth.memory, other);
            }
        }
    }

    /// Points the recursive slot of the loaded table at `table`, so that
    /// the mapper works on the tree of `table`, and notes that every cached
    /// translation has to be flushed.
    fn borrow_slot(&mut self, table: &InactivePageTable, Ghost(spare): Ghost<Set<u64>>)
        requires
            old(self).loaded(),
            table.ready(&old(self).mapper),
            old(self).mapper.apart_from(spare),
            clear_of(&old(self).mapper.memory, table.p4_frame.number, spare),
        ensures
            final(self).mapper.wf(),
            final(self).mapper.root == old(self).mapper.root,
            final(self).mapper.p4_spec() == table.p4_frame.number,
            final(self).mapper.apart_from(spare),
            final(self).mapper.actions@ == old(self).mapper.actions@.push(CpuAction::FlushAll),
            written(
                &old(self).mapper.memory,
                &final(self).mapper.memory,
                old(self).mapper.root.number,
                511,
                pack(table.p4_frame.number, PRESENT | WRITABLE),
            ),
            shaped(&final(self).mapper.memory, old(self).mapper.root.number),
            apart(&final(self).mapper.memory, old(self).mapper.root.number, table.p4_frame.number),
            clear_of(&final(self).mapper.memory, old(self).mapper.root.number, spare),
            forall|page: Page|
                !recursive(page) ==> #[trigger] final(self).mapper.resolution(page) == old(
                    self).mapper.translation(page),
            forall|page: Page|
                !recursive(page) ==> #[trigger] final(self).mapper.translation(page)
                    == table.translation(&old(self).mapper, page),
            forall|page: Page|
                !recursive(page) ==> #[trigger] final(self).mapper.leaf_entry(page)
                    == old(self).mapper.memory.leaf_entry(table.p4_frame.number, page),
            forall|page: Page|
                !recursive(page) ==> #[trigger] final(self).mapper.memory.can_map(
                    old(self).mapper.root.number,
                    page,
                ) == old(self).mapper.can_map(page),
            forall|page: Page|
                !recursive(page) ==> #[trigger] final(self).mapper.memory.leaf_entry(
                    old(self).mapper.root.number,
                    page,
                ) == old(self).mapper.leaf_entry(page),
            forall|number: u64| #[trigger]
                final(self).mapper.memory.is_table(old(self).mapper.root.number, number) == old(
                    self).mapper.is_table(number),
            forall|number: u64| #[trigger]
                final(self).mapper.is_table(number) == old(self).mapper.memory.is_table(
                    table.p4_frame.number,
                    number,
                ),
    {
        proof {
            reveal(Mapper::wf);
            reveal(Mapper::apart_from);
            lemma_flag_facts();
        }
        let ghost before = self.mapper.memory;
        let ghost root = self.mapper.root.number;
        let ghost other = table.p4_frame.number;
        let mut entry = Entry { value: 0 };
        entry.set(table.p4_frame.clone(), PRESENT | WRITABLE);
        // The highest table is written through its own window.
        self.mapper.write_p4(RECURSIVE_INDEX, entry);
        self.mapper.actions.push(CpuAction::FlushAll);
        proof {
            entry::lemma_pack(other, PRESENT | WRITABLE);
            assert(before.is_table(root, root));
            assert(before.is_table(other, other));
            lemma_preserved(&before, &self.mapper.memory, root);
            lemma_preserved(&before, &self.mapper.memory, other);
            assert(self.mapper.p4_spec() == other);
        }
    }

    /// Points the recursive slot of the loaded table, which is seen
    /// through the temporary page, back at that table, and notes that every
    /// cached translation has to be flushed.
    fn restore_slot(&mut self, temporary_page: &TemporaryPage, backup: Frame, Ghost(spare): Ghost<Set<u64>>)
        requires
            old(self).mapper.wf(),
            backup == old(self).mapper.root,
            old(self).mapper.p4_spec() != old(self).mapper.root.number,
            !recursive(temporary_page.page),
            old(self).mapper.resolution(temporary_page.page) == Some(backup.number),
            shaped(&old(self).mapper.memory, backup.number),
            apart(&old(self).mapper.memory, backup.number, old(self).mapper.p4_spec()),
            clear_of(&old(self).mapper.memory, backup.number, spare),
        ensures
            final(self).loaded(),
            final(self).mapper.root == old(self).mapper.root,
            final(self).mapper.apart_from(spare),
            final(self).mapper.actions@ == old(self).mapper.actions@.push(CpuAction::FlushAll),
            written(
                &old(self).mapper.memory,
                &final(self).mapper.memory,
                old(self).mapper.root.number,
                511,
                pack(backup.number, PRESENT | WRITABLE),
            ),
            sound(&final(self).mapper.memory, old(self).mapper.p4_spec()),
            apart(&final(self).mapper.memory, old(self).mapper.p4_spec(), backup.number),
            !final(self).mapper.memory.is_table(old(self).mapper.p4_spec(), backup.number),
            forall|page: Page|
                !recursive(page) ==> #[trigger] final(self).mapper.translation(page) == old(
                    self).mapper.resolution(page),
            forall|page: Page|
                !recursive(page) ==> #[trigger] final(self).mapper.leaf_entry(page) == old(
                    self).mapper.memory.leaf_entry(backup.number, page),
            forall|page: Page|
                !recursive(page) ==> #[trigger] final(self).mapper.can_map(page) == old(
                    self).mapper.memory.can_map(backup.number, page),
            forall|page: Page|
                !recursive(page) ==> #[trigger] final(self).mapper.memory.translation(
                    old(self).mapper.p4_spec(),
                    page,
                ) == old(self).mapper.translation(page),
            forall|number: u64| #[trigger]
                final(self).mapper.is_table(number) == old(self).mapper.memory.is_table(
                    backup.number,
                    number,
                ),
            forall|number: u64| #[trigger]
                final(self).mapper.memory.is_table(old(self).mapper.p4_spec(), number) == old(
                    self).mapper.is_table(number),
    {
        proof {
            reveal(Mapper::wf);
            reveal(Mapper::apart_from);
            lemma_flag_facts();
        }
        let ghost before = self.mapper.memory;
        let ghost root = self.mapper.root.number;
        let ghost other = self.mapper.p4_spec();
        let seen = match self.mapper.resolve(temporary_page.page) {
            Some(seen) => seen,
            None => backup.clone(),
        };
        let mut entry = Entry { value: 0 };
        entry.set(backup, PRESENT | WRITABLE);
        self.mapper.memory.write(&seen, RECURSIVE_INDEX, entry);
        self.mapper.actions.push(CpuAction::FlushAll);
        proof {
            entry::lemma_pack(root, PRESENT | WRITABLE);
            assert(before.is_table(root, root));
            assert(before.is_table(other, other));
            lemma_preserved(&before, &self.mapper.memory, root);
            lemma_preserved(&before, &self.mapper.memory, other);
            assert(self.mapper.p4_spec() == root);
            assert forall|number: u64| #[trigger]
                self.mapper.memory.is_table(other, number) implies !self.mapper.memory.is_table(
                root,
                number,
            ) by {
                assert(before.is_table(other, number));
                if before.is_table(root, number) {
                    assert(!before.is_table(other, number));
                }
            }
        }
    }

    /// What `f` does to a borrowed mapper leaves it borrowed.
    proof fn lemma_borrowed_kept(
        &self,
        before: &Mapper,
        first: &Mapper,
        table: u64,
        temporary: Page,
        spare_before: Set<u64>,
        spare: Set<u64>,
        spare_first: Set<u64>,
    )
        requires
            (ActivePageTable { mapper: *before }).borrowed(first, table, temporary, spare_before, spare_first),
            self.mapper.wf(),
            self.mapper.grown_from(before, spare_before),
            self.mapper.apart_from(spare),
            spare.subset_of(spare_before),
            before.actions@.is_prefix_of(self.mapper.actions@),
        ensures
            self.borrowed(first, table, temporary, spare, spare_first),
    {
        reveal(ActivePageTable::borrowed);
        let root = first.root.number;
        lemma_prefix_chain(first.actions@.push(CpuAction::FlushAll), before.actions@, self.mapper.actions@);
        self.mapper.lemma_bystander(before, spare_before, root);
        self.mapper.lemma_grown_loaded(before, spare_before);
        reveal(Mapper::grown_from);
        assert forall|number: u64, index: int|
            !first.is_table(number) && !first.memory.is_table(table, number) && !spare_first.contains(
                number,
            ) implies #[trigger] self.mapper.memory.entry(number, index) == first.memory.entry(
            number,
            index,
        ) by {
            assert(!before.is_table(number));
            assert(!spare_before.contains(number));
            assert(before.memory.entry(number, index) == first.memory.entry(number, index));
        }
        assert forall|number: u64| #[trigger] self.mapper.is_table(number) implies first.memory.is_table(
            table,
            number,
        ) || spare_first.contains(number) by {
            if !spare_before.contains(number) {
                assert(before.is_table(number));
            }
        }
        assert forall|page: Page| !recursive(page) implies #[trigger] self.mapper.resolution(page)
            == if same_slot(page, temporary) {
            Some(root)
        } else {
            first.translation(page)
        } by {
            assert(before.resolution(page) == before.memory.translation(root, page));
        }
        assert forall|page: Page|
            !recursive(page) && !same_slot(page, temporary) && first.can_map(page)
                implies #[trigger] self.mapper.memory.can_map(root, page) by {
            assert(before.memory.can_map(root, page));
        }
        assert forall|number: u64, index: int|
            first.is_table(number) && !first.memory.is_table(table, number) && !spare_first.contains(number)
                && !(number == root && index == 511) implies #[trigger] self.mapper.memory.entry(
            number,
            index,
        ) == first.memory.entry(number, index) || !is_present(first.memory.entry(number, index)) by {
            assert(!before.is_table(number));
            assert(!spare_before.contains(number));
            assert(self.mapper.memory.entry(number, index) == before.memory.entry(number, index));
            assert(before.memory.entry(number, index) == first.memory.entry(number, index) || !is_present(
                first.memory.entry(number, index),
            ));
        }
    }
}

/// An address space that is set up but not loaded, named by the frame of
/// its highest table.
#[derive(Debug)]
pub struct InactivePageTable {
    pub p4_frame: Frame,
}

impl InactivePageTable {
    /// Whether the table can be borrowed or loaded: its tree is sound and
    /// shares no table with the tree that `mapper` works on, and the
    /// loaded table is none of its tables.
    pub open spec fn ready(&self, mapper: &Mapper) -> bool {
        &&& sound(&mapper.memory, self.p4_frame.number)
        &&& apart(&mapper.memory, self.p4_frame.number, mapper.p4_spec())
        &&& !mapper.memory.is_table(self.p4_frame.number, mapper.root.number)
    }

    /// The frame that `page` is mapped to in this address space.
    pub open spec fn translation(&self, mapper: &Mapper, page: Page) -> Option<u64> {
        mapper.memory.translation(self.p4_frame.number, page)
    }

    /// Makes an empty address space out of `frame`: the frame is seen
    /// through the temporary page just long enough to clear it and to
    /// point its recursive slot at itself, present and writable. Every
    /// other entry of the frame is zero then.
    ///
    /// The frame must be out of use: no table of the active tree, and not
    /// among the frames that the allocator can still hand out. Where the
    /// temporary page cannot be mapped for want of a frame, nothing is
    /// made and the frame stays as it is. That takes three frames at most.
    pub fn new<A: FrameAllocator>(
        frame: Frame,
        active_table: &mut ActivePageTable,
        temporary_page: &mut TemporaryPage,
        allocator: &mut A,
    ) -> (result: Result<InactivePageTable, MapError>)
        requires
            old(active_table).loaded(),
            old(allocator).inv(),
            old(active_table).mapper.apart_from(old(allocator).available()),
            old(temporary_page).free_in(old(active_table)),
            frame.number < MAX_FRAMES,
            !old(active_table).mapper.is_table(frame.number),
            !old(allocator).available().contains(frame.number),
        ensures
            spends(old(allocator), final(allocator), 3),
            lasts(old(allocator), 3) ==> result.is_ok(),
            result.is_err() ==> out_of_frames(final(allocator)),
            *final(temporary_page) == *old(temporary_page),
            final(active_table).loaded(),
            final(allocator).inv(),
            final(allocator).available().subset_of(old(allocator).available()),
            final(active_table).mapper.apart_from(final(allocator).available()),
            final(active_table).mapper.root == old(active_table).mapper.root,
            final(temporary_page).free_in(final(active_table)),
            final(active_table).mapper.same_pages(&old(active_table).mapper),
            forall|number: u64, index: int|
                !old(active_table).mapper.is_table(number) && !old(allocator).available().contains(
                    number,
                ) && number != frame.number ==> #[trigger] final(active_table).mapper.memory.entry(
                    number,
                    index,
                ) == old(active_table).mapper.memory.entry(number, index),
            forall|number: u64| #[trigger]
                final(active_table).mapper.is_table(number) ==> old(active_table).mapper.is_table(
                    number,
                ) || old(allocator).available().contains(number),
            match result {
                Ok(table) => {
                    &&& table.p4_frame == frame
                    &&& table.ready(&final(active_table).mapper)
                    &&& clear_of(
                        &final(active_table).mapper.memory,
                        frame.number,
                        final(allocator).available(),
                    )
                    &&& forall|index: int|
                        0 <= index < 512 && index != RECURSIVE_INDEX
                            ==> #[trigger] final(active_table).mapper.memory.entry(frame.number, index) == 0
                    &&& final(active_table).mapper.memory.entry(frame.number, RECURSIVE_INDEX as int) == pack(
                        frame.number,
                        PRESENT | WRITABLE,
                    )
                    &&& forall|number: u64| #[trigger]
                        final(active_table).mapper.memory.is_table(frame.number, number) <==> number
                            == frame.number
                    &&& forall|page: Page|
                        !recursive(page) ==> (#[trigger] table.translation(
                            &final(active_table).mapper,
                            page,
                        )).is_none()
                    &&& forall|page: Page|
                        !recursive(page) ==> #[trigger] final(active_table).mapper.memory.can_map(
                            frame.number,
                            page,
                        )
                    &&& final(active_table).mapper.actions@ == old(active_table).mapper.actions@.push(
                        CpuAction::FlushPage((old(temporary_page).page.number * PAGE_SIZE) as u64),
                    )
                },
                Err(_) => {
                    &&& !old(active_table).mapper.path_complete(old(temporary_page).page)
                    &&& final(active_table).mapper.actions == old(active_table).mapper.actions
                    &&& forall|index: int| #[trigger]
                        final(active_table).mapper.memory.entry(frame.number, index) == old(
                            active_table).mapper.memory.entry(frame.number, index)
                },
            },
    {
        let ghost first = active_table.mapper;
        let ghost spare = allocator.available();
        let number = frame.number;
        let seen = match temporary_page.map_table_frame(frame, active_table, allocator) {
            Ok(seen) => seen,
            Err(error) => {
                proof {
                    reveal(Mapper::grown_from);
                    assert forall|page: Page| !recursive(page) implies active_table.mapper.translation(
                        page,
                    ) == first.translation(page) by {
                        if same_slot(page, temporary_page.page) {
                            mapper::lemma_unmapped(&first.memory, first.p4_spec(), temporary_page.page);
                        }
                    }
                    assert forall|page: Page| !recursive(page) && first.can_map(page)
                        implies active_table.mapper.can_map(page) by {
                        if same_slot(page, temporary_page.page) {
                        }
                    }
                }
                return Err(error);
            },
        };
        let ghost second = active_table.mapper;
        proof {
            reveal(Mapper::wf);
            lemma_flag_facts();
        }
        // The frame is behind the temporary page: it is cleared, and its
        // recursive slot is pointed at the frame itself.
        active_table.mapper.memory.zero(&seen);
        let mut entry = Entry { value: 0 };
        entry.set(seen.clone(), PRESENT | WRITABLE);
        active_table.mapper.memory.write(&seen, RECURSIVE_INDEX, entry);
        let ghost third = active_table.mapper;
        proof {
            reveal(Mapper::wf);
            reveal(Mapper::grown_from);
            reveal(Mapper::apart_from);
            let p4 = second.p4_spec();
            assert(!second.memory.is_table(p4, number));
            assert(second.memory.is_table(p4, p4));
            lemma_preserved(&second.memory, &third.memory, p4);
            assert(third.p4_spec() == p4);
            assert(third.wf());
            assert(third.leaf_entry(temporary_page.page) == second.leaf_entry(temporary_page.page)) by {
                tree::lemma_path_tables(&second.memory, p4, temporary_page.page);
                assert(third.memory.table_for(p4, temporary_page.page, 1) == second.memory.table_for(
                    p4,
                    temporary_page.page,
                    1,
                ));
            }
            mapper::lemma_present_leaf(number);
        }
        let ghost mapped_allocator = *allocator;
        temporary_page.unmap(active_table, allocator);
        proof {
            lemma_spends(old(allocator), &mapped_allocator, &*allocator, 3, 0, 3);
        }
        proof {
            reveal(Mapper::wf);
            reveal(Mapper::grown_from);
            reveal(Mapper::apart_from);
            let p4 = second.p4_spec();
            let last = active_table.mapper;
            assert forall|index: int| #[trigger] last.memory.entry(number, index) == third.memory.entry(
                number,
                index,
            ) by {}
            lemma_empty_tree(&last.memory, number);
            tree::lemma_zero_entry();
            assert forall|page: Page| !recursive(page) implies #[trigger] last.memory.can_map(
                number,
                page,
            ) by {
                assert(last.memory.table_for(number, page, 3).is_none());
                assert(last.memory.entry(number, page.p4()) == 0);
            }
            assert forall|page: Page| !recursive(page) implies last.translation(page) == first.translation(
                page,
            ) by {
                assert(third.translation(page) == second.translation(page));
                if same_slot(page, temporary_page.page) {
                    mapper::lemma_unmapped(&first.memory, first.p4_spec(), temporary_page.page);
                }
            }
            assert forall|page: Page| !recursive(page) && first.can_map(page) implies last.can_map(
                page,
            ) by {
                if !same_slot(page, temporary_page.page) {
                    assert(second.can_map(page));
                    tree::lemma_path_tables(&second.memory, p4, page);
                    assert(third.memory.table_for(p4, page, 1) == second.memory.table_for(p4, page, 1));
                    assert(third.memory.table_for(p4, page, 2) == second.memory.table_for(p4, page, 2));
                    assert(third.memory.table_for(p4, page, 3) == second.memory.table_for(p4, page, 3));
                    assert(third.can_map(page));
                }
            }
        }
        Ok(InactivePageTable { p4_frame: Frame { number } })
    }
}

/// The number of the page that is used as the temporary page while the
/// kernel is mapped into its new address space.
pub const REMAP_TEMPORARY_PAGE: u64 = 0xcafebabe;

/// How many frames mapping the kernel into a new address space takes at
/// most: one for the new highest table, three at most for the tables on
/// the path of the temporary page in the old address space and as many in
/// the new one, and three at most for the tables on the path of each
/// frame of the regions of `boot_info`.
pub open spec fn remap_needs(boot_info: &BootInformation) -> nat {
    7 + 3 * frames_in(boot_info.regions(), boot_info.regions().len())
}

/// Builds a new address space that holds what the kernel needs, loads it,
/// and leaves a guard page where the old highest table was.
///
/// A fresh frame becomes the new highest table. In it, each frame of the
/// regions of `boot_info` is mapped to the page with its number. Then the
/// new table is loaded, and the page with the number of the old highest
/// table's frame, which lies in one of the regions, is unmapped, so that
/// whatever still points into the old tables faults.
///
/// It fails only for want of a frame, and not with an allocator that
/// answers `remap_needs` requests for a frame. The error says so: the
/// allocator then refuses a single frame, and the old table stays loaded,
/// with every page mapped as it was.
pub fn remap_kernel<A: FrameAllocator>(
    active_table: &mut ActivePageTable,
    allocator: &mut A,
    boot_info: &BootInformation,
) -> (result: Result<(), MapError>)
    requires
        old(active_table).loaded(),
        old(allocator).inv(),
        old(active_table).mapper.apart_from(old(allocator).available()),
        boot_info.wf(),
        (TemporaryPage { page: Page { number: REMAP_TEMPORARY_PAGE } }).free_in(old(active_table)),
        covered(boot_info.regions(), old(active_table).mapper.root.number),
    ensures
        final(allocator).inv(),
        final(allocator).available().subset_of(old(allocator).available()),
        spends(old(allocator), final(allocator), remap_needs(boot_info)),
        lasts(old(allocator), remap_needs(boot_info)) ==> result.is_ok(),
        final(active_table).loaded(),
        final(active_table).mapper.apart_from(final(allocator).available()),
        match result {
            Ok(_) => {
                let table = *final(active_table);
                let guard = old(active_table).mapper.root.number;
                &&& old(allocator).available().contains(table.mapper.root.number)
                &&& forall|k: int, number: u64|
                    0 <= k < boot_info.regions().len() && #[trigger] boot_info.regions()[k].holds(number)
                        && number != guard ==> table.mapper.identity_mapped(
                        boot_info.regions()[k],
                        number,
                    )
                &&& table.mapper.translation(Page { number: guard }).is_none()
                &&& table.mapper.can_map(Page { number: guard })
                &&& forall|page: Page|
                    !recursive(page) && page.valid() && !covered(boot_info.regions(), page.number) ==> (
                    #[trigger] table.mapper.translation(page)).is_none()
                &&& forall|page: Page|
                    !recursive(page) && page.valid() && !covered(boot_info.regions(), page.number)
                        ==> #[trigger] table.mapper.can_map(page)
                &&& table.mapper.actions@.len() >= 2
                &&& table.mapper.actions@[table.mapper.actions@.len() - 2] == CpuAction::LoadTable(
                    (table.mapper.root.number * PAGE_SIZE) as u64,
                )
                &&& table.mapper.actions@[table.mapper.actions@.len() - 1] == CpuAction::FlushPage(
                    (guard * PAGE_SIZE) as u64,
                )
            },
            Err(_) => {
                &&& out_of_frames(final(allocator))
                &&& final(active_table).mapper.root == old(active_table).mapper.root
                &&& final(active_table).mapper.same_pages(&old(active_table).mapper)
            },
        },
{
    let ghost first = active_table.mapper;
    let ghost spare = allocator.available();
    let ghost guard = active_table.mapper.root.number;
    let mut temporary_page = TemporaryPage::new(Page { number: REMAP_TEMPORARY_PAGE });
    let regions = boot_info.kernel_regions();
    let ghost total = frames_in(regions@, regions@.len());
    let ghost needs = remap_needs(boot_info);
    let ghost first_allocator = *allocator;
    proof {
        lemma_request_spends(&first_allocator);
        lemma_spends_nothing(&first_allocator, needs);
        if lasts(&first_allocator, needs) {
            lemma_spent(&first_allocator, &first_allocator, 0, needs, 1);
        }
    }
    let frame = match allocator.allocate_frame() {
        Some(frame) => frame,
        None => { return Err(MapError::OutOfFrames); },
    };
    let ghost second_allocator = *allocator;
    proof {
        if lasts(&first_allocator, needs) {
            lemma_spent(&first_allocator, &second_allocator, 1, needs, 3);
        }
    }
    let ghost fresh = frame.number;
    proof {
        active_table.mapper.lemma_apart_from_less(spare, allocator.available());
        assert(!active_table.mapper.is_table(frame.number)) by {
            reveal(Mapper::apart_from);
        }
    }
    let made = InactivePageTable::new(frame, active_table, &mut temporary_page, allocator);
    let ghost third_allocator = *allocator;
    proof {
        lemma_spends(&first_allocator, &second_allocator, &third_allocator, 1, 3, 4);
        lemma_spends(&first_allocator, &second_allocator, &third_allocator, 1, 3, needs);
        if lasts(&first_allocator, needs) {
            lemma_spent(&first_allocator, &third_allocator, 4, needs, 3 * total + 3);
            lemma_spent(&first_allocator, &third_allocator, 4, needs, 3);
        }
    }
    let mut new_table = match made {
        Ok(table) => table,
        Err(error) => { return Err(error); },
    };
    let ghost second = active_table.mapper;
    let ghost spare_second = allocator.available();
    let work = |mapper: &mut Mapper, allocator: &mut A| -> (result: Result<(), MapError>)
        requires
            old(mapper).wf(),
            old(allocator).inv(),
            old(mapper).apart_from(old(allocator).available()),
            regions_ok(regions@),
            old(mapper).can_map_regions(regions@),
        ensures
            final(mapper).wf(),
            final(allocator).inv(),
            final(allocator).available().subset_of(old(allocator).available()),
            final(mapper).apart_from(final(allocator).available()),
            final(mapper).grown_from(&*old(mapper), old(allocator).available()),
            final(mapper).actions == old(mapper).actions,
            final(mapper).mapped_from(&*old(mapper), regions@, result.is_ok()),
            result.is_err() ==> out_of_frames(final(allocator)),
            spends(old(allocator), final(allocator), 3 * frames_in(regions@, regions@.len())),
            lasts(old(allocator), 3 * frames_in(regions@, regions@.len())) ==> result.is_ok(),
        { mapper.identity_map_regions(&regions, allocator) };
    proof {
        assert forall|m: &mut Mapper, a: &mut A|
            m.wf() && a.inv() && m.apart_from(a.available()) && (forall|page: Page|
                !recursive(page) ==> #[trigger] m.can_map(page) == second.memory.can_map(fresh, page))
                implies #[trigger] call_requires(work, (m, a)) by {
            assert forall|k: int, number: u64|
                0 <= k < regions@.len() && #[trigger] regions@[k].holds(number) implies m.can_map(
                Page { number },
            ) by {
                assert(regions@[k].wf());
                mapper::lemma_low_pages(Page { number });
                assert(second.memory.can_map(fresh, Page { number }));
            }
        }
    }
    let mapped = active_table.with(&mut new_table, &mut temporary_page, allocator, work);
    let ghost fourth_allocator = *allocator;
    proof {
        if mapped.is_ok() {
            assert(spends(&third_allocator, &fourth_allocator, 3 * total + 3));
        } else {
            lemma_spends(&third_allocator, &fourth_allocator, &fourth_allocator, 3, 0, 3 * total + 3);
        }
        lemma_spends(&first_allocator, &third_allocator, &fourth_allocator, 4, 3 * total + 3, needs);
    }
    let ghost third = active_table.mapper;
    match mapped {
        Ok(Ok(_)) => {},
        Ok(Err(error)) => { return Err(error); },
        Err(error) => { return Err(error); },
    }
    proof {
        assert forall|k: int, number: u64|
            0 <= k < regions@.len() && #[trigger] regions@[k].holds(number) implies third.memory.translation(
            fresh,
            Page { number },
        ) == Some(number) && third.memory.leaf_entry(fresh, Page { number }) == Some(
            pack(number, regions@[k].flags | PRESENT),
        ) by {
            assert(regions@[k].wf());
            mapper::lemma_low_pages(Page { number });
            assert(new_table.translation(&third, Page { number }) == third.memory.translation(
                fresh,
                Page { number },
            ));
        }
        assert forall|page: Page|
            !recursive(page) && page.valid() && !covered(regions@, page.number) implies (
        #[trigger] third.memory.translation(fresh, page)).is_none() && third.memory.can_map(fresh, page) by {
            assert(new_table.translation(&second, page).is_none());
            assert(second.memory.can_map(fresh, page));
            assert(new_table.translation(&third, page) == third.memory.translation(fresh, page));
        }
    }
    let old_table = active_table.switch(new_table);
    let ghost fourth = active_table.mapper;
    proof {
        assert(fourth.p4_spec() == fresh);
        assert(regions@[choose|k: int| 0 <= k < regions@.len() && #[trigger] regions@[k].holds(guard)].wf());
        mapper::lemma_low_pages(Page { number: guard });
        mapper::lemma_present_added(
            regions@[choose|k: int| 0 <= k < regions@.len() && #[trigger] regions@[k].holds(guard)].flags,
        );
        entry::lemma_pack(
            guard,
            regions@[choose|k: int| 0 <= k < regions@.len() && #[trigger] regions@[k].holds(guard)].flags
                | PRESENT,
        );
        assert(active_table.mapper.apart_from(allocator.available())) by {
            reveal(Mapper::apart_from);
            reveal(Mapper::wf);
            assert(fourth.memory.is_table(fresh, fresh));
        }
    }
    // The old highest table's page becomes a guard page.
    let old_p4_page = Page::containing_address(old_table.p4_frame.start_address());
    active_table.mapper.unmap(old_p4_page, allocator);
    proof {
        lemma_spends(&first_allocator, &fourth_allocator, &*allocator, needs, 0, needs);
    }
    proof {
        let last = active_table.mapper;
        last.lemma_grown_loaded(&fourth, Set::empty());
        last.lemma_apart_from_same(&fourth, allocator.available());
        assert forall|k: int, number: u64|
            0 <= k < regions@.len() && #[trigger] regions@[k].holds(number) && number != guard implies last.identity_mapped(
            regions@[k],
            number,
        ) by {
            assert(regions@[k].wf());
            mapper::lemma_low_pages(Page { number });
            mapper::lemma_distinct_slots(Page { number }, old_p4_page);
            assert(fourth.translation(Page { number }) == third.memory.translation(fresh, Page { number }));
        }
        assert forall|page: Page|
            !recursive(page) && page.valid() && !covered(regions@, page.number) implies (
        #[trigger] last.translation(page)).is_none() by {
            mapper::lemma_distinct_slots(page, old_p4_page);
            assert(fourth.translation(page) == third.memory.translation(fresh, page));
        }
        assert forall|page: Page|
            !recursive(page) && page.valid() && !covered(regions@, page.number)
                implies #[trigger] last.can_map(page) by {
            mapper::lemma_distinct_slots(page, old_p4_page);
            assert(third.memory.can_map(fresh, page));
            assert(fourth.can_map(page));
        }
    }
    Ok(())
}

/// The start of a start of a sequence is a start of the sequence.
pub proof fn lemma_prefix_chain<T>(a: Seq<T>, b: Seq<T>, c: Seq<T>)
    requires
        a.is_prefix_of(b),
        b.is_prefix_of(c),
    ensures
        a.is_prefix_of(c),
{
    assert(c.subrange(0, a.len() as int) =~= b.subrange(0, a.len() as int));
}

} // verus!
