//! Reading and changing the tree of tables that is seen through the
//! recursive slot of the loaded table.

use vstd::prelude::*;
use super::entry::{
    contains, frame_number, has_flags, is_huge, is_present, lemma_pack, pack, valid_flags, Entry,
    EntryFlags, HUGE_PAGE, PRESENT, WRITABLE,
};
use super::table::{index_at, recursive, same_prefix, Mapping, PhysicalMemory, RECURSIVE_INDEX};
use super::tree::{
    apart, attached, clear_of, lemma_attach, lemma_leaf, lemma_link, lemma_linked_kept,
    lemma_linked_made, lemma_only_adds_twice, lemma_path_tables, lemma_preserved, lemma_zero_entry,
    linked, only_adds, same_slot, sound, written,
};
use super::window::{
    law_window_shows_table, lemma_child_window, lemma_walk_kept, lemma_window_indices,
    lemma_window_path, next_table_address, slots, upper_table, window, window_address, Table,
    P4_TABLE_ADDRESS,
};
use super::{canonical, Page, PageIter, PhysicalAddress, VirtualAddress};
use crate::memory::{
    lasts, lemma_given_back_spends, lemma_lasts_less, lemma_request_spends, lemma_spends,
    lemma_spends_nothing, lemma_spent, out_of_frames, spends, Frame, FrameAllocator, FrameIter,
    MAX_FRAMES, PAGE_SIZE,
};

verus! {

/// Why a page could not be mapped.
#[derive(Debug, Clone, Copy, PartialEq, Eq, Structural)]
pub enum MapError {
    /// The frame allocator had no frame left for a table or for the page.
    OutOfFrames,
}

/// Something that the processor has to be told after the tables changed.
#[derive(Debug, Clone, Copy, PartialEq, Eq, Structural)]
pub enum CpuAction {
    /// Forget the cached translation of the page at this address.
    FlushPage(VirtualAddress),
    /// Forget every cached translation.
    FlushAll,
    /// Load the table at this address into the table-base register.
    LoadTable(PhysicalAddress),
}

/// The machine's table memory together with the frame that the processor's
/// table-base register names. The mapper works on the tree whose highest
/// table the recursive slot of that frame points at: the loaded tree
/// itself, or another one while the slot is borrowed.
///
/// What has to be done to the processor itself is not done here but
/// written down in `actions`, in the order in which it falls due.
pub struct Mapper {
    pub memory: PhysicalMemory,
    pub root: Frame,
    pub actions: Vec<CpuAction>,
}

impl Mapper {
    /// The frame of the highest table of the tree that the mapper works on.
    pub open spec fn p4_spec(&self) -> u64 {
        frame_number(self.memory.entry(self.root.number, RECURSIVE_INDEX as int))
    }

    /// The recursive slots are in place, the tables form a tree, and every
    /// huge page outside the recursive part starts where it has to.
    #[verifier::opaque]
    pub open spec fn wf(&self) -> bool {
        let p4 = self.p4_spec();
        &&& self.memory.wf()
        &&& self.root.number < MAX_FRAMES
        &&& self.memory.entry(self.root.number, RECURSIVE_INDEX as int) == pack(p4, PRESENT | WRITABLE)
        &&& sound(&self.memory, p4)
        &&& self.root.number == p4 || !self.memory.is_table(p4, self.root.number)
    }

    /// The frame that the processor reaches for `page`: the translation
    /// in the loaded tree, whatever its recursive slot points at.
    pub open spec fn resolution(&self, page: Page) -> Option<u64> {
        self.memory.translation(self.root.number, page)
    }

    /// The frame that `page` is mapped to, if it is mapped.
    pub open spec fn translation(&self, page: Page) -> Option<u64> {
        self.memory.translation(self.p4_spec(), page)
    }

    /// The physical address that `virtual_address` is mapped to: the
    /// start of the frame of its page, and the same offset into it.
    pub open spec fn address_of(&self, virtual_address: VirtualAddress) -> Option<PhysicalAddress> {
        match self.translation(page_of(virtual_address)) {
            Some(number) => Some((number * PAGE_SIZE + virtual_address % PAGE_SIZE) as u64),
            None => None,
        }
    }

    /// The value of the entry of the lowest level on the path of `page`,
    /// where the path reaches a table of that level.
    pub open spec fn leaf_entry(&self, page: Page) -> Option<u64> {
        self.memory.leaf_entry(self.p4_spec(), page)
    }

    /// Whether frame `frame` holds a table of the tree.
    pub open spec fn is_table(&self, frame: u64) -> bool {
        self.memory.is_table(self.p4_spec(), frame)
    }

    /// Whether none of `frames` holds a table of the tree or the loaded table.
    #[verifier::opaque]
    pub open spec fn apart_from(&self, frames: Set<u64>) -> bool {
        &&& !frames.contains(self.root.number)
        &&& forall|frame: u64| #[trigger]
            self.memory.is_table(self.p4_spec(), frame) ==> !frames.contains(frame)
    }

    /// Whether `page` can be given a mapping: no entry on its path is
    /// marked as a huge page, and its entry of the lowest level, where the
    /// path reaches one, is all zero.
    pub open spec fn can_map(&self, page: Page) -> bool {
        self.memory.can_map(self.p4_spec(), page)
    }

    /// Whether the tables of all three lower levels exist on the path of
    /// `page`, so that mapping it needs no new table.
    pub open spec fn path_complete(&self, page: Page) -> bool {
        self.memory.p1_table(self.p4_spec(), page).is_some()
    }

    /// Whether `page` is mapped by an entry of the lowest level.
    pub open spec fn mapped_small(&self, page: Page) -> bool {
        match self.leaf_entry(page) {
            Some(value) => is_present(value),
            None => false,
        }
    }

    /// Whether the mapper came from `before` by changes to its tree alone:
    /// the same table is loaded, the tree has the same highest table, its
    /// tables are those of `before` or come from `spare`, and every frame
    /// that neither held a table of `before` nor is in `spare` holds what
    /// it held.
    #[verifier::opaque]
    pub open spec fn grown_from(&self, before: &Mapper, spare: Set<u64>) -> bool {
        &&& self.root == before.root
        &&& self.p4_spec() == before.p4_spec()
        &&& forall|frame: u64| #[trigger]
            self.memory.is_table(self.p4_spec(), frame) ==> before.memory.is_table(
                before.p4_spec(),
                frame,
            ) || spare.contains(frame)
        &&& forall|frame: u64, index: int|
            !before.memory.is_table(before.p4_spec(), frame) && !spare.contains(frame)
                ==> #[trigger] self.memory.entry(
                frame,
                index,
            ) == before.memory.entry(frame, index)
    }

    /// Whether the mapper came from `before` by a change that is in order
    /// while the frames that the allocator can hand out went from `spare`
    /// to `left`: it is well formed, it grew from `before` with frames of
    /// `spare`, it keeps clear of `left`, which is a part of `spare`, and
    /// what the windows showed, they still show.
    pub open spec fn follows(&self, before: &Mapper, spare: Set<u64>, left: Set<u64>) -> bool {
        &&& self.wf()
        &&& left.subset_of(spare)
        &&& self.apart_from(left)
        &&& self.grown_from(before, spare)
        &&& self.keeps_windows(before)
    }

    /// Whether what the windows showed with `before`, they still show:
    /// each page of the recursive part of the address space through which
    /// the processor reached a frame with `before` leads it to the same
    /// frame now.
    pub open spec fn keeps_windows(&self, before: &Mapper) -> bool {
        forall|page: Page|
            #![trigger self.resolution(page)]
            #![trigger before.resolution(page)]
            recursive(page) && before.resolution(page).is_some() ==> self.resolution(page)
                == before.resolution(page)
    }

    /// Whether every page outside the recursive part of the address space
    /// that has other indices than `page` is as `before` had it: it is
    /// mapped to the same frame or to none; where it could be given a
    /// mapping, it still can; and where its path reached an entry of the
    /// lowest level, the entry holds what it held.
    pub open spec fn same_but(&self, before: &Mapper, page: Page) -> bool {
        &&& forall|other: Page|
            #![trigger self.translation(other)]
            #![trigger before.translation(other)]
            !recursive(other) && !same_slot(other, page) ==> self.translation(other)
                == before.translation(other)
        &&& forall|other: Page|
            #![trigger self.can_map(other)]
            #![trigger before.can_map(other)]
            !recursive(other) && !same_slot(other, page) && before.can_map(other) ==> self.can_map(other)
        &&& forall|other: Page|
            #![trigger self.leaf_entry(other)]
            #![trigger before.leaf_entry(other)]
            !recursive(other) && !same_slot(other, page) && before.leaf_entry(other).is_some()
                ==> self.leaf_entry(other) == before.leaf_entry(other)
    }

    /// Whether every page outside the recursive part of the address space
    /// is mapped as `before` had it, and can be given a mapping where it
    /// could with `before`.
    pub open spec fn same_pages(&self, before: &Mapper) -> bool {
        &&& forall|page: Page|
            #![trigger self.translation(page)]
            #![trigger before.translation(page)]
            !recursive(page) ==> self.translation(page) == before.translation(page)
        &&& forall|page: Page|
            #![trigger self.can_map(page)]
            #![trigger before.can_map(page)]
            !recursive(page) && before.can_map(page) ==> self.can_map(page)
    }

    /// Whether every canonical page outside the recursive part of the
    /// address space and outside `pages` is as `before` had it: it is
    /// mapped to the same frame or to none; where it could be given a
    /// mapping, it still can; and where its path reached an entry of the
    /// lowest level, the entry holds what it held.
    pub open spec fn same_outside(&self, before: &Mapper, pages: PageIter) -> bool {
        &&& forall|other: Page|
            #![trigger self.translation(other)]
            #![trigger before.translation(other)]
            !recursive(other) && other.valid() && !pages.contains(other.number) ==> self.translation(
                other,
            ) == before.translation(other)
        &&& forall|other: Page|
            #![trigger self.can_map(other)]
            #![trigger before.can_map(other)]
            !recursive(other) && other.valid() && !pages.contains(other.number) && before.can_map(other)
                ==> self.can_map(other)
        &&& forall|other: Page|
            #![trigger self.leaf_entry(other)]
            #![trigger before.leaf_entry(other)]
            !recursive(other) && other.valid() && !pages.contains(other.number) && before.leaf_entry(
                other,
            ).is_some() ==> self.leaf_entry(other) == before.leaf_entry(other)
    }

    /// Whether `page`, the page at place `i` of a run, is mapped to the
    /// frame at place `i` of `frames`, with the flags `flags` and `PRESENT`.
    pub open spec fn paired(&self, page: Page, frames: FrameIter, i: int, flags: EntryFlags) -> bool {
        &&& self.translation(page) == Some((frames.start.number + i) as u64)
        &&& self.leaf_entry(page) == Some(pack((frames.start.number + i) as u64, flags | PRESENT))
    }

    /// Whether the first `count` pages of `pages` are mapped by entries of
    /// the lowest level, and the others are not mapped and can be.
    pub open spec fn mapped_front(&self, pages: PageIter, count: int) -> bool {
        &&& 0 <= count <= pages.len()
        &&& forall|i: int| 0 <= i < count ==> self.mapped_small(#[trigger] page_at(pages, i))
        &&& forall|i: int|
            count <= i < pages.len() ==> self.can_map(#[trigger] page_at(pages, i)) && self.translation(
                page_at(pages, i),
            ).is_none()
    }

    /// Whether `page` is mapped with the flags `flags` and `PRESENT` to a
    /// frame that was among `spare` and is not among `left`.
    pub open spec fn backed(&self, page: Page, flags: EntryFlags, spare: Set<u64>, left: Set<u64>) -> bool {
        match self.translation(page) {
            Some(number) => {
                &&& spare.contains(number)
                &&& !left.contains(number)
                &&& self.leaf_entry(page) == Some(pack(number, flags | PRESENT))
            },
            None => false,
        }
    }

    /// Whether `table` is seen as the table of its level on the path of
    /// `page`, which is in frame `frame`: the recursive slots are in
    /// place, and the table's address is that of the window of that table.
    pub open spec fn sees(&self, table: &Table, page: Page, frame: u64) -> bool {
        &&& self.memory.wf()
        &&& slots(&self.memory, self.root.number, self.p4_spec())
        &&& 1 <= table.level <= 4
        &&& table.address == window_address(page, table.level as int)
        &&& self.memory.table_for(self.p4_spec(), page, table.level as int) == Some(frame)
    }

    /// Hands the actions over that have fallen due, in their order, and
    /// starts a new list.
    pub fn take_actions(&mut self) -> (actions: Vec<CpuAction>)
        ensures
            actions@ == old(self).actions@,
            final(self).actions@.len() == 0,
            final(self).memory == old(self).memory,
            final(self).root == old(self).root,
    {
        let mut actions: Vec<CpuAction> = Vec::new();
        core::mem::swap(&mut actions, &mut self.actions);
        actions
    }

    /// The highest table of the tree, as it is seen through its window.
    pub fn p4_table(&self) -> (table: Table)
        ensures
            table.address == P4_TABLE_ADDRESS,
            table.level == 4,
    {
        Table { address: P4_TABLE_ADDRESS, level: 4 }
    }

    /// The frame of the highest table, reached through its window.
    pub fn p4(&self) -> (frame: Frame)
        requires
            self.wf(),
        ensures
            frame.number == self.p4_spec(),
            frame.number < MAX_FRAMES,
    {
        proof {
            reveal(Mapper::wf);
        }
        let table = self.p4_table();
        self.frame_behind(&table, Ghost(Page { number: 0 }), Ghost(self.p4_spec()))
    }

    /// The physical address that `virtual_address` is mapped to: the
    /// start of the frame of its page, and the same offset into it.
    pub fn translate(&self, virtual_address: VirtualAddress) -> (address: Option<PhysicalAddress>)
        requires
            self.wf(),
            canonical(virtual_address),
            self.memory.aligned(self.p4_spec(), page_of(virtual_address)),
        ensures
            address == self.address_of(virtual_address),
    {
        let offset = virtual_address % PAGE_SIZE;
        match self.translate_page(Page::containing_address(virtual_address)) {
            Some(frame) => {
                proof {
                    lemma_translation_bound(&self.memory, self.p4_spec(), page_of(virtual_address));
                }
                Some(frame.number * PAGE_SIZE + offset)
            },
            None => None,
        }
    }

    /// How `page` is mapped: by an entry of the lowest level, inside a
    /// huge page, or not at all. The tables on the path of `page` are read
    /// through their windows.
    pub fn lookup(&self, page: Page) -> (mapping: Mapping)
        requires
            self.wf(),
        ensures
            mapping == self.memory.mapping(self.p4_spec(), page),
    {
        proof {
            reveal(Mapper::wf);
        }
        let ghost root_table = self.p4_spec();
        let p4 = self.p4_table();
        let p3 = match self.next_table(&p4, page.p4_index(), Ghost(page), Ghost(root_table)) {
            Some(table) => table,
            None => { return Mapping::Unmapped; },
        };
        let ghost third_table = self.memory.table_for(root_table, page, 3).unwrap();
        let p3_entry = self.read_at(&p3, page.p3_index(), Ghost(page), Ghost(third_table));
        if let Some(start_frame) = p3_entry.pointed_frame() {
            if contains(p3_entry.flags(), HUGE_PAGE) {
                return Mapping::Page1G(start_frame);
            }
        }
        let p2 = match self.next_table(&p3, page.p3_index(), Ghost(page), Ghost(third_table)) {
            Some(table) => table,
            None => { return Mapping::Unmapped; },
        };
        let ghost second_table = self.memory.table_for(root_table, page, 2).unwrap();
        let p2_entry = self.read_at(&p2, page.p2_index(), Ghost(page), Ghost(second_table));
        if let Some(start_frame) = p2_entry.pointed_frame() {
            if contains(p2_entry.flags(), HUGE_PAGE) {
                return Mapping::Page2M(start_frame);
            }
        }
        let p1 = match self.next_table(&p2, page.p2_index(), Ghost(page), Ghost(second_table)) {
            Some(table) => table,
            None => { return Mapping::Unmapped; },
        };
        let ghost first_table = self.memory.table_for(root_table, page, 1).unwrap();
        match self.read_at(&p1, page.p1_index(), Ghost(page), Ghost(first_table)).pointed_frame() {
            Some(frame) => Mapping::Page4K(frame),
            None => Mapping::Unmapped,
        }
    }

    /// The frame that `page` is mapped to, if it is mapped: the frame of
    /// its entry of the lowest level, or the frame as far into a huge page
    /// as the lower indices of `page` say. A huge page starts at a frame
    /// whose number is a multiple of the number of frames in it.
    pub fn translate_page(&self, page: Page) -> (frame: Option<Frame>)
        requires
            self.wf(),
            self.memory.aligned(self.p4_spec(), page),
        ensures
            match frame {
                Some(target) => self.translation(page) == Some(target.number),
                None => self.translation(page).is_none(),
            },
    {
        proof {
            self.memory.lemma_mapping(self.p4_spec(), page);
            lemma_translation_bound(&self.memory, self.p4_spec(), page);
        }
        match self.lookup(page) {
            Mapping::Unmapped => None,
            Mapping::Page4K(frame) => Some(frame),
            Mapping::Page2M(start_frame) => Some(
                Frame { number: start_frame.number + (page.p1_index() as u64) },
            ),
            Mapping::Page1G(start_frame) => Some(
                Frame {
                    number: start_frame.number + (page.p2_index() as u64) * 512 + (
                    page.p1_index() as u64),
                },
            ),
        }
    }

    /// Whether `page` can be translated: it lies inside no huge page, or
    /// inside one that starts at a frame whose number is a multiple of the
    /// number of frames in it.
    pub fn is_aligned(&self, page: Page) -> (aligned: bool)
        requires
            self.wf(),
        ensures
            aligned == self.memory.aligned(self.p4_spec(), page),
    {
        proof {
            self.memory.lemma_mapping(self.p4_spec(), page);
        }
        match self.lookup(page) {
            Mapping::Page2M(start_frame) => start_frame.number % 512 == 0,
            Mapping::Page1G(start_frame) => start_frame.number % 0x4_0000 == 0,
            _ => true,
        }
    }

    /// The frame that the processor reaches for `page`, if it reaches one.
    pub fn resolve(&self, page: Page) -> (frame: Option<Frame>)
        requires
            self.wf(),
            self.memory.aligned(self.root.number, page),
        ensures
            match frame {
                Some(target) => self.resolution(page) == Some(target.number),
                None => self.resolution(page).is_none(),
            },
    {
        proof {
            reveal(Mapper::wf);
        }
        self.walk(&self.root, page)
    }

    /// Whether `page` can be given a mapping.
    pub fn is_mappable(&self, page: Page) -> (free: bool)
        requires
            self.wf(),
        ensures
            free == self.can_map(page),
    {
        proof {
            reveal(Mapper::wf);
        }
        let ghost root_table = self.p4_spec();
        let p4 = self.p4_table();
        if contains(
            self.read_at(&p4, page.p4_index(), Ghost(page), Ghost(root_table)).flags(),
            HUGE_PAGE,
        ) {
            return false;
        }
        let p3 = match self.next_table(&p4, page.p4_index(), Ghost(page), Ghost(root_table)) {
            Some(table) => table,
            None => { return true; },
        };
        let ghost third_table = self.memory.table_for(root_table, page, 3).unwrap();
        if contains(
            self.read_at(&p3, page.p3_index(), Ghost(page), Ghost(third_table)).flags(),
            HUGE_PAGE,
        ) {
            return false;
        }
        let p2 = match self.next_table(&p3, page.p3_index(), Ghost(page), Ghost(third_table)) {
            Some(table) => table,
            None => { return true; },
        };
        let ghost second_table = self.memory.table_for(root_table, page, 2).unwrap();
        if contains(
            self.read_at(&p2, page.p2_index(), Ghost(page), Ghost(second_table)).flags(),
            HUGE_PAGE,
        ) {
            return false;
        }
        let p1 = match self.next_table(&p2, page.p2_index(), Ghost(page), Ghost(second_table)) {
            Some(table) => table,
            None => { return true; },
        };
        let ghost first_table = self.memory.table_for(root_table, page, 1).unwrap();
        self.read_at(&p1, page.p1_index(), Ghost(page), Ghost(first_table)).is_unused()
    }

    /// Whether `page` is mapped by an entry of the lowest level.
    pub fn is_mapped_small(&self, page: Page) -> (mapped: bool)
        requires
            self.wf(),
        ensures
            mapped == self.mapped_small(page),
    {
        proof {
            reveal(Mapper::wf);
        }
        match self.p1_table(page) {
            Some(table) => {
                let ghost low = self.memory.table_for(self.p4_spec(), page, 1).unwrap();
                contains(self.read_at(&table, page.p1_index(), Ghost(page), Ghost(low)).flags(), PRESENT)
            },
            None => false,
        }
    }

    /// Maps `page` to `frame` with the flags `flags` and `PRESENT`.
    ///
    /// Tables that are missing on the path of `page` are made from frames
    /// of `allocator`: each is cleared and hung into the table above by an
    /// entry that is present and writable. Where the allocator has none
    /// left, the page stays unmapped and the error says so; tables made up
    /// to then stay.
    /// No other page's translation changes either way, and no entry that
    /// was present changes at all. The tables take three frames at most:
    /// with an allocator that answers three requests for a frame, the page
    /// is mapped.
    pub fn map_to<A: FrameAllocator>(
        &mut self,
        page: Page,
        frame: Frame,
        flags: EntryFlags,
        allocator: &mut A,
    ) -> (result: Result<(), MapError>)
        requires
            old(self).wf(),
            old(allocator).inv(),
            old(self).apart_from(old(allocator).available()),
            !recursive(page),
            frame.number < MAX_FRAMES,
            valid_flags(flags),
            old(self).can_map(page),
        ensures
            spends(old(allocator), final(allocator), 3),
            lasts(old(allocator), 3) ==> result.is_ok(),
            result.is_err() ==> out_of_frames(final(allocator)),
            final(allocator).inv(),
            final(self).follows(old(self), old(allocator).available(), final(allocator).available()),
            final(self).same_but(old(self), page),
            final(self).actions == old(self).actions,
            match result {
                Ok(_) => {
                    &&& final(self).translation(page) == Some(frame.number)
                    &&& final(self).leaf_entry(page) == Some(pack(frame.number, flags | PRESENT))
                },
                Err(_) => {
                    &&& final(self).translation(page).is_none()
                    &&& final(self).can_map(page)
                    &&& !old(self).path_complete(page)
                },
            },
            old(self).path_complete(page) ==> *final(allocator) == *old(allocator),
            old(self).path_complete(page) ==> final(allocator).available() == old(allocator).available(),
            final(self).translation(page).is_some() ==> final(self).path_complete(page),
            only_adds(&old(self).memory, &final(self).memory, old(allocator).available()),
            forall|level: int|
                1 <= level <= 3 ==> #[trigger] linked(
                    &old(self).memory,
                    &final(self).memory,
                    old(self).p4_spec(),
                    page,
                    level,
                    old(allocator).available(),
                ),
    {
        let ghost spare = allocator.available();
        let ghost root_table = self.p4_spec();
        let ghost first_allocator = *allocator;
        proof {
            if lasts(&first_allocator, 3) {
                lemma_lasts_less(&first_allocator, 3, 1);
            }
        }
        let p4 = self.p4_table();
        let p3 = match self.next_table_create(
            &p4,
            page.p4_index(),
            allocator,
            Ghost(page),
            Ghost(3),
            Ghost(root_table),
        ) {
            Some(table) => table,
            None => {
                proof {
                    lemma_unmapped(&self.memory, self.p4_spec(), page);
                    lemma_spends(&first_allocator, &first_allocator, &*allocator, 0, 1, 3);
                }
                return Err(MapError::OutOfFrames);
            },
        };
        let ghost second = *self;
        let ghost spare_second = allocator.available();
        let ghost second_allocator = *allocator;
        proof {
            lemma_linked_made(&old(self).memory, &old(self).memory, &second.memory, root_table, page, 3, spare);
            lemma_spends_nothing(&first_allocator, 0);
            if lasts(&first_allocator, 3) {
                lemma_spent(&first_allocator, &second_allocator, 1, 3, 1);
            }
        }
        let ghost third_table = self.memory.table_for(self.p4_spec(), page, 3).unwrap();
        let p2 = match self.next_table_create(
            &p3,
            page.p3_index(),
            allocator,
            Ghost(page),
            Ghost(2),
            Ghost(third_table),
        ) {
            Some(table) => table,
            None => {
                proof {
                    self.lemma_grown_twice(&second, old(self), spare, spare_second);
                    lemma_unmapped(&self.memory, self.p4_spec(), page);
                    lemma_spends(&first_allocator, &second_allocator, &*allocator, 1, 1, 3);
                }
                return Err(MapError::OutOfFrames);
            },
        };
        let ghost third_allocator = *allocator;
        proof {
            let made = if second.memory.table_for(root_table, page, 2).is_none() {
                self.memory.table_for(root_table, page, 2)
            } else {
                None
            };
            lemma_linked_made(&old(self).memory, &second.memory, &self.memory, root_table, page, 2, spare);
            lemma_only_adds_twice(&old(self).memory, &second.memory, &self.memory, spare, spare_second);
            assert(second.memory.tree_shaped(root_table)) by {
                reveal(Mapper::wf);
            }
            lemma_linked_kept(&old(self).memory, &second.memory, &self.memory, root_table, page, 3, 3, spare, made);
            lemma_spends(&first_allocator, &second_allocator, &third_allocator, 1, 1, 2);
            if lasts(&first_allocator, 3) {
                lemma_spent(&first_allocator, &third_allocator, 2, 3, 1);
            }
        }
        proof {
            self.lemma_grown_twice(&second, old(self), spare, spare_second);
        }
        let ghost third = *self;
        let ghost spare_third = allocator.available();
        let ghost second_table = self.memory.table_for(self.p4_spec(), page, 2).unwrap();
        let p1 = match self.next_table_create(
            &p2,
            page.p2_index(),
            allocator,
            Ghost(page),
            Ghost(1),
            Ghost(second_table),
        ) {
            Some(table) => table,
            None => {
                proof {
                    self.lemma_grown_twice(&third, old(self), spare, spare_third);
                    lemma_unmapped(&self.memory, self.p4_spec(), page);
                    lemma_spends(&first_allocator, &third_allocator, &*allocator, 2, 1, 3);
                }
                return Err(MapError::OutOfFrames);
            },
        };
        proof {
            lemma_spends(&first_allocator, &third_allocator, &*allocator, 2, 1, 3);
            let made = if third.memory.table_for(root_table, page, 1).is_none() {
                self.memory.table_for(root_table, page, 1)
            } else {
                None
            };
            lemma_linked_made(&old(self).memory, &third.memory, &self.memory, root_table, page, 1, spare);
            lemma_only_adds_twice(&old(self).memory, &third.memory, &self.memory, spare, spare_third);
            assert(third.memory.tree_shaped(root_table)) by {
                reveal(Mapper::wf);
            }
            lemma_linked_kept(&old(self).memory, &third.memory, &self.memory, root_table, page, 3, 2, spare, made);
            lemma_linked_kept(&old(self).memory, &third.memory, &self.memory, root_table, page, 2, 2, spare, made);
        }
        proof {
            self.lemma_grown_twice(&third, old(self), spare, spare_third);
        }
        let ghost fourth = *self;
        self.set_leaf(&p1, page, frame, flags);
        proof {
            assert(fourth.memory.tree_shaped(root_table)) by {
                reveal(Mapper::wf);
            }
            lemma_only_adds_twice(&old(self).memory, &fourth.memory, &self.memory, spare, Set::empty());
            lemma_linked_kept(&old(self).memory, &fourth.memory, &self.memory, root_table, page, 3, 1, spare, None);
            lemma_linked_kept(&old(self).memory, &fourth.memory, &self.memory, root_table, page, 2, 1, spare, None);
            lemma_linked_kept(&old(self).memory, &fourth.memory, &self.memory, root_table, page, 1, 1, spare, None);
            self.lemma_grown_twice(&fourth, old(self), spare, Set::empty());
            self.lemma_apart_from_same(&fourth, allocator.available());
        }
        Ok(())
    }

    /// Takes a frame from `allocator` and maps `page` to it with the flags
    /// `flags` and `PRESENT`: the frame is the one with which the allocator
    /// answers a request for a single frame. Without a frame for the page
    /// or for a table, the page stays unmapped and the error says so. That
    /// takes four frames at most.
    pub fn map<A: FrameAllocator>(&mut self, page: Page, flags: EntryFlags, allocator: &mut A) -> (result:
        Result<(), MapError>)
        requires
            old(self).wf(),
            old(allocator).inv(),
            old(self).apart_from(old(allocator).available()),
            !recursive(page),
            valid_flags(flags),
            old(self).can_map(page),
        ensures
            result.is_err() ==> out_of_frames(final(allocator)),
            spends(old(allocator), final(allocator), 4),
            lasts(old(allocator), 4) ==> result.is_ok(),
            final(allocator).inv(),
            final(self).follows(old(self), old(allocator).available(), final(allocator).available()),
            final(self).same_but(old(self), page),
            final(self).actions == old(self).actions,
            match result {
                Ok(_) => final(self).backed(
                    page,
                    flags,
                    old(allocator).available(),
                    final(allocator).available(),
                ),
                Err(_) => final(self).translation(page).is_none() && final(self).can_map(page),
            },
            match old(allocator).answer(1) {
                Some(frames) => {
                    &&& spends(&old(allocator).after(1), final(allocator), 3)
                    &&& lasts(&old(allocator).after(1), 3) ==> result.is_ok()
                    &&& result.is_ok() ==> final(self).translation(page) == Some(frames.start.number)
                },
                None => {
                    &&& result.is_err()
                    &&& *final(allocator) == *old(allocator)
                    &&& *final(self) == *old(self)
                },
            },
    {
        proof {
            reveal(Mapper::grown_from);
            reveal(Mapper::apart_from);
        }
        let ghost spare = allocator.available();
        let ghost first_allocator = *allocator;
        proof {
            lemma_request_spends(&first_allocator);
            lemma_spends_nothing(&first_allocator, 4);
            if lasts(&first_allocator, 4) {
                lemma_lasts_less(&first_allocator, 4, 1);
            }
        }
        let frame = match allocator.allocate_frame() {
            Some(frame) => frame,
            None => {
                proof {
                    lemma_unmapped(&self.memory, self.p4_spec(), page);
                }
                return Err(MapError::OutOfFrames);
            },
        };
        let ghost taken = frame.number;
        let ghost left = allocator.available();
        let ghost second_allocator = *allocator;
        proof {
            if lasts(&first_allocator, 4) {
                lemma_spent(&first_allocator, &second_allocator, 1, 4, 3);
            }
        }
        let result = self.map_to(page, frame, flags, allocator);
        proof {
            lemma_spends(&first_allocator, &second_allocator, &*allocator, 1, 3, 4);
            assert(self.grown_from(old(self), left));
            assert forall|number: u64| #[trigger]
                self.memory.is_table(self.p4_spec(), number) implies old(self).memory.is_table(
                old(self).p4_spec(),
                number,
            ) || spare.contains(number) by {}
        }
        result
    }

    /// Takes as many frames from `allocator` as `pages` has pages, in one
    /// run, and maps the pages to them in order, with the flags `flags` and
    /// `PRESENT`: the run is the one with which the allocator answers a
    /// request for that many frames. Without the run nothing changes;
    /// without a frame for a table, the pages before the one that needed it
    /// are mapped. It succeeds wherever the allocator has the run and, after
    /// it, three frames for each page.
    pub fn map_range<A: FrameAllocator>(
        &mut self,
        pages: PageIter,
        flags: EntryFlags,
        allocator: &mut A,
    ) -> (result: Result<(), MapError>)
        requires
            old(self).wf(),
            old(allocator).inv(),
            old(self).apart_from(old(allocator).available()),
            valid_flags(flags),
            pages.len() > 0,
            pages.start.valid(),
            pages.end.valid(),
            forall|i: int|
                0 <= i < pages.len() ==> {
                    &&& (#[trigger] page_at(pages, i)).valid()
                    &&& !recursive(page_at(pages, i))
                    &&& old(self).can_map(page_at(pages, i))
                },
        ensures
            match old(allocator).answer(pages.len() as u64) {
                Some(frames) => {
                    &&& spends(&old(allocator).after(pages.len() as u64), final(allocator), 3 * pages.len())
                    &&& lasts(&old(allocator).after(pages.len() as u64), 3 * pages.len())
                        ==> result.is_ok()
                    &&& result.is_err() ==> out_of_frames(final(allocator))
                    &&& forall|i: int|
                        0 <= i < pages.len() ==> {
                            ||| final(self).paired(page_at(pages, i), frames, i, flags)
                            ||| (#[trigger] final(self).translation(page_at(pages, i))).is_none()
                                && result.is_err()
                        }
                },
                None => {
                    &&& result.is_err()
                    &&& *final(allocator) == *old(allocator)
                    &&& *final(self) == *old(self)
                },
            },
            final(allocator).inv(),
            final(self).follows(old(self), old(allocator).available(), final(allocator).available()),
            final(self).same_outside(old(self), pages),
            final(self).actions == old(self).actions,
            forall|i: int|
                0 <= i < pages.len() ==> {
                    ||| final(self).backed(
                        #[trigger] page_at(pages, i),
                        flags,
                        old(allocator).available(),
                        final(allocator).available(),
                    )
                    ||| final(self).translation(page_at(pages, i)).is_none() && final(self).can_map(
                        page_at(pages, i),
                    ) && result.is_err()
                },
            result.is_ok() ==> forall|i: int|
                0 <= i < pages.len() ==> (#[trigger] final(self).translation(page_at(pages, i)))
                    == Some((final(self).translation(pages.start).unwrap() + i) as u64),
            result.is_err() ==> exists|count: int|
                0 <= count < pages.len() && #[trigger] final(self).mapped_front(pages, count),
    {
        let ghost spare = allocator.available();
        let count = pages.size();
        let frames = match allocator.allocate_frames(count) {
            Some(frames) => frames,
            None => {
                proof {
                    old(self).lemma_grown_from_self(spare);
                    assert forall|i: int| 0 <= i < pages.len() implies self.translation(
                        #[trigger] page_at(pages, i),
                    ).is_none() by {
                        lemma_unmapped(&self.memory, self.p4_spec(), page_at(pages, i));
                    }
                    assert(self.mapped_front(pages, 0));
                }
                return Err(MapError::OutOfFrames);
            },
        };
        let ghost left = allocator.available();
        proof {
            self.lemma_apart_from_less(spare, left);
        }
        let result = self.map_range_to(pages, frames, flags, allocator);
        proof {
            self.lemma_grown_from_more(old(self), left, spare);
            assert forall|i: int| 0 <= i < pages.len() implies match #[trigger] self.translation(
                page_at(pages, i),
            ) {
                Some(number) => {
                    &&& spare.contains(number)
                    &&& !allocator.available().contains(number)
                    &&& self.leaf_entry(page_at(pages, i)) == Some(pack(number, flags | PRESENT))
                },
                None => result.is_err() && self.can_map(page_at(pages, i)),
            } by {
                if self.paired(page_at(pages, i), frames, i, flags) {
                    assert(frames.contains((frames.start.number + i) as u64));
                }
            }
            if result.is_ok() {
                assert(page_at(pages, 0) == pages.start);
                assert(self.paired(page_at(pages, 0), frames, 0, flags));
                assert forall|i: int| 0 <= i < pages.len() implies (#[trigger] self.translation(
                    page_at(pages, i),
                )) == Some((self.translation(pages.start).unwrap() + i) as u64) by {
                    assert(self.paired(page_at(pages, i), frames, i, flags));
                }
            }
        }
        result
    }

    /// Maps the pages of `pages` to the frames of `frames`, the first to
    /// the first and so on, as far as both reach, with the flags `flags`
    /// and `PRESENT`. It stops at the first page for which a table cannot
    /// be had: the pages before that one are mapped then, the others not.
    /// Each page takes three frames at most.
    pub fn map_range_to<A: FrameAllocator>(
        &mut self,
        pages: PageIter,
        frames: FrameIter,
        flags: EntryFlags,
        allocator: &mut A,
    ) -> (result: Result<(), MapError>)
        requires
            old(self).wf(),
            old(allocator).inv(),
            old(self).apart_from(old(allocator).available()),
            valid_flags(flags),
            pages.len() > 0 ==> pages.start.valid() && pages.end.valid(),
            frames.len() > 0 ==> frames.end.number < MAX_FRAMES,
            forall|i: int|
                0 <= i < pages.len() ==> {
                    &&& (#[trigger] page_at(pages, i)).valid()
                    &&& !recursive(page_at(pages, i))
                    &&& old(self).can_map(page_at(pages, i))
                },
        ensures
            spends(old(allocator), final(allocator), 3 * pages.len()),
            lasts(old(allocator), 3 * pages.len()) ==> result.is_ok(),
            result.is_err() ==> out_of_frames(final(allocator)),
            final(allocator).inv(),
            final(self).follows(old(self), old(allocator).available(), final(allocator).available()),
            final(self).same_outside(old(self), pages),
            final(self).actions == old(self).actions,
            forall|i: int|
                0 <= i < pages.len() ==> {
                    ||| i < frames.len() && final(self).paired(page_at(pages, i), frames, i, flags)
                    ||| (#[trigger] final(self).translation(page_at(pages, i))).is_none() && final(
                        self).can_map(page_at(pages, i)) && (result.is_err() || i >= frames.len())
                },
            result.is_ok() ==> forall|i: int|
                0 <= i < pages.len() && i < frames.len() ==> final(self).paired(
                    #[trigger] page_at(pages, i),
                    frames,
                    i,
                    flags,
                ),
            result.is_err() ==> exists|i: int|
                0 <= i < pages.len() && i < frames.len() && !old(self).path_complete(
                    #[trigger] page_at(pages, i),
                ),
            result.is_err() ==> exists|count: int|
                0 <= count < pages.len() && #[trigger] final(self).mapped_front(pages, count),
    {
        let ghost spare = allocator.available();
        let ghost first_allocator = *allocator;
        proof {
            lemma_spends_nothing(&first_allocator, 0);
        }
        let mut rest = pages;
        let mut left = frames;
        let ghost mut done: int = 0;
        proof {
            old(self).lemma_grown_from_self(spare);
            assert forall|i: int| 0 <= i < pages.len() implies self.translation(
                #[trigger] page_at(pages, i),
            ).is_none() by {
                lemma_unmapped(&self.memory, self.p4_spec(), page_at(pages, i));
            }
        }
        loop
            invariant
                first_allocator == *old(allocator),
                spends(&first_allocator, &*allocator, 3 * done as nat),
                self.wf(),
                allocator.inv(),
                valid_flags(flags),
                spare == old(allocator).available(),
                allocator.available().subset_of(spare),
                self.apart_from(allocator.available()),
                self.grown_from(old(self), spare),
                self.keeps_windows(old(self)),
                self.actions == old(self).actions,
                pages.len() > 0 ==> pages.start.valid() && pages.end.valid(),
                frames.len() > 0 ==> frames.end.number < MAX_FRAMES,
                rest.end == pages.end,
                left.end == frames.end,
                0 <= done <= pages.len(),
                done <= frames.len(),
                rest.start.number == pages.start.number + done,
                left.start.number == frames.start.number + done,
                forall|i: int|
                    0 <= i < pages.len() ==> (#[trigger] page_at(pages, i)).valid() && !recursive(
                        page_at(pages, i),
                    ),
                forall|i: int| 0 <= i < done ==> self.paired(#[trigger] page_at(pages, i), frames, i, flags),
                forall|i: int|
                    done <= i < pages.len() ==> self.can_map(#[trigger] page_at(pages, i))
                        && self.translation(page_at(pages, i)).is_none(),
                forall|i: int|
                    done <= i < pages.len() && old(self).path_complete(#[trigger] page_at(pages, i))
                        ==> self.path_complete(page_at(pages, i)),
                self.same_outside(old(self), pages),
            decreases pages.len() - done,
        {
            let page = match rest.next() {
                Some(page) => page,
                None => {
                    proof {
                        lemma_spends(
                            &first_allocator,
                            &*allocator,
                            &*allocator,
                            3 * done as nat,
                            0,
                            3 * pages.len(),
                        );
                    }
                    return Ok(());
                },
            };
            let frame = match left.next() {
                Some(frame) => frame,
                None => {
                    proof {
                        lemma_spends(
                            &first_allocator,
                            &*allocator,
                            &*allocator,
                            3 * done as nat,
                            0,
                            3 * pages.len(),
                        );
                    }
                    return Ok(());
                },
            };
            assert(page == page_at(pages, done));
            let ghost before = *self;
            let ghost spare_before = allocator.available();
            let ghost allocator_before = *allocator;
            proof {
                if lasts(&first_allocator, 3 * pages.len()) {
                    lemma_spent(
                        &first_allocator,
                        &allocator_before,
                        3 * done as nat,
                        3 * pages.len(),
                        3,
                    );
                }
            }
            let result = self.map_to(page, frame, flags, allocator);
            proof {
                lemma_spends(
                    &first_allocator,
                    &allocator_before,
                    &*allocator,
                    3 * done as nat,
                    3,
                    3 * (done + 1) as nat,
                );
                lemma_spends(
                    &first_allocator,
                    &allocator_before,
                    &*allocator,
                    3 * done as nat,
                    3,
                    3 * pages.len(),
                );
                self.lemma_grown_twice(&before, old(self), spare, spare_before);
                assert forall|i: int| 0 <= i < pages.len() && i != done implies !same_slot(
                    #[trigger] page_at(pages, i),
                    page,
                ) by {
                    lemma_distinct_slots(page_at(pages, i), page);
                }
                assert forall|other: Page|
                    !recursive(other) && other.valid() && !pages.contains(other.number)
                        implies !same_slot(other, page) by {
                    lemma_distinct_slots(other, page);
                }
                assert forall|i: int| 0 <= i < done implies self.paired(
                    #[trigger] page_at(pages, i),
                    frames,
                    i,
                    flags,
                ) by {
                    assert(before.paired(page_at(pages, i), frames, i, flags));
                }
                assert forall|i: int| done < i < pages.len() implies self.can_map(
                    #[trigger] page_at(pages, i),
                ) && self.translation(page_at(pages, i)).is_none() by {
                    assert(before.can_map(page_at(pages, i)));
                }
                assert forall|i: int|
                    done < i < pages.len() && old(self).path_complete(
                        #[trigger] page_at(pages, i),
                    ) implies self.path_complete(page_at(pages, i)) by {
                    assert(before.leaf_entry(page_at(pages, i)).is_some());
                }
            }
            if let Err(error) = result {
                assert(!old(self).path_complete(page_at(pages, done)));
                proof {
                    lemma_present_added(flags);
                    assert forall|i: int| 0 <= i < done implies self.mapped_small(
                        #[trigger] page_at(pages, i),
                    ) by {
                        assert(self.paired(page_at(pages, i), frames, i, flags));
                        lemma_pack((frames.start.number + i) as u64, flags | PRESENT);
                    }
                    assert(self.mapped_front(pages, done));
                }
                return Err(error);
            }
            proof {
                done = done + 1;
            }
        }
    }

    /// Maps each page of `pages` to a frame of its own, taken from
    /// `allocator` when the page's turn comes, with the flags `flags` and
    /// `PRESENT`. It stops at the first page for which a frame cannot be
    /// had: the pages before that one are mapped then, the others not.
    /// Each page takes four frames at most.
    pub fn map_each<A: FrameAllocator>(
        &mut self,
        pages: PageIter,
        flags: EntryFlags,
        allocator: &mut A,
    ) -> (result: Result<(), MapError>)
        requires
            old(self).wf(),
            old(allocator).inv(),
            old(self).apart_from(old(allocator).available()),
            valid_flags(flags),
            pages.len() > 0 ==> pages.start.valid() && pages.end.valid(),
            forall|i: int|
                0 <= i < pages.len() ==> {
                    &&& (#[trigger] page_at(pages, i)).valid()
                    &&& !recursive(page_at(pages, i))
                    &&& old(self).can_map(page_at(pages, i))
                },
        ensures
            result.is_err() ==> out_of_frames(final(allocator)),
            spends(old(allocator), final(allocator), 4 * pages.len()),
            lasts(old(allocator), 4 * pages.len()) ==> result.is_ok(),
            final(allocator).inv(),
            final(self).follows(old(self), old(allocator).available(), final(allocator).available()),
            final(self).same_outside(old(self), pages),
            final(self).actions == old(self).actions,
            forall|i: int|
                0 <= i < pages.len() ==> {
                    ||| final(self).backed(
                        #[trigger] page_at(pages, i),
                        flags,
                        old(allocator).available(),
                        final(allocator).available(),
                    )
                    ||| final(self).translation(page_at(pages, i)).is_none() && final(self).can_map(
                        page_at(pages, i),
                    ) && result.is_err()
                },
    {
        let ghost spare = allocator.available();
        let ghost first_allocator = *allocator;
        proof {
            lemma_spends_nothing(&first_allocator, 0);
        }
        let mut rest = pages;
        let ghost mut done: int = 0;
        proof {
            old(self).lemma_grown_from_self(spare);
            assert forall|i: int| 0 <= i < pages.len() implies self.translation(
                #[trigger] page_at(pages, i),
            ).is_none() by {
                lemma_unmapped(&self.memory, self.p4_spec(), page_at(pages, i));
            }
        }
        loop
            invariant
                first_allocator == *old(allocator),
                spends(&first_allocator, &*allocator, 4 * done as nat),
                self.wf(),
                allocator.inv(),
                valid_flags(flags),
                spare == old(allocator).available(),
                allocator.available().subset_of(spare),
                self.apart_from(allocator.available()),
                self.grown_from(old(self), spare),
                self.keeps_windows(old(self)),
                self.actions == old(self).actions,
                pages.len() > 0 ==> pages.start.valid() && pages.end.valid(),
                rest.end == pages.end,
                0 <= done <= pages.len(),
                rest.start.number == pages.start.number + done,
                forall|i: int|
                    0 <= i < pages.len() ==> (#[trigger] page_at(pages, i)).valid() && !recursive(
                        page_at(pages, i),
                    ),
                forall|i: int|
                    0 <= i < done ==> self.backed(
                        #[trigger] page_at(pages, i),
                        flags,
                        spare,
                        allocator.available(),
                    ),
                forall|i: int|
                    done <= i < pages.len() ==> self.can_map(#[trigger] page_at(pages, i))
                        && self.translation(page_at(pages, i)).is_none(),
                self.same_outside(old(self), pages),
            decreases pages.len() - done,
        {
            let page = match rest.next() {
                Some(page) => page,
                None => {
                    proof {
                        lemma_spends(
                            &first_allocator,
                            &*allocator,
                            &*allocator,
                            4 * done as nat,
                            0,
                            4 * pages.len(),
                        );
                    }
                    return Ok(());
                },
            };
            assert(page == page_at(pages, done));
            let ghost before = *self;
            let ghost spare_before = allocator.available();
            let ghost allocator_before = *allocator;
            proof {
                if lasts(&first_allocator, 4 * pages.len()) {
                    lemma_spent(
                        &first_allocator,
                        &allocator_before,
                        4 * done as nat,
                        4 * pages.len(),
                        4,
                    );
                }
            }
            let result = self.map(page, flags, allocator);
            proof {
                lemma_spends(
                    &first_allocator,
                    &allocator_before,
                    &*allocator,
                    4 * done as nat,
                    4,
                    4 * (done + 1) as nat,
                );
                lemma_spends(
                    &first_allocator,
                    &allocator_before,
                    &*allocator,
                    4 * done as nat,
                    4,
                    4 * pages.len(),
                );
                self.lemma_grown_twice(&before, old(self), spare, spare_before);
                assert forall|i: int| 0 <= i < pages.len() && i != done implies !same_slot(
                    #[trigger] page_at(pages, i),
                    page,
                ) by {
                    lemma_distinct_slots(page_at(pages, i), page);
                }
                assert forall|other: Page|
                    !recursive(other) && other.valid() && !pages.contains(other.number)
                        implies !same_slot(other, page) by {
                    lemma_distinct_slots(other, page);
                }
                assert forall|i: int| 0 <= i < done implies self.backed(
                    #[trigger] page_at(pages, i),
                    flags,
                    spare,
                    allocator.available(),
                ) by {
                    assert(before.backed(page_at(pages, i), flags, spare, spare_before));
                    assert(before.leaf_entry(page_at(pages, i)).is_some());
                }
                assert forall|i: int| done < i < pages.len() implies self.can_map(
                    #[trigger] page_at(pages, i),
                ) && self.translation(page_at(pages, i)).is_none() by {
                    assert(before.can_map(page_at(pages, i)));
                }
            }
            if let Err(error) = result {
                return Err(error);
            }
            proof {
                done = done + 1;
            }
        }
    }

    /// Maps the page with the number of `frame` to `frame`, with the
    /// flags `flags` and `PRESENT`. The tables take three frames at most:
    /// with an allocator that answers three requests for a frame, the page
    /// is mapped.
    pub fn identity_map<A: FrameAllocator>(
        &mut self,
        frame: Frame,
        flags: EntryFlags,
        allocator: &mut A,
    ) -> (result: Result<(), MapError>)
        requires
            old(self).wf(),
            old(allocator).inv(),
            old(self).apart_from(old(allocator).available()),
            frame.number < 0x8_0000_0000,
            valid_flags(flags),
            old(self).can_map(Page { number: frame.number }),
        ensures
            spends(old(allocator), final(allocator), 3),
            lasts(old(allocator), 3) ==> result.is_ok(),
            result.is_err() ==> out_of_frames(final(allocator)),
            old(self).path_complete(Page { number: frame.number }) ==> *final(allocator) == *old(allocator),
            only_adds(&old(self).memory, &final(self).memory, old(allocator).available()),
            forall|level: int|
                1 <= level <= 3 ==> #[trigger] linked(
                    &old(self).memory,
                    &final(self).memory,
                    old(self).p4_spec(),
                    Page { number: frame.number },
                    level,
                    old(allocator).available(),
                ),
            final(allocator).inv(),
            final(self).follows(old(self), old(allocator).available(), final(allocator).available()),
            final(self).same_but(old(self), Page { number: frame.number }),
            final(self).actions == old(self).actions,
            match result {
                Ok(_) => {
                    &&& final(self).translation(Page { number: frame.number }) == Some(frame.number)
                    &&& final(self).leaf_entry(Page { number: frame.number }) == Some(
                        pack(frame.number, flags | PRESENT),
                    )
                },
                Err(_) => {
                    &&& final(self).translation(Page { number: frame.number }).is_none()
                    &&& final(self).can_map(Page { number: frame.number })
                    &&& !old(self).path_complete(Page { number: frame.number })
                },
            },
    {
        let page = Page::containing_address(frame.start_address());
        proof {
            lemma_low_pages(page);
        }
        self.map_to(page, frame, flags, allocator)
    }

    /// Takes the mapping of `page` away: clears its entry, notes that the
    /// page's cached translation has to be flushed, and hands the frame
    /// back to `allocator`. The tables on the page's path stay, so that
    /// mapping the page again takes no frame.
    pub fn unmap<A: FrameAllocator>(&mut self, page: Page, allocator: &mut A)
        requires
            old(self).wf(),
            old(allocator).inv(),
            page.valid(),
            !recursive(page),
            old(self).mapped_small(page),
        ensures
            *final(allocator) == old(allocator).given_back(single(old(self).translation(page).unwrap())),
            spends(old(allocator), final(allocator), 0),
            forall|count: u64| #[trigger] final(allocator).answer(count) == old(allocator).answer(count),
            final(allocator).inv(),
            final(allocator).available() == old(allocator).available(),
            final(self).wf(),
            final(self).grown_from(old(self), Set::empty()),
            final(self).same_but(old(self), page),
            final(self).keeps_windows(old(self)),
            final(self).actions@ == old(self).actions@.push(
                CpuAction::FlushPage((page.number * PAGE_SIZE) as u64),
            ),
            written(
                &old(self).memory,
                &final(self).memory,
                old(self).memory.p1_table(old(self).p4_spec(), page).unwrap(),
                page.p1(),
                0,
            ),
            final(self).translation(page).is_none(),
            final(self).can_map(page),
            final(self).path_complete(page),
            forall|frame: u64| #[trigger]
                final(self).memory.is_table(final(self).p4_spec(), frame) == old(self).memory.is_table(
                    old(self).p4_spec(),
                    frame,
                ),
    {
        proof {
            reveal(Mapper::wf);
            reveal(Mapper::grown_from);
        }
        let p1 = match self.p1_table(page) {
            Some(table) => table,
            None => { return ; },
        };
        let ghost p4 = self.p4_spec();
        let ghost before = self.memory;
        let ghost low = before.table_for(p4, page, 1).unwrap();
        let mut entry = self.read_at(&p1, page.p1_index(), Ghost(page), Ghost(low));
        let frame = match entry.pointed_frame() {
            Some(frame) => frame,
            None => { return ; },
        };
        entry.set_unused();
        self.write_at(&p1, page.p1_index(), entry, Ghost(page), Ghost(low));
        self.actions.push(CpuAction::FlushPage(page.start_address()));
        let ghost given = FrameIter { start: frame, end: frame };
        allocator.deallocate_frame(frame);
        proof {
            lemma_given_back_spends(old(allocator), given);
            lemma_zero_entry();
            lemma_path_tables(&before, p4, page);
            assert(written(&before, &self.memory, low, page.p1(), 0));
            lemma_leaf(&before, &self.memory, p4, page, low, 0);
            assert(before.is_table(p4, low));
            assert(self.p4_spec() == p4);
            assert(same_slot(page, page));
            assert(self.memory.table_for(p4, page, 1) == before.table_for(p4, page, 1));
            assert(self.memory.table_for(p4, page, 2) == before.table_for(p4, page, 2));
            assert(self.memory.table_for(p4, page, 3) == before.table_for(p4, page, 3));
            assert forall|other: Page|
                !recursive(other) && !same_slot(other, page) && old(self).can_map(other) implies self.can_map(
                other,
            ) by {
                lemma_path_tables(&before, p4, other);
                assert(self.memory.table_for(p4, other, 3) == before.table_for(p4, other, 3));
                assert(self.memory.table_for(p4, other, 2) == before.table_for(p4, other, 2));
                assert(self.memory.table_for(p4, other, 1) == before.table_for(p4, other, 1));
                assert(before.table_for(p4, other, 1) == Some(low) ==> same_prefix(other, page, 1));
                assert(before.table_for(p4, other, 2) != Some(low));
                assert(before.table_for(p4, other, 3) != Some(low));
            }
            assert forall|other: Page|
                !recursive(other) && !same_slot(other, page) implies self.leaf_entry(other) == old(self).leaf_entry(other) by {
                assert(self.memory.table_for(p4, other, 1) == before.table_for(p4, other, 1));
                assert(before.table_for(p4, other, 1) == Some(low) ==> same_prefix(other, page, 1));
            }
            assert forall|other: Page| recursive(other) && old(self).resolution(other).is_some()
                implies #[trigger] self.resolution(other) == old(self).resolution(other) by {
                lemma_window_path(&before, self.root.number, p4, other);
                assert forall|table: u64| upper_table(&before, p4, table) implies table != low by {
                    if table == low {
                        assert(before.table_for(p4, page, 1) != Some(p4));
                        let (witness, level) = choose|witness: Page, level: int|
                            !recursive(witness) && 2 <= level <= 3 && #[trigger] before.table_for(
                                p4,
                                witness,
                                level,
                            ) == Some(table);
                        assert(before.table_for(p4, witness, level) == before.table_for(p4, page, 1));
                    }
                }
                lemma_walk_kept(&before, &self.memory, self.root.number, other);
            }
        }
    }

    /// Takes the mappings of the pages of `pages` away, one after the
    /// other, notes for each that its cached translation has to be
    /// flushed, and hands each page's frame back to `allocator`, in the
    /// order of the pages.
    pub fn unmap_range<A: FrameAllocator>(&mut self, pages: PageIter, allocator: &mut A)
        requires
            old(self).wf(),
            old(allocator).inv(),
            pages.len() > 0 ==> pages.start.valid() && pages.end.valid(),
            forall|i: int|
                0 <= i < pages.len() ==> {
                    &&& (#[trigger] page_at(pages, i)).valid()
                    &&& !recursive(page_at(pages, i))
                    &&& old(self).mapped_small(page_at(pages, i))
                },
        ensures
            *final(allocator) == handed_back(old(allocator), old(self), pages, pages.len()),
            spends(old(allocator), final(allocator), 0),
            forall|count: u64| #[trigger] final(allocator).answer(count) == old(allocator).answer(count),
            final(allocator).inv(),
            final(allocator).available() == old(allocator).available(),
            final(self).wf(),
            final(self).grown_from(old(self), Set::empty()),
            final(self).same_outside(old(self), pages),
            final(self).keeps_windows(old(self)),
            final(self).actions@ == old(self).actions@ + Seq::new(
                pages.len(),
                |i: int| CpuAction::FlushPage((page_at(pages, i).number * PAGE_SIZE) as u64),
            ),
            forall|i: int|
                0 <= i < pages.len() ==> (#[trigger] final(self).translation(page_at(pages, i))).is_none()
                    && final(self).can_map(page_at(pages, i)),
            forall|frame: u64| #[trigger]
                final(self).memory.is_table(final(self).p4_spec(), frame) == old(self).memory.is_table(
                    old(self).p4_spec(),
                    frame,
                ),
    {
        let mut rest = pages;
        let ghost mut done: int = 0;
        proof {
            old(self).lemma_grown_from_self(Set::empty());
            lemma_spends_nothing(old(allocator), 0);
            assert(self.actions@ =~= old(self).actions@ + Seq::new(
                0,
                |i: int| CpuAction::FlushPage((page_at(pages, i).number * PAGE_SIZE) as u64),
            ));
        }
        loop
            invariant
                self.wf(),
                allocator.inv(),
                allocator.available() == old(allocator).available(),
                *allocator == handed_back(old(allocator), old(self), pages, done as nat),
                spends(old(allocator), &*allocator, 0),
                forall|count: u64| #[trigger] allocator.answer(count) == old(allocator).answer(count),
                forall|i: int|
                    done <= i < pages.len() ==> (#[trigger] self.translation(page_at(pages, i)))
                        == old(self).translation(page_at(pages, i)),
                self.grown_from(old(self), Set::empty()),
                self.keeps_windows(old(self)),
                pages.len() > 0 ==> pages.start.valid() && pages.end.valid(),
                rest.end == pages.end,
                0 <= done <= pages.len(),
                rest.start.number == pages.start.number + done,
                self.actions@ == old(self).actions@ + Seq::new(
                    done as nat,
                    |i: int| CpuAction::FlushPage((page_at(pages, i).number * PAGE_SIZE) as u64),
                ),
                forall|i: int|
                    0 <= i < pages.len() ==> (#[trigger] page_at(pages, i)).valid() && !recursive(
                        page_at(pages, i),
                    ),
                forall|i: int|
                    0 <= i < done ==> (#[trigger] self.translation(page_at(pages, i))).is_none()
                        && self.can_map(page_at(pages, i)),
                forall|i: int| done <= i < pages.len() ==> self.mapped_small(#[trigger] page_at(pages, i)),
                self.same_outside(old(self), pages),
                forall|frame: u64| #[trigger]
                    self.memory.is_table(self.p4_spec(), frame) == old(self).memory.is_table(
                        old(self).p4_spec(),
                        frame,
                    ),
            decreases pages.len() - done,
        {
            let page = match rest.next() {
                Some(page) => page,
                None => { return ; },
            };
            assert(page == page_at(pages, done));
            let ghost before = *self;
            let ghost allocator_before = *allocator;
            self.unmap(page, allocator);
            proof {
                lemma_spends(old(allocator), &allocator_before, &*allocator, 0, 0, 0);
                assert(before.translation(page_at(pages, done)) == old(self).translation(page_at(pages, done)));
                assert forall|i: int| done < i < pages.len() implies (#[trigger] self.translation(
                    page_at(pages, i),
                )) == old(self).translation(page_at(pages, i)) by {
                    lemma_distinct_slots(page_at(pages, i), page);
                    assert(before.translation(page_at(pages, i)) == old(self).translation(page_at(pages, i)));
                }
                self.lemma_grown_twice(&before, old(self), Set::empty(), Set::empty());
                assert forall|i: int| 0 <= i < pages.len() && i != done implies !same_slot(
                    #[trigger] page_at(pages, i),
                    page,
                ) by {
                    lemma_distinct_slots(page_at(pages, i), page);
                }
                assert forall|other: Page|
                    !recursive(other) && other.valid() && !pages.contains(other.number)
                        implies !same_slot(other, page) by {
                    lemma_distinct_slots(other, page);
                }
                assert forall|i: int| 0 <= i < done implies (#[trigger] self.translation(
                    page_at(pages, i),
                )).is_none() && self.can_map(page_at(pages, i)) by {
                    assert(before.translation(page_at(pages, i)).is_none());
                    assert(before.can_map(page_at(pages, i)));
                }
                assert forall|i: int| done < i < pages.len() implies self.mapped_small(
                    #[trigger] page_at(pages, i),
                ) by {
                    assert(before.mapped_small(page_at(pages, i)));
                    assert(self.leaf_entry(page_at(pages, i)) == before.leaf_entry(page_at(pages, i)));
                }
                assert(self.actions@ =~= old(self).actions@ + Seq::new(
                    (done + 1) as nat,
                    |i: int| CpuAction::FlushPage((page_at(pages, i).number * PAGE_SIZE) as u64),
                ));
                done = done + 1;
            }
        }
    }

    /// Takes the mappings at the front of `pages` away, up to the first
    /// page that has none, and returns how many there were. This undoes a
    /// mapping of `pages` that stopped half way: no page of `pages` is
    /// mapped then. For each page whose mapping went, it is noted that the
    /// cached translation has to be flushed, and the frame is handed back
    /// to `allocator`.
    pub fn unmap_front<A: FrameAllocator>(&mut self, pages: PageIter, allocator: &mut A) -> (count: u64)
        requires
            old(self).wf(),
            old(allocator).inv(),
            pages.end.number < u64::MAX,
            pages.len() > 0 ==> pages.start.valid() && pages.end.valid(),
            forall|i: int|
                0 <= i < pages.len() ==> (#[trigger] page_at(pages, i)).valid() && !recursive(
                    page_at(pages, i),
                ),
            exists|front: int| #[trigger] old(self).mapped_front(pages, front),
        ensures
            old(self).mapped_front(pages, count as int),
            final(self).mapped_front(pages, 0),
            count == 0 ==> *final(self) == *old(self),
            *final(allocator) == handed_back(old(allocator), old(self), pages, count as nat),
            spends(old(allocator), final(allocator), 0),
            forall|request: u64| #[trigger] final(allocator).answer(request) == old(allocator).answer(request),
            final(allocator).inv(),
            final(allocator).available() == old(allocator).available(),
            final(self).wf(),
            final(self).grown_from(old(self), Set::empty()),
            final(self).same_outside(old(self), pages),
            final(self).keeps_windows(old(self)),
            final(self).actions@ == old(self).actions@ + flushes(pages, count as nat),
            forall|frame: u64| #[trigger]
                final(self).memory.is_table(final(self).p4_spec(), frame) == old(self).memory.is_table(
                    old(self).p4_spec(),
                    frame,
                ),
    {
        let ghost front = choose|front: int| #[trigger] old(self).mapped_front(pages, front);
        let mut count: u64 = 0;
        let mut rest = pages;
        let mut going = true;
        while going
            invariant
                *self == *old(self),
                self.wf(),
                self.mapped_front(pages, front),
                rest.end == pages.end,
                pages.end.number < u64::MAX,
                count <= front,
                going ==> rest.start.number == pages.start.number + count,
                !going ==> count == front,
            decreases pages.len() - count + if going { 1int } else { 0int },
        {
            match rest.next() {
                Some(page) => {
                    assert(page == page_at(pages, count as int));
                    if self.is_mapped_small(page) {
                        proof {
                            if count >= front {
                                lemma_unmapped(&self.memory, self.p4_spec(), page);
                            }
                        }
                        count += 1;
                    } else {
                        going = false;
                    }
                },
                None => {
                    going = false;
                },
            }
        }
        proof {
            old(self).lemma_grown_from_self(Set::empty());
            lemma_spends_nothing(old(allocator), 0);
            assert(self.actions@ =~= old(self).actions@ + flushes(pages, 0));
        }
        if count > 0 {
            let taken = PageIter { start: pages.start, end: Page { number: pages.start.number + (count - 1) } };
            proof {
                assert(page_at(pages, count - 1) == taken.end);
                assert forall|i: int| 0 <= i < taken.len() implies (#[trigger] page_at(taken, i)).valid()
                    && !recursive(page_at(taken, i)) && self.mapped_small(page_at(taken, i)) by {
                    assert(page_at(taken, i) == page_at(pages, i));
                }
            }
            self.unmap_range(taken, allocator);
            proof {
                lemma_handed_back_front(old(allocator), old(self), taken, pages, count as nat);
                assert(self.actions@ =~= old(self).actions@ + flushes(pages, count as nat));
                assert forall|i: int| 0 <= i < pages.len() implies self.can_map(
                    #[trigger] page_at(pages, i),
                ) && self.translation(page_at(pages, i)).is_none() by {
                    if i < count {
                        assert(page_at(taken, i) == page_at(pages, i));
                    } else {
                        assert(!taken.contains(page_at(pages, i).number));
                        assert(old(self).can_map(page_at(pages, i)));
                        assert(old(self).translation(page_at(pages, i)).is_none());
                    }
                }
            }
        }
        count
    }

    /// Writes entry `index` of the highest table through its window.
    pub fn write_p4(&mut self, index: usize, entry: Entry)
        requires
            old(self).wf(),
            index < 512,
        ensures
            final(self).memory.wf(),
            final(self).root == old(self).root,
            final(self).actions == old(self).actions,
            written(
                &old(self).memory,
                &final(self).memory,
                old(self).p4_spec(),
                index as int,
                entry.value,
            ),
    {
        proof {
            reveal(Mapper::wf);
        }
        let table = self.p4_table();
        self.write_at(&table, index, entry, Ghost(Page { number: 0 }), Ghost(self.p4_spec()));
    }

    /// What the processor does with `page`: it walks from the table in
    /// `top` down the path of `page`, frame by frame.
    fn walk(&self, top: &Frame, page: Page) -> (frame: Option<Frame>)
        requires
            self.memory.wf(),
            self.memory.aligned(top.number, page),
        ensures
            match frame {
                Some(target) => self.memory.translation(top.number, page) == Some(target.number),
                None => self.memory.translation(top.number, page).is_none(),
            },
    {
        let p3 = match self.pointed_table(top, page.p4_index()) {
            Some(table) => table,
            None => { return None; },
        };
        let p3_entry = self.memory.read(&p3, page.p3_index());
        if let Some(start_frame) = p3_entry.pointed_frame() {
            if contains(p3_entry.flags(), HUGE_PAGE) {
                return Some(
                    Frame {
                        number: start_frame.number + (page.p2_index() as u64) * 512 + (
                        page.p1_index() as u64),
                    },
                );
            }
        }
        let p2 = match self.pointed_table(&p3, page.p3_index()) {
            Some(table) => table,
            None => { return None; },
        };
        let p2_entry = self.memory.read(&p2, page.p2_index());
        if let Some(start_frame) = p2_entry.pointed_frame() {
            if contains(p2_entry.flags(), HUGE_PAGE) {
                return Some(Frame { number: start_frame.number + (page.p1_index() as u64) });
            }
        }
        let p1 = match self.pointed_table(&p2, page.p2_index()) {
            Some(table) => table,
            None => { return None; },
        };
        self.memory.read(&p1, page.p1_index()).pointed_frame()
    }

    /// The table that entry `index` of the table in `table` points at, as
    /// the processor finds it on its walk.
    pub fn pointed_table(&self, table: &Frame, index: usize) -> (next: Option<Frame>)
        requires
            self.memory.wf(),
            index < 512,
        ensures
            match next {
                Some(frame) => self.memory.next(table.number, index as int) == Some(frame.number)
                    && frame.number < MAX_FRAMES,
                None => self.memory.next(table.number, index as int).is_none(),
            },
    {
        let entry = self.memory.read(table, index);
        let flags = entry.flags();
        if contains(flags, PRESENT) && !contains(flags, HUGE_PAGE) {
            entry.pointed_frame()
        } else {
            None
        }
    }

    /// The frame that the processor reaches through the window of `table`.
    fn frame_behind(&self, table: &Table, Ghost(page): Ghost<Page>, Ghost(frame): Ghost<u64>) -> (seen: Frame)
        requires
            self.sees(table, page, frame),
        ensures
            seen.number == frame,
    {
        proof {
            lemma_window_indices(page, table.level as int);
            law_window_shows_table(
                &self.memory,
                self.root.number,
                self.p4_spec(),
                page,
                table.level as int,
                frame,
            );
        }
        match self.walk(&self.root, Page::containing_address(table.address)) {
            Some(seen) => seen,
            None => Frame { number: 0 },
        }
    }

    /// Reads entry `index` of `table` through the table's window.
    fn read_at(&self, table: &Table, index: usize, Ghost(page): Ghost<Page>, Ghost(frame): Ghost<u64>) -> (entry:
        Entry)
        requires
            self.sees(table, page, frame),
            index < 512,
        ensures
            entry.value == self.memory.entry(frame, index as int),
    {
        let seen = self.frame_behind(table, Ghost(page), Ghost(frame));
        self.memory.read(&seen, index)
    }

    /// Writes entry `index` of `table` through the table's window.
    fn write_at(
        &mut self,
        table: &Table,
        index: usize,
        entry: Entry,
        Ghost(page): Ghost<Page>,
        Ghost(frame): Ghost<u64>,
    )
        requires
            old(self).sees(table, page, frame),
            index < 512,
        ensures
            final(self).memory.wf(),
            final(self).root == old(self).root,
            final(self).actions == old(self).actions,
            written(&old(self).memory, &final(self).memory, frame, index as int, entry.value),
    {
        let seen = self.frame_behind(table, Ghost(page), Ghost(frame));
        self.memory.write(&seen, index, entry);
    }

    /// Clears every entry of `table` through the table's window.
    fn zero_at(&mut self, table: &Table, Ghost(page): Ghost<Page>, Ghost(frame): Ghost<u64>)
        requires
            old(self).sees(table, page, frame),
        ensures
            final(self).memory.wf(),
            final(self).root == old(self).root,
            final(self).actions == old(self).actions,
            forall|other: u64, i: int| #[trigger]
                final(self).memory.entry(other, i) == if other == frame {
                    0
                } else {
                    old(self).memory.entry(other, i)
                },
    {
        let seen = self.frame_behind(table, Ghost(page), Ghost(frame));
        self.memory.zero(&seen);
    }

    /// The table that entry `index` of `table` points at, known by the
    /// address of its own window, which is worked out from the address of
    /// the window of `table` and from `index`.
    fn next_table(&self, table: &Table, index: usize, Ghost(page): Ghost<Page>, Ghost(frame): Ghost<u64>) -> (next:
        Option<Table>)
        requires
            self.sees(table, page, frame),
            table.level >= 2,
            index == index_at(page, table.level as int),
            index < 512,
        ensures
            match next {
                Some(child) => {
                    &&& self.memory.next(frame, index as int).is_some()
                    &&& child.level == table.level - 1
                    &&& child.address == window_address(page, table.level - 1)
                    &&& self.sees(&child, page, self.memory.next(frame, index as int).unwrap())
                },
                None => self.memory.next(frame, index as int).is_none(),
            },
    {
        let entry = self.read_at(table, index, Ghost(page), Ghost(frame));
        let flags = entry.flags();
        if contains(flags, PRESENT) && !contains(flags, HUGE_PAGE) {
            proof {
                lemma_child_window(page, table.level as int);
            }
            Some(Table { address: next_table_address(table.address, index), level: table.level - 1 })
        } else {
            None
        }
    }

    /// The table of level `level` on the path of `page`, below entry
    /// `index` of the table in `table`. Where there is none yet, a frame is
    /// taken from `allocator`, cleared and hung in; without a frame,
    /// nothing changes and nothing is returned.
    fn next_table_create<A: FrameAllocator>(
        &mut self,
        table: &Table,
        index: usize,
        allocator: &mut A,
        Ghost(page): Ghost<Page>,
        Ghost(level): Ghost<int>,
        Ghost(parent): Ghost<u64>,
    ) -> (next: Option<Table>)
        requires
            old(self).wf(),
            old(allocator).inv(),
            old(self).apart_from(old(allocator).available()),
            !recursive(page),
            1 <= level <= 3,
            old(self).memory.table_for(old(self).p4_spec(), page, level + 1) == Some(parent),
            table.level == level + 1,
            table.address == window_address(page, level + 1),
            index == index_at(page, level + 1),
            index < 512,
            old(self).can_map(page),
        ensures
            spends(old(allocator), final(allocator), 1),
            lasts(old(allocator), 1) ==> next.is_some(),
            next.is_none() ==> out_of_frames(final(allocator)),
            final(self).keeps_windows(old(self)),
            final(self).wf(),
            final(allocator).inv(),
            final(allocator).available().subset_of(old(allocator).available()),
            final(self).apart_from(final(allocator).available()),
            final(self).grown_from(old(self), old(allocator).available()),
            final(self).actions == old(self).actions,
            final(self).can_map(page),
            forall|other: Page|
                #![trigger final(self).translation(other)]
                #![trigger old(self).translation(other)]
                !recursive(other) ==> final(self).translation(other) == old(self).translation(other),
            forall|other: Page|
                #![trigger final(self).can_map(other)]
                #![trigger old(self).can_map(other)]
                !recursive(other) && old(self).can_map(other) ==> final(self).can_map(other),
            forall|other: Page|
                #![trigger final(self).leaf_entry(other)]
                #![trigger old(self).leaf_entry(other)]
                !recursive(other) && old(self).leaf_entry(other).is_some() ==> final(self).leaf_entry(other)
                    == old(self).leaf_entry(other),
            forall|l: int|
                1 <= l <= 4 && l != level ==> #[trigger] final(self).memory.table_for(
                    final(self).p4_spec(),
                    page,
                    l,
                ) == old(self).memory.table_for(old(self).p4_spec(), page, l),
            final(self).p4_spec() == old(self).p4_spec(),
            only_adds(&old(self).memory, &final(self).memory, old(allocator).available()),
            match next {
                Some(child) => {
                    &&& final(self).memory.table_for(final(self).p4_spec(), page, level).is_some()
                    &&& child.level == level
                    &&& child.address == window_address(page, level)
                    &&& old(self).memory.table_for(old(self).p4_spec(), page, level).is_none() ==> {
                        let fresh = final(self).memory.table_for(final(self).p4_spec(), page, level).unwrap();
                        &&& old(allocator).available().contains(fresh)
                        &&& fresh != parent
                        &&& !old(self).is_table(fresh)
                        &&& attached(
                            &old(self).memory,
                            &final(self).memory,
                            parent,
                            index as int,
                            pack(fresh, PRESENT | WRITABLE),
                            fresh,
                        )
                    }
                },
                None => final(self).memory == old(self).memory && old(self).memory.table_for(
                    old(self).p4_spec(),
                    page,
                    level,
                ).is_none(),
            },
            old(self).memory.table_for(old(self).p4_spec(), page, level).is_some() ==> next.is_some()
                && final(self).memory == old(self).memory && *final(allocator) == *old(allocator)
                && final(allocator).available() == old(allocator).available(),
    {
        proof {
            reveal(Mapper::wf);
            reveal(Mapper::grown_from);
            reveal(Mapper::apart_from);
        }
        proof {
            lemma_spends_nothing(old(allocator), 1);
            lemma_request_spends(old(allocator));
        }
        if let Some(existing) = self.next_table(table, index, Ghost(page), Ghost(parent)) {
            return Some(existing);
        }
        let frame = match allocator.allocate_frame() {
            Some(frame) => frame,
            None => { return None; },
        };
        let ghost p4 = self.p4_spec();
        let ghost before = self.memory;
        let ghost fresh = frame.number;
        let mut entry = self.read_at(table, index, Ghost(page), Ghost(parent));
        proof {
            lemma_flag_facts();
        }
        entry.set(frame, PRESENT | WRITABLE);
        self.write_at(table, index, entry, Ghost(page), Ghost(parent));
        // The new table is linked in; now it is cleared, through its own window.
        let child = Table { address: next_table_address(table.address, index), level: table.level - 1 };
        proof {
            lemma_zero_entry();
            lemma_pack(fresh, PRESENT | WRITABLE);
            lemma_path_tables(&before, p4, page);
            lemma_child_window(page, level + 1);
            assert(before.is_table(p4, parent));
            assert(!before.is_table(p4, fresh));
            lemma_link(&before, &self.memory, p4, page, level, parent, entry.value, fresh);
            assert(self.p4_spec() == p4);
        }
        self.zero_at(&child, Ghost(page), Ghost(fresh));
        proof {
            assert(attached(&before, &self.memory, parent, index as int, entry.value, fresh));
            lemma_attach(&before, &self.memory, p4, page, level, parent, entry.value, fresh);
            assert(self.p4_spec() == p4);
            assert(self.memory.table_for(p4, page, level) == Some(fresh));
            assert forall|other: Page|
                !recursive(other) && old(self).leaf_entry(other).is_some() implies self.leaf_entry(other)
                == old(self).leaf_entry(other) by {
                lemma_path_tables(&before, p4, other);
                let low = before.table_for(p4, other, 1).unwrap();
                assert(before.is_table(p4, low));
                assert(self.memory.table_for(p4, other, 1) == if 1 == level && same_prefix(
                    other,
                    page,
                    level,
                ) {
                    Some(fresh)
                } else {
                    before.table_for(p4, other, 1)
                });
                assert(before.table_for(p4, page, level + 1) != Some(low));
            }
            assert forall|other: Page| !recursive(other) && old(self).can_map(other) implies self.can_map(
                other,
            ) by {
                lemma_path_tables(&before, p4, other);
                assert(self.memory.table_for(p4, other, 3) == if 3 == level && same_prefix(
                    other,
                    page,
                    level,
                ) {
                    Some(fresh)
                } else {
                    before.table_for(p4, other, 3)
                });
                assert(self.memory.table_for(p4, other, 2) == if 2 == level && same_prefix(
                    other,
                    page,
                    level,
                ) {
                    Some(fresh)
                } else {
                    before.table_for(p4, other, 2)
                });
                assert(self.memory.table_for(p4, other, 1) == if 1 == level && same_prefix(
                    other,
                    page,
                    level,
                ) {
                    Some(fresh)
                } else {
                    before.table_for(p4, other, 1)
                });
            }
            assert forall|other: Page| recursive(other) && old(self).resolution(other).is_some()
                implies #[trigger] self.resolution(other) == old(self).resolution(other) by {
                lemma_window_path(&before, self.root.number, p4, other);
                assert forall|table: u64| upper_table(&before, p4, table) implies before.is_table(
                    p4,
                    table,
                ) by {}
                lemma_walk_kept(&before, &self.memory, self.root.number, other);
            }
        }
        Some(child)
    }

    /// Writes the entry of `page` in its table of the lowest level, which
    /// is in `table`: it points at `frame`, with the flags `flags` and
    /// `PRESENT`.
    fn set_leaf(&mut self, table: &Table, page: Page, frame: Frame, flags: EntryFlags)
        requires
            old(self).wf(),
            !recursive(page),
            frame.number < MAX_FRAMES,
            valid_flags(flags),
            old(self).memory.table_for(old(self).p4_spec(), page, 1).is_some(),
            table.level == 1,
            table.address == window_address(page, 1),
            old(self).can_map(page),
        ensures
            only_adds(&old(self).memory, &final(self).memory, Set::empty()),
            final(self).follows(old(self), Set::empty(), Set::empty()),
            final(self).same_but(old(self), page),
            final(self).actions == old(self).actions,
            final(self).root == old(self).root,
            final(self).p4_spec() == old(self).p4_spec(),
            final(self).translation(page) == Some(frame.number),
            final(self).leaf_entry(page) == Some(pack(frame.number, flags | PRESENT)),
            forall|number: u64| #[trigger]
                final(self).memory.is_table(final(self).p4_spec(), number) == old(self).memory.is_table(
                    old(self).p4_spec(),
                    number,
                ),
            written(
                &old(self).memory,
                &final(self).memory,
                old(self).memory.table_for(old(self).p4_spec(), page, 1).unwrap(),
                page.p1(),
                pack(frame.number, flags | PRESENT),
            ),
            forall|l: int|
                1 <= l <= 4 ==> #[trigger] final(self).memory.table_for(final(self).p4_spec(), page, l)
                    == old(self).memory.table_for(old(self).p4_spec(), page, l),
    {
        proof {
            reveal(Mapper::wf);
            reveal(Mapper::grown_from);
            reveal(Mapper::apart_from);
            lemma_present_added(flags);
        }
        let ghost before = *self;
        let ghost p4 = self.p4_spec();
        let ghost low = self.memory.table_for(p4, page, 1).unwrap();
        let mut entry = self.read_at(table, page.p1_index(), Ghost(page), Ghost(low));
        entry.set(frame, flags | PRESENT);
        self.write_at(table, page.p1_index(), entry, Ghost(page), Ghost(low));
        proof {
            lemma_pack(frame.number, flags | PRESENT);
            lemma_path_tables(&before.memory, p4, page);
            lemma_zero_entry();
            assert(before.memory.entry(low, page.p1()) == 0);
            assert(written(&before.memory, &self.memory, low, page.p1(), entry.value));
            lemma_leaf(&before.memory, &self.memory, p4, page, low, entry.value);
            assert(before.memory.is_table(p4, low));
            assert(self.p4_spec() == p4);
            assert(same_slot(page, page));
            assert(self.memory.table_for(p4, page, 1) == before.memory.table_for(p4, page, 1));
            assert(self.memory.table_for(p4, page, 2) == before.memory.table_for(p4, page, 2));
            assert(self.memory.table_for(p4, page, 3) == before.memory.table_for(p4, page, 3));
            assert forall|other: Page|
                !recursive(other) && !same_slot(other, page) && before.can_map(other) implies self.can_map(
                other,
            ) by {
                lemma_path_tables(&before.memory, p4, other);
                assert(self.memory.table_for(p4, other, 3) == before.memory.table_for(p4, other, 3));
                assert(self.memory.table_for(p4, other, 2) == before.memory.table_for(p4, other, 2));
                assert(self.memory.table_for(p4, other, 1) == before.memory.table_for(p4, other, 1));
                assert(before.memory.table_for(p4, other, 1) == Some(low) ==> same_prefix(
                    other,
                    page,
                    1,
                ));
                assert(before.memory.table_for(p4, other, 2) != Some(low));
                assert(before.memory.table_for(p4, other, 3) != Some(low));
            }
            assert forall|other: Page| !recursive(other) && !same_slot(other, page) implies self.leaf_entry(
                other,
            ) == before.leaf_entry(other) by {
                assert(self.memory.table_for(p4, other, 1) == before.memory.table_for(p4, other, 1));
                assert(before.memory.table_for(p4, other, 1) == Some(low) ==> same_prefix(
                    other,
                    page,
                    1,
                ));
            }
            assert forall|other: Page| recursive(other) && before.resolution(other).is_some()
                implies #[trigger] self.resolution(other) == before.resolution(other) by {
                lemma_window_path(&before.memory, self.root.number, p4, other);
                assert forall|table: u64| upper_table(&before.memory, p4, table) implies table != low by {
                    if table == low {
                        assert(before.memory.table_for(p4, page, 1) != Some(p4));
                        let (witness, level) = choose|witness: Page, level: int|
                            !recursive(witness) && 2 <= level <= 3 && #[trigger] before.memory.table_for(
                                p4,
                                witness,
                                level,
                            ) == Some(table);
                        assert(before.memory.table_for(p4, witness, level) == before.memory.table_for(
                            p4,
                            page,
                            1,
                        ));
                    }
                }
                lemma_walk_kept(&before.memory, &self.memory, self.root.number, other);
            }
        }
    }

    /// The table of the lowest level on the path of `page`.
    fn p1_table(&self, page: Page) -> (table: Option<Table>)
        requires
            self.wf(),
        ensures
            match table {
                Some(low) => {
                    &&& self.memory.p1_table(self.p4_spec(), page).is_some()
                    &&& low.level == 1
                    &&& low.address == window_address(page, 1)
                },
                None => self.memory.p1_table(self.p4_spec(), page).is_none(),
            },
    {
        proof {
            reveal(Mapper::wf);
        }
        let ghost root_table = self.p4_spec();
        let p4 = self.p4_table();
        let p3 = match self.next_table(&p4, page.p4_index(), Ghost(page), Ghost(root_table)) {
            Some(table) => table,
            None => { return None; },
        };
        let ghost third_table = self.memory.table_for(root_table, page, 3).unwrap();
        let p2 = match self.next_table(&p3, page.p3_index(), Ghost(page), Ghost(third_table)) {
            Some(table) => table,
            None => { return None; },
        };
        let ghost second_table = self.memory.table_for(root_table, page, 2).unwrap();
        self.next_table(&p2, page.p2_index(), Ghost(page), Ghost(second_table))
    }

    /// Translation keeps the place in the page: an address in a page
    /// that is mapped to frame `frame` is translated to the address in
    /// that frame with the same low 12 bits, and the page's first address
    /// to the frame's first.
    pub proof fn law_translation_keeps_offset(&self, page: Page, frame: u64, virtual_address: VirtualAddress)
        requires
            self.translation(page) == Some(frame),
            frame < MAX_FRAMES,
            page.number * PAGE_SIZE <= u64::MAX,
            page_of(virtual_address) == page,
        ensures
            self.address_of(virtual_address) == Some((frame * PAGE_SIZE + (virtual_address & 0xfff)) as u64),
            self.address_of((page.number * PAGE_SIZE) as u64) == Some((frame * PAGE_SIZE) as u64),
            virtual_address % PAGE_SIZE == virtual_address & 0xfff,
    {
        assert(virtual_address % 4096 == virtual_address & 0xfff) by (bit_vector);
        let start = (page.number * PAGE_SIZE) as u64;
        assert(page_of(start) == page);
    }

    /// Mapping a page calls for no flush: where a page without a mapping
    /// was given one in the loaded tree, every page through which the
    /// processor reached a frame before leads it to the same frame after,
    /// be it a page of its own or the window of a table.
    pub proof fn law_mapping_needs_no_flush(&self, before: &Mapper, page: Page, spare: Set<u64>, left: Set<u64>)
        requires
            before.wf(),
            before.p4_spec() == before.root.number,
            before.translation(page).is_none(),
            self.follows(before, spare, left),
            self.same_but(before, page),
        ensures
            forall|other: Page|
                before.resolution(other).is_some() ==> #[trigger] self.resolution(other)
                    == before.resolution(other),
    {
        self.lemma_grown_loaded(before, spare);
        assert forall|other: Page| before.resolution(other).is_some() implies #[trigger] self.resolution(
            other,
        ) == before.resolution(other) by {
            if !recursive(other) {
                assert(before.translation(other) == before.resolution(other));
                assert(self.translation(other) == self.resolution(other));
                if same_slot(other, page) {
                    assert(before.translation(other) == before.translation(page));
                }
            }
        }
    }

    /// Unmapping a page calls for one flush, that of the page: where a
    /// page lost its mapping in the loaded tree, every page with other
    /// indices through which the processor reached a frame before leads it
    /// to the same frame after.
    pub proof fn law_unmapping_needs_one_flush(&self, before: &Mapper, page: Page)
        requires
            before.wf(),
            before.p4_spec() == before.root.number,
            self.grown_from(before, Set::empty()),
            self.same_but(before, page),
            self.keeps_windows(before),
        ensures
            forall|other: Page|
                !same_slot(other, page) && before.resolution(other).is_some()
                    ==> #[trigger] self.resolution(other) == before.resolution(other),
    {
        self.lemma_grown_loaded(before, Set::empty());
        assert forall|other: Page|
            !same_slot(other, page) && before.resolution(other).is_some() implies #[trigger] self.resolution(
            other,
        ) == before.resolution(other) by {
            if !recursive(other) {
                assert(before.translation(other) == before.resolution(other));
                assert(self.translation(other) == self.resolution(other));
            }
        }
    }

    /// In a well-formed tree every huge page outside the recursive part
    /// starts where it has to.
    pub proof fn lemma_aligned(&self, page: Page)
        requires
            self.wf(),
            !recursive(page),
        ensures
            self.memory.aligned(self.p4_spec(), page),
            self.p4_spec() < MAX_FRAMES,
            self.root.number < MAX_FRAMES,
    {
        reveal(Mapper::wf);
    }

    /// A mapper that did not change grew from itself.
    pub proof fn lemma_grown_from_self(&self, spare: Set<u64>)
        ensures
            self.grown_from(self, spare),
    {
        reveal(Mapper::grown_from);
    }

    /// Changes that follow one another add up: what grew from a mapper
    /// that grew from `first`, with spare frames taken from those of the
    /// first step, grew from `first`.
    pub proof fn lemma_grown_twice(&self, middle: &Mapper, first: &Mapper, spare: Set<u64>, later: Set<u64>)
        requires
            middle.grown_from(first, spare),
            self.grown_from(middle, later),
            later.subset_of(spare),
        ensures
            self.grown_from(first, spare),
    {
        reveal(Mapper::grown_from);
        assert forall|frame: u64| #[trigger]
            self.memory.is_table(self.p4_spec(), frame) implies first.memory.is_table(
            first.p4_spec(),
            frame,
        ) || spare.contains(frame) by {
            if !later.contains(frame) {
                assert(middle.memory.is_table(middle.p4_spec(), frame));
            }
        }
        assert forall|frame: u64, index: int|
            !first.memory.is_table(first.p4_spec(), frame) && !spare.contains(frame)
                implies #[trigger] self.memory.entry(frame, index) == first.memory.entry(
            frame,
            index,
        ) by {
            assert(!middle.memory.is_table(middle.p4_spec(), frame));
            assert(middle.memory.entry(frame, index) == first.memory.entry(frame, index));
        }
    }

    /// Growing leaves the highest table of the tree where it is.
    pub proof fn lemma_grown_loaded(&self, before: &Mapper, spare: Set<u64>)
        requires
            self.grown_from(before, spare),
        ensures
            self.root == before.root,
            self.p4_spec() == before.p4_spec(),
    {
        reveal(Mapper::grown_from);
    }

    /// What grew with spare frames from a set grew with spare frames from
    /// a larger set.
    pub proof fn lemma_grown_from_more(&self, before: &Mapper, spare: Set<u64>, more: Set<u64>)
        requires
            self.grown_from(before, spare),
            spare.subset_of(more),
        ensures
            self.grown_from(before, more),
    {
        reveal(Mapper::grown_from);
    }

    /// A tree with the same tables keeps clear of the same frames.
    pub proof fn lemma_apart_from_same(&self, before: &Mapper, frames: Set<u64>)
        requires
            before.apart_from(frames),
            self.root == before.root,
            forall|number: u64| #[trigger]
                self.memory.is_table(self.p4_spec(), number) == before.memory.is_table(
                    before.p4_spec(),
                    number,
                ),
        ensures
            self.apart_from(frames),
    {
        reveal(Mapper::apart_from);
    }

    /// A tree that keeps clear of a set of frames keeps clear of a part of it.
    pub proof fn lemma_apart_from_less(&self, frames: Set<u64>, part: Set<u64>)
        requires
            self.apart_from(frames),
            part.subset_of(frames),
        ensures
            self.apart_from(part),
    {
        reveal(Mapper::apart_from);
    }

    /// Another tree in the same memory, one that shares no table with the
    /// mapper's tree and has none among the spare frames, reads after the
    /// mapper's tree grew as it read before.
    pub proof fn lemma_bystander(&self, before: &Mapper, spare: Set<u64>, other: u64)
        requires
            self.grown_from(before, spare),
            before.memory.tree_shaped(other),
            apart(&before.memory, other, before.p4_spec()),
            clear_of(&before.memory, other, spare),
        ensures
            forall|frame: u64, index: int|
                before.memory.is_table(other, frame) ==> #[trigger] self.memory.entry(frame, index)
                    == before.memory.entry(frame, index),
            forall|page: Page, level: int|
                !recursive(page) ==> #[trigger] self.memory.table_for(other, page, level)
                    == before.memory.table_for(other, page, level),
            forall|page: Page|
                !recursive(page) ==> #[trigger] self.memory.translation(other, page)
                    == before.memory.translation(other, page),
            forall|page: Page|
                !recursive(page) ==> #[trigger] self.memory.leaf_entry(other, page)
                    == before.memory.leaf_entry(other, page),
            forall|page: Page|
                !recursive(page) ==> #[trigger] self.memory.can_map(other, page) == before.memory.can_map(
                    other,
                    page,
                ),
            forall|page: Page|
                !recursive(page) ==> #[trigger] self.memory.aligned(other, page) == before.memory.aligned(
                    other,
                    page,
                ),
            forall|frame: u64| #[trigger]
                self.memory.is_table(other, frame) == before.memory.is_table(other, frame),
            self.memory.tree_shaped(other),
            sound(&before.memory, other) ==> sound(&self.memory, other),
            apart(&self.memory, other, self.p4_spec()),
            clear_of(&self.memory, other, spare),
    {
        reveal(Mapper::grown_from);
        assert forall|frame: u64, index: int| before.memory.is_table(other, frame)
            implies #[trigger] self.memory.entry(frame, index) == before.memory.entry(frame, index) by {
            assert(!before.memory.is_table(before.p4_spec(), frame));
            assert(!spare.contains(frame));
        }
        lemma_preserved(&before.memory, &self.memory, other);
        assert(before.memory.is_table(other, other));
        assert forall|frame: u64| #[trigger] self.memory.is_table(other, frame)
            implies !self.memory.is_table(self.p4_spec(), frame) by {
            assert(before.memory.is_table(other, frame));
        }
    }
}

/// The page that holds the byte at `address`.
pub open spec fn page_of(address: VirtualAddress) -> Page {
    Page { number: address / PAGE_SIZE }
}

/// The two flags of a pointer to a table are flags, each by itself and
/// both together, and `PRESENT` is one of them and `HUGE_PAGE` is not.
pub proof fn lemma_flag_facts()
    ensures
        valid_flags(PRESENT),
        valid_flags(WRITABLE),
        valid_flags(PRESENT | WRITABLE),
        WRITABLE | PRESENT == PRESENT | WRITABLE,
        has_flags(PRESENT | WRITABLE, PRESENT),
        !has_flags(PRESENT | WRITABLE, HUGE_PAGE),
{
    assert((1u64 | 2u64) & !0x8000_0000_0000_01ffu64 == 0 && (1u64 | 2u64) & 1u64 == 1u64 && (1u64
        | 2u64) & 0x80u64 != 0x80u64 && 1u64 & !0x8000_0000_0000_01ffu64 == 0 && 2u64
        & !0x8000_0000_0000_01ffu64 == 0 && 2u64 | 1u64 == 1u64 | 2u64) by (bit_vector);
}

/// The entry by which the temporary page shows a frame points at a frame.
pub proof fn lemma_present_leaf(number: u64)
    requires
        number < MAX_FRAMES,
    ensures
        is_present(pack(number, WRITABLE | PRESENT)),
{
    lemma_flag_facts();
    lemma_pack(number, WRITABLE | PRESENT);
}

/// A canonical page outside the recursive part of the address space lies
/// more than one page below the top of the address space.
pub proof fn lemma_page_bound(page: Page)
    requires
        page.valid(),
        !recursive(page),
    ensures
        page.number < 0xf_ffff_f800_0000,
{
    let number = page.number;
    assert((number >> 27) & 0o777 != 511 && number < 0x10_0000_0000_0000 ==> number
        < 0xf_ffff_f800_0000) by (bit_vector);
}

/// A set of flags with `PRESENT` added is a set of flags and holds `PRESENT`.
pub proof fn lemma_present_added(flags: EntryFlags)
    requires
        valid_flags(flags),
    ensures
        valid_flags(flags | PRESENT),
        has_flags(flags | PRESENT, PRESENT),
        has_flags(flags | PRESENT, HUGE_PAGE) == has_flags(flags, HUGE_PAGE),
{
    assert((flags | 1) & !0x8000_0000_0000_01ffu64 == 0 && (flags | 1) & 1 == 1 && ((flags | 1) & 0x80
        == 0x80) == (flags & 0x80 == 0x80)) by (bit_vector)
        requires
            flags & !0x8000_0000_0000_01ffu64 == 0,
    ;
}

/// The one frame with the number `number`, as a range.
pub open spec fn single(number: u64) -> FrameIter {
    FrameIter { start: Frame { number }, end: Frame { number } }
}

/// The allocator `allocator` after the frames to which `mapper` maps the
/// first `count` pages of `pages` were handed back to it, one by one, in
/// the order of the pages.
pub open spec fn handed_back<A: FrameAllocator>(allocator: &A, mapper: &Mapper, pages: PageIter, count: nat) -> A
    decreases count,
{
    if count == 0 {
        *allocator
    } else {
        handed_back(allocator, mapper, pages, (count - 1) as nat).given_back(
            single(mapper.translation(page_at(pages, count - 1)).unwrap()),
        )
    }
}

/// Handing the frames back depends on where the run starts and on how
/// many pages are taken, not on where the run ends.
pub proof fn lemma_handed_back_front<A: FrameAllocator>(
    allocator: &A,
    mapper: &Mapper,
    a: PageIter,
    b: PageIter,
    count: nat,
)
    requires
        a.start == b.start,
    ensures
        handed_back(allocator, mapper, a, count) == handed_back(allocator, mapper, b, count),
    decreases count,
{
    if count > 0 {
        lemma_handed_back_front(allocator, mapper, a, b, (count - 1) as nat);
        assert(page_at(a, count - 1) == page_at(b, count - 1));
    }
}

/// The notes that the cached translations of the first `count` pages of
/// `pages` have to be flushed, in the order of the pages.
pub open spec fn flushes(pages: PageIter, count: nat) -> Seq<CpuAction> {
    Seq::new(count, |i: int| CpuAction::FlushPage((page_at(pages, i).number * PAGE_SIZE) as u64))
}

/// The page at place `i` of the run `pages`.
pub open spec fn page_at(pages: PageIter, i: int) -> Page {
    Page { number: (pages.start.number + i) as u64 }
}

/// Two canonical pages with the same four indices are the same page.
pub proof fn lemma_distinct_slots(a: Page, b: Page)
    requires
        a.valid(),
        b.valid(),
        a != b,
    ensures
        !same_slot(a, b),
{
    let x = a.number;
    let y = b.number;
    assert(x != y ==> (x >> 27) & 0o777 != (y >> 27) & 0o777 || (x >> 18) & 0o777 != (y >> 18) & 0o777
        || (x >> 9) & 0o777 != (y >> 9) & 0o777 || x & 0o777 != y & 0o777) by (bit_vector)
        requires
            x < 0x8_0000_0000 || (0xf_fff8_0000_0000 <= x && x < 0x10_0000_0000_0000),
            y < 0x8_0000_0000 || (0xf_fff8_0000_0000 <= y && y < 0x10_0000_0000_0000),
    ;
}

/// A page that can be given a mapping has none.
pub proof fn lemma_unmapped(m: &PhysicalMemory, root: u64, page: Page)
    requires
        !is_huge(m.entry(root, page.p4())),
        match m.p3_table(root, page) {
            Some(table) => !is_huge(m.entry(table, page.p3())),
            None => true,
        },
        match m.p2_table(root, page) {
            Some(table) => !is_huge(m.entry(table, page.p2())),
            None => true,
        },
        match m.p1_table(root, page) {
            Some(table) => m.entry(table, page.p1()) == 0,
            None => true,
        },
    ensures
        m.translation(root, page).is_none(),
{
    lemma_zero_entry();
}

/// A page of the lower half whose number a frame can have is canonical
/// and lies outside the recursive part.
pub proof fn lemma_low_pages(page: Page)
    requires
        page.number < 0x8_0000_0000,
    ensures
        page.valid(),
        !recursive(page),
{
    let number = page.number;
    assert((number >> 27) & 0o777 != 511) by (bit_vector)
        requires
            number < 0x8_0000_0000,
    ;
}

/// The frame of a translation has a number below 2^41, so its address fits
/// in 64 bits.
pub proof fn lemma_translation_bound(m: &PhysicalMemory, root: u64, page: Page)
    ensures
        match m.translation(root, page) {
            Some(number) => number < 0x200_0000_0000,
            None => true,
        },
{
    let number = page.number;
    assert((number >> 9) & 0o777 < 512 && number & 0o777 < 512) by (bit_vector);
    assert(forall|value: u64| (value & 0x000f_ffff_ffff_f000) / 4096 < 0x100_0000_0000) by (bit_vector);
}

} // verus!
