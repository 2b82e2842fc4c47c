//! The memory that holds page tables, and what the processor reads from it
//! when it translates a page.

use vstd::prelude::*;
use std::collections::HashMap;
use super::entry::{frame_number, is_huge, is_present, Entry};
use super::Page;
use crate::memory::Frame;

verus! {

/// The slot of the highest table that points back at the table itself.
pub const RECURSIVE_INDEX: usize = 511;

/// The physical frames that hold page tables, each with its 512 entries.
/// A frame that was never written holds zeros.
pub struct PhysicalMemory {
    pub frames: HashMap<u64, Vec<u64>>,
}

/// How a page is mapped.
#[derive(Debug, PartialEq, Eq, Structural)]
pub enum Mapping {
    /// Not at all.
    Unmapped,
    /// To a frame, by an entry of the lowest level.
    Page4K(Frame),
    /// Inside a huge page of 2 MiB, which starts at this frame, by an
    /// entry of level 2.
    Page2M(Frame),
    /// Inside a huge page of 1 GiB, which starts at this frame, by an
    /// entry of level 3.
    Page1G(Frame),
}

impl Mapping {
    /// The frame of `page`, which is mapped in this way: the frame of
    /// the entry, or the frame as far into the huge page as the lower
    /// indices of `page` say.
    pub open spec fn frame_of(&self, page: Page) -> Option<u64> {
        match *self {
            Mapping::Unmapped => None,
            Mapping::Page4K(frame) => Some(frame.number),
            Mapping::Page2M(start) => Some((start.number + page.p1()) as u64),
            Mapping::Page1G(start) => Some((start.number + page.p2() * 512 + page.p1()) as u64),
        }
    }

    /// Whether a huge page starts at a frame whose number is a multiple
    /// of the number of frames in it.
    pub open spec fn is_aligned(&self) -> bool {
        match *self {
            Mapping::Page2M(start) => start.number % 512 == 0,
            Mapping::Page1G(start) => start.number % 0x4_0000 == 0,
            _ => true,
        }
    }
}

/// Whether `page` lies in the part of the address space through which the
/// tables themselves are seen.
pub open spec fn recursive(page: Page) -> bool {
    page.p4() == RECURSIVE_INDEX
}

/// The index of `page` in the table of level `level` on its path.
pub open spec fn index_at(page: Page, level: int) -> int {
    if level == 4 {
        page.p4()
    } else if level == 3 {
        page.p3()
    } else if level == 2 {
        page.p2()
    } else {
        page.p1()
    }
}

/// Whether `a` and `b` reach their tables of level `level` through the same
/// entries.
pub open spec fn same_prefix(a: Page, b: Page, level: int) -> bool {
    &&& a.p4() == b.p4()
    &&& level <= 2 ==> a.p3() == b.p3()
    &&& level <= 1 ==> a.p2() == b.p2()
}

impl PhysicalMemory {
    /// Every table that is held has 512 entries.
    pub open spec fn wf(&self) -> bool {
        forall|number: u64| #[trigger]
            self.frames@.contains_key(number) ==> self.frames@[number]@.len() == 512
    }

    /// The value of entry `index` of the table in frame `frame`.
    pub open spec fn entry(&self, frame: u64, index: int) -> u64 {
        if 0 <= index < 512 && self.frames@.contains_key(frame) {
            self.frames@[frame]@[index]
        } else {
            0
        }
    }

    /// The frame of the table that entry `index` of the table in `table`
    /// points at, if it points at a table.
    pub open spec fn next(&self, table: u64, index: int) -> Option<u64> {
        let value = self.entry(table, index);
        if is_present(value) && !is_huge(value) {
            Some(frame_number(value))
        } else {
            None
        }
    }

    /// The frame of the table of level 3 on the path of `page`.
    pub open spec fn p3_table(&self, root: u64, page: Page) -> Option<u64> {
        self.next(root, page.p4())
    }

    /// The frame of the table of level 2 on the path of `page`.
    pub open spec fn p2_table(&self, root: u64, page: Page) -> Option<u64> {
        match self.p3_table(root, page) {
            Some(table) => self.next(table, page.p3()),
            None => None,
        }
    }

    /// The frame of the table of level 1 on the path of `page`.
    pub open spec fn p1_table(&self, root: u64, page: Page) -> Option<u64> {
        match self.p2_table(root, page) {
            Some(table) => self.next(table, page.p2()),
            None => None,
        }
    }

    /// The frame of the table of level `level` on the path of `page`, in
    /// the tree whose highest table is in frame `root`.
    pub open spec fn table_for(&self, root: u64, page: Page, level: int) -> Option<u64> {
        if level == 3 {
            self.p3_table(root, page)
        } else if level == 2 {
            self.p2_table(root, page)
        } else if level == 1 {
            self.p1_table(root, page)
        } else {
            Some(root)
        }
    }

    /// The frame that `page` is mapped to in the tree with the highest
    /// table in `root`: the frame of the entry of level 1, or a frame inside
    /// the huge page of a leaf of level 3 or 2.
    pub open spec fn translation(&self, root: u64, page: Page) -> Option<u64> {
        match self.p3_table(root, page) {
            None => None,
            Some(p3) => {
                let e3 = self.entry(p3, page.p3());
                if is_present(e3) && is_huge(e3) {
                    Some((frame_number(e3) + page.p2() * 512 + page.p1()) as u64)
                } else {
                    match self.p2_table(root, page) {
                        None => None,
                        Some(p2) => {
                            let e2 = self.entry(p2, page.p2());
                            if is_present(e2) && is_huge(e2) {
                                Some((frame_number(e2) + page.p1()) as u64)
                            } else {
                                match self.p1_table(root, page) {
                                    None => None,
                                    Some(p1) => (Entry { value: self.entry(p1, page.p1()) }).pointed(),
                                }
                            }
                        },
                    }
                }
            },
        }
    }

    /// The value of the entry of the lowest level on the path of `page`,
    /// where the path reaches a table of that level.
    pub open spec fn leaf_entry(&self, root: u64, page: Page) -> Option<u64> {
        match self.p1_table(root, page) {
            Some(table) => Some(self.entry(table, page.p1())),
            None => None,
        }
    }

    /// Whether `page` can be given a mapping in the tree below `root`: no
    /// entry on its path is marked as a huge page, and its entry of the
    /// lowest level, where the path reaches one, is all zero.
    pub open spec fn can_map(&self, root: u64, page: Page) -> bool {
        &&& !is_huge(self.entry(root, page.p4()))
        &&& match self.p3_table(root, page) {
            Some(table) => !is_huge(self.entry(table, page.p3())),
            None => true,
        }
        &&& match self.p2_table(root, page) {
            Some(table) => !is_huge(self.entry(table, page.p2())),
            None => true,
        }
        &&& match self.p1_table(root, page) {
            Some(table) => self.entry(table, page.p1()) == 0,
            None => true,
        }
    }

    /// How `page` is mapped in the tree with the highest table in `root`.
    pub open spec fn mapping(&self, root: u64, page: Page) -> Mapping {
        match self.p3_table(root, page) {
            None => Mapping::Unmapped,
            Some(p3) => {
                let e3 = self.entry(p3, page.p3());
                if is_present(e3) && is_huge(e3) {
                    Mapping::Page1G(Frame { number: frame_number(e3) })
                } else {
                    match self.p2_table(root, page) {
                        None => Mapping::Unmapped,
                        Some(p2) => {
                            let e2 = self.entry(p2, page.p2());
                            if is_present(e2) && is_huge(e2) {
                                Mapping::Page2M(Frame { number: frame_number(e2) })
                            } else {
                                match self.p1_table(root, page) {
                                    None => Mapping::Unmapped,
                                    Some(p1) => match (Entry {
                                        value: self.entry(p1, page.p1()),
                                    }).pointed() {
                                        Some(number) => Mapping::Page4K(Frame { number }),
                                        None => Mapping::Unmapped,
                                    },
                                }
                            }
                        },
                    }
                }
            },
        }
    }

    /// The frame of `page` follows from how the page is mapped, and so
    /// does whether its huge page starts where it has to.
    pub proof fn lemma_mapping(&self, root: u64, page: Page)
        ensures
            self.translation(root, page) == self.mapping(root, page).frame_of(page),
            self.aligned(root, page) == self.mapping(root, page).is_aligned(),
    {
    }

    /// Whether each huge page on the path of `page` starts at a frame
    /// whose number is a multiple of the number of frames in it.
    pub open spec fn aligned(&self, root: u64, page: Page) -> bool {
        match self.p3_table(root, page) {
            None => true,
            Some(p3) => {
                let e3 = self.entry(p3, page.p3());
                if is_present(e3) && is_huge(e3) {
                    frame_number(e3) % 0x4_0000 == 0
                } else {
                    match self.p2_table(root, page) {
                        None => true,
                        Some(p2) => {
                            let e2 = self.entry(p2, page.p2());
                            is_present(e2) && is_huge(e2) ==> frame_number(e2) % 512 == 0
                        },
                    }
                }
            },
        }
    }

    /// Whether frame `frame` holds a table of the tree with the highest
    /// table in `root`.
    pub open spec fn is_table(&self, root: u64, frame: u64) -> bool {
        frame == root || exists|page: Page, level: int|
            !recursive(page) && 1 <= level <= 3 && #[trigger] self.table_for(root, page, level)
                == Some(frame)
    }

    /// Whether the tables below `root` form a tree: no table is reached
    /// through two paths, and none is the highest table.
    pub open spec fn tree_shaped(&self, root: u64) -> bool {
        &&& forall|page: Page, level: int|
            !recursive(page) && 1 <= level <= 3 ==> #[trigger] self.table_for(root, page, level)
                != Some(root)
        &&& forall|a: Page, la: int, b: Page, lb: int|
            !recursive(a) && !recursive(b) && 1 <= la <= 3 && 1 <= lb <= 3 && (
            #[trigger] self.table_for(root, a, la)).is_some() && self.table_for(root, a, la)
                == #[trigger] self.table_for(root, b, lb) ==> la == lb && same_prefix(a, b, la)
    }

    /// A memory without tables.
    pub fn new() -> (memory: PhysicalMemory)
        ensures
            memory.wf(),
            forall|frame: u64, index: int| memory.entry(frame, index) == 0,
    {
        PhysicalMemory { frames: HashMap::new() }
    }

    /// Reads entry `index` of the table in `frame`.
    pub fn read(&self, frame: &Frame, index: usize) -> (entry: Entry)
        requires
            self.wf(),
            index < 512,
        ensures
            entry.value == self.entry(frame.number, index as int),
    {
        match self.frames.get(&frame.number) {
            Some(table) => Entry { value: table[index] },
            None => Entry { value: 0 },
        }
    }

    /// Writes entry `index` of the table in `frame`.
    pub fn write(&mut self, frame: &Frame, index: usize, entry: Entry)
        requires
            old(self).wf(),
            index < 512,
        ensures
            final(self).wf(),
            forall|other: u64, i: int| #[trigger]
                final(self).entry(other, i) == if other == frame.number && i == index {
                    entry.value
                } else {
                    old(self).entry(other, i)
                },
    {
        let mut table = match self.frames.remove(&frame.number) {
            Some(table) => table,
            None => zeroed_table(),
        };
        table.set(index, entry.value);
        self.frames.insert(frame.number, table);
    }

    /// Clears every entry of the table in `frame`.
    pub fn zero(&mut self, frame: &Frame)
        requires
            old(self).wf(),
        ensures
            final(self).wf(),
            forall|other: u64, i: int| #[trigger]
                final(self).entry(other, i) == if other == frame.number {
                    0
                } else {
                    old(self).entry(other, i)
                },
    {
        self.frames.insert(frame.number, zeroed_table());
    }
}

/// A table of 512 cleared entries.
fn zeroed_table() -> (table: Vec<u64>)
    ensures
        table@.len() == 512,
        forall|i: int| 0 <= i < 512 ==> table@[i] == 0,
{
    let mut table: Vec<u64> = Vec::new();
    let mut filled: usize = 0;
    while filled < 512
        invariant
            filled <= 512,
            table@.len() == filled,
            forall|i: int| 0 <= i < filled ==> table@[i] == 0,
        decreases 512 - filled,
    {
        table.push(0);
        filled += 1;
    }
    table
}

} // verus!
