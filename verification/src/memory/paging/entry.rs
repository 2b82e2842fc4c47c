//! Page-table entries: a frame number packed with flag bits.

use vstd::prelude::*;
use crate::memory::{Frame, MAX_FRAMES, PAGE_SIZE};

verus! {

/// A set of the flags that a page-table entry can carry, one bit each.
pub type EntryFlags = u64;

/// The entry points at a frame.
pub const PRESENT: EntryFlags = 0x1;

/// The memory behind the entry may be written.
pub const WRITABLE: EntryFlags = 0x2;

/// Code outside the kernel may use the memory behind the entry.
pub const USER_ACCESSIBLE: EntryFlags = 0x4;

/// Writes go straight to memory.
pub const WRITE_THROUGH: EntryFlags = 0x8;

/// The memory behind the entry is not cached.
pub const NO_CACHE: EntryFlags = 0x10;

/// The processor has used the entry.
pub const ACCESSED: EntryFlags = 0x20;

/// The processor has written through the entry.
pub const DIRTY: EntryFlags = 0x40;

/// The entry is a leaf above the lowest level: it maps a huge page.
pub const HUGE_PAGE: EntryFlags = 0x80;

/// The translation survives a switch of address space.
pub const GLOBAL: EntryFlags = 0x100;

/// Code in the memory behind the entry may not run.
pub const NO_EXECUTE: EntryFlags = 0x8000_0000_0000_0000;

/// The bits of an entry that hold flags.
pub const ALL_FLAGS: EntryFlags = 0x8000_0000_0000_01ff;

/// The bits of an entry that hold the frame's address.
pub const ADDRESS_MASK: u64 = 0x000f_ffff_ffff_f000;

/// An ELF section may be written while the image runs.
pub const ELF_SECTION_WRITABLE: u64 = 0x1;

/// An ELF section is loaded to memory.
pub const ELF_SECTION_ALLOCATED: u64 = 0x2;

/// An ELF section holds code.
pub const ELF_SECTION_EXECUTABLE: u64 = 0x4;

/// Whether `flags` holds nothing but flag bits.
pub open spec fn valid_flags(flags: EntryFlags) -> bool {
    flags & !ALL_FLAGS == 0
}

/// Whether every bit of `wanted` is set in `flags`.
pub open spec fn has_flags(flags: EntryFlags, wanted: EntryFlags) -> bool {
    flags & wanted == wanted
}

/// Whether every bit of `wanted` is set in `flags`.
pub fn contains(flags: EntryFlags, wanted: EntryFlags) -> (held: bool)
    ensures
        held == has_flags(flags, wanted),
{
    flags & wanted == wanted
}

/// The flags of a page that holds an ELF section with the flags
/// `section_flags`: present if the section is loaded, writable if the
/// section is, and closed to execution unless the section holds code.
pub open spec fn elf_flags(section_flags: u64) -> EntryFlags {
    (if has_flags(section_flags, ELF_SECTION_ALLOCATED) { PRESENT } else { 0 })
    | (if has_flags(section_flags, ELF_SECTION_WRITABLE) { WRITABLE } else { 0 })
    | (if has_flags(section_flags, ELF_SECTION_EXECUTABLE) { 0 } else { NO_EXECUTE })
}

/// Turns the flags of an ELF section into the flags of the pages that hold it.
pub fn from_elf_section_flags(section_flags: u64) -> (flags: EntryFlags)
    ensures
        flags == elf_flags(section_flags),
        valid_flags(flags),
{
    let present = if contains(section_flags, ELF_SECTION_ALLOCATED) { PRESENT } else { 0 };
    let writable = if contains(section_flags, ELF_SECTION_WRITABLE) { WRITABLE } else { 0 };
    let no_execute = if contains(section_flags, ELF_SECTION_EXECUTABLE) { 0 } else { NO_EXECUTE };
    let flags = present | writable | no_execute;
    assert(valid_flags(flags)) by (bit_vector)
        requires
            present == 0 || present == 1,
            writable == 0 || writable == 2,
            no_execute == 0 || no_execute == 0x8000_0000_0000_0000,
            flags == present | writable | no_execute,
    ;
    flags
}

/// Whether the entry value `value` points at a frame.
pub open spec fn is_present(value: u64) -> bool {
    value & PRESENT == PRESENT
}

/// Whether the entry value `value` is marked as a huge-page leaf.
pub open spec fn is_huge(value: u64) -> bool {
    value & HUGE_PAGE == HUGE_PAGE
}

/// The number of the frame whose address the entry value `value` holds.
pub open spec fn frame_number(value: u64) -> u64 {
    (value & ADDRESS_MASK) / PAGE_SIZE
}

/// The entry value that points at frame `number`, with the flags `flags`.
pub open spec fn pack(number: u64, flags: EntryFlags) -> u64 {
    ((number * PAGE_SIZE) as u64) | flags
}

/// What packing puts in comes out again: the frame number and the flags.
pub proof fn lemma_pack(number: u64, flags: EntryFlags)
    requires
        number < MAX_FRAMES,
        valid_flags(flags),
    ensures
        frame_number(pack(number, flags)) == number,
        pack(number, flags) & ALL_FLAGS == flags,
        is_present(pack(number, flags)) == has_flags(flags, PRESENT),
        is_huge(pack(number, flags)) == has_flags(flags, HUGE_PAGE),
        has_flags(flags, PRESENT) ==> pack(number, flags) != 0,
{
    let address = (number * PAGE_SIZE) as u64;
    assert(address == number << 12) by (bit_vector)
        requires
            number < 0x100_0000_0000,
            address == number * 4096,
    ;
    let value = address | flags;
    assert((value & 0x000f_ffff_ffff_f000) / 4096 == number && value & 0x8000_0000_0000_01ff == flags
        && (value & 0x1 == 0x1) == (flags & 0x1 == 0x1) && (value & 0x80 == 0x80) == (flags & 0x80
        == 0x80) && (flags & 0x1 == 0x1 ==> value != 0)) by (bit_vector)
        requires
            number < 0x100_0000_0000,
            flags & !0x8000_0000_0000_01ff == 0,
            address == number << 12,
            value == address | flags,
    ;
}

/// One slot of a page table.
#[derive(Debug, Clone, Copy, PartialEq, Eq, Structural)]
pub struct Entry {
    pub value: u64,
}

impl Entry {
    /// The frame that the entry points at, if it is present.
    pub open spec fn pointed(&self) -> Option<u64> {
        if is_present(self.value) {
            Some(frame_number(self.value))
        } else {
            None
        }
    }

    /// Whether the entry is all zero.
    pub fn is_unused(&self) -> (unused: bool)
        ensures
            unused == (self.value == 0),
    {
        self.value == 0
    }

    /// Clears the entry.
    pub fn set_unused(&mut self)
        ensures
            final(self).value == 0,
    {
        self.value = 0;
    }

    /// The flags that the entry carries.
    pub fn flags(&self) -> (flags: EntryFlags)
        ensures
            flags == self.value & ALL_FLAGS,
            valid_flags(flags),
            has_flags(flags, PRESENT) == is_present(self.value),
            has_flags(flags, HUGE_PAGE) == is_huge(self.value),
    {
        let value = self.value;
        let flags = value & ALL_FLAGS;
        assert((flags & !0x8000_0000_0000_01ff == 0) && (flags & 0x1 == 0x1) == (value & 0x1 == 0x1)
            && (flags & 0x80 == 0x80) == (value & 0x80 == 0x80)) by (bit_vector)
            requires
                flags == value & 0x8000_0000_0000_01ff,
        ;
        flags
    }

    /// The frame that the entry points at, if it is present.
    pub fn pointed_frame(&self) -> (frame: Option<Frame>)
        ensures
            match frame {
                Some(target) => self.pointed() == Some(target.number) && target.number < MAX_FRAMES,
                None => self.pointed().is_none(),
            },
    {
        let value = self.value;
        if contains(self.flags(), PRESENT) {
            assert((value & 0x000f_ffff_ffff_f000) / 4096 < 0x100_0000_0000) by (bit_vector);
            Some(Frame::containing_address(self.value & ADDRESS_MASK))
        } else {
            None
        }
    }

    /// Points the entry at `frame`, with the flags `flags`.
    pub fn set(&mut self, frame: Frame, flags: EntryFlags)
        requires
            frame.number < MAX_FRAMES,
            valid_flags(flags),
        ensures
            final(self).value == pack(frame.number, flags),
    {
        self.value = frame.start_address() | flags;
    }
}

} // verus!
