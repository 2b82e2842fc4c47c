//! What the boot loader tells about the machine: where memory is, and
//! where the kernel's image and the boot information itself lie.

use vstd::prelude::*;
use super::area_frame_allocator::{AreaFrameAllocator, MemoryArea};
use super::paging::entry::{
    contains, elf_flags, from_elf_section_flags, has_flags, ELF_SECTION_ALLOCATED, PRESENT,
    WRITABLE,
};
use super::paging::identity::{regions_ok, regions_valid, Region};
use super::{lasts, PAGE_SIZE};

verus! {

/// The address of the text screen's buffer.
pub const VGA_BUFFER: u64 = 0xb8000;

/// One section of the kernel's ELF image.
#[derive(Debug, Clone, Copy, PartialEq, Eq, Structural)]
pub struct ElfSection {
    pub start: u64,
    pub size: u64,
    pub flags: u64,
}

impl ElfSection {
    pub fn new(start: u64, size: u64, flags: u64) -> (section: ElfSection)
        ensures
            section == (ElfSection { start, size, flags }),
    {
        ElfSection { start, size, flags }
    }

    /// Whether the section is loaded to memory.
    pub open spec fn allocated(&self) -> bool {
        has_flags(self.flags, ELF_SECTION_ALLOCATED)
    }

    /// The section ends within the address space and, where it is loaded,
    /// starts at the start of a page.
    pub open spec fn wf(&self) -> bool {
        &&& self.start + self.size <= u64::MAX
        &&& self.allocated() ==> self.start % PAGE_SIZE == 0
    }

    /// Whether the section is loaded to memory.
    pub fn is_allocated(&self) -> (loaded: bool)
        ensures
            loaded == self.allocated(),
    {
        contains(self.flags, ELF_SECTION_ALLOCATED)
    }

    /// The address of the section's first byte.
    pub fn start_address(&self) -> (address: u64)
        ensures
            address == self.start,
    {
        self.start
    }

    /// The address behind the section's last byte.
    pub fn end_address(&self) -> (address: u64)
        requires
            self.start + self.size <= u64::MAX,
        ensures
            address == self.start + self.size,
    {
        self.start + self.size
    }

    /// The section's size in bytes.
    pub fn size(&self) -> (size: u64)
        ensures
            size == self.size,
    {
        self.size
    }

    /// The section's ELF flags.
    pub fn flags(&self) -> (flags: u64)
        ensures
            flags == self.flags,
    {
        self.flags
    }

    /// The frames that hold the section, to be mapped with the flags that
    /// its ELF flags ask for; none where the section is not loaded or has
    /// no bytes.
    pub open spec fn region(&self) -> Region {
        if self.allocated() && self.size > 0 {
            Region {
                start: self.start / PAGE_SIZE,
                end: ((self.start + self.size - 1) / PAGE_SIZE as int) as u64,
                flags: elf_flags(self.flags),
            }
        } else {
            Region { start: 1, end: 0, flags: 0 }
        }
    }

    /// The frames that hold the section, with the flags for their pages.
    pub fn frames(&self) -> (region: Region)
        requires
            self.start + self.size <= u64::MAX,
        ensures
            region == self.region(),
    {
        if self.is_allocated() && self.size > 0 {
            Region {
                start: self.start / PAGE_SIZE,
                end: (self.end_address() - 1) / PAGE_SIZE,
                flags: from_elf_section_flags(self.flags),
            }
        } else {
            Region { start: 1, end: 0, flags: 0 }
        }
    }
}

/// The boot information: the addresses of its own first byte and of the
/// byte behind its last, the areas of usable memory, and the sections of
/// the kernel's image.
#[derive(Debug)]
pub struct BootInformation {
    pub start: u64,
    pub end: u64,
    pub memory_areas: Vec<MemoryArea>,
    pub sections: Vec<ElfSection>,
}

/// The address of the last byte below `end`, for a run of bytes that ends
/// there; 0 where `end` is 0.
pub open spec fn last_byte(end: u64) -> u64 {
    if end > 0 {
        (end - 1) as u64
    } else {
        0
    }
}

/// The address of the last byte below `end`; 0 where `end` is 0.
pub fn last_byte_of(end: u64) -> (address: u64)
    ensures
        address == last_byte(end),
{
    if end > 0 {
        end - 1
    } else {
        0
    }
}

impl BootInformation {
    /// The address of the boot information's first byte.
    pub fn start_address(&self) -> (address: u64)
        ensures
            address == self.start,
    {
        self.start
    }

    /// The address behind the boot information's last byte.
    pub fn end_address(&self) -> (address: u64)
        ensures
            address == self.end,
    {
        self.end
    }

    /// The frame of the text screen's buffer, writable.
    pub open spec fn screen_region() -> Region {
        Region { start: VGA_BUFFER / PAGE_SIZE, end: VGA_BUFFER / PAGE_SIZE, flags: WRITABLE }
    }

    /// The frames that hold the boot information itself.
    pub open spec fn own_region(&self) -> Region {
        if self.end > 0 {
            Region { start: self.start / PAGE_SIZE, end: ((self.end - 1) / PAGE_SIZE as int) as u64, flags: PRESENT }
        } else {
            Region { start: 1, end: 0, flags: PRESENT }
        }
    }

    /// What the kernel needs mapped to run in a new address space, each
    /// frame to the page with its number: the sections of its image in
    /// their order, then the text screen's buffer, then the boot
    /// information.
    pub open spec fn regions(&self) -> Seq<Region> {
        Seq::new(
            self.sections@.len() + 2,
            |k: int|
                if k < self.sections@.len() {
                    self.sections@[k].region()
                } else if k == self.sections@.len() {
                    Self::screen_region()
                } else {
                    self.own_region()
                },
        )
    }

    /// Whether a section is loaded to memory.
    pub open spec fn has_kernel(&self) -> bool {
        exists|k: int| 0 <= k < self.sections@.len() && (#[trigger] self.sections@[k]).allocated()
    }

    /// The memory areas and the sections end within the address space,
    /// the loaded sections start at the start of a page, and what has to
    /// be mapped can be: the regions lie in the lower half of the address
    /// space and no frame is in two of them.
    pub open spec fn wf(&self) -> bool {
        &&& forall|i: int| 0 <= i < self.memory_areas@.len() ==> (#[trigger] self.memory_areas@[i]).wf()
        &&& forall|k: int| 0 <= k < self.sections@.len() ==> (#[trigger] self.sections@[k]).wf()
        &&& self.sections@.len() + 2 <= usize::MAX
        &&& regions_ok(self.regions())
    }

    /// Whether a section is loaded to memory.
    pub fn has_loaded_section(&self) -> (found: bool)
        ensures
            found == self.has_kernel(),
    {
        let mut done: usize = 0;
        while done < self.sections.len()
            invariant
                done <= self.sections@.len(),
                forall|k: int| 0 <= k < done ==> !(#[trigger] self.sections@[k]).allocated(),
            decreases self.sections@.len() - done,
        {
            if self.sections[done].is_allocated() {
                assert(self.sections@[done as int].allocated());
                return true;
            }
            done += 1;
        }
        false
    }

    /// Whether the boot information is well formed.
    pub fn is_wf(&self) -> (ok: bool)
        ensures
            ok == self.wf(),
    {
        let mut i: usize = 0;
        while i < self.memory_areas.len()
            invariant
                i <= self.memory_areas@.len(),
                forall|j: int| 0 <= j < i ==> (#[trigger] self.memory_areas@[j]).wf(),
            decreases self.memory_areas@.len() - i,
        {
            let area = self.memory_areas[i];
            if area.length > 0 && area.base_addr > u64::MAX - (area.length - 1) {
                assert(!self.memory_areas@[i as int].wf());
                return false;
            }
            i += 1;
        }
        let mut k: usize = 0;
        while k < self.sections.len()
            invariant
                k <= self.sections@.len(),
                forall|j: int| 0 <= j < k ==> (#[trigger] self.sections@[j]).wf(),
            decreases self.sections@.len() - k,
        {
            let section = self.sections[k];
            if section.start > u64::MAX - section.size || (section.is_allocated() && section.start
                % PAGE_SIZE != 0) {
                assert(!self.sections@[k as int].wf());
                return false;
            }
            k += 1;
        }
        if self.sections.len() > usize::MAX - 2 {
            return false;
        }
        let regions = self.kernel_regions();
        regions_valid(&regions)
    }

    /// Whether frame `number` holds a byte of a loaded section, or lies
    /// between two loaded sections, or holds a byte of the boot
    /// information: the frames that the frame allocator keeps to itself.
    pub open spec fn reserved(&self, number: u64) -> bool {
        ||| self.start / PAGE_SIZE <= number <= last_byte(self.end) / PAGE_SIZE
        ||| exists|start: u64, end: u64|
            #[trigger] self.kernel_spans(start, end) && start / PAGE_SIZE <= number <= last_byte(end)
                / PAGE_SIZE
    }

    /// The lowest start and the highest end of the loaded sections are
    /// what they are.
    pub proof fn lemma_spans_once(&self, start: u64, end: u64, other_start: u64, other_end: u64)
        requires
            self.kernel_spans(start, end),
            self.kernel_spans(other_start, other_end),
        ensures
            start == other_start,
            end == other_end,
    {
    }

    /// Whether the frame allocator keeps frame `number` to itself.
    pub fn is_reserved(&self, number: u64) -> (kept: bool)
        requires
            self.has_kernel(),
            forall|k: int| 0 <= k < self.sections@.len() ==> (#[trigger] self.sections@[k]).wf(),
        ensures
            kept == self.reserved(number),
    {
        let (start, end) = self.kernel_bounds();
        proof {
            assert forall|other_start: u64, other_end: u64| #[trigger]
                self.kernel_spans(other_start, other_end) implies other_start == start && other_end
                == end by {
                self.lemma_spans_once(start, end, other_start, other_end);
            }
        }
        (self.start / PAGE_SIZE <= number && number <= last_byte_of(self.end) / PAGE_SIZE) || (start
            / PAGE_SIZE <= number && number <= last_byte_of(end) / PAGE_SIZE)
    }

    /// Whether `start` is the lowest address at which a loaded section
    /// starts, and `end` the highest behind which one ends.
    pub open spec fn kernel_spans(&self, start: u64, end: u64) -> bool {
        &&& exists|k: int|
            0 <= k < self.sections@.len() && (#[trigger] self.sections@[k]).allocated()
                && self.sections@[k].start == start
        &&& exists|k: int|
            0 <= k < self.sections@.len() && (#[trigger] self.sections@[k]).allocated()
                && self.sections@[k].start + self.sections@[k].size == end
        &&& forall|k: int|
            0 <= k < self.sections@.len() && (#[trigger] self.sections@[k]).allocated() ==> start
                <= self.sections@[k].start && self.sections@[k].start + self.sections@[k].size <= end
    }

    /// Whether `allocator` is the frame allocator that this boot
    /// information gives rise to: it works on the memory areas, starts at
    /// frame 0, and keeps to itself the frames from the first byte of the
    /// loaded sections to their last, and those of the boot information.
    pub open spec fn feeds(&self, allocator: &AreaFrameAllocator) -> bool {
        &&& allocator.areas@ == self.memory_areas@
        &&& allocator.next_free_frame.number == 0
        &&& allocator.multiboot_start.number == self.start / PAGE_SIZE
        &&& allocator.multiboot_end.number == last_byte(self.end) / PAGE_SIZE
        &&& exists|start: u64, end: u64|
            #[trigger] self.kernel_spans(start, end) && allocator.kernel_start.number == start
                / PAGE_SIZE && allocator.kernel_end.number == last_byte(end) / PAGE_SIZE
    }

    /// Whether the frame allocator that this boot information gives rise
    /// to answers `n` requests for a single frame in a row.
    pub open spec fn frames_last(&self, n: nat) -> bool {
        exists|allocator: AreaFrameAllocator| #[trigger] self.feeds(&allocator) && lasts(&allocator, n)
    }

    /// The boot information gives rise to one frame allocator: two that it
    /// feeds are alike.
    pub proof fn lemma_feeds_once(&self, a: &AreaFrameAllocator, b: &AreaFrameAllocator)
        requires
            self.feeds(a),
            self.feeds(b),
        ensures
            a.alike(b),
    {
        let (start, end) = choose|start: u64, end: u64|
            #[trigger] self.kernel_spans(start, end) && a.kernel_start.number == start / PAGE_SIZE
                && a.kernel_end.number == last_byte(end) / PAGE_SIZE;
        let (other_start, other_end) = choose|start: u64, end: u64|
            #[trigger] self.kernel_spans(start, end) && b.kernel_start.number == start / PAGE_SIZE
                && b.kernel_end.number == last_byte(end) / PAGE_SIZE;
        self.lemma_spans_once(start, end, other_start, other_end);
    }

    /// A copy of the memory areas.
    pub fn areas(&self) -> (areas: Vec<MemoryArea>)
        ensures
            areas@ == self.memory_areas@,
    {
        let mut areas: Vec<MemoryArea> = Vec::new();
        let mut done: usize = 0;
        while done < self.memory_areas.len()
            invariant
                done <= self.memory_areas@.len(),
                areas@ == self.memory_areas@.subrange(0, done as int),
            decreases self.memory_areas@.len() - done,
        {
            areas.push(self.memory_areas[done]);
            done += 1;
            assert(areas@ =~= self.memory_areas@.subrange(0, done as int));
        }
        assert(areas@ =~= self.memory_areas@);
        areas
    }

    /// The lowest start and the highest end of the loaded sections.
    pub fn kernel_bounds(&self) -> (bounds: (u64, u64))
        requires
            self.has_kernel(),
            forall|k: int| 0 <= k < self.sections@.len() ==> (#[trigger] self.sections@[k]).wf(),
        ensures
            self.kernel_spans(bounds.0, bounds.1),
    {
        let mut lowest: u64 = u64::MAX;
        let mut highest: u64 = 0;
        let mut found = false;
        let mut done: usize = 0;
        while done < self.sections.len()
            invariant
                done <= self.sections@.len(),
                forall|k: int| 0 <= k < self.sections@.len() ==> (#[trigger] self.sections@[k]).wf(),
                found <==> exists|k: int| 0 <= k < done && (#[trigger] self.sections@[k]).allocated(),
                found ==> exists|k: int|
                    0 <= k < done && (#[trigger] self.sections@[k]).allocated()
                        && self.sections@[k].start == lowest,
                found ==> exists|k: int|
                    0 <= k < done && (#[trigger] self.sections@[k]).allocated()
                        && self.sections@[k].start + self.sections@[k].size == highest,
                forall|k: int|
                    0 <= k < done && (#[trigger] self.sections@[k]).allocated() ==> lowest
                        <= self.sections@[k].start && self.sections@[k].start
                        + self.sections@[k].size <= highest,
            decreases self.sections@.len() - done,
        {
            let section = self.sections[done];
            assert(section.wf());
            if section.is_allocated() {
                if !found || section.start_address() < lowest {
                    lowest = section.start_address();
                }
                if !found || section.end_address() > highest {
                    highest = section.end_address();
                }
                found = true;
            }
            done += 1;
        }
        (lowest, highest)
    }

    /// What the kernel needs mapped to run in a new address space.
    pub fn kernel_regions(&self) -> (regions: Vec<Region>)
        requires
            forall|k: int| 0 <= k < self.sections@.len() ==> (#[trigger] self.sections@[k]).wf(),
        ensures
            regions@ == self.regions(),
    {
        let mut regions: Vec<Region> = Vec::new();
        let mut done: usize = 0;
        while done < self.sections.len()
            invariant
                done <= self.sections@.len(),
                forall|k: int| 0 <= k < self.sections@.len() ==> (#[trigger] self.sections@[k]).wf(),
                regions@.len() == done,
                forall|k: int| 0 <= k < done ==> #[trigger] regions@[k] == self.sections@[k].region(),
            decreases self.sections@.len() - done,
        {
            let section = self.sections[done];
            assert(section.wf());
            regions.push(section.frames());
            done += 1;
        }
        regions.push(
            Region { start: VGA_BUFFER / PAGE_SIZE, end: VGA_BUFFER / PAGE_SIZE, flags: WRITABLE },
        );
        if self.end > 0 {
            regions.push(
                Region { start: self.start / PAGE_SIZE, end: (self.end - 1) / PAGE_SIZE, flags: PRESENT },
            );
        } else {
            regions.push(Region { start: 1, end: 0, flags: PRESENT });
        }
        assert(regions@ =~= self.regions());
        regions
    }
}

} // verus!
