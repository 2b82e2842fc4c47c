//! A frame allocator that walks the firmware's memory map with a cursor.

use vstd::prelude::*;
use super::{lasts, Frame, FrameAllocator, FrameIter, MAX_FRAMES, PAGE_SIZE};

verus! {

/// One area of usable memory from the firmware's memory map.
#[derive(Debug, Clone, Copy, PartialEq, Eq, Structural)]
pub struct MemoryArea {
    pub base_addr: u64,
    pub length: u64,
}

impl MemoryArea {
    pub fn new(base_addr: u64, length: u64) -> (area: MemoryArea)
        ensures
            area.base_addr == base_addr,
            area.length == length,
    {
        MemoryArea { base_addr, length }
    }

    /// The address of the area's first byte.
    pub fn start_address(&self) -> (address: u64)
        ensures
            address == self.base_addr,
    {
        self.base_addr
    }

    /// The area's length in bytes.
    pub fn size(&self) -> (length: u64)
        ensures
            length == self.length,
    {
        self.length
    }

    /// The area's last byte has an address that fits in 64 bits.
    pub open spec fn wf(&self) -> bool {
        self.base_addr + self.length <= u64::MAX + 1
    }

    /// The frame that holds the area's first byte.
    pub open spec fn first_frame(&self) -> int {
        self.base_addr as int / PAGE_SIZE as int
    }

    /// The frame that holds the area's last byte.
    pub open spec fn last_frame(&self) -> int {
        (self.base_addr + self.length - 1) / PAGE_SIZE as int
    }

    /// Whether the area holds the `count` frames that start at `first`.
    /// An area without bytes holds nothing.
    pub open spec fn holds(&self, first: int, count: int) -> bool {
        &&& self.length > 0
        &&& self.first_frame() <= first
        &&& first + count - 1 <= self.last_frame()
    }
}

/// Hands out frames from the areas of a memory map, in rising order of frame
/// number, and never hands out a frame of the kernel image or of the boot
/// information. Frames below the cursor are never handed out again.
#[derive(Debug)]
pub struct AreaFrameAllocator {
    pub next_free_frame: Frame,
    pub areas: Vec<MemoryArea>,
    pub kernel_start: Frame,
    pub kernel_end: Frame,
    pub multiboot_start: Frame,
    pub multiboot_end: Frame,
}

impl AreaFrameAllocator {
    /// Whether one area of the map holds the `count` frames from `first` on.
    pub open spec fn in_area(&self, first: int, count: int) -> bool {
        exists|i: int| 0 <= i < self.areas@.len() && #[trigger] self.areas@[i].holds(first, count)
    }

    /// Whether one of the `count` frames from `first` on belongs to the
    /// kernel image or to the boot information.
    pub open spec fn reserved(&self, first: int, count: int) -> bool {
        ||| first <= self.kernel_end.number && first + count - 1 >= self.kernel_start.number
        ||| first <= self.multiboot_end.number && first + count - 1 >= self.multiboot_start.number
    }

    /// Whether the `count` frames from `first` on can be handed out as one
    /// run: they lie in one area, none is reserved, and a page-table entry
    /// can hold each.
    pub open spec fn usable(&self, first: int, count: int) -> bool {
        &&& count > 0
        &&& self.in_area(first, count)
        &&& !self.reserved(first, count)
        &&& first + count - 1 < MAX_FRAMES
    }

    /// The request for `count` frames is answered with `range`, the first
    /// usable run at or after the cursor, and leaves the allocator as `after`.
    pub open spec fn grants(&self, count: u64, range: FrameIter, after: &Self) -> bool {
        &&& self.next_free_frame.number <= range.start.number
        &&& self.usable(range.start.number as int, count as int)
        &&& forall|first: int|
            self.next_free_frame.number <= first < range.start.number ==> !self.usable(
                first,
                count as int,
            )
        &&& range.end.number == range.start.number + count - 1
        &&& after.next_free_frame.number == range.start.number + count
        &&& after.areas == self.areas
        &&& after.kernel_start == self.kernel_start
        &&& after.kernel_end == self.kernel_end
        &&& after.multiboot_start == self.multiboot_start
        &&& after.multiboot_end == self.multiboot_end
    }

    /// Whether the run `range` is the first usable run of `count` frames
    /// at or after the cursor.
    pub open spec fn fits_first(&self, count: u64, range: FrameIter) -> bool {
        &&& self.next_free_frame.number <= range.start.number
        &&& self.usable(range.start.number as int, count as int)
        &&& forall|first: int|
            self.next_free_frame.number <= first < range.start.number ==> !self.usable(
                first,
                count as int,
            )
        &&& range.end.number == range.start.number + count - 1
    }

    /// The first usable run of `count` frames at or after the cursor,
    /// where there is one.
    pub open spec fn first_fit(&self, count: u64) -> FrameIter {
        choose|range: FrameIter| self.fits_first(count, range)
    }

    /// There is one first usable run at most.
    pub proof fn lemma_first_fit(&self, count: u64, range: FrameIter)
        requires
            self.fits_first(count, range),
        ensures
            self.first_fit(count) == range,
    {
        let other = self.first_fit(count);
        assert(self.fits_first(count, other));
        assert(other.start.number == range.start.number);
    }

    /// No run of `count` frames at or after the cursor is usable.
    pub open spec fn refuses(&self, count: u64) -> bool {
        forall|first: int| self.next_free_frame.number <= first ==> !self.usable(first, count as int)
    }

    /// Sets up an allocator over `memory_areas` with the cursor at frame 0.
    /// The frames that hold the bytes from `kernel_start` to `kernel_end`
    /// and from `multiboot_start` to `multiboot_end`, both ends included,
    /// are reserved for good.
    pub fn new(
        kernel_start: u64,
        kernel_end: u64,
        multiboot_start: u64,
        multiboot_end: u64,
        memory_areas: Vec<MemoryArea>,
    ) -> (allocator: AreaFrameAllocator)
        requires
            forall|i: int| 0 <= i < memory_areas@.len() ==> (#[trigger] memory_areas@[i]).wf(),
        ensures
            allocator.inv(),
            allocator.next_free_frame.number == 0,
            allocator.areas == memory_areas,
            allocator.kernel_start.number == kernel_start / PAGE_SIZE,
            allocator.kernel_end.number == kernel_end / PAGE_SIZE,
            allocator.multiboot_start.number == multiboot_start / PAGE_SIZE,
            allocator.multiboot_end.number == multiboot_end / PAGE_SIZE,
    {
        AreaFrameAllocator {
            next_free_frame: Frame::containing_address(0),
            areas: memory_areas,
            kernel_start: Frame::containing_address(kernel_start),
            kernel_end: Frame::containing_address(kernel_end),
            multiboot_start: Frame::containing_address(multiboot_start),
            multiboot_end: Frame::containing_address(multiboot_end),
        }
    }

    /// Looks through the areas for the lowest frame at or after `from` at
    /// which one of them holds `count` frames.
    pub fn choose_next_area(&self, from: u64, count: u64) -> (place: Option<u64>)
        requires
            self.inv(),
            count > 0,
        ensures
            match place {
                Some(first) => {
                    &&& from <= first
                    &&& self.in_area(first as int, count as int)
                    &&& forall|other: int| from <= other < first ==> !self.in_area(other, count as int)
                },
                None => forall|other: int| from <= other ==> !self.in_area(other, count as int),
            },
    {
        let mut best: Option<u64> = None;
        let mut i: usize = 0;
        while i < self.areas.len()
            invariant
                self.inv(),
                count > 0,
                i <= self.areas@.len(),
                match best {
                    Some(first) => {
                        &&& from <= first
                        &&& self.in_area(first as int, count as int)
                        &&& forall|j: int, other: int|
                            0 <= j < i && from <= other < first ==> !(#[trigger] self.areas@[j].holds(
                                other,
                                count as int,
                            ))
                    },
                    None => forall|j: int, other: int|
                        0 <= j < i && from <= other ==> !(#[trigger] self.areas@[j].holds(
                            other,
                            count as int,
                        )),
                },
            decreases self.areas@.len() - i,
        {
            let area = self.areas[i];
            assert(area.wf());
            if area.size() > 0 {
                let first = area.start_address() / PAGE_SIZE;
                let last = (area.start_address() + (area.size() - 1)) / PAGE_SIZE;
                let place = if from > first { from } else { first };
                if place <= last && count - 1 <= last - place {
                    assert(area.holds(place as int, count as int));
                    let better = match best {
                        Some(found) => place < found,
                        None => true,
                    };
                    if better {
                        best = Some(place);
                    }
                }
            }
            i += 1;
        }
        best
    }
}

impl FrameAllocator for AreaFrameAllocator {
    /// Every area ends within the address space, and so does each reserved
    /// region.
    open spec fn inv(&self) -> bool {
        &&& forall|i: int| 0 <= i < self.areas@.len() ==> (#[trigger] self.areas@[i]).wf()
        &&& self.kernel_end.number < u64::MAX
        &&& self.multiboot_end.number < u64::MAX
    }

    /// The usable frames at or after the cursor.
    open spec fn available(&self) -> Set<u64> {
        Set::new(|number: u64| self.next_free_frame.number <= number && self.usable(number as int, 1))
    }

    /// The first usable run of `count` frames at or after the cursor, or
    /// nothing where there is none or `count` is 0.
    open spec fn answer(&self, count: u64) -> Option<FrameIter> {
        if count == 0 || self.refuses(count) {
            None
        } else {
            Some(self.first_fit(count))
        }
    }

    /// The cursor stands behind the run that was handed out, or where it
    /// stood if none was.
    open spec fn after(&self, count: u64) -> Self {
        match self.answer(count) {
            Some(range) => AreaFrameAllocator {
                next_free_frame: Frame { number: (range.start.number + count) as u64 },
                areas: self.areas,
                kernel_start: self.kernel_start,
                kernel_end: self.kernel_end,
                multiboot_start: self.multiboot_start,
                multiboot_end: self.multiboot_end,
            },
            None => *self,
        }
    }

    /// Frames that are given back are forgotten.
    open spec fn given_back(&self, frames: FrameIter) -> Self {
        *self
    }

    proof fn law_given_back(&self, frames: FrameIter, count: u64) {
    }

    /// Hands out the first usable run of `count` frames at or after the
    /// cursor and moves the cursor behind it. Where there is none, or
    /// `count` is 0, nothing is handed out and the allocator stays as it is.
    fn allocate_frames(&mut self, count: u64) -> (frames: Option<FrameIter>)
        ensures
            match frames {
                Some(range) => old(self).grants(count, range, final(self)),
                None => (count == 0 || old(self).refuses(count)) && *final(self) == *old(self),
            },
            frames.is_none() <==> count == 0 || old(self).refuses(count),
    {
        if count == 0 {
            return None;
        }
        let mut cursor = self.next_free_frame.number;
        loop
            invariant
                *self == *old(self),
                self.inv(),
                count > 0,
                self.next_free_frame.number <= cursor,
                forall|first: int|
                    self.next_free_frame.number <= first < cursor ==> !self.usable(first, count as int),
            decreases
                (if cursor <= self.kernel_end.number { 1int } else { 0int })
                + (if cursor <= self.multiboot_end.number { 1int } else { 0int }),
        {
            let start = match self.choose_next_area(cursor, count) {
                Some(start) => start,
                None => { return None; },
            };
            proof {
                let i = choose|i: int| 0 <= i < self.areas@.len() && #[trigger] self.areas@[i].holds(start as int, count as int);
                assert(self.areas@[i].wf());
            }
            let end = start + (count - 1);
            if end >= MAX_FRAMES {
                return None;
            } else if start <= self.kernel_end.number && end >= self.kernel_start.number {
                cursor = self.kernel_end.number + 1;
            } else if start <= self.multiboot_end.number && end >= self.multiboot_start.number {
                cursor = self.multiboot_end.number + 1;
            } else {
                self.next_free_frame = Frame { number: start + count };
                proof {
                    old(self).lemma_run_of_singles(start as int, count as int);
                    assert(old(self).usable(start as int, count as int));
                    old(self).lemma_first_fit(
                        count,
                        FrameIter { start: Frame { number: start }, end: Frame { number: end } },
                    );
                }
                return Some(Frame::range_inclusive(Frame { number: start }, Frame { number: end }));
            }
        }
    }

    /// Accepts the frames and forgets them: nothing is handed out twice.
    fn deallocate_frames(&mut self, frames: FrameIter)
        ensures
            *final(self) == *old(self),
    {
    }
}

impl AreaFrameAllocator {
    /// Whether `later` can be what this allocator has become after any
    /// number of requests: it works on the same areas with the same
    /// reserved frames, and its cursor is not below this one's.
    pub open spec fn before(&self, later: &Self) -> bool {
        &&& self.next_free_frame.number <= later.next_free_frame.number
        &&& later.areas == self.areas
        &&& later.kernel_start == self.kernel_start
        &&& later.kernel_end == self.kernel_end
        &&& later.multiboot_start == self.multiboot_start
        &&& later.multiboot_end == self.multiboot_end
    }

    /// Whether frame `number` belongs to the kernel image or to the boot
    /// information.
    pub open spec fn reserved_frame(&self, number: u64) -> bool {
        ||| self.kernel_start.number <= number <= self.kernel_end.number
        ||| self.multiboot_start.number <= number <= self.multiboot_end.number
    }

    /// A request that is met moves the allocator on, and so does a chain
    /// of states that each moved on from the one before.
    pub proof fn law_requests_move_on(&self, count: u64, range: FrameIter, after: &Self, later: &Self)
        requires
            self.grants(count, range, after),
            after.before(later),
        ensures
            self.before(after),
            self.before(later),
    {
    }

    /// No frame is handed out twice and no reserved frame is handed out:
    /// of two requests that are met, with any number of requests between
    /// them, the later one gets frames with higher numbers than the
    /// earlier one, and neither gets a frame of the kernel image or of the
    /// boot information.
    pub proof fn law_frames_handed_out_once(
        &self,
        count: u64,
        range: FrameIter,
        after: &Self,
        later: &Self,
        later_count: u64,
        later_range: FrameIter,
        last: &Self,
    )
        requires
            self.grants(count, range, after),
            after.before(later),
            later.grants(later_count, later_range, last),
        ensures
            range.end.number < later_range.start.number,
            forall|number: u64| range.contains(number) ==> !later_range.contains(number),
            forall|number: u64| range.contains(number) ==> !self.reserved_frame(number),
            forall|number: u64| later_range.contains(number) ==> !self.reserved_frame(number),
    {
    }

    /// A request that fails leaves everything as it was, so whatever
    /// could be had before it can be had after it: where a run of `count`
    /// frames at or after the cursor is usable, the allocator that has
    /// just refused `refused` frames answers a request for `count` frames
    /// with exactly `count` frames, the first usable run of that length.
    pub proof fn law_failure_is_idempotent(&self, refused: u64, count: u64, first: int)
        requires
            self.refuses(refused),
            self.next_free_frame.number <= first,
            self.usable(first, count as int),
        ensures
            self.answer(refused).is_none(),
            self.after(refused) == *self,
            !self.refuses(count),
            match self.after(refused).answer(count) {
                Some(range) => {
                    &&& self.fits_first(count, range)
                    &&& range.len() == count
                    &&& range.start.number <= first
                },
                None => false,
            },
    {
        self.lemma_first_fit_exists(count, first);
    }

    /// Whether `other` works on the same areas, with the same reserved
    /// frames and the cursor at the same frame.
    pub open spec fn alike(&self, other: &Self) -> bool {
        &&& self.areas@ == other.areas@
        &&& self.next_free_frame == other.next_free_frame
        &&& self.kernel_start == other.kernel_start
        &&& self.kernel_end == other.kernel_end
        &&& self.multiboot_start == other.multiboot_start
        &&& self.multiboot_end == other.multiboot_end
    }

    /// Allocators that are alike answer alike, and last equally long.
    pub proof fn lemma_alike(&self, other: &Self, n: nat)
        requires
            self.alike(other),
        ensures
            self.answer(1) == other.answer(1),
            self.after(1).alike(&other.after(1)),
            lasts(self, n) == lasts(other, n),
        decreases n,
    {
        assert forall|first: int, count: int| self.usable(first, count) == other.usable(first, count) by {
            if self.in_area(first, count) {
                let i = choose|i: int|
                    0 <= i < self.areas@.len() && #[trigger] self.areas@[i].holds(first, count);
                assert(other.areas@[i].holds(first, count));
            }
            if other.in_area(first, count) {
                let i = choose|i: int|
                    0 <= i < other.areas@.len() && #[trigger] other.areas@[i].holds(first, count);
                assert(self.areas@[i].holds(first, count));
            }
        }
        assert(self.refuses(1) == other.refuses(1));
        if !self.refuses(1) {
            let first = choose|first: int|
                self.next_free_frame.number <= first && self.usable(first, 1);
            self.lemma_first_fit_exists(1, first);
            let range = self.first_fit(1);
            assert(other.fits_first(1, range));
            other.lemma_first_fit(1, range);
        }
        if n > 0 {
            self.after(1).lemma_alike(&other.after(1), (n - 1) as nat);
        }
    }

    /// Where a run of `count` frames at or after the cursor is usable,
    /// there is a first one.
    pub proof fn lemma_first_fit_exists(&self, count: u64, first: int)
        requires
            self.next_free_frame.number <= first,
            self.usable(first, count as int),
        ensures
            self.fits_first(count, self.first_fit(count)),
        decreases first - self.next_free_frame.number,
    {
        if exists|earlier: int|
            self.next_free_frame.number <= earlier < first && self.usable(earlier, count as int) {
            let earlier = choose|earlier: int|
                self.next_free_frame.number <= earlier < first && self.usable(earlier, count as int);
            self.lemma_first_fit_exists(count, earlier);
        } else {
            let range = FrameIter {
                start: Frame { number: first as u64 },
                end: Frame { number: (first + count - 1) as u64 },
            };
            assert(self.fits_first(count, range));
        }
    }

    /// Each frame of a usable run is usable by itself.
    pub proof fn lemma_run_of_singles(&self, first: int, count: int)
        requires
            self.usable(first, count),
        ensures
            forall|number: int| first <= number < first + count ==> self.usable(number, 1),
    {
        let i = choose|i: int| 0 <= i < self.areas@.len() && #[trigger] self.areas@[i].holds(first, count);
        assert forall|number: int| first <= number < first + count implies self.usable(number, 1) by {
            assert(self.areas@[i].holds(number, 1));
        }
    }
}

} // verus!
