//! Physical frames, the frame allocator interface and the memory controller.

use vstd::prelude::*;
use self::area_frame_allocator::AreaFrameAllocator;
use self::boot_info::{last_byte, last_byte_of, BootInformation};
use self::controller::MemoryController;
use self::grant_allocator::GrantAllocator;
use self::page_allocator::PageAllocator;
use self::paging::entry::{pack, PRESENT, WRITABLE};
use self::paging::identity::{covered, covers, misses, span_clear, Region};
use self::paging::mapper::{lemma_flag_facts, lemma_low_pages, page_at, MapError, Mapper};
use self::paging::table::recursive;
use self::paging::temporary_page::TemporaryPage;
use self::paging::{
    canonical, remap_kernel, remap_needs, ActivePageTable, Page, REMAP_TEMPORARY_PAGE,
};
use self::stack_allocator::StackAllocator;

pub mod area_frame_allocator;
pub mod boot_info;
pub mod controller;
pub mod grant_allocator;
pub mod layout;
pub mod page_allocator;
pub mod paging;
pub mod region;
pub mod stack_allocator;

verus! {

/// Size of one page and of one frame, in bytes.
pub const PAGE_SIZE: u64 = 4096;

/// Frame numbers that a page-table entry can hold: physical addresses have
/// at most 52 bits, so frame numbers have at most 40.
pub const MAX_FRAMES: u64 = 0x100_0000_0000;

/// One frame of physical memory, named by its address divided by the page size.
#[derive(Debug, PartialEq, Eq, PartialOrd, Ord, Structural)]
pub struct Frame {
    pub number: u64,
}

impl Frame {
    /// The frame that holds the byte at `address`.
    pub fn containing_address(address: u64) -> (frame: Frame)
        ensures
            frame.number == address / PAGE_SIZE,
            frame.number * PAGE_SIZE <= address < frame.number * PAGE_SIZE + PAGE_SIZE,
    {
        Frame { number: address / PAGE_SIZE }
    }

    /// Whether the frame's first byte has an address that fits in 64 bits.
    pub open spec fn addressable(&self) -> bool {
        self.number * PAGE_SIZE <= u64::MAX
    }

    /// The address of the frame's first byte.
    pub fn start_address(&self) -> (address: u64)
        requires
            self.addressable(),
        ensures
            address == self.number * PAGE_SIZE,
    {
        self.number * PAGE_SIZE
    }

    /// A second handle to the same frame.
    pub fn clone(&self) -> (frame: Frame)
        ensures
            frame == *self,
    {
        Frame { number: self.number }
    }

    /// The frames from `start` to `end`, both included.
    pub fn range_inclusive(start: Frame, end: Frame) -> (range: FrameIter)
        ensures
            range.start == start,
            range.end == end,
    {
        FrameIter { start, end }
    }
}

/// A run of frames with consecutive numbers, from `start` to `end`, both
/// included; it is empty when `start` lies after `end`.
#[derive(Debug, PartialEq, Eq, Structural)]
pub struct FrameIter {
    pub start: Frame,
    pub end: Frame,
}

impl FrameIter {
    /// How many frames are left in the run.
    pub open spec fn len(&self) -> nat {
        if self.start.number <= self.end.number {
            (self.end.number - self.start.number + 1) as nat
        } else {
            0
        }
    }

    /// Whether the frame with this number is still in the run.
    pub open spec fn contains(&self, number: u64) -> bool {
        self.start.number <= number <= self.end.number
    }

    /// Takes the first frame off the run.
    pub fn next(&mut self) -> (frame: Option<Frame>)
        requires
            old(self).end.number < u64::MAX,
        ensures
            final(self).end == old(self).end,
            match frame {
                Some(first) => {
                    &&& old(self).len() > 0
                    &&& first == old(self).start
                    &&& final(self).start.number == old(self).start.number + 1
                },
                None => old(self).len() == 0 && *final(self) == *old(self),
            },
    {
        if self.start.number <= self.end.number {
            let frame = self.start.clone();
            self.start.number += 1;
            Some(frame)
        } else {
            None
        }
    }
}

/// A source of physical frames.
///
/// `available` is the set of frames that the allocator may still hand out.
/// A frame leaves it when it is handed out, and nothing ever enters it:
/// frames given back are accepted and not used again.
///
/// What an allocator answers follows from the state it is in: `answer`
/// names what a request gets, `after` the allocator as the request leaves
/// it, and `given_back` the allocator as it is once frames were returned
/// to it.
pub trait FrameAllocator: Sized {
    /// What the allocator keeps true of its own state.
    spec fn inv(&self) -> bool;

    /// The numbers of the frames that a later request may return.
    spec fn available(&self) -> Set<u64>;

    /// What a request for `count` frames is answered with.
    spec fn answer(&self, count: u64) -> Option<FrameIter>;

    /// The allocator as a request for `count` frames leaves it.
    spec fn after(&self, count: u64) -> Self;

    /// The allocator as it is once `frames` were given back to it.
    spec fn given_back(&self, frames: FrameIter) -> Self;

    /// Hands out `count` frames with consecutive numbers, or nothing. A
    /// request that gets nothing leaves the allocator as it was.
    fn allocate_frames(&mut self, count: u64) -> (frames: Option<FrameIter>)
        requires
            old(self).inv(),
        ensures
            final(self).inv(),
            frames == old(self).answer(count),
            *final(self) == old(self).after(count),
            frames.is_none() ==> *final(self) == *old(self),
            final(self).available().subset_of(old(self).available()),
            match frames {
                Some(range) => {
                    &&& count > 0
                    &&& range.end.number < MAX_FRAMES
                    &&& range.start.number + count - 1 == range.end.number
                    &&& forall|number: u64| #[trigger]
                        range.contains(number) ==> old(self).available().contains(number)
                            && !final(self).available().contains(number)
                },
                None => final(self).available() == old(self).available(),
            },
    ;

    /// Takes frames back. They are not handed out again, and no request
    /// is answered otherwise than before.
    fn deallocate_frames(&mut self, frames: FrameIter)
        requires
            old(self).inv(),
        ensures
            final(self).inv(),
            *final(self) == old(self).given_back(frames),
            final(self).available() == old(self).available(),
            forall|count: u64| #[trigger] final(self).answer(count) == old(self).answer(count),
    ;

    /// Giving frames back changes no answer, now or later: the allocator
    /// answers as before, and a request leaves it as it would have been
    /// left, but for the frames given back.
    proof fn law_given_back(&self, frames: FrameIter, count: u64)
        ensures
            self.given_back(frames).answer(count) == self.answer(count),
            self.given_back(frames).after(count) == self.after(count).given_back(frames),
    ;

    /// Hands out one frame, or nothing: the first frame of what a request
    /// for one frame is answered with.
    fn allocate_frame(&mut self) -> (frame: Option<Frame>)
        requires
            old(self).inv(),
        ensures
            final(self).inv(),
            frame == match old(self).answer(1) {
                Some(range) => Some(range.start),
                None => None,
            },
            *final(self) == old(self).after(1),
            frame.is_none() ==> *final(self) == *old(self),
            final(self).available().subset_of(old(self).available()),
            match frame {
                Some(one) => {
                    &&& one.number < MAX_FRAMES
                    &&& old(self).available().contains(one.number)
                    &&& !final(self).available().contains(one.number)
                },
                None => final(self).available() == old(self).available(),
            },
    {
        match self.allocate_frames(1) {
            Some(frames) => {
                assert(frames.contains(frames.start.number));
                Some(frames.start)
            },
            None => None,
        }
    }

    /// Takes one frame back, as the run that holds this frame alone. It is
    /// not handed out again, and no request is answered otherwise than
    /// before.
    fn deallocate_frame(&mut self, frame: Frame)
        requires
            old(self).inv(),
        ensures
            final(self).inv(),
            *final(self) == old(self).given_back((FrameIter { start: frame, end: frame })),
            final(self).available() == old(self).available(),
            forall|count: u64| #[trigger] final(self).answer(count) == old(self).answer(count),
    {
        self.deallocate_frames(Frame::range_inclusive(frame.clone(), frame));
    }
}

/// Whether the allocator answers `n` requests for a single frame in a row
/// with a frame each.
pub open spec fn lasts<A: FrameAllocator>(allocator: &A, n: nat) -> bool
    decreases n,
{
    n == 0 || (allocator.answer(1).is_some() && lasts(&allocator.after(1), (n - 1) as nat))
}

/// Whether the allocator `after` can still do what `before` could after
/// `k` requests for a single frame: the step from `before` to `after`
/// took no more than `k` frames.
pub open spec fn spends<A: FrameAllocator>(before: &A, after: &A, k: nat) -> bool {
    forall|m: nat| #[trigger] lasts(before, m) && m >= k ==> lasts(after, (m - k) as nat)
}

/// An allocator that answers `n` requests in a row answers fewer.
pub proof fn lemma_lasts_less<A: FrameAllocator>(allocator: &A, n: nat, m: nat)
    requires
        lasts(allocator, n),
        m <= n,
    ensures
        lasts(allocator, m),
    decreases n,
{
    if m > 0 {
        lemma_lasts_less(&allocator.after(1), (n - 1) as nat, (m - 1) as nat);
    }
}

/// No step takes no frame, and so takes no more than any number of them.
pub proof fn lemma_spends_nothing<A: FrameAllocator>(allocator: &A, k: nat)
    ensures
        spends(allocator, allocator, k),
{
    assert forall|m: nat| #[trigger] lasts(allocator, m) && m >= k implies lasts(
        allocator,
        (m - k) as nat,
    ) by {
        lemma_lasts_less(allocator, m, (m - k) as nat);
    }
}

/// Steps that follow one another take what they take together, and a step
/// that took no more than so many frames took no more than any more.
pub proof fn lemma_spends<A: FrameAllocator>(first: &A, middle: &A, last: &A, k: nat, l: nat, sum: nat)
    requires
        spends(first, middle, k),
        spends(middle, last, l),
        k + l <= sum,
    ensures
        spends(first, last, sum),
{
    assert forall|m: nat| #[trigger] lasts(first, m) && m >= sum implies lasts(last, (m - sum) as nat) by {
        assert(lasts(middle, (m - k) as nat));
        assert(lasts(last, (m - k - l) as nat));
        lemma_lasts_less(last, (m - k - l) as nat, (m - sum) as nat);
    }
}

/// Where a step took no more than `k` frames from an allocator that
/// lasted `n`, the allocator lasts `n - k` after it.
pub proof fn lemma_spent<A: FrameAllocator>(before: &A, after: &A, k: nat, n: nat, rest: nat)
    requires
        spends(before, after, k),
        lasts(before, n),
        rest + k <= n,
    ensures
        lasts(after, rest),
{
    assert(lasts(after, (n - k) as nat));
    lemma_lasts_less(after, (n - k) as nat, rest);
}

/// An allocator to which frames were given back lasts as long as before.
pub proof fn lemma_given_back_lasts<A: FrameAllocator>(allocator: &A, frames: FrameIter, n: nat)
    ensures
        lasts(&allocator.given_back(frames), n) == lasts(allocator, n),
    decreases n,
{
    allocator.law_given_back(frames, 1);
    if n > 0 {
        lemma_given_back_lasts(&allocator.after(1), frames, (n - 1) as nat);
    }
}

/// Giving frames back takes no frame.
pub proof fn lemma_given_back_spends<A: FrameAllocator>(allocator: &A, frames: FrameIter)
    ensures
        spends(allocator, &allocator.given_back(frames), 0),
{
    assert forall|m: nat| #[trigger] lasts(allocator, m) && m >= 0 implies lasts(
        &allocator.given_back(frames),
        (m - 0) as nat,
    ) by {
        lemma_given_back_lasts(allocator, frames, m);
    }
}

/// A request for a single frame takes one frame at most, and an allocator
/// that lasts gets one.
pub proof fn lemma_request_spends<A: FrameAllocator>(allocator: &A)
    ensures
        spends(allocator, &allocator.after(1), 1),
        lasts(allocator, 1) ==> allocator.answer(1).is_some(),
{
}

/// Whether the allocator refuses a single frame.
pub open spec fn out_of_frames<A: FrameAllocator>(allocator: &A) -> bool {
    allocator.answer(1).is_none()
}

/// How many pages lie behind the first page of the region from which
/// stacks are handed out.
pub const STACK_REGION_PAGES: u64 = 100;

/// How many pages lie behind the first page of the region from which
/// other mappings are handed out: 256 MiB.
pub const PAGE_REGION_PAGES: u64 = 65536;

/// How many pages lie behind the first page of the region from which
/// grants are handed out: 256 MiB.
pub const GRANT_REGION_PAGES: u64 = 65536;

/// The number of the page that holds the last byte of the kernel heap.
pub open spec fn heap_end_page(heap_start: u64, heap_size: u64) -> u64 {
    ((heap_start + heap_size - 1) / PAGE_SIZE as int) as u64
}

/// The number of the last page that the memory controller lays out: the
/// last page of the grant region, which follows the page region, which
/// follows the stack region, which follows the heap.
pub open spec fn layout_end(heap_start: u64, heap_size: u64) -> u64 {
    (heap_end_page(heap_start, heap_size) + STACK_REGION_PAGES + PAGE_REGION_PAGES + GRANT_REGION_PAGES
        + 3) as u64
}

/// Whether each page with a number from `first` to `last` is canonical
/// and lies outside the recursive part of the address space.
pub open spec fn pages_usable_spec(first: u64, last: u64) -> bool {
    forall|number: u64|
        first <= number <= last ==> #[trigger] (Page { number }).valid() && !recursive(Page { number })
}

/// Whether the pages that the memory controller lays out are free for it:
/// the temporary page has none of the page numbers that the kernel's
/// regions need; and the pages of the heap, of the stack region, of the
/// page region and of the grant region, which follow one another, are
/// canonical, lie outside the
/// recursive part of the address space, have none of those numbers
/// either, and leave out the temporary page.
pub open spec fn layout_free(boot_info: &BootInformation, heap_start: u64, heap_size: u64) -> bool {
    &&& heap_size > 0
    &&& heap_start + heap_size - 1 <= u64::MAX
    &&& canonical(heap_start)
    &&& canonical((heap_start + heap_size - 1) as u64)
    &&& !covered(boot_info.regions(), REMAP_TEMPORARY_PAGE)
    &&& pages_usable_spec(heap_start / PAGE_SIZE, layout_end(heap_start, heap_size))
    &&& span_clear(boot_info.regions(), heap_start / PAGE_SIZE, layout_end(heap_start, heap_size))
    &&& !(heap_start / PAGE_SIZE <= REMAP_TEMPORARY_PAGE <= layout_end(heap_start, heap_size))
}

/// How many frames setting the kernel's memory up takes at most: what
/// mapping the kernel into its new address space takes, and for each page
/// of the heap one frame for the page and three at most for the tables on
/// its path.
pub open spec fn init_needs(boot_info: &BootInformation, heap_start: u64, heap_size: u64) -> nat {
    remap_needs(boot_info) + 4 * (heap_end_page(heap_start, heap_size) - heap_start / PAGE_SIZE + 1) as nat
}

/// Sets the kernel's memory up from what the boot loader tells.
///
/// A frame allocator is made over the memory areas, with the frames kept
/// out that lie between the first byte of the loaded sections and their
/// last, or hold a byte of the boot information: where the sections end
/// with a frame, the frame behind it is free. The kernel
/// is mapped into a new address space, which is loaded. The pages of the
/// heap are mapped writable, each to a frame of its own. The stack region
/// follows the heap, the page region follows the stack region, and the
/// grant region follows the page region.
///
/// It fails only for want of a frame, and the error says so. It does not
/// fail where the frame allocator that `boot_info` gives rise to answers
/// `init_needs` requests for a frame.
pub fn init(
    boot_info: &BootInformation,
    active_table: ActivePageTable,
    heap_start: u64,
    heap_size: u64,
) -> (result: Result<MemoryController, MapError>)
    requires
        boot_info.wf(),
        boot_info.has_kernel(),
        active_table.loaded(),
        forall|allocator: AreaFrameAllocator| #[trigger]
            boot_info.feeds(&allocator) ==> active_table.mapper.apart_from(allocator.available()),
        (TemporaryPage { page: Page { number: REMAP_TEMPORARY_PAGE } }).free_in(&active_table),
        covered(boot_info.regions(), active_table.mapper.root.number),
        layout_free(boot_info, heap_start, heap_size),
    ensures
        boot_info.frames_last(init_needs(boot_info, heap_start, heap_size)) ==> result.is_ok(),
        match result {
            Ok(controller) => {
                let mapper = &controller.active_table.mapper;
                let guard = active_table.mapper.root.number;
                let heap_end = heap_end_page(heap_start, heap_size);
                &&& controller.wf()
                &&& controller.temporary_page.page.number == REMAP_TEMPORARY_PAGE
                &&& controller.stack_allocator.range.start.number == heap_end + 1
                &&& controller.stack_allocator.range.end.number == heap_end + 1 + STACK_REGION_PAGES
                &&& controller.page_allocator.range.start.number == heap_end + STACK_REGION_PAGES + 2
                &&& controller.page_allocator.range.end.number == heap_end + STACK_REGION_PAGES
                    + PAGE_REGION_PAGES + 2
                &&& controller.grant_allocator.range.start.number == heap_end + STACK_REGION_PAGES
                    + PAGE_REGION_PAGES + 3
                &&& controller.grant_allocator.range.end.number == heap_end + STACK_REGION_PAGES
                    + PAGE_REGION_PAGES + GRANT_REGION_PAGES + 3
                &&& forall|number: u64|
                    heap_start / PAGE_SIZE <= number <= heap_end ==> match #[trigger] mapper.translation(
                        Page { number },
                    ) {
                        Some(frame) => {
                            &&& !controller.frame_allocator.available().contains(frame)
                            &&& mapper.leaf_entry(Page { number }) == Some(pack(frame, WRITABLE | PRESENT))
                        },
                        None => false,
                    }
                &&& forall|k: int, number: u64|
                    0 <= k < boot_info.regions().len() && #[trigger] boot_info.regions()[k].holds(number)
                        && number != guard ==> mapper.identity_mapped(boot_info.regions()[k], number)
                &&& mapper.translation(Page { number: guard }).is_none()
            },
            Err(_) => true,
        },
{
    let (kernel_start, kernel_end) = boot_info.kernel_bounds();
    let mut frame_allocator = AreaFrameAllocator::new(
        kernel_start,
        last_byte_of(kernel_end),
        boot_info.start_address(),
        last_byte_of(boot_info.end_address()),
        boot_info.areas(),
    );
    let ghost needs = init_needs(boot_info, heap_start, heap_size);
    let ghost first_allocator = frame_allocator;
    proof {
        assert(boot_info.kernel_spans(kernel_start, kernel_end));
        assert(boot_info.feeds(&frame_allocator));
        if boot_info.frames_last(needs) {
            let other = choose|allocator: AreaFrameAllocator|
                #[trigger] boot_info.feeds(&allocator) && lasts(&allocator, needs);
            boot_info.lemma_feeds_once(&other, &first_allocator);
            other.lemma_alike(&first_allocator, needs);
            lemma_lasts_less(&first_allocator, needs, remap_needs(boot_info));
        }
    }
    let ghost guard = active_table.mapper.root.number;
    let mut active_table = active_table;
    if let Err(error) = remap_kernel(&mut active_table, &mut frame_allocator, boot_info) {
        return Err(error);
    }
    let ghost remapped = active_table.mapper;
    let ghost spare = frame_allocator.available();
    // The kernel heap.
    let heap_start_page = Page::containing_address(heap_start);
    let heap_end_page = Page::containing_address(heap_start + (heap_size - 1));
    let heap = Page::range_inclusive(heap_start_page, heap_end_page);
    proof {
        assert forall|i: int| 0 <= i < heap.len() implies (#[trigger] page_at(heap, i)).valid() && !recursive(
            page_at(heap, i),
        ) && remapped.can_map(page_at(heap, i)) by {
            let number = page_at(heap, i).number;
            assert((Page { number }).valid());
        }
    }
    proof {
        lemma_flag_facts();
        if boot_info.frames_last(needs) {
            lemma_spent(&first_allocator, &frame_allocator, remap_needs(boot_info), needs, 4 * heap.len());
        }
    }
    let mapped = active_table.mapper.map_each(heap, WRITABLE, &mut frame_allocator);
    if let Err(error) = mapped {
        return Err(error);
    }
    // The regions for stacks and for other mappings follow the heap.
    let stack_alloc_start = heap_end_page + 1;
    let stack_alloc_end = stack_alloc_start + STACK_REGION_PAGES;
    let stack_allocator = StackAllocator::new(Page::range_inclusive(stack_alloc_start, stack_alloc_end));
    let page_alloc_start = stack_alloc_end + 1;
    let page_alloc_end = page_alloc_start + PAGE_REGION_PAGES;
    let page_allocator = PageAllocator::new(Page::range_inclusive(page_alloc_start, page_alloc_end));
    let grant_alloc_start = page_alloc_end + 1;
    let grant_alloc_end = grant_alloc_start + GRANT_REGION_PAGES;
    let grant_allocator = GrantAllocator::new(Page::range_inclusive(grant_alloc_start, grant_alloc_end));
    let temporary_page = TemporaryPage::new(Page { number: REMAP_TEMPORARY_PAGE });
    proof {
        let now = active_table.mapper;
        now.lemma_grown_loaded(&remapped, spare);
        let stack = stack_allocator.range;
        let pages = page_allocator.range;
        let grants = grant_allocator.range;
        assert forall|i: int| 0 <= i < grants.len() implies (#[trigger] page_at(grants, i)).valid()
            && !recursive(page_at(grants, i)) && now.can_map(page_at(grants, i)) by {
            let number = page_at(grants, i).number;
            assert((Page { number }).valid());
            assert(!covered(boot_info.regions(), number));
            assert(remapped.can_map(page_at(grants, i)));
        }
        assert((Page { number: grants.start.number }).valid());
        assert((Page { number: grants.end.number }).valid());
        assert forall|i: int| 0 <= i < stack.len() implies (#[trigger] page_at(stack, i)).valid()
            && !recursive(page_at(stack, i)) && now.can_map(page_at(stack, i)) by {
            let number = page_at(stack, i).number;
            assert((Page { number }).valid());
            assert(remapped.can_map(page_at(stack, i)));
        }
        assert forall|i: int| 0 <= i < pages.len() implies (#[trigger] page_at(pages, i)).valid()
            && !recursive(page_at(pages, i)) && now.can_map(page_at(pages, i)) by {
            let number = page_at(pages, i).number;
            assert((Page { number }).valid());
            assert(remapped.can_map(page_at(pages, i)));
        }
        assert((Page { number: stack.start.number }).valid());
        assert((Page { number: stack.end.number }).valid());
        assert((Page { number: pages.start.number }).valid());
        assert((Page { number: pages.end.number }).valid());
        let temporary = Page { number: REMAP_TEMPORARY_PAGE };
        assert(temporary.valid() && !recursive(temporary)) by {
            lemma_low_pages(temporary);
        }
        assert(remapped.can_map(temporary));
        assert(now.can_map(temporary));
        assert forall|number: u64|
            heap_start / PAGE_SIZE <= number <= heap_end_page.number implies match #[trigger] now.translation(
            Page { number },
        ) {
            Some(frame) => {
                &&& !frame_allocator.available().contains(frame)
                &&& now.leaf_entry(Page { number }) == Some(pack(frame, WRITABLE | PRESENT))
            },
            None => false,
        } by {
            let i = number - heap.start.number;
            assert(page_at(heap, i) == Page { number });
            assert(now.backed(page_at(heap, i), WRITABLE, spare, frame_allocator.available()));
            lemma_flag_facts();
        }
        assert forall|k: int, number: u64|
            0 <= k < boot_info.regions().len() && #[trigger] boot_info.regions()[k].holds(number)
                && number != guard implies now.identity_mapped(boot_info.regions()[k], number) by {
            assert(boot_info.regions()[k].wf());
            lemma_low_pages(Page { number });
            assert(remapped.identity_mapped(boot_info.regions()[k], number));
            assert(covered(boot_info.regions(), number));
            assert(remapped.leaf_entry(Page { number }).is_some());
        }
        assert(now.translation(Page { number: guard }).is_none()) by {
            let k = choose|k: int|
                0 <= k < boot_info.regions().len() && #[trigger] boot_info.regions()[k].holds(guard);
            assert(boot_info.regions()[k].wf());
            lemma_low_pages(Page { number: guard });
        }
    }
    Ok(
        MemoryController::new(
            active_table,
            frame_allocator,
            stack_allocator,
            page_allocator,
            grant_allocator,
            temporary_page,
        ),
    )
}

/// Whether each page with a number from `first` to `last` is canonical
/// and lies outside the recursive part of the address space.
pub fn pages_usable(first: u64, last: u64) -> (ok: bool)
    requires
        first <= last,
    ensures
        ok == pages_usable_spec(first, last),
        ok == (last < 0x8_0000_0000 || (first >= 0xf_fff8_0000_0000 && last < 0xf_ffff_f800_0000)),
{
    let ok = last < 0x8_0000_0000 || (first >= 0xf_fff8_0000_0000 && last < 0xf_ffff_f800_0000);
    proof {
        if ok {
            assert forall|number: u64| first <= number <= last implies #[trigger] (Page { number }).valid()
                && !recursive(Page { number }) by {
                lemma_upper_pages(number);
            }
        } else {
            let number = if first <= 0x8_0000_0000 && 0x8_0000_0000 <= last {
                0x8_0000_0000u64
            } else if first < 0xf_fff8_0000_0000 {
                first
            } else {
                last
            };
            lemma_upper_pages(number);
            assert(first <= number <= last);
            assert(!((Page { number }).valid() && !recursive(Page { number })));
        }
    }
    ok
}

/// Which pages are canonical and outside the recursive part of the
/// address space: those of the lower half, and those of the upper half
/// below the last 2^27.
pub proof fn lemma_upper_pages(number: u64)
    ensures
        (Page { number }).valid() && !recursive(Page { number }) <==> number < 0x8_0000_0000 || (
        0xf_fff8_0000_0000 <= number < 0xf_ffff_f800_0000),
{
    assert(((number >> 27) & 0o777 != 511 && (number < 0x8_0000_0000 || (0xf_fff8_0000_0000 <= number
        && number < 0x10_0000_0000_0000))) <==> (number < 0x8_0000_0000 || (0xf_fff8_0000_0000
        <= number && number < 0xf_ffff_f800_0000))) by (bit_vector);
}

/// Whether the pages that the memory controller lays out are free for it.
pub fn layout_is_free(boot_info: &BootInformation, regions: &Vec<Region>, heap_start: u64, heap_size: u64) -> (free:
    bool)
    requires
        regions@ == boot_info.regions(),
    ensures
        free == layout_free(boot_info, heap_start, heap_size),
{
    if heap_size == 0 || heap_start > u64::MAX - (heap_size - 1) {
        return false;
    }
    let heap_last = heap_start + (heap_size - 1);
    if !(heap_start < 0x0000_8000_0000_0000 || heap_start >= 0xffff_8000_0000_0000) {
        return false;
    }
    if !(heap_last < 0x0000_8000_0000_0000 || heap_last >= 0xffff_8000_0000_0000) {
        return false;
    }
    if covers(regions, REMAP_TEMPORARY_PAGE) {
        return false;
    }
    let first = heap_start / PAGE_SIZE;
    let last = heap_last / PAGE_SIZE + STACK_REGION_PAGES + PAGE_REGION_PAGES + GRANT_REGION_PAGES + 3;
    let usable = pages_usable(first, last);
    let clear = misses(regions, first, last);
    let free = usable && clear && !(first <= REMAP_TEMPORARY_PAGE && REMAP_TEMPORARY_PAGE <= last);
    proof {
        assert(last == layout_end(heap_start, heap_size));
    }
    free
}

/// Why the kernel's memory could not be set up.
#[derive(Debug, Clone, Copy, PartialEq, Eq, Structural)]
pub enum BootError {
    /// What the boot loader tells cannot be used as it is.
    Refused,
    /// The frames ran out.
    OutOfFrames,
}

/// Whether the memory of a machine can be set up from `boot_info` while
/// the table in `root` is loaded: the boot information is well formed and
/// names a loaded section, the loaded table lies in a frame that the
/// kernel needs mapped and that the frame allocator keeps to itself, and
/// the pages that the memory controller lays out are free for it.
pub open spec fn bootable(boot_info: &BootInformation, root: Frame, heap_start: u64, heap_size: u64) -> bool {
    &&& boot_info.wf()
    &&& boot_info.has_kernel()
    &&& covered(boot_info.regions(), root.number)
    &&& boot_info.reserved(root.number)
    &&& layout_free(boot_info, heap_start, heap_size)
}

/// Sets the kernel's memory up on a machine that has just been started:
/// the table in `root` is loaded and holds nothing yet but its recursive
/// slot. What `init` asks is tested here first, and where it does not
/// hold, the boot is refused.
pub fn boot(boot_info: &BootInformation, root: Frame, heap_start: u64, heap_size: u64) -> (result: Result<
    MemoryController,
    BootError,
>)
    ensures
        match result {
            Ok(controller) => {
                let mapper = &controller.active_table.mapper;
                let heap_end = heap_end_page(heap_start, heap_size);
                &&& bootable(boot_info, root, heap_start, heap_size)
                &&& controller.wf()
                &&& controller.temporary_page.page.number == REMAP_TEMPORARY_PAGE
                &&& controller.stack_allocator.range.start.number == heap_end + 1
                &&& controller.stack_allocator.range.end.number == heap_end + 1 + STACK_REGION_PAGES
                &&& controller.page_allocator.range.start.number == heap_end + STACK_REGION_PAGES + 2
                &&& controller.page_allocator.range.end.number == heap_end + STACK_REGION_PAGES
                    + PAGE_REGION_PAGES + 2
                &&& controller.grant_allocator.range.start.number == heap_end + STACK_REGION_PAGES
                    + PAGE_REGION_PAGES + 3
                &&& controller.grant_allocator.range.end.number == heap_end + STACK_REGION_PAGES
                    + PAGE_REGION_PAGES + GRANT_REGION_PAGES + 3
                &&& forall|number: u64|
                    heap_start / PAGE_SIZE <= number <= heap_end ==> match #[trigger] mapper.translation(
                        Page { number },
                    ) {
                        Some(frame) => {
                            &&& !controller.frame_allocator.available().contains(frame)
                            &&& mapper.leaf_entry(Page { number }) == Some(pack(frame, WRITABLE | PRESENT))
                        },
                        None => false,
                    }
                &&& forall|k: int, number: u64|
                    0 <= k < boot_info.regions().len() && #[trigger] boot_info.regions()[k].holds(number)
                        && number != root.number ==> mapper.identity_mapped(
                        boot_info.regions()[k],
                        number,
                    )
                &&& mapper.translation(Page { number: root.number }).is_none()
            },
            Err(BootError::Refused) => !bootable(boot_info, root, heap_start, heap_size),
            Err(BootError::OutOfFrames) => {
                &&& bootable(boot_info, root, heap_start, heap_size)
                &&& !boot_info.frames_last(init_needs(boot_info, heap_start, heap_size))
            },
        },
{
    if !boot_info.is_wf() || !boot_info.has_loaded_section() {
        return Err(BootError::Refused);
    }
    let regions = boot_info.kernel_regions();
    if !covers(&regions, root.number) || !boot_info.is_reserved(root.number) || !layout_is_free(
        boot_info,
        &regions,
        heap_start,
        heap_size,
    ) {
        return Err(BootError::Refused);
    }
    proof {
        let k = choose|k: int|
            0 <= k < boot_info.regions().len() && #[trigger] boot_info.regions()[k].holds(root.number);
        assert(boot_info.regions()[k].wf());
    }
    let ghost number = root.number;
    let active_table = ActivePageTable::new(root);
    proof {
        lemma_low_pages(Page { number: REMAP_TEMPORARY_PAGE });
        assert forall|allocator: AreaFrameAllocator| #[trigger]
            boot_info.feeds(&allocator) implies active_table.mapper.apart_from(
            allocator.available(),
        ) by {
            reveal(Mapper::apart_from);
            let (start, end) = choose|start: u64, end: u64|
                #[trigger] boot_info.kernel_spans(start, end) && allocator.kernel_start.number == start
                    / PAGE_SIZE && allocator.kernel_end.number == last_byte(end) / PAGE_SIZE;
            if !(boot_info.start / PAGE_SIZE <= number <= last_byte(boot_info.end) / PAGE_SIZE) {
                let (other_start, other_end) = choose|other_start: u64, other_end: u64|
                    #[trigger] boot_info.kernel_spans(other_start, other_end) && other_start / PAGE_SIZE
                        <= number <= last_byte(other_end) / PAGE_SIZE;
                boot_info.lemma_spans_once(start, end, other_start, other_end);
            }
            assert(allocator.reserved(number as int, 1));
            assert(!allocator.available().contains(number));
            assert forall|frame: u64| #[trigger]
                active_table.mapper.memory.is_table(
                    active_table.mapper.p4_spec(),
                    frame,
                ) implies !allocator.available().contains(frame) by {
                assert(active_table.mapper.is_table(frame));
            }
        }
    }
    match init(boot_info, active_table, heap_start, heap_size) {
        Ok(controller) => Ok(controller),
        Err(_) => Err(BootError::OutOfFrames),
    }
}

} // verus!
