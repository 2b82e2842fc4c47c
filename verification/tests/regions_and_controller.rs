use kernel_memory::memory::area_frame_allocator::{AreaFrameAllocator, MemoryArea};
use kernel_memory::memory::controller::{page_count, MemoryController};
use kernel_memory::memory::grant_allocator::{Grant, GrantAllocator};
use kernel_memory::memory::page_allocator::PageAllocator;
use kernel_memory::memory::paging::entry::{NO_EXECUTE, PRESENT, WRITABLE};
use kernel_memory::memory::paging::mapper::{CpuAction, MapError, Mapper};
use kernel_memory::memory::paging::temporary_page::TemporaryPage;
use kernel_memory::memory::paging::{ActivePageTable, Page, PageIter};
use kernel_memory::memory::stack_allocator::{Stack, StackAllocator};
use kernel_memory::memory::{Frame, FrameAllocator};

fn run_of_pages(start: u64, end: u64) -> PageIter {
    Page::range_inclusive(Page { number: start }, Page { number: end })
}

fn fresh_machine(frames: u64) -> (ActivePageTable, AreaFrameAllocator) {
    let areas = vec![MemoryArea::new(0x0, frames * 4096)];
    let mut allocator = AreaFrameAllocator::new(0x1000000, 0x1000fff, 0x2000000, 0x2000fff, areas);
    let root = allocator.allocate_frame().unwrap();
    (ActivePageTable::new(root), allocator)
}

fn controller(frames: u64) -> MemoryController {
    let (active, allocator) = fresh_machine(frames);
    MemoryController::new(
        active,
        allocator,
        StackAllocator::new(run_of_pages(0x10000, 0x10064)),
        PageAllocator::new(run_of_pages(0x10065, 0x20065)),
        GrantAllocator::new(run_of_pages(0x20066, 0x30066)),
        TemporaryPage::new(Page { number: 0xcafebabe }),
    )
}

#[test]
fn page_allocator_hands_out_front_to_back() {
    let mut allocator = PageAllocator::new(run_of_pages(100, 109));
    assert_eq!(allocator.allocate(0), None);
    assert_eq!(allocator.allocate(3), Some(run_of_pages(100, 102)));
    assert_eq!(allocator.allocate(1), Some(run_of_pages(103, 103)));
    assert_eq!(allocator.allocate(7), None);
    assert_eq!(allocator.range, run_of_pages(104, 109));
    assert_eq!(allocator.allocate(6), Some(run_of_pages(104, 109)));
    assert_eq!(allocator.allocate(1), None);
}

#[test]
fn grant_allocator_maps_what_it_hands_out() {
    let (mut active, mut frames) = fresh_machine(64);
    let mut grants = GrantAllocator::new(run_of_pages(0x3000, 0x3007));
    let grant = grants.allocate(&mut active, &mut frames, 3, WRITABLE | NO_EXECUTE).unwrap();
    assert_eq!(grant, Grant { start: 0x3000_000, size: 3 * 4096 });
    assert_eq!(grant.start_address(), 0x3000_000);
    assert_eq!(grant.size(), 0x3000);
    assert_eq!(active.mapper.translate(0x3000_000), Some(0x1000));
    assert_eq!(active.mapper.translate(0x3002_fff), Some(0x3fff));
    assert_eq!(active.mapper.translate(0x3003_000), None);
    let table = active.mapper.memory.read(&Frame { number: 6 }, 0);
    assert_eq!(table.flags(), PRESENT | WRITABLE | NO_EXECUTE);
    let next = grants.allocate(&mut active, &mut frames, 1, WRITABLE).unwrap();
    assert_eq!(next.start_address(), 0x3003_000);
}

#[test]
fn grant_allocator_refuses_without_change() {
    let (mut active, mut frames) = fresh_machine(64);
    let mut grants = GrantAllocator::new(run_of_pages(0x3000, 0x3007));
    assert_eq!(grants.allocate(&mut active, &mut frames, 0, WRITABLE), None);
    assert_eq!(grants.allocate(&mut active, &mut frames, 9, WRITABLE), None);
    assert_eq!(grants.range, run_of_pages(0x3000, 0x3007));
    assert_eq!(frames.next_free_frame.number, 1);
    assert_eq!(active.mapper.translate(0x3000_000), None);
    assert!(grants.allocate(&mut active, &mut frames, 8, WRITABLE).is_some());
    assert_eq!(grants.allocate(&mut active, &mut frames, 1, WRITABLE), None);
}

#[test]
fn grant_allocator_without_frames() {
    let (mut active, mut frames) = fresh_machine(3);
    let mut grants = GrantAllocator::new(run_of_pages(0x3000, 0x3007));
    assert_eq!(grants.allocate(&mut active, &mut frames, 4, WRITABLE), None);
    // A request that is not met leaves the region as it was.
    assert_eq!(grants.range, run_of_pages(0x3000, 0x3007));
    assert_eq!(active.mapper.translate(0x3000_000), None);
    assert!(active.mapper.actions.is_empty());
}

#[test]
fn a_request_that_runs_out_of_frames_is_undone() {
    // Frame 0 is the highest table; four frames go to the pages, three to
    // the tables of the first two pages, and none is left for the table
    // of the third page, which lies behind a table boundary.
    let (mut active, mut frames) = fresh_machine(8);
    let mut grants = GrantAllocator::new(run_of_pages(0x31fe, 0x3205));
    assert_eq!(grants.allocate(&mut active, &mut frames, 4, WRITABLE), None);
    assert_eq!(grants.range, run_of_pages(0x31fe, 0x3205));
    for number in 0x31fe..=0x3205u64 {
        assert_eq!(active.mapper.translate_page(Page { number }), None);
        assert!(active.mapper.is_mappable(Page { number }));
    }
    assert_eq!(
        active.mapper.actions,
        vec![CpuAction::FlushPage(0x31fe_000), CpuAction::FlushPage(0x31ff_000)]
    );
    assert_eq!(frames.allocate_frame(), None);
    // The tables that were made stay, so with frames for the pages alone
    // the first two can be had.
    let mut stacks = StackAllocator::new(run_of_pages(0x31fe, 0x3205));
    assert_eq!(stacks.alloc_stack(&mut active, &mut frames, 2), None);
    assert_eq!(stacks.range, run_of_pages(0x31fe, 0x3205));
}

#[test]
fn with_frames_for_run_and_tables_the_request_is_met() {
    // One frame for the highest table, four for the pages, and three for
    // each page's tables at most: here four tables are needed.
    let (mut active, mut frames) = fresh_machine(9);
    let mut grants = GrantAllocator::new(run_of_pages(0x31fe, 0x3205));
    let grant = grants.allocate(&mut active, &mut frames, 4, WRITABLE).unwrap();
    assert_eq!(grant, Grant { start: 0x31fe_000, size: 4 * 4096 });
    assert_eq!(grants.range, run_of_pages(0x3202, 0x3205));
    // The pages' frames are the run that the allocator answered with.
    for i in 0..4u64 {
        assert_eq!(
            active.mapper.translate_page(Page { number: 0x31fe + i }),
            Some(Frame { number: 1 + i })
        );
    }
    assert!(active.mapper.actions.is_empty());
    assert_eq!(frames.allocate_frame(), None);
}

#[test]
fn map_pm_that_runs_out_of_frames_is_undone() {
    // The page region starts at page 0x10065; page 0x10200 needs a table
    // of its own, for which no frame is left.
    let mut memory = controller(4);
    let whole = memory.page_allocator.range;
    assert_eq!(memory.map_pm(0xfee0_0000, 0x19c * 4096, WRITABLE), None);
    assert_eq!(memory.page_allocator.range, whole);
    assert_eq!(memory.translate_address(0x10065_000), None);
    assert_eq!(memory.translate_address(0x101ff_000), None);
    assert_eq!(memory.active_table.mapper.actions.len(), 0x19b);
    assert_eq!(memory.active_table.mapper.actions[0], CpuAction::FlushPage(0x10065_000));
    assert_eq!(memory.active_table.mapper.actions[0x19a], CpuAction::FlushPage(0x101ff_000));
    // Within the tables that were made, a later request is met.
    assert_eq!(memory.map_pm(0xfee0_0000, 2 * 4096, WRITABLE), Some(0x10065_000));
    assert_eq!(memory.translate_address(0x10066_008), Some(0xfee0_1008));
}

#[test]
fn stack_allocator_maps_a_stack() {
    let (mut active, mut frames) = fresh_machine(64);
    let mut stacks = StackAllocator::new(run_of_pages(0x5000, 0x500f));
    assert_eq!(stacks.alloc_stack(&mut active, &mut frames, 0), None);
    let stack = stacks.alloc_stack(&mut active, &mut frames, 2).unwrap();
    assert_eq!(stack, Stack { top: 0x5002_000, bottom: 0x5000_000 });
    assert_eq!(stack.top(), 0x5002_000);
    assert_eq!(stack.bottom(), 0x5000_000);
    assert_eq!(active.mapper.translate(0x5000_000), Some(0x1000));
    assert_eq!(active.mapper.translate(0x5001_ff8), Some(0x2ff8));
    assert_eq!(active.mapper.translate(0x5002_000), None);
    assert_eq!(
        active.mapper.memory.read(&Frame { number: 5 }, 0).flags(),
        PRESENT | WRITABLE
    );
    let next = stacks.alloc_stack(&mut active, &mut frames, 1).unwrap();
    assert_eq!(next.bottom(), 0x5002_000);
    assert_eq!(next.top(), 0x5003_000);
    assert_eq!(stacks.alloc_stack(&mut active, &mut frames, 14), None);
    assert!(stacks.alloc_stack(&mut active, &mut frames, 13).is_some());
}

#[test]
fn bytes_round_up_to_pages() {
    assert_eq!(page_count(0), 0);
    assert_eq!(page_count(1), 1);
    assert_eq!(page_count(4095), 1);
    assert_eq!(page_count(4096), 1);
    assert_eq!(page_count(4097), 2);
    assert_eq!(page_count(33691392), 8226);
    assert_eq!(page_count(u64::MAX), 1 << 52);
}

#[test]
fn controller_allocates_virtual_memory() {
    let mut memory = controller(64);
    assert_eq!(memory.alloc_vm(0, WRITABLE), None);
    let first = memory.alloc_vm(4097, WRITABLE).unwrap();
    assert_eq!(first, 0x10065_000);
    assert_eq!(memory.translate_address(first), Some(0x1000));
    assert_eq!(memory.translate_address(first + 0x1abc), Some(0x2abc));
    assert_eq!(memory.translate_address(first + 0x2000), None);
    let second = memory.alloc_vm(1, WRITABLE).unwrap();
    assert_eq!(second, 0x10067_000);
    assert!(memory.translate_address(second).is_some());
}

#[test]
fn controller_maps_physical_memory() {
    let mut memory = controller(64);
    assert_eq!(memory.map_pm(0xfebf_0000, 0, WRITABLE), None);
    let start = memory.map_pm(0xfebf_0000, 0x2000, WRITABLE).unwrap();
    assert_eq!(start, 0x10065_000);
    assert_eq!(memory.translate_address(start), Some(0xfebf_0000));
    assert_eq!(memory.translate_address(start + 0x1234), Some(0xfebf_1234));
    assert_eq!(memory.translate_address(start + 0x2000), None);
    // No frame of the allocator backs the pages: only the tables took some.
    assert_eq!(memory.frame_allocator.next_free_frame.number, 4);
    let next = memory.map_pm(0x1_0000_0000, 4096, WRITABLE).unwrap();
    assert_eq!(next, 0x10067_000);
    assert_eq!(memory.translate_address(next + 8), Some(0x1_0000_0008));
}

#[test]
fn controller_allocates_stacks() {
    let mut memory = controller(256);
    let stack = memory.alloc_stack(4).unwrap();
    assert_eq!(stack.bottom(), 0x10000_000);
    assert_eq!(stack.top(), 0x10004_000);
    assert_eq!(memory.translate_address(0x10003_ff0), Some(0x4ff0));
    assert_eq!(memory.alloc_stack(0), None);
    assert_eq!(memory.alloc_stack(98), None);
    assert!(memory.alloc_stack(97).is_some());
}

#[test]
fn controller_makes_and_edits_address_spaces() {
    let mut memory = controller(64);
    let address = memory.alloc_vm(4096, WRITABLE).unwrap();
    let here = memory.translate_address(address);
    let mut table = memory.new_page_table().unwrap();
    let seen = memory
        .with_inactive_table(&mut table, |mapper: &mut Mapper, allocator: &mut AreaFrameAllocator| {
            mapper.map(Page { number: 0x999 }, WRITABLE, allocator).unwrap();
            mapper.translate(0x999_123)
        })
        .unwrap();
    assert!(seen.is_some());
    assert_eq!(memory.translate_address(address), here);
    assert_eq!(memory.translate_address(0x999_123), None);
    let old = memory.active_table.switch(table);
    assert_eq!(memory.translate_address(0x999_123), seen);
    assert_eq!(memory.translate_address(address), None);
    let _ = memory.active_table.switch(old);
    assert_eq!(memory.translate_address(address), here);
}

#[test]
fn controller_without_frames() {
    let mut memory = controller(2);
    assert!(memory.new_page_table().is_none());
    let mut memory = controller(1);
    assert!(memory.new_page_table().is_none());
    assert_eq!(memory.alloc_vm(4096, WRITABLE), None);
    assert_eq!(memory.alloc_stack(1), None);
    assert_eq!(memory.frame_allocator.allocate_frame(), None);
}

#[test]
fn controller_hands_out_grants() {
    let mut memory = controller(64);
    assert_eq!(memory.alloc_grant(0, WRITABLE), None);
    let grant = memory.alloc_grant(2, WRITABLE | NO_EXECUTE).unwrap();
    assert_eq!(grant, Grant { start: 0x20066_000, size: 0x2000 });
    assert_eq!(memory.translate_address(0x20066_000), Some(0x1000));
    assert_eq!(memory.translate_address(0x20067_fff), Some(0x2fff));
    assert_eq!(memory.translate_address(0x20068_000), None);
    // The other regions are as they were.
    assert_eq!(memory.alloc_vm(1, WRITABLE), Some(0x10065_000));
    assert_eq!(memory.alloc_stack(1).unwrap().bottom(), 0x10000_000);
    assert_eq!(memory.alloc_grant(1, WRITABLE).unwrap().start_address(), 0x20068_000);
}

#[test]
fn with_inactive_table_fails_only_for_want_of_a_table() {
    // No frame is left, but the tables on the path of the temporary page exist.
    let mut memory = controller(6);
    let mut table = memory.new_page_table().unwrap();
    while memory.frame_allocator.allocate_frame().is_some() {}
    let result = memory.with_inactive_table(&mut table, |_: &mut Mapper, _: &mut AreaFrameAllocator| 5u8);
    assert_eq!(result, Ok(5));
    // No frame is left, and the tables are missing.
    let mut memory = controller(6);
    let mut table = memory.new_page_table().unwrap();
    while memory.frame_allocator.allocate_frame().is_some() {}
    memory.temporary_page = TemporaryPage::new(Page { number: 0x7_0000_0000 });
    let result = memory.with_inactive_table(&mut table, |_: &mut Mapper, _: &mut AreaFrameAllocator| 5u8);
    assert_eq!(result, Err(MapError::OutOfFrames));
    assert_eq!(memory.frame_allocator.allocate_frame(), None);
    assert_eq!(memory.active_table.mapper.p4(), Frame { number: 0 });
}

#[test]
fn four_frames_make_a_new_address_space() {
    // One frame for the table and three for the tables on the path of
    // the temporary page.
    let mut memory = controller(5);
    let table = memory.new_page_table().unwrap();
    assert_eq!(table.p4_frame, Frame { number: 1 });
    let frames = &memory.active_table.mapper.memory;
    for index in 0..511usize {
        assert_eq!(frames.read(&table.p4_frame, index).value, 0);
    }
    assert_eq!(frames.read(&table.p4_frame, 511).value, 0x1000 | PRESENT | WRITABLE);
    // The path of the temporary page is there now: the next one takes
    // its own frame only.
    let mut memory = controller(6);
    assert!(memory.new_page_table().is_some());
    assert_eq!(memory.new_page_table().unwrap().p4_frame, Frame { number: 5 });
    assert_eq!(memory.frame_allocator.allocate_frame(), None);
}
