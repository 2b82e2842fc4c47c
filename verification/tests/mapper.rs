use kernel_memory::memory::area_frame_allocator::{AreaFrameAllocator, MemoryArea};
use kernel_memory::memory::paging::entry::{
    Entry, HUGE_PAGE, NO_EXECUTE, PRESENT, USER_ACCESSIBLE, WRITABLE,
};
use kernel_memory::memory::paging::mapper::{CpuAction, MapError};
use kernel_memory::memory::paging::table::Mapping;
use kernel_memory::memory::paging::window::{next_table_address, table_address, P4_TABLE_ADDRESS};
use kernel_memory::memory::paging::{ActivePageTable, Page};
use kernel_memory::memory::{Frame, FrameAllocator};

fn small_machine() -> (ActivePageTable, AreaFrameAllocator) {
    let areas = vec![MemoryArea::new(0x0, 0x100000), MemoryArea::new(0x100000, 0x100000)];
    let mut allocator = AreaFrameAllocator::new(0x10000, 0x1ffff, 0x30000, 0x30fff, areas);
    let root = allocator.allocate_frame().unwrap();
    (ActivePageTable::new(root), allocator)
}

fn machine_with_frames(frames: u64) -> (ActivePageTable, AreaFrameAllocator) {
    let areas = vec![MemoryArea::new(0x0, frames * 4096)];
    let mut allocator = AreaFrameAllocator::new(0x100000, 0x100fff, 0x200000, 0x200fff, areas);
    let root = allocator.allocate_frame().unwrap();
    (ActivePageTable::new(root), allocator)
}

fn pages(start: u64, end: u64) -> kernel_memory::memory::paging::PageIter {
    Page::range_inclusive(Page { number: start }, Page { number: end })
}

#[test]
fn a_new_address_space_maps_nothing() {
    let (active, _) = small_machine();
    assert_eq!(active.mapper.translate(0), None);
    assert_eq!(active.mapper.translate(0x4000_0000), None);
    assert_eq!(active.mapper.translate(0xffff_8000_0000_0000), None);
    assert_eq!(active.mapper.translate_page(Page { number: 0xcafebabe }), None);
    assert!(active.mapper.is_mappable(Page { number: 0xcafebabe }));
    assert!(!active.mapper.is_mapped_small(Page { number: 0xcafebabe }));
    assert_eq!(active.mapper.p4(), Frame { number: 0 });
    assert!(active.mapper.actions.is_empty());
}

#[test]
fn the_recursive_slot_shows_the_table_itself() {
    let (active, _) = small_machine();
    let top = Page::containing_address(0xffff_ffff_ffff_f000);
    assert_eq!(active.mapper.translate_page(top), Some(Frame { number: 0 }));
    assert_eq!(active.mapper.memory.read(&Frame { number: 0 }, 511).value, 0x3);
}

#[test]
fn translate_keeps_the_offset() {
    let (mut active, mut allocator) = small_machine();
    let page = Page::containing_address(0x4000_0000);
    active.mapper.map_to(page, Frame { number: 0x155 }, WRITABLE, &mut allocator).unwrap();
    assert_eq!(active.mapper.translate(0x4000_0234), Some(0x155 * 4096 + 0x234));
    assert_eq!(active.mapper.translate(0x4000_0000), Some(0x155 * 4096));
    assert_eq!(active.mapper.translate(0x4000_0fff), Some(0x155 * 4096 + 0xfff));
    assert_eq!(active.mapper.translate(0x4000_1000), None);
    assert_eq!(active.mapper.translate(0x3fff_ffff), None);
}

#[test]
fn map_round_trip() {
    let (mut active, mut allocator) = small_machine();
    let page = Page::containing_address(0x0000_1234_5678_9000);
    active.mapper.map(page, WRITABLE | USER_ACCESSIBLE, &mut allocator).unwrap();
    // Frame 0 is the highest table; the page's own frame is taken first,
    // the three tables on its path after it.
    assert_eq!(active.mapper.translate_page(page), Some(Frame { number: 1 }));
    assert_eq!(active.mapper.translate(page.start_address()), Some(0x1000));
    assert_eq!(active.mapper.translate(page.start_address() + 0x234), Some(0x1234));
    assert_eq!(allocator.next_free_frame.number, 5);
    assert!(active.mapper.is_mapped_small(page));
    assert!(!active.mapper.is_mappable(page));
}

#[test]
fn map_to_sets_the_flags_and_present() {
    let (mut active, mut allocator) = small_machine();
    let page = Page { number: (1 << 27) | (2 << 18) | (3 << 9) | 4 };
    active.mapper.map_to(page, Frame { number: 0x99 }, WRITABLE | NO_EXECUTE, &mut allocator).unwrap();
    // Tables: frame 1 below the highest, frame 2 below that, frame 3 lowest.
    let p4 = active.mapper.memory.read(&Frame { number: 0 }, 1);
    assert_eq!(p4.value, 0x1003);
    let p3 = active.mapper.memory.read(&Frame { number: 1 }, 2);
    assert_eq!(p3.value, 0x2003);
    let p2 = active.mapper.memory.read(&Frame { number: 2 }, 3);
    assert_eq!(p2.value, 0x3003);
    let p1 = active.mapper.memory.read(&Frame { number: 3 }, 4);
    assert_eq!(p1.value, 0x8000_0000_0009_9003);
    assert_eq!(p1.flags(), PRESENT | WRITABLE | NO_EXECUTE);
    assert_eq!(active.mapper.memory.read(&Frame { number: 3 }, 5).value, 0);
}

#[test]
fn tables_are_made_once() {
    let (mut active, mut allocator) = small_machine();
    active.mapper.map_to(Page { number: 0x40000 }, Frame { number: 0x50 }, WRITABLE, &mut allocator).unwrap();
    assert_eq!(allocator.next_free_frame.number, 4);
    active.mapper.map_to(Page { number: 0x40001 }, Frame { number: 0x51 }, WRITABLE, &mut allocator).unwrap();
    assert_eq!(allocator.next_free_frame.number, 4);
    active.mapper.map_to(Page { number: 0x40200 }, Frame { number: 0x52 }, WRITABLE, &mut allocator).unwrap();
    assert_eq!(allocator.next_free_frame.number, 5);
    assert_eq!(active.mapper.translate_page(Page { number: 0x40000 }), Some(Frame { number: 0x50 }));
    assert_eq!(active.mapper.translate_page(Page { number: 0x40001 }), Some(Frame { number: 0x51 }));
    assert_eq!(active.mapper.translate_page(Page { number: 0x40200 }), Some(Frame { number: 0x52 }));
    assert_eq!(active.mapper.translate_page(Page { number: 0x40002 }), None);
}

#[test]
fn mapping_leaves_other_pages_alone() {
    let (mut active, mut allocator) = small_machine();
    let first = Page { number: 0x12345 };
    let second = Page { number: 0x12346 };
    let far = Page::containing_address(0xffff_8000_0000_0000);
    active.mapper.map_to(first, Frame { number: 0x60 }, WRITABLE, &mut allocator).unwrap();
    active.mapper.map_to(far, Frame { number: 0x61 }, WRITABLE, &mut allocator).unwrap();
    assert_eq!(active.mapper.translate_page(second), None);
    active.mapper.map_to(second, Frame { number: 0x62 }, WRITABLE, &mut allocator).unwrap();
    assert_eq!(active.mapper.translate_page(first), Some(Frame { number: 0x60 }));
    assert_eq!(active.mapper.translate_page(far), Some(Frame { number: 0x61 }));
    assert_eq!(active.mapper.translate_page(second), Some(Frame { number: 0x62 }));
}

#[test]
fn unmap_clears_the_entry_and_notes_the_flush() {
    let (mut active, mut allocator) = small_machine();
    let page = Page { number: 0x12345 };
    let neighbour = Page { number: 0x12344 };
    active.mapper.map_to(page, Frame { number: 0x60 }, WRITABLE, &mut allocator).unwrap();
    active.mapper.map_to(neighbour, Frame { number: 0x61 }, WRITABLE, &mut allocator).unwrap();
    let cursor = allocator.next_free_frame.number;
    active.mapper.unmap(page, &mut allocator);
    assert_eq!(active.mapper.translate_page(page), None);
    assert_eq!(active.mapper.translate_page(neighbour), Some(Frame { number: 0x61 }));
    assert_eq!(active.mapper.actions, vec![CpuAction::FlushPage(0x12345000)]);
    assert_eq!(allocator.next_free_frame.number, cursor);
    assert!(active.mapper.is_mappable(page));
    // The page can be mapped again, and no new table is needed.
    active.mapper.map_to(page, Frame { number: 0x70 }, PRESENT, &mut allocator).unwrap();
    assert_eq!(active.mapper.translate_page(page), Some(Frame { number: 0x70 }));
    assert_eq!(allocator.next_free_frame.number, cursor);
}

#[test]
fn identity_map_maps_a_frame_to_its_own_number() {
    let (mut active, mut allocator) = small_machine();
    active.mapper.identity_map(Frame { number: 0xb8 }, WRITABLE, &mut allocator).unwrap();
    assert_eq!(active.mapper.translate(0xb8000), Some(0xb8000));
    assert_eq!(active.mapper.translate(0xb8fff), Some(0xb8fff));
    assert_eq!(active.mapper.translate(0xb9000), None);
}

#[test]
fn map_range_takes_one_run_of_frames() {
    let (mut active, mut allocator) = small_machine();
    active.mapper.map_range(pages(0x1000, 0x1003), WRITABLE, &mut allocator).unwrap();
    for i in 0..4u64 {
        assert_eq!(
            active.mapper.translate_page(Page { number: 0x1000 + i }),
            Some(Frame { number: 1 + i })
        );
    }
    assert_eq!(active.mapper.translate_page(Page { number: 0x1004 }), None);
    assert_eq!(active.mapper.translate_page(Page { number: 0xfff }), None);
    // Four frames for the pages, then three for the tables.
    assert_eq!(allocator.next_free_frame.number, 8);
}

#[test]
fn map_range_without_frames_maps_nothing() {
    let (mut active, mut allocator) = machine_with_frames(4);
    let result = active.mapper.map_range(pages(0x1000, 0x1003), WRITABLE, &mut allocator);
    assert_eq!(result, Err(MapError::OutOfFrames));
    for i in 0..4u64 {
        assert_eq!(active.mapper.translate_page(Page { number: 0x1000 + i }), None);
    }
    assert_eq!(allocator.next_free_frame.number, 1);
}

#[test]
fn map_range_to_pairs_pages_with_frames() {
    let (mut active, mut allocator) = small_machine();
    let frames = Frame::range_inclusive(Frame { number: 0xfee00 }, Frame { number: 0xfee02 });
    active.mapper.map_range_to(pages(0x2000, 0x2002), frames, WRITABLE, &mut allocator).unwrap();
    assert_eq!(active.mapper.translate(0x2000_000), Some(0xfee0_0000));
    assert_eq!(active.mapper.translate(0x2001_008), Some(0xfee0_1008));
    assert_eq!(active.mapper.translate(0x2002_fff), Some(0xfee0_2fff));
    assert_eq!(active.mapper.translate(0x2003_000), None);
}

#[test]
fn map_range_to_stops_with_the_shorter_run() {
    let (mut active, mut allocator) = small_machine();
    let frames = Frame::range_inclusive(Frame { number: 0x500 }, Frame { number: 0x501 });
    active.mapper.map_range_to(pages(0x2000, 0x2003), frames, WRITABLE, &mut allocator).unwrap();
    assert_eq!(active.mapper.translate_page(Page { number: 0x2000 }), Some(Frame { number: 0x500 }));
    assert_eq!(active.mapper.translate_page(Page { number: 0x2001 }), Some(Frame { number: 0x501 }));
    assert_eq!(active.mapper.translate_page(Page { number: 0x2002 }), None);
    let frames = Frame::range_inclusive(Frame { number: 0x600 }, Frame { number: 0x6ff });
    active.mapper.map_range_to(pages(0x3000, 0x3000), frames, WRITABLE, &mut allocator).unwrap();
    assert_eq!(active.mapper.translate_page(Page { number: 0x3000 }), Some(Frame { number: 0x600 }));
    assert_eq!(active.mapper.translate_page(Page { number: 0x3001 }), None);
}

#[test]
fn map_each_takes_a_frame_per_page() {
    let (mut active, mut allocator) = small_machine();
    active.mapper.map_each(pages(0x1000, 0x1002), WRITABLE, &mut allocator).unwrap();
    // The first page takes its frame and then its three tables.
    assert_eq!(active.mapper.translate_page(Page { number: 0x1000 }), Some(Frame { number: 1 }));
    assert_eq!(active.mapper.translate_page(Page { number: 0x1001 }), Some(Frame { number: 5 }));
    assert_eq!(active.mapper.translate_page(Page { number: 0x1002 }), Some(Frame { number: 6 }));
}

#[test]
fn unmap_range_unmaps_each_page() {
    let (mut active, mut allocator) = small_machine();
    active.mapper.map_range(pages(0x1000, 0x1003), WRITABLE, &mut allocator).unwrap();
    active.mapper.unmap_range(pages(0x1001, 0x1002), &mut allocator);
    assert_eq!(active.mapper.translate_page(Page { number: 0x1000 }), Some(Frame { number: 1 }));
    assert_eq!(active.mapper.translate_page(Page { number: 0x1001 }), None);
    assert_eq!(active.mapper.translate_page(Page { number: 0x1002 }), None);
    assert_eq!(active.mapper.translate_page(Page { number: 0x1003 }), Some(Frame { number: 4 }));
    assert_eq!(
        active.mapper.actions,
        vec![CpuAction::FlushPage(0x1001000), CpuAction::FlushPage(0x1002000)]
    );
}

#[test]
fn out_of_frames_is_an_error_and_maps_nothing() {
    let (mut active, mut allocator) = machine_with_frames(3);
    let page = Page { number: 0x12345 };
    let result = active.mapper.map_to(page, Frame { number: 0x60 }, WRITABLE, &mut allocator);
    assert_eq!(result, Err(MapError::OutOfFrames));
    assert_eq!(active.mapper.translate_page(page), None);
    assert!(active.mapper.is_mappable(page));
    let (mut active, mut allocator) = machine_with_frames(1);
    assert_eq!(active.mapper.map(page, WRITABLE, &mut allocator), Err(MapError::OutOfFrames));
    assert_eq!(active.mapper.translate_page(page), None);
}

#[test]
fn map_needs_a_frame_for_the_page_and_three_for_tables() {
    let (mut active, mut allocator) = machine_with_frames(5);
    let page = Page { number: 0x12345 };
    assert_eq!(active.mapper.map(page, WRITABLE, &mut allocator), Ok(()));
    assert_eq!(active.mapper.translate_page(page), Some(Frame { number: 1 }));
    assert_eq!(allocator.allocate_frame(), None);
}

#[test]
fn huge_pages_are_read() {
    let (mut active, mut allocator) = small_machine();
    // A page of 2 MiB at the second entry of a table of level 2, and a
    // page of 1 GiB at the third entry of the table of level 3.
    active.mapper.map_to(Page { number: 0 }, Frame { number: 0x300 }, WRITABLE, &mut allocator).unwrap();
    let mut entry = Entry { value: 0 };
    entry.set(Frame { number: 0x400 }, PRESENT | HUGE_PAGE);
    active.mapper.memory.write(&Frame { number: 2 }, 1, entry);
    entry.set(Frame { number: 0x40000 }, PRESENT | HUGE_PAGE | WRITABLE);
    active.mapper.memory.write(&Frame { number: 1 }, 2, entry);
    assert_eq!(active.mapper.translate_page(Page { number: 0x200 }), Some(Frame { number: 0x400 }));
    assert_eq!(active.mapper.translate_page(Page { number: 0x237 }), Some(Frame { number: 0x437 }));
    assert_eq!(active.mapper.translate(0x2371_23), Some(0x4371_23));
    assert_eq!(active.mapper.translate_page(Page { number: 0x400 }), None);
    assert_eq!(
        active.mapper.translate_page(Page { number: 2 << 18 }),
        Some(Frame { number: 0x40000 })
    );
    assert_eq!(
        active.mapper.translate_page(Page { number: (2 << 18) | (5 << 9) | 7 }),
        Some(Frame { number: 0x40000 + 5 * 512 + 7 })
    );
    assert!(!active.mapper.is_mappable(Page { number: 0x237 }));
    assert!(!active.mapper.is_mapped_small(Page { number: 0x237 }));
    assert_eq!(active.mapper.lookup(Page { number: 0x237 }), Mapping::Page2M(Frame { number: 0x400 }));
    assert_eq!(
        active.mapper.lookup(Page { number: (2 << 18) | (5 << 9) | 7 }),
        Mapping::Page1G(Frame { number: 0x40000 })
    );
    assert_eq!(active.mapper.lookup(Page { number: 0 }), Mapping::Page4K(Frame { number: 0x300 }));
    assert_eq!(active.mapper.lookup(Page { number: 1 }), Mapping::Unmapped);
    assert_eq!(active.mapper.lookup(Page { number: 0x400 }), Mapping::Unmapped);
    assert_eq!(active.mapper.lookup(Page { number: 9 << 27 }), Mapping::Unmapped);
    assert_eq!(active.mapper.translate_page(Page { number: 0 }), Some(Frame { number: 0x300 }));
}

#[test]
fn resolve_walks_from_the_loaded_table() {
    let (mut active, mut allocator) = small_machine();
    let page = Page { number: 0x777 };
    active.mapper.map_to(page, Frame { number: 0x60 }, WRITABLE, &mut allocator).unwrap();
    assert_eq!(active.mapper.resolve(page), Some(Frame { number: 0x60 }));
    assert_eq!(active.mapper.resolve(Page { number: 0x778 }), None);
}

#[test]
fn tables_are_seen_through_their_windows() {
    let (mut active, mut allocator) = small_machine();
    let page = Page { number: (1 << 27) | (2 << 18) | (3 << 9) | 4 };
    active.mapper.map_to(page, Frame { number: 0x99 }, WRITABLE, &mut allocator).unwrap();
    assert_eq!(P4_TABLE_ADDRESS, 0o177777_777_777_777_777_0000);
    assert_eq!(table_address(page, 4), 0o177777_777_777_777_777_0000);
    assert_eq!(table_address(page, 3), 0o177777_777_777_777_001_0000);
    assert_eq!(table_address(page, 2), 0o177777_777_777_001_002_0000);
    assert_eq!(table_address(page, 1), 0o177777_777_001_002_003_0000);
    assert_eq!(next_table_address(0o177777_777_777_777_001_0000, 2), 0o177777_777_777_001_002_0000);
    // Frame 0 is the highest table, the frames 1 to 3 are the tables below it.
    assert_eq!(active.mapper.translate(table_address(page, 4)), Some(0x0000));
    assert_eq!(active.mapper.translate(table_address(page, 3)), Some(0x1000));
    assert_eq!(active.mapper.translate(table_address(page, 2)), Some(0x2000));
    assert_eq!(active.mapper.translate(table_address(page, 1)), Some(0x3000));
    // The entry of the page itself lies at index 4 of the lowest table.
    assert_eq!(active.mapper.translate(table_address(page, 1) + 4 * 8), Some(0x3020));
    // A path without tables has no windows below the highest table.
    let other = Page { number: 7 << 27 };
    assert_eq!(active.mapper.translate(table_address(other, 3)), None);
    assert_eq!(active.mapper.translate(table_address(other, 1)), None);
}

#[test]
fn mapping_changes_nothing_that_was_reached_before() {
    let (mut active, mut allocator) = small_machine();
    let first = Page { number: (1 << 27) | (2 << 18) | (3 << 9) | 4 };
    active.mapper.map_to(first, Frame { number: 0x99 }, WRITABLE, &mut allocator).unwrap();
    let probes: Vec<u64> = vec![
        first.start_address(),
        table_address(first, 1),
        table_address(first, 2),
        table_address(first, 3),
        table_address(first, 4),
    ];
    let before: Vec<Option<u64>> = probes.iter().map(|address| active.mapper.translate(*address)).collect();
    assert!(before.iter().all(|reached| reached.is_some()));
    // A neighbour in the same table, a page below another table of level 2,
    // and a page in the upper half of the address space.
    active.mapper.map(Page { number: first.number + 1 }, WRITABLE, &mut allocator).unwrap();
    active.mapper.map(Page { number: first.number + 512 }, WRITABLE, &mut allocator).unwrap();
    active.mapper.map(Page::containing_address(0xffff_8000_0000_0000), WRITABLE, &mut allocator).unwrap();
    let after: Vec<Option<u64>> = probes.iter().map(|address| active.mapper.translate(*address)).collect();
    assert_eq!(before, after);
    // Unmapping changes what the page itself leads to, and nothing else.
    active.mapper.unmap(Page { number: first.number + 1 }, &mut allocator);
    let last: Vec<Option<u64>> = probes.iter().map(|address| active.mapper.translate(*address)).collect();
    assert_eq!(before, last);
    assert_eq!(active.mapper.translate(first.start_address() + 4096), None);
}

#[test]
fn new_tables_are_cleared_and_hung_in_present_and_writable() {
    let (mut active, mut allocator) = small_machine();
    // Page 0x40201 has the indices 0, 1, 1, 1, counted from the top.
    let page = Page { number: 0x40201 };
    active.mapper.map_to(page, Frame { number: 0x50 }, NO_EXECUTE, &mut allocator).unwrap();
    let memory = &active.mapper.memory;
    // The tables took the frames 1, 2 and 3, from the top down.
    assert_eq!(memory.read(&Frame { number: 0 }, 0).value, 0x1000 | PRESENT | WRITABLE);
    assert_eq!(memory.read(&Frame { number: 1 }, 1).value, 0x2000 | PRESENT | WRITABLE);
    assert_eq!(memory.read(&Frame { number: 2 }, 1).value, 0x3000 | PRESENT | WRITABLE);
    assert_eq!(memory.read(&Frame { number: 3 }, 1).value, 0x50000 | PRESENT | NO_EXECUTE);
    for table in 1..=3u64 {
        for index in 0..512usize {
            if index != 1 {
                assert_eq!(memory.read(&Frame { number: table }, index).value, 0);
            }
        }
    }
}

#[test]
fn map_takes_the_frame_that_the_allocator_answers_with() {
    let (mut active, mut allocator) = small_machine();
    let (_, mut twin) = small_machine();
    let answer = twin.allocate_frames(1).unwrap();
    active.mapper.map(Page { number: 0x77 }, WRITABLE, &mut allocator).unwrap();
    assert_eq!(active.mapper.translate_page(Page { number: 0x77 }), Some(answer.start));
}

#[test]
fn map_range_takes_the_run_that_the_allocator_answers_with() {
    let (mut active, mut allocator) = small_machine();
    let (_, mut twin) = small_machine();
    let answer = twin.allocate_frames(3).unwrap();
    active.mapper.map_range(pages(0x900, 0x902), WRITABLE, &mut allocator).unwrap();
    for i in 0..3u64 {
        assert_eq!(
            active.mapper.translate_page(Page { number: 0x900 + i }),
            Some(Frame { number: answer.start.number + i })
        );
    }
}

#[test]
fn unmapping_keeps_the_tables() {
    let (mut active, mut allocator) = small_machine();
    let page = Page { number: 0x40000 };
    active.mapper.map_to(page, Frame { number: 0x50 }, WRITABLE, &mut allocator).unwrap();
    active.mapper.unmap(page, &mut allocator);
    let cursor = allocator.next_free_frame.number;
    active.mapper.map_to(page, Frame { number: 0x51 }, WRITABLE, &mut allocator).unwrap();
    assert_eq!(allocator.next_free_frame.number, cursor);
    assert_eq!(active.mapper.translate_page(page), Some(Frame { number: 0x51 }));
}

#[test]
fn unmap_front_undoes_a_mapping_that_stopped_half_way() {
    let (mut active, mut allocator) = small_machine();
    let frames = Frame::range_inclusive(Frame { number: 0x500 }, Frame { number: 0x501 });
    active.mapper.map_range_to(pages(0x2000, 0x2003), frames, WRITABLE, &mut allocator).unwrap();
    assert_eq!(active.mapper.unmap_front(pages(0x2000, 0x2003), &mut allocator), 2);
    for number in 0x2000..=0x2003u64 {
        assert_eq!(active.mapper.translate_page(Page { number }), None);
        assert!(active.mapper.is_mappable(Page { number }));
    }
    assert_eq!(
        active.mapper.actions,
        vec![CpuAction::FlushPage(0x2000_000), CpuAction::FlushPage(0x2001_000)]
    );
    // With nothing mapped there is nothing to undo.
    assert_eq!(active.mapper.unmap_front(pages(0x2000, 0x2003), &mut allocator), 0);
    assert_eq!(active.mapper.actions.len(), 2);
}

#[test]
fn map_range_to_leaves_the_pages_behind_the_last_frame_unmapped() {
    let (mut active, mut allocator) = small_machine();
    let frames = Frame::range_inclusive(Frame { number: 0x500 }, Frame { number: 0x500 });
    active.mapper.map_range_to(pages(0x2000, 0x2002), frames, WRITABLE, &mut allocator).unwrap();
    assert_eq!(active.mapper.translate_page(Page { number: 0x2000 }), Some(Frame { number: 0x500 }));
    assert_eq!(active.mapper.translate_page(Page { number: 0x2001 }), None);
    assert_eq!(active.mapper.translate_page(Page { number: 0x2002 }), None);
    assert!(active.mapper.is_mappable(Page { number: 0x2001 }));
}

#[test]
fn identity_map_takes_three_frames_at_most() {
    let (mut active, mut allocator) = machine_with_frames(4);
    assert_eq!(active.mapper.identity_map(Frame { number: 0x300 }, WRITABLE, &mut allocator), Ok(()));
    assert_eq!(allocator.allocate_frame(), None);
    let (mut active, mut allocator) = machine_with_frames(3);
    assert_eq!(
        active.mapper.identity_map(Frame { number: 0x300 }, WRITABLE, &mut allocator),
        Err(MapError::OutOfFrames)
    );
    assert_eq!(allocator.allocate_frame(), None);
}

#[test]
fn pointed_table_follows_entries_that_point_at_tables() {
    let (mut active, mut allocator) = small_machine();
    active.mapper.map_to(Page { number: 0x40201 }, Frame { number: 0x50 }, WRITABLE, &mut allocator).unwrap();
    let highest = Frame { number: 0 };
    assert_eq!(active.mapper.pointed_table(&highest, 0), Some(Frame { number: 1 }));
    assert_eq!(active.mapper.pointed_table(&highest, 1), None);
    assert_eq!(active.mapper.pointed_table(&highest, 511), Some(Frame { number: 0 }));
    assert_eq!(active.mapper.pointed_table(&Frame { number: 2 }, 1), Some(Frame { number: 3 }));
    // The page's own entry points at a frame too: at the lowest level an
    // entry is read as the page's, whatever it looks like.
    assert_eq!(active.mapper.pointed_table(&Frame { number: 3 }, 1), Some(Frame { number: 0x50 }));
    assert_eq!(active.mapper.pointed_table(&Frame { number: 3 }, 2), None);
}
