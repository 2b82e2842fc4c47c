use kernel_memory::memory::area_frame_allocator::{AreaFrameAllocator, MemoryArea};
use kernel_memory::memory::paging::entry::{PRESENT, WRITABLE};
use kernel_memory::memory::paging::mapper::{CpuAction, MapError, Mapper};
use kernel_memory::memory::paging::temporary_page::TemporaryPage;
use kernel_memory::memory::paging::{ActivePageTable, InactivePageTable, Page};
use kernel_memory::memory::{Frame, FrameAllocator};

fn machine_of(frames: u64) -> (ActivePageTable, AreaFrameAllocator) {
    let areas = vec![MemoryArea::new(0x0, frames * 4096)];
    let mut allocator = AreaFrameAllocator::new(0x1000000, 0x1000fff, 0x2000000, 0x2000fff, areas);
    let root = allocator.allocate_frame().unwrap();
    (ActivePageTable::new(root), allocator)
}

fn temporary() -> TemporaryPage {
    TemporaryPage::new(Page { number: 0xcafebabe })
}

#[test]
fn temporary_page_maps_and_unmaps() {
    let (mut active, mut allocator) = machine_of(64);
    let mut page = temporary();
    let address = page.map(Frame { number: 40 }, &mut active, &mut allocator);
    assert_eq!(address, Ok(0xcafe_babe_000));
    assert_eq!(active.mapper.translate(0xcafe_babe_010), Some(40 * 4096 + 0x10));
    assert_eq!(
        active.mapper.memory.read(&Frame { number: 3 }, Page { number: 0xcafebabe }.p1_index()).flags(),
        PRESENT | WRITABLE
    );
    page.unmap(&mut active, &mut allocator);
    assert_eq!(active.mapper.translate(0xcafe_babe_010), None);
    assert_eq!(active.mapper.actions, vec![CpuAction::FlushPage(0xcafe_babe_000)]);
    // It can be used again, for another frame.
    assert_eq!(page.map_table_frame(Frame { number: 41 }, &mut active, &mut allocator), Ok(Frame { number: 41 }));
    assert_eq!(active.mapper.translate_page(Page { number: 0xcafebabe }), Some(Frame { number: 41 }));
}

#[test]
fn temporary_page_without_frames() {
    let (mut active, mut allocator) = machine_of(2);
    let mut page = temporary();
    let result = page.map(Frame { number: 40 }, &mut active, &mut allocator);
    assert_eq!(result, Err(MapError::OutOfFrames));
    assert_eq!(active.mapper.translate_page(Page { number: 0xcafebabe }), None);
}

#[test]
fn a_new_inactive_table_is_empty_and_maps_itself() {
    let (mut active, mut allocator) = machine_of(64);
    let mut page = temporary();
    let frame = allocator.allocate_frame().unwrap();
    assert_eq!(frame, Frame { number: 1 });
    // Something is in the frame before it becomes a table.
    active.mapper.memory.write(
        &Frame { number: 1 },
        7,
        kernel_memory::memory::paging::entry::Entry { value: 0xdead_b000 | 3 },
    );
    let table = InactivePageTable::new(frame, &mut active, &mut page, &mut allocator).unwrap();
    assert_eq!(table.p4_frame, Frame { number: 1 });
    for index in 0..511usize {
        assert_eq!(active.mapper.memory.read(&Frame { number: 1 }, index).value, 0);
    }
    assert_eq!(active.mapper.memory.read(&Frame { number: 1 }, 511).value, 0x1003);
    assert_eq!(active.mapper.translate_page(Page { number: 0xcafebabe }), None);
    assert_eq!(active.mapper.actions, vec![CpuAction::FlushPage(0xcafe_babe_000)]);
    assert_eq!(active.mapper.p4(), Frame { number: 0 });
}

#[test]
fn a_new_inactive_table_without_frames() {
    let (mut active, mut allocator) = machine_of(3);
    let mut page = temporary();
    let frame = allocator.allocate_frame().unwrap();
    let result = InactivePageTable::new(frame, &mut active, &mut page, &mut allocator);
    assert!(matches!(result, Err(MapError::OutOfFrames)));
    assert!(active.mapper.actions.is_empty());
}

#[test]
fn with_works_on_the_other_table() {
    let (mut active, mut allocator) = machine_of(64);
    let mut page = temporary();
    let here = Page { number: 0x1111 };
    let there = Page { number: 0x2222 };
    active.mapper.map_to(here, Frame { number: 50 }, WRITABLE, &mut allocator).unwrap();
    let frame = allocator.allocate_frame().unwrap();
    let mut table = InactivePageTable::new(frame, &mut active, &mut page, &mut allocator).unwrap();
    let seen = active
        .with(&mut table, &mut page, &mut allocator, |mapper: &mut Mapper, allocator: &mut AreaFrameAllocator| {
            assert_eq!(mapper.p4(), Frame { number: 4 });
            assert_eq!(mapper.translate_page(Page { number: 0x1111 }), None);
            mapper.map_to(Page { number: 0x2222 }, Frame { number: 51 }, WRITABLE, allocator).unwrap();
            mapper.translate_page(Page { number: 0x2222 })
        })
        .unwrap();
    assert_eq!(seen, Some(Frame { number: 51 }));
    // The active address space is as it was.
    assert_eq!(active.mapper.p4(), Frame { number: 0 });
    assert_eq!(active.mapper.translate_page(here), Some(Frame { number: 50 }));
    assert_eq!(active.mapper.translate_page(there), None);
    assert_eq!(active.mapper.translate_page(Page { number: 0xcafebabe }), None);
    assert_eq!(table.p4_frame, Frame { number: 4 });
}

#[test]
fn with_leaves_the_active_table_as_it_was() {
    let (mut active, mut allocator) = machine_of(128);
    let mut page = temporary();
    let mapped: Vec<u64> = vec![0x1111, 0x1112, 0x40000, 0x7_ffff_ffff, 0xf_fff8_0000_0000];
    for (i, number) in mapped.iter().enumerate() {
        active.mapper.map_to(Page { number: *number }, Frame { number: 100 + i as u64 }, WRITABLE, &mut allocator).unwrap();
    }
    let frame = allocator.allocate_frame().unwrap();
    let mut table = InactivePageTable::new(frame, &mut active, &mut page, &mut allocator).unwrap();
    let probes: Vec<u64> = vec![0, 0x1110, 0x1111, 0x1112, 0x1113, 0x40000, 0x40001, 0x7_ffff_ffff, 0xf_fff8_0000_0000, 0xcafebabe];
    let before: Vec<Option<Frame>> =
        probes.iter().map(|number| active.mapper.translate_page(Page { number: *number })).collect();
    let slot = active.mapper.memory.read(&Frame { number: 0 }, 511);
    active
        .with(&mut table, &mut page, &mut allocator, |mapper: &mut Mapper, allocator: &mut AreaFrameAllocator| {
            mapper.map(Page { number: 0x1111 }, WRITABLE, allocator).unwrap();
            mapper.map(Page { number: 0x5555 }, WRITABLE, allocator).unwrap();
            mapper.unmap(Page { number: 0x1111 }, allocator);
        })
        .unwrap();
    let after: Vec<Option<Frame>> =
        probes.iter().map(|number| active.mapper.translate_page(Page { number: *number })).collect();
    assert_eq!(before, after);
    assert_eq!(active.mapper.memory.read(&Frame { number: 0 }, 511), slot);
    assert_eq!(slot.value, 0x3);
}

#[test]
fn with_notes_what_the_processor_has_to_do() {
    let (mut active, mut allocator) = machine_of(64);
    let mut page = temporary();
    let frame = allocator.allocate_frame().unwrap();
    let mut table = InactivePageTable::new(frame, &mut active, &mut page, &mut allocator).unwrap();
    let _ = active.mapper.take_actions();
    active
        .with(&mut table, &mut page, &mut allocator, |mapper: &mut Mapper, allocator: &mut AreaFrameAllocator| {
            mapper.map(Page { number: 0x5555 }, WRITABLE, allocator).unwrap();
            mapper.unmap(Page { number: 0x5555 }, allocator);
        })
        .unwrap();
    assert_eq!(
        active.mapper.take_actions(),
        vec![
            CpuAction::FlushAll,
            CpuAction::FlushPage(0x5555000),
            CpuAction::FlushAll,
            CpuAction::FlushPage(0xcafe_babe_000),
        ]
    );
    assert!(active.mapper.actions.is_empty());
}

#[test]
fn with_without_frames_does_not_run_the_work() {
    let (mut active, mut allocator) = machine_of(128);
    let mut page = temporary();
    let frame = allocator.allocate_frame().unwrap();
    let mut table = InactivePageTable::new(frame, &mut active, &mut page, &mut allocator).unwrap();
    // Another temporary page, for which no table exists yet, and an
    // allocator that has nothing left.
    while allocator.allocate_frame().is_some() {}
    let mut other = TemporaryPage::new(Page::containing_address(0xffff_8000_0000_0000));
    let result = active.with(&mut table, &mut other, &mut allocator, |_: &mut Mapper, _: &mut AreaFrameAllocator| 7u8);
    assert_eq!(result, Err(MapError::OutOfFrames));
    assert_eq!(active.mapper.p4(), Frame { number: 0 });
}

#[test]
fn switch_loads_the_other_table() {
    let (mut active, mut allocator) = machine_of(64);
    let mut page = temporary();
    let here = Page { number: 0x1111 };
    active.mapper.map_to(here, Frame { number: 50 }, WRITABLE, &mut allocator).unwrap();
    let frame = allocator.allocate_frame().unwrap();
    let mut table = InactivePageTable::new(frame, &mut active, &mut page, &mut allocator).unwrap();
    let during = active
        .with(&mut table, &mut page, &mut allocator, |mapper: &mut Mapper, allocator: &mut AreaFrameAllocator| {
            mapper.map(Page { number: 0x2222 }, WRITABLE, allocator).unwrap();
            mapper.translate_page(Page { number: 0x2222 })
        })
        .unwrap();
    let _ = active.mapper.take_actions();
    let old = active.switch(table);
    assert_eq!(old.p4_frame, Frame { number: 0 });
    assert_eq!(active.mapper.root, Frame { number: 4 });
    assert_eq!(active.mapper.p4(), Frame { number: 4 });
    assert_eq!(active.mapper.actions, vec![CpuAction::LoadTable(0x4000)]);
    // What was mapped during `with` is there, and what the old table had is not.
    assert!(during.is_some());
    assert_eq!(active.mapper.translate_page(Page { number: 0x2222 }), during);
    assert_eq!(active.mapper.translate(0x2222_234), Some(during.unwrap().number * 4096 + 0x234));
    assert_eq!(active.mapper.translate_page(here), None);
    // And back.
    let new = active.switch(old);
    assert_eq!(new.p4_frame, Frame { number: 4 });
    assert_eq!(active.mapper.translate_page(here), Some(Frame { number: 50 }));
    assert_eq!(active.mapper.translate_page(Page { number: 0x2222 }), None);
}
