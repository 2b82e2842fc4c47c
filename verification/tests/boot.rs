use kernel_memory::memory::area_frame_allocator::MemoryArea;
use kernel_memory::memory::boot_info::{BootInformation, ElfSection, VGA_BUFFER};
use kernel_memory::memory::{boot, init, layout_is_free, pages_usable, BootError};
use kernel_memory::memory::paging::entry::{
    ELF_SECTION_ALLOCATED, ELF_SECTION_EXECUTABLE, ELF_SECTION_WRITABLE, NO_EXECUTE, PRESENT,
    WRITABLE,
};
use kernel_memory::memory::paging::identity::{covers, misses, regions_valid, Region};
use kernel_memory::memory::paging::mapper::{CpuAction, MapError};
use kernel_memory::memory::paging::{remap_kernel, ActivePageTable, Page, REMAP_TEMPORARY_PAGE};
use kernel_memory::memory::area_frame_allocator::AreaFrameAllocator;
use kernel_memory::memory::{
    Frame, FrameAllocator, GRANT_REGION_PAGES, PAGE_REGION_PAGES, STACK_REGION_PAGES,
};

// A kernel of three loaded sections at 1 MiB, with the loaded page table
// in its last section, and the boot information at 0x9000.
fn boot_information(memory: u64) -> BootInformation {
    BootInformation {
        start: 0x9000,
        end: 0x9800,
        memory_areas: vec![MemoryArea::new(0x0, 0x9f000), MemoryArea::new(0x100000, memory)],
        sections: vec![
            ElfSection::new(0, 0x100, 0),
            ElfSection::new(0x100000, 0x2800, ELF_SECTION_ALLOCATED | ELF_SECTION_EXECUTABLE),
            ElfSection::new(0x103000, 0x1000, ELF_SECTION_ALLOCATED),
            ElfSection::new(0x104000, 0x4000, ELF_SECTION_ALLOCATED | ELF_SECTION_WRITABLE),
            ElfSection::new(0x200000, 0x1000, ELF_SECTION_WRITABLE),
        ],
    }
}

fn booted() -> ActivePageTable {
    ActivePageTable::new(Frame { number: 0x105 })
}

#[test]
fn sections_tell_their_bounds() {
    let section = ElfSection::new(0x100000, 0x2800, ELF_SECTION_ALLOCATED | ELF_SECTION_EXECUTABLE);
    assert!(section.is_allocated());
    assert_eq!(section.start_address(), 0x100000);
    assert_eq!(section.end_address(), 0x102800);
    assert_eq!(section.size(), 0x2800);
    assert_eq!(section.flags(), 6);
    assert_eq!(section.frames(), Region { start: 0x100, end: 0x102, flags: PRESENT });
    assert!(!ElfSection::new(0x100000, 0x2800, ELF_SECTION_WRITABLE).is_allocated());
}

#[test]
fn kernel_bounds_span_the_loaded_sections() {
    let boot = boot_information(0x400000);
    assert_eq!(boot.kernel_bounds(), (0x100000, 0x108000));
    assert_eq!(boot.start_address(), 0x9000);
    assert_eq!(boot.end_address(), 0x9800);
    assert_eq!(VGA_BUFFER, 0xb8000);
}

#[test]
fn kernel_regions_follow_the_sections() {
    let boot = boot_information(0x400000);
    assert_eq!(
        boot.kernel_regions(),
        vec![
            Region { start: 1, end: 0, flags: 0 },
            Region { start: 0x100, end: 0x102, flags: PRESENT },
            Region { start: 0x103, end: 0x103, flags: PRESENT | NO_EXECUTE },
            Region { start: 0x104, end: 0x107, flags: PRESENT | WRITABLE | NO_EXECUTE },
            Region { start: 1, end: 0, flags: 0 },
            Region { start: 0xb8, end: 0xb8, flags: WRITABLE },
            Region { start: 9, end: 9, flags: PRESENT },
        ]
    );
    assert_eq!(boot.areas(), boot.memory_areas);
}

#[test]
fn remap_maps_the_kernel_and_leaves_a_guard_page() {
    let boot = boot_information(0x400000);
    let mut allocator =
        AreaFrameAllocator::new(0x100000, 0x107fff, 0x9000, 0x97ff, boot.areas());
    let mut table = booted();
    remap_kernel(&mut table, &mut allocator, &boot).unwrap();
    // The first free frame became the new highest table.
    assert_eq!(table.mapper.root, Frame { number: 0 });
    assert_eq!(table.mapper.p4(), Frame { number: 0 });
    for number in [0x100u64, 0x101, 0x102, 0x103, 0x104, 0x106, 0x107, 0xb8, 0x9] {
        assert_eq!(table.mapper.translate_page(Page { number }), Some(Frame { number }));
    }
    assert_eq!(table.mapper.translate(0x101234), Some(0x101234));
    // The old highest table's page is the guard page.
    assert_eq!(table.mapper.translate_page(Page { number: 0x105 }), None);
    for number in [0u64, 0x8, 0xa, 0xb7, 0xb9, 0xff, 0x108, 0x200, REMAP_TEMPORARY_PAGE] {
        assert_eq!(table.mapper.translate_page(Page { number }), None);
    }
    let actions = &table.mapper.actions;
    assert_eq!(actions[actions.len() - 2], CpuAction::LoadTable(0));
    assert_eq!(actions[actions.len() - 1], CpuAction::FlushPage(0x105000));
}

#[test]
fn remap_gives_each_section_its_flags() {
    let boot = boot_information(0x400000);
    let mut allocator =
        AreaFrameAllocator::new(0x100000, 0x107fff, 0x9000, 0x97ff, boot.areas());
    let mut table = booted();
    remap_kernel(&mut table, &mut allocator, &boot).unwrap();
    // Frame 0 became the new highest table, the frames 1 to 3 the tables
    // that the temporary page needed in the old tree, and the frames 4 to 6
    // the tables of the new tree; the last of them holds the pages 0 to 511.
    let low = Frame { number: 6 };
    assert_eq!(table.mapper.memory.read(&low, 0x100).flags(), PRESENT);
    assert_eq!(table.mapper.memory.read(&low, 0x103).flags(), PRESENT | NO_EXECUTE);
    assert_eq!(table.mapper.memory.read(&low, 0x104).flags(), PRESENT | WRITABLE | NO_EXECUTE);
    assert_eq!(table.mapper.memory.read(&low, 0xb8).flags(), PRESENT | WRITABLE);
    assert_eq!(table.mapper.memory.read(&low, 0x9).flags(), PRESENT);
    assert_eq!(table.mapper.memory.read(&low, 0x105).value, 0);
}

#[test]
fn remap_without_frames() {
    let boot = BootInformation {
        start: 0x9000,
        end: 0x9800,
        memory_areas: vec![MemoryArea::new(0x0, 0x3000)],
        sections: vec![ElfSection::new(0x100000, 0x8000, ELF_SECTION_ALLOCATED)],
    };
    let mut allocator = AreaFrameAllocator::new(0x100000, 0x107fff, 0x9000, 0x97ff, boot.areas());
    let mut table = booted();
    let result = remap_kernel(&mut table, &mut allocator, &boot);
    assert_eq!(result, Err(MapError::OutOfFrames));
    // The old table stays loaded, and nothing is mapped in it.
    assert_eq!(table.mapper.root, Frame { number: 0x105 });
    assert_eq!(table.mapper.p4(), Frame { number: 0x105 });
    assert_eq!(table.mapper.translate_page(Page { number: 0x100 }), None);
    assert_eq!(table.mapper.translate_page(Page { number: REMAP_TEMPORARY_PAGE }), None);
}

#[test]
fn init_sets_the_controller_up() {
    let boot = boot_information(0x400000);
    let heap_start = 0x4000_0000u64;
    let heap_size = 100 * 1024u64;
    let mut memory = init(&boot, booted(), heap_start, heap_size).unwrap();
    // The kernel is where it was, and the old highest table is guarded.
    assert_eq!(memory.translate_address(0x100000), Some(0x100000));
    assert_eq!(memory.translate_address(0x107fff), Some(0x107fff));
    assert_eq!(memory.translate_address(0xb8000), Some(0xb8000));
    assert_eq!(memory.translate_address(0x105000), None);
    // The heap is mapped, page by page.
    for page in 0..25u64 {
        assert!(memory.translate_address(heap_start + page * 4096).is_some());
    }
    assert_eq!(memory.translate_address(heap_start + 25 * 4096), None);
    assert_eq!(memory.translate_address(heap_start - 1), None);
    let entry = memory
        .active_table
        .mapper
        .translate_page(Page::containing_address(heap_start))
        .unwrap();
    assert!(!(0x100..=0x108).contains(&entry.number));
    assert_ne!(entry.number, 9);
    // The regions follow the heap.
    let heap_end = (heap_start + heap_size - 1) / 4096;
    assert_eq!(memory.stack_allocator.range.start.number, heap_end + 1);
    assert_eq!(memory.stack_allocator.range.end.number, heap_end + 1 + STACK_REGION_PAGES);
    assert_eq!(memory.page_allocator.range.start.number, heap_end + 2 + STACK_REGION_PAGES);
    assert_eq!(
        memory.page_allocator.range.end.number,
        heap_end + 2 + STACK_REGION_PAGES + PAGE_REGION_PAGES
    );
    assert_eq!(
        memory.grant_allocator.range.start.number,
        heap_end + 3 + STACK_REGION_PAGES + PAGE_REGION_PAGES
    );
    assert_eq!(
        memory.grant_allocator.range.end.number,
        heap_end + 3 + STACK_REGION_PAGES + PAGE_REGION_PAGES + GRANT_REGION_PAGES
    );
    assert_eq!(memory.temporary_page.page.number, REMAP_TEMPORARY_PAGE);
    // And the controller works.
    let stack = memory.alloc_stack(2).unwrap();
    assert_eq!(stack.bottom(), (heap_end + 1) * 4096);
    let address = memory.alloc_vm(8192, WRITABLE).unwrap();
    assert_eq!(address, (heap_end + 2 + STACK_REGION_PAGES) * 4096);
    assert!(memory.translate_address(address + 4096).is_some());
    let grant = memory.alloc_grant(1, WRITABLE).unwrap();
    assert_eq!(grant.start_address(), (heap_end + 3 + STACK_REGION_PAGES + PAGE_REGION_PAGES) * 4096);
    assert!(memory.new_page_table().is_some());
}

#[test]
fn init_keeps_the_reserved_frames_out() {
    let boot = boot_information(0x400000);
    let memory = init(&boot, booted(), 0x4000_0000, 4096).unwrap();
    assert_eq!(memory.frame_allocator.kernel_start, Frame { number: 0x100 });
    // The kernel ends where frame 0x108 starts: its last byte is in 0x107.
    assert_eq!(memory.frame_allocator.kernel_end, Frame { number: 0x107 });
    assert_eq!(memory.frame_allocator.multiboot_start, Frame { number: 9 });
    assert_eq!(memory.frame_allocator.multiboot_end, Frame { number: 9 });
    assert_eq!(memory.frame_allocator.areas, boot.memory_areas);
}

#[test]
fn init_without_frames() {
    let boot = boot_information(0x9000);
    let result = init(&boot, booted(), 0x4000_0000, 128 * 1024 * 1024);
    assert!(matches!(result, Err(MapError::OutOfFrames)));
}

fn kernel_at(sections: Vec<ElfSection>) -> BootInformation {
    BootInformation {
        start: 0x9000,
        end: 0x9800,
        memory_areas: vec![MemoryArea::new(0x0, 0x9f000), MemoryArea::new(0x100000, 0x400000)],
        sections,
    }
}

#[test]
fn boot_sets_the_memory_up() {
    let boot_info = boot_information(0x400000);
    let mut memory = boot(&boot_info, Frame { number: 0x105 }, 0x4000_0000, 100 * 1024).unwrap();
    assert_eq!(memory.translate_address(0x100abc), Some(0x100abc));
    assert_eq!(memory.translate_address(0x105000), None);
    assert!(memory.translate_address(0x4000_0000).is_some());
    assert_eq!(memory.active_table.mapper.root, Frame { number: 0 });
}

#[test]
fn boot_refuses_what_it_cannot_use() {
    let good = boot_information(0x400000);
    let refused = |result: Result<kernel_memory::memory::controller::MemoryController, BootError>| {
        matches!(result, Err(BootError::Refused))
    };
    // The loaded table lies outside what the kernel needs mapped.
    assert!(refused(boot(&good, Frame { number: 0x300 }, 0x4000_0000, 4096)));
    // The loaded table lies in a frame that the allocator would hand out.
    assert!(refused(boot(&good, Frame { number: 0xb8 }, 0x4000_0000, 4096)));
    // No heap, a heap outside the canonical addresses, a heap on the kernel,
    // a heap in the recursive part, a layout that runs over the temporary page.
    assert!(refused(boot(&good, Frame { number: 0x105 }, 0x4000_0000, 0)));
    assert!(refused(boot(&good, Frame { number: 0x105 }, 0x0000_8000_0000_0000, 4096)));
    assert!(refused(boot(&good, Frame { number: 0x105 }, 0x0000_7fff_ffff_f000, 0x2000)));
    assert!(refused(boot(&good, Frame { number: 0x105 }, 0x100000, 4096)));
    assert!(refused(boot(&good, Frame { number: 0x105 }, 0xffff_ff80_0000_0000, 4096)));
    assert!(refused(boot(&good, Frame { number: 0x105 }, 0xcafe_babe_000 - 0x20000, 4096)));
    assert!(refused(boot(&good, Frame { number: 0x105 }, u64::MAX - 10, 4096)));
    // No loaded section.
    assert!(refused(boot(&kernel_at(vec![ElfSection::new(0x100000, 0x1000, 0)]), Frame { number: 0x105 }, 0x4000_0000, 4096)));
    // A loaded section that does not start at the start of a page.
    assert!(refused(boot(
        &kernel_at(vec![ElfSection::new(0x100800, 0x8000, ELF_SECTION_ALLOCATED)]),
        Frame { number: 0x105 },
        0x4000_0000,
        4096
    )));
    // Two loaded sections that share a frame.
    assert!(refused(boot(
        &kernel_at(vec![
            ElfSection::new(0x100000, 0x5800, ELF_SECTION_ALLOCATED),
            ElfSection::new(0x105000, 0x1000, ELF_SECTION_ALLOCATED),
        ]),
        Frame { number: 0x105 },
        0x4000_0000,
        4096
    )));
    // A loaded section on the text screen's buffer, and one on the boot information.
    assert!(refused(boot(
        &kernel_at(vec![ElfSection::new(0xb8000, 0x100000, ELF_SECTION_ALLOCATED)]),
        Frame { number: 0x105 },
        0x4000_0000,
        4096
    )));
    assert!(refused(boot(
        &kernel_at(vec![ElfSection::new(0x9000, 0x100000, ELF_SECTION_ALLOCATED)]),
        Frame { number: 0x105 },
        0x4000_0000,
        4096
    )));
    // A loaded section that needs the temporary page.
    assert!(refused(boot(
        &kernel_at(vec![
            ElfSection::new(0x100000, 0x8000, ELF_SECTION_ALLOCATED),
            ElfSection::new(0xcafe_babe_000, 0x1000, ELF_SECTION_ALLOCATED),
        ]),
        Frame { number: 0x105 },
        0x4000_0000,
        4096
    )));
    // A loaded section above the lower half of the address space.
    assert!(refused(boot(
        &kernel_at(vec![
            ElfSection::new(0x100000, 0x8000, ELF_SECTION_ALLOCATED),
            ElfSection::new(0x0000_8000_0000_0000, 0x1000, ELF_SECTION_ALLOCATED),
        ]),
        Frame { number: 0x105 },
        0x4000_0000,
        4096
    )));
    // A section or a memory area that ends behind the address space.
    assert!(refused(boot(
        &kernel_at(vec![
            ElfSection::new(0x100000, 0x8000, ELF_SECTION_ALLOCATED),
            ElfSection::new(u64::MAX, 2, 0),
        ]),
        Frame { number: 0x105 },
        0x4000_0000,
        4096
    )));
    let mut areas = boot_information(0x400000);
    areas.memory_areas.push(MemoryArea::new(u64::MAX, 2));
    assert!(refused(boot(&areas, Frame { number: 0x105 }, 0x4000_0000, 4096)));
}

#[test]
fn boot_without_frames() {
    let boot_info = boot_information(0x9000);
    let result = boot(&boot_info, Frame { number: 0x105 }, 0x4000_0000, 128 * 1024 * 1024);
    assert!(matches!(result, Err(BootError::OutOfFrames)));
}

#[test]
fn the_checks_say_what_they_found() {
    let boot_info = boot_information(0x400000);
    assert!(boot_info.is_wf());
    assert!(boot_info.has_loaded_section());
    assert!(boot_info.is_reserved(0x100));
    assert!(boot_info.is_reserved(0x107));
    assert!(!boot_info.is_reserved(0x108));
    assert!(boot_info.is_reserved(9));
    assert!(!boot_info.is_reserved(0xa));
    assert!(!boot_info.is_reserved(0x109));
    assert!(!boot_info.is_reserved(0xff));
    assert!(!boot_info.is_reserved(8));
    let regions = boot_info.kernel_regions();
    assert!(regions_valid(&regions));
    assert!(covers(&regions, 0x107));
    assert!(covers(&regions, 0xb8));
    assert!(!covers(&regions, 0x108));
    assert!(!covers(&regions, 0));
    assert!(misses(&regions, 0x108, 0x1000));
    assert!(!misses(&regions, 0, 9));
    assert!(misses(&regions, 0xa, 0xb7));
    assert!(!misses(&regions, 0xa, 0xb8));
    assert!(layout_is_free(&boot_info, &regions, 0x4000_0000, 4096));
    assert!(!layout_is_free(&boot_info, &regions, 0x4000_0000, 0));
    assert!(pages_usable(0, 0x7_ffff_ffff));
    assert!(!pages_usable(0, 0x8_0000_0000));
    assert!(pages_usable(0xf_fff8_0000_0000, 0xf_ffff_f7ff_ffff));
    assert!(!pages_usable(0xf_fff8_0000_0000, 0xf_ffff_f800_0000));
    assert!(!pages_usable(0x7_ffff_ffff, 0xf_fff8_0000_0000));
    assert!(Region { start: 3, end: 5, flags: PRESENT }.overlaps(&Region { start: 5, end: 9, flags: 0 }));
    assert!(!Region { start: 3, end: 5, flags: PRESENT }.overlaps(&Region { start: 6, end: 9, flags: 0 }));
    assert!(!Region { start: 5, end: 3, flags: PRESENT }.overlaps(&Region { start: 0, end: 9, flags: 0 }));
    assert!(Region { start: 3, end: 5, flags: PRESENT | NO_EXECUTE }.is_wf());
    assert!(!Region { start: 3, end: 5, flags: 1 << 12 }.is_wf());
    assert!(!Region { start: 3, end: 0x8_0000_0000, flags: 0 }.is_wf());
    assert!(Region { start: 1, end: 0, flags: 0 }.is_wf());
}

// The regions of `boot_information` hold 3 + 1 + 4 + 1 + 1 = 10 frames, so
// mapping the kernel takes 7 + 3 * 10 = 37 frames at most.
fn allocator_with(frames: u64) -> AreaFrameAllocator {
    let areas = vec![MemoryArea::new(0x400000, frames * 4096)];
    AreaFrameAllocator::new(0x100000, 0x107fff, 0x9000, 0x97ff, areas)
}

#[test]
fn remap_succeeds_with_the_frames_it_may_need() {
    let boot = boot_information(0x400000);
    let mut allocator = allocator_with(37);
    let mut table = booted();
    assert_eq!(remap_kernel(&mut table, &mut allocator, &boot), Ok(()));
    assert_eq!(table.mapper.root, Frame { number: 0x400 });
    // It took fewer: the regions share their tables.
    assert_eq!(allocator.next_free_frame.number, 0x400 + 7);
}

#[test]
fn remap_fails_only_with_an_allocator_that_is_out_of_frames() {
    let boot = boot_information(0x400000);
    for frames in 0..7u64 {
        let mut allocator = allocator_with(frames);
        let mut table = booted();
        assert_eq!(remap_kernel(&mut table, &mut allocator, &boot), Err(MapError::OutOfFrames));
        assert_eq!(allocator.allocate_frame(), None);
        assert_eq!(table.mapper.root, Frame { number: 0x105 });
    }
    let mut allocator = allocator_with(7);
    let mut table = booted();
    assert_eq!(remap_kernel(&mut table, &mut allocator, &boot), Ok(()));
}

#[test]
fn init_succeeds_with_the_frames_it_may_need() {
    // A heap of 25 pages: 37 + 4 * 25 = 137 frames at most.
    let boot = BootInformation {
        start: 0x9000,
        end: 0x9800,
        memory_areas: vec![MemoryArea::new(0x400000, 137 * 4096)],
        sections: boot_information(0).sections,
    };
    let memory = init(&boot, booted(), 0x4000_0000, 100 * 1024).unwrap();
    // It took fewer: one for the new highest table, three for the temporary
    // page, three for the kernel's tables, two for the heap's tables, which
    // share the kernel's table of level 3, and 25 for the heap.
    assert_eq!(memory.frame_allocator.next_free_frame.number, 0x400 + 34);
    let short = BootInformation {
        start: 0x9000,
        end: 0x9800,
        memory_areas: vec![MemoryArea::new(0x400000, 33 * 4096)],
        sections: boot_information(0).sections,
    };
    assert!(matches!(init(&short, booted(), 0x4000_0000, 100 * 1024), Err(MapError::OutOfFrames)));
}

#[test]
fn a_kernel_that_ends_with_a_frame_leaves_the_next_frame_free() {
    // The loaded sections end at 0x108000, where frame 0x108 starts.
    let boot = boot_information(0x400000);
    let mut memory = init(&boot, booted(), 0x4000_0000, 4096).unwrap();
    assert_eq!(memory.frame_allocator.kernel_end, Frame { number: 0x107 });
    let mut handed_out = Vec::new();
    while let Some(frame) = memory.frame_allocator.allocate_frame() {
        handed_out.push(frame.number);
    }
    assert!(handed_out.contains(&0x108));
    assert!(!handed_out.contains(&0x107));
    assert!(!handed_out.contains(&9));
}
