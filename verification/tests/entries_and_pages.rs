use kernel_memory::memory::layout;
use kernel_memory::memory::paging::entry::{
    contains, from_elf_section_flags, Entry, ACCESSED, ALL_FLAGS, DIRTY, ELF_SECTION_ALLOCATED,
    ELF_SECTION_EXECUTABLE, ELF_SECTION_WRITABLE, GLOBAL, HUGE_PAGE, NO_CACHE, NO_EXECUTE, PRESENT,
    USER_ACCESSIBLE, WRITABLE, WRITE_THROUGH,
};
use kernel_memory::memory::paging::{Page, PageIter, ENTRY_COUNT};
use kernel_memory::memory::{Frame, PAGE_SIZE};

#[test]
fn flag_bits() {
    assert_eq!(PRESENT, 1 << 0);
    assert_eq!(WRITABLE, 1 << 1);
    assert_eq!(USER_ACCESSIBLE, 1 << 2);
    assert_eq!(WRITE_THROUGH, 1 << 3);
    assert_eq!(NO_CACHE, 1 << 4);
    assert_eq!(ACCESSED, 1 << 5);
    assert_eq!(DIRTY, 1 << 6);
    assert_eq!(HUGE_PAGE, 1 << 7);
    assert_eq!(GLOBAL, 1 << 8);
    assert_eq!(NO_EXECUTE, 1 << 63);
    assert_eq!(ALL_FLAGS, 0x8000_0000_0000_01ff);
    assert_eq!(PAGE_SIZE, 4096);
    assert_eq!(ENTRY_COUNT, 512);
}

#[test]
fn contains_asks_for_every_bit() {
    assert!(contains(PRESENT | WRITABLE, PRESENT));
    assert!(contains(PRESENT | WRITABLE, PRESENT | WRITABLE));
    assert!(!contains(PRESENT, PRESENT | WRITABLE));
    assert!(contains(PRESENT, 0));
}

#[test]
fn elf_flags_become_entry_flags() {
    assert_eq!(from_elf_section_flags(0), NO_EXECUTE);
    assert_eq!(from_elf_section_flags(ELF_SECTION_ALLOCATED), PRESENT | NO_EXECUTE);
    assert_eq!(
        from_elf_section_flags(ELF_SECTION_ALLOCATED | ELF_SECTION_WRITABLE),
        PRESENT | WRITABLE | NO_EXECUTE
    );
    assert_eq!(from_elf_section_flags(ELF_SECTION_ALLOCATED | ELF_SECTION_EXECUTABLE), PRESENT);
    assert_eq!(
        from_elf_section_flags(
            ELF_SECTION_ALLOCATED | ELF_SECTION_WRITABLE | ELF_SECTION_EXECUTABLE
        ),
        PRESENT | WRITABLE
    );
    assert_eq!(from_elf_section_flags(ELF_SECTION_EXECUTABLE | 0xf0), 0);
}

#[test]
fn an_entry_packs_frame_and_flags() {
    let mut entry = Entry { value: 0 };
    assert!(entry.is_unused());
    assert_eq!(entry.pointed_frame(), None);
    entry.set(Frame { number: 0x1234 }, PRESENT | WRITABLE | NO_EXECUTE);
    assert_eq!(entry.value, 0x8000_0000_0123_4003);
    assert!(!entry.is_unused());
    assert_eq!(entry.flags(), PRESENT | WRITABLE | NO_EXECUTE);
    assert_eq!(entry.pointed_frame(), Some(Frame { number: 0x1234 }));
    entry.set_unused();
    assert_eq!(entry.value, 0);
    assert!(entry.is_unused());
}

#[test]
fn an_entry_that_is_not_present_points_nowhere() {
    let mut entry = Entry { value: 0 };
    entry.set(Frame { number: 0x77 }, WRITABLE);
    assert_eq!(entry.value, 0x77002);
    assert!(!entry.is_unused());
    assert_eq!(entry.pointed_frame(), None);
    assert_eq!(entry.flags(), WRITABLE);
}

#[test]
fn the_highest_frame_fits_an_entry() {
    let mut entry = Entry { value: 0 };
    entry.set(Frame { number: 0xff_ffff_ffff }, PRESENT);
    assert_eq!(entry.value, 0x000f_ffff_ffff_f001);
    assert_eq!(entry.pointed_frame(), Some(Frame { number: 0xff_ffff_ffff }));
}

#[test]
fn page_of_an_address() {
    assert_eq!(Page::containing_address(0x1234), Page { number: 1 });
    assert_eq!(Page::containing_address(0x0000_7fff_ffff_ffff), Page { number: 0x7_ffff_ffff });
    assert_eq!(
        Page::containing_address(0xffff_8000_0000_0000),
        Page { number: 0xf_fff8_0000_0000 }
    );
    assert_eq!(Page { number: 0xcafebabe }.start_address(), 0xcafe_babe_000);
}

#[test]
fn page_indices() {
    let page = Page { number: (5 << 27) | (6 << 18) | (7 << 9) | 8 };
    assert_eq!(page.p4_index(), 5);
    assert_eq!(page.p3_index(), 6);
    assert_eq!(page.p2_index(), 7);
    assert_eq!(page.p1_index(), 8);
    let top = Page::containing_address(0xffff_ffff_ffff_f000);
    assert_eq!(top.p4_index(), 511);
    assert_eq!(top.p3_index(), 511);
    assert_eq!(top.p2_index(), 511);
    assert_eq!(top.p1_index(), 511);
    assert_eq!(Page { number: 0xcafebabe }.p4_index(), 25);
}

#[test]
fn pages_add_and_subtract() {
    assert_eq!(Page { number: 10 } + 5, Page { number: 15 });
    assert_eq!(Page { number: 10 } - 4, Page { number: 6 });
    assert_eq!(Page { number: 10 } + 0, Page { number: 10 });
}

#[test]
fn page_runs_count_up() {
    let mut pages = Page::range_inclusive(Page { number: 3 }, Page { number: 6 });
    assert_eq!(pages.size(), 4);
    assert_eq!(pages.next(), Some(Page { number: 3 }));
    assert_eq!(pages.size(), 3);
    assert_eq!(pages.nth(1), Some(Page { number: 5 }));
    assert_eq!(pages.next(), Some(Page { number: 6 }));
    assert_eq!(pages.next(), None);
    assert_eq!(pages.nth(0), None);
}

#[test]
fn nth_beyond_the_run_changes_nothing() {
    let mut pages = Page::range_inclusive(Page { number: 3 }, Page { number: 6 });
    assert_eq!(pages.nth(4), None);
    assert_eq!(pages, Page::range_inclusive(Page { number: 3 }, Page { number: 6 }));
    assert_eq!(pages.nth(3), Some(Page { number: 6 }));
    assert_eq!(pages.next(), None);
}

#[test]
fn take_cuts_the_front_off() {
    let mut pages = Page::range_inclusive(Page { number: 10 }, Page { number: 19 });
    assert_eq!(pages.take(0), None);
    assert_eq!(pages.take(11), None);
    assert_eq!(pages, Page::range_inclusive(Page { number: 10 }, Page { number: 19 }));
    assert_eq!(pages.take(1), Some(Page::range_inclusive(Page { number: 10 }, Page { number: 10 })));
    assert_eq!(pages.take(3), Some(Page::range_inclusive(Page { number: 11 }, Page { number: 13 })));
    assert_eq!(pages.take(6), Some(Page::range_inclusive(Page { number: 14 }, Page { number: 19 })));
    assert_eq!(pages.take(1), None);
    let empty: PageIter = pages;
    assert_eq!(empty.start, Page { number: 20 });
}

#[test]
fn layout_offsets() {
    assert_eq!(layout::PML4_SIZE, 0x0000_0080_0000_0000);
    assert_eq!(layout::RECURSIVE_PAGE_OFFSET, 0xffff_ff80_0000_0000);
    assert_eq!(layout::KERNEL_OFFSET, 0xffff_ff00_0000_0000);
    assert_eq!(layout::KERNEL_HEAP_OFFSET, 0xffff_ff40_0000_0000);
    assert_eq!(layout::KERNEL_HEAP_SIZE, 128 * 1024 * 1024);
    assert_eq!(layout::KERNEL_PERCPU_OFFSET, 0xC000_0000);
    assert_eq!(layout::KERNEL_PERCPU_SIZE, 64 * 1024);
    assert_eq!(layout::KERNEL_TMP_PAGE_OFFSET, 0xffff_ff80_0000_0000);
    assert_eq!(layout::USER_OFFSET, 0);
    assert_eq!(layout::USER_TCB_OFFSET, 0xB000_0000);
    assert_eq!(layout::USER_ARG_OFFSET, 0x40_0000_0000);
    assert_eq!(layout::USER_HEAP_OFFSET, 0x80_0000_0000);
    assert_eq!(layout::USER_GRANT_OFFSET, 0x100_0000_0000);
    assert_eq!(layout::USER_STACK_OFFSET, 0x180_0000_0000);
    assert_eq!(layout::USER_STACK_SIZE, 1024 * 1024);
    assert_eq!(layout::USER_TLS_OFFSET, 0x200_0000_0000);
    assert_eq!(layout::USER_TMP_OFFSET, 0x280_0000_0000);
    assert_eq!(layout::USER_TMP_HEAP_OFFSET, 0x300_0000_0000);
    assert_eq!(layout::USER_TMP_GRANT_OFFSET, 0x380_0000_0000);
    assert_eq!(layout::USER_TMP_STACK_OFFSET, 0x400_0000_0000);
    assert_eq!(layout::USER_TMP_TLS_OFFSET, 0x480_0000_0000);
    assert_eq!(Page::containing_address(layout::RECURSIVE_PAGE_OFFSET).p4_index(), 511);
    assert_eq!(Page::containing_address(layout::KERNEL_OFFSET).p4_index(), 510);
}
