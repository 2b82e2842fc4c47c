use kernel_memory::memory::area_frame_allocator::{AreaFrameAllocator, MemoryArea};
use kernel_memory::memory::{Frame, FrameAllocator, FrameIter, MAX_FRAMES};

fn two_areas() -> AreaFrameAllocator {
    let areas = vec![MemoryArea::new(0x0, 0x100000), MemoryArea::new(0x100000, 0x100000)];
    AreaFrameAllocator::new(0x10000, 0x1ffff, 0x30000, 0x30fff, areas)
}

fn run(start: u64, end: u64) -> FrameIter {
    Frame::range_inclusive(Frame { number: start }, Frame { number: end })
}

#[test]
fn first_frame_is_frame_zero() {
    let mut allocator = two_areas();
    assert_eq!(allocator.allocate_frame(), Some(Frame { number: 0 }));
}

#[test]
fn cursor_jumps_over_the_kernel() {
    let mut allocator = two_areas();
    for expected in 0..0x10u64 {
        assert_eq!(allocator.allocate_frame(), Some(Frame { number: expected }));
    }
    assert_eq!(allocator.allocate_frame(), Some(Frame { number: 0x20 }));
    assert_eq!(allocator.next_free_frame.number, 0x21);
}

#[test]
fn cursor_jumps_over_the_boot_information() {
    let mut allocator = two_areas();
    assert_eq!(allocator.allocate_frames(0x10), Some(run(0, 0xf)));
    assert_eq!(allocator.allocate_frames(0x10), Some(run(0x20, 0x2f)));
    assert_eq!(allocator.allocate_frame(), Some(Frame { number: 0x31 }));
}

#[test]
fn no_frame_twice_and_none_reserved() {
    let mut allocator = two_areas();
    let mut seen: Vec<u64> = Vec::new();
    while let Some(frame) = allocator.allocate_frame() {
        assert!(!(0x10..=0x1f).contains(&frame.number));
        assert_ne!(frame.number, 0x30);
        if let Some(last) = seen.last() {
            assert!(*last < frame.number);
        }
        seen.push(frame.number);
    }
    assert_eq!(seen.len(), 0x200 - 0x10 - 1);
    assert_eq!(seen.first(), Some(&0));
    assert_eq!(seen.last(), Some(&0x1ff));
}

#[test]
fn a_run_that_touches_the_kernel_starts_behind_it() {
    let mut allocator = two_areas();
    assert_eq!(allocator.allocate_frames(0x11), Some(run(0x31, 0x41)));
    assert_eq!(allocator.next_free_frame.number, 0x42);
}

#[test]
fn zero_frames_are_refused() {
    let mut allocator = two_areas();
    assert_eq!(allocator.allocate_frames(0), None);
    assert_eq!(allocator.next_free_frame.number, 0);
}

#[test]
fn failure_leaves_the_cursor() {
    let mut allocator = two_areas();
    assert_eq!(allocator.allocate_frames(4), Some(run(0, 3)));
    assert_eq!(allocator.allocate_frames(0x1000), None);
    assert_eq!(allocator.next_free_frame.number, 4);
    assert_eq!(allocator.allocate_frames(0x1000), None);
    assert_eq!(allocator.allocate_frames(4), Some(run(4, 7)));
    assert_eq!(allocator.allocate_frame(), Some(Frame { number: 8 }));
}

#[test]
fn exhaustion_is_final() {
    let areas = vec![MemoryArea::new(0x5000, 0x2000)];
    let mut allocator = AreaFrameAllocator::new(0x100000, 0x100fff, 0x200000, 0x200fff, areas);
    assert_eq!(allocator.allocate_frame(), Some(Frame { number: 5 }));
    assert_eq!(allocator.allocate_frame(), Some(Frame { number: 6 }));
    assert_eq!(allocator.allocate_frame(), None);
    assert_eq!(allocator.allocate_frame(), None);
    assert_eq!(allocator.next_free_frame.number, 7);
}

#[test]
fn a_run_stays_within_one_area() {
    let areas = vec![MemoryArea::new(0x0, 0x3000), MemoryArea::new(0x10000, 0x8000)];
    let mut allocator = AreaFrameAllocator::new(0x100000, 0x100fff, 0x200000, 0x200fff, areas);
    assert_eq!(allocator.allocate_frames(2), Some(run(0, 1)));
    assert_eq!(allocator.allocate_frames(2), Some(run(0x10, 0x11)));
    assert_eq!(allocator.allocate_frames(7), None);
    assert_eq!(allocator.allocate_frames(6), Some(run(0x12, 0x17)));
}

#[test]
fn areas_are_taken_by_lowest_start() {
    let areas = vec![MemoryArea::new(0x20000, 0x2000), MemoryArea::new(0x4000, 0x1000)];
    let mut allocator = AreaFrameAllocator::new(0x100000, 0x100fff, 0x200000, 0x200fff, areas);
    assert_eq!(allocator.allocate_frame(), Some(Frame { number: 4 }));
    assert_eq!(allocator.allocate_frame(), Some(Frame { number: 0x20 }));
    assert_eq!(allocator.allocate_frame(), Some(Frame { number: 0x21 }));
    assert_eq!(allocator.allocate_frame(), None);
}

#[test]
fn an_area_without_bytes_holds_no_frame() {
    let areas = vec![MemoryArea::new(0x0, 0), MemoryArea::new(0x7000, 0x1)];
    let mut allocator = AreaFrameAllocator::new(0x100000, 0x100fff, 0x200000, 0x200fff, areas);
    assert_eq!(allocator.allocate_frame(), Some(Frame { number: 7 }));
    assert_eq!(allocator.allocate_frame(), None);
}

#[test]
fn frames_beyond_the_entry_width_are_not_handed_out() {
    let top = (MAX_FRAMES - 1) * 4096;
    let areas = vec![MemoryArea::new(top, 0x3000)];
    let mut allocator = AreaFrameAllocator::new(0x100000, 0x100fff, 0x200000, 0x200fff, areas);
    assert_eq!(allocator.allocate_frames(2), None);
    assert_eq!(allocator.allocate_frame(), Some(Frame { number: MAX_FRAMES - 1 }));
    assert_eq!(allocator.allocate_frame(), None);
}

#[test]
fn frames_given_back_are_not_handed_out_again() {
    let areas = vec![MemoryArea::new(0x0, 0x2000)];
    let mut allocator = AreaFrameAllocator::new(0x100000, 0x100fff, 0x200000, 0x200fff, areas);
    let frame = allocator.allocate_frame().unwrap();
    allocator.deallocate_frame(frame);
    assert_eq!(allocator.allocate_frame(), Some(Frame { number: 1 }));
    allocator.deallocate_frames(run(0, 1));
    assert_eq!(allocator.allocate_frame(), None);
}

#[test]
fn reserved_frames_are_those_of_the_given_bytes() {
    let allocator = two_areas();
    assert_eq!(allocator.kernel_start, Frame { number: 0x10 });
    assert_eq!(allocator.kernel_end, Frame { number: 0x1f });
    assert_eq!(allocator.multiboot_start, Frame { number: 0x30 });
    assert_eq!(allocator.multiboot_end, Frame { number: 0x30 });
}

#[test]
fn frame_of_an_address() {
    assert_eq!(Frame::containing_address(0x11000), Frame { number: 0x11 });
    assert_eq!(Frame::containing_address(0x11fff), Frame { number: 0x11 });
    assert_eq!(Frame::containing_address(0), Frame { number: 0 });
    assert_eq!(Frame { number: 0x11 }.start_address(), 0x11000);
    assert_eq!(Frame { number: 7 }.clone(), Frame { number: 7 });
}

#[test]
fn frame_runs_count_up() {
    let mut frames = run(3, 5);
    assert_eq!(frames.next(), Some(Frame { number: 3 }));
    assert_eq!(frames.next(), Some(Frame { number: 4 }));
    assert_eq!(frames.next(), Some(Frame { number: 5 }));
    assert_eq!(frames.next(), None);
    assert_eq!(frames.next(), None);
    let mut empty = run(5, 3);
    assert_eq!(empty.next(), None);
}

#[test]
fn memory_area_keeps_its_bounds() {
    let area = MemoryArea::new(0x1000, 0x500);
    assert_eq!(area.start_address(), 0x1000);
    assert_eq!(area.size(), 0x500);
}

#[test]
fn one_frame_is_the_first_of_a_run_of_one() {
    let mut single = two_areas();
    let mut runs = two_areas();
    for _ in 0..0x40 {
        let frame = single.allocate_frame();
        let run = runs.allocate_frames(1);
        assert_eq!(frame, run.map(|frames| frames.start));
        assert_eq!(single.next_free_frame, runs.next_free_frame);
    }
    assert_eq!(single.next_free_frame.number, 0x51);
}

#[test]
fn giving_a_frame_back_changes_no_answer() {
    let mut kept = two_areas();
    let mut given = two_areas();
    let frame = given.allocate_frame().unwrap();
    assert_eq!(kept.allocate_frame(), Some(Frame { number: 0 }));
    given.deallocate_frame(frame);
    assert_eq!(given.next_free_frame, kept.next_free_frame);
    given.deallocate_frames(run(0x20, 0x2f));
    for count in [1u64, 3, 0x10, 0x100, 0x1000] {
        assert_eq!(given.allocate_frames(count), kept.allocate_frames(count));
        assert_eq!(given.next_free_frame, kept.next_free_frame);
    }
}
