use kernel_memory::drivers::ahci::disk::{Disk, MAX_SECTORS, SECTOR_SIZE};
use kernel_memory::drivers::pci::{for_each_pci_func, PciFunc, VISITED_FUNCTIONS};
use kernel_memory::memory::area_frame_allocator::{AreaFrameAllocator, MemoryArea};
use kernel_memory::memory::controller::MemoryController;
use kernel_memory::memory::grant_allocator::GrantAllocator;
use kernel_memory::memory::page_allocator::PageAllocator;
use kernel_memory::memory::paging::temporary_page::TemporaryPage;
use kernel_memory::memory::paging::{ActivePageTable, Page};
use kernel_memory::memory::stack_allocator::StackAllocator;
use kernel_memory::memory::FrameAllocator;
use kernel_memory::syscall::error::{Error, EIO, ENOMEM, EPERM};
use kernel_memory::syscall::io::dma::{Dma, DmaAllocator};
use std::cell::Cell;

fn driver_memory(frames: u64) -> MemoryController {
    let areas = vec![MemoryArea::new(0x0, frames * 4096)];
    let mut allocator = AreaFrameAllocator::new(0x1000000, 0x1000fff, 0x2000000, 0x2000fff, areas);
    let root = allocator.allocate_frame().unwrap();
    MemoryController::new(
        ActivePageTable::new(root),
        allocator,
        StackAllocator::new(Page::range_inclusive(Page { number: 0x10000 }, Page { number: 0x10064 })),
        PageAllocator::new(Page::range_inclusive(Page { number: 0x10065 }, Page { number: 0x20065 })),
        GrantAllocator::new(Page::range_inclusive(Page { number: 0x20066 }, Page { number: 0x30066 })),
        TemporaryPage::new(Page { number: 0xcafebabe }),
    )
}

#[test]
fn error_numbers() {
    assert_eq!(EPERM, 1);
    assert_eq!(EIO, 2);
    assert_eq!(ENOMEM, 3);
    assert_eq!(Error::new(ENOMEM), Error { errno: 3 });
}

#[test]
fn dma_region_is_mapped_to_one_run_of_frames() {
    let mut memory = driver_memory(64);
    let dma = DmaAllocator::new(&mut memory, 3 * 4096).unwrap();
    assert_eq!(dma, DmaAllocator { start: 0x10065_000, start_phys: 0x1000, size: 3 * 4096, next_free_byte: 0 });
    assert_eq!(memory.translate_address(dma.start + 0x2008), Some(dma.start_phys + 0x2008));
}

#[test]
fn dma_region_without_memory() {
    let mut memory = driver_memory(4);
    assert_eq!(DmaAllocator::new(&mut memory, 16 * 4096), None);
    let mut memory = driver_memory(64);
    assert_eq!(DmaAllocator::new(&mut memory, 0), None);
}

#[test]
fn dma_pieces_follow_one_another() {
    let mut dma = DmaAllocator { start: 0x10065_000, start_phys: 0x7000, size: 0x1000, next_free_byte: 0 };
    assert_eq!(dma.allocate(0x100), Ok(Dma { virt: 0x10065_000, phys: 0x7000 }));
    assert_eq!(dma.allocate(0x20), Ok(Dma { virt: 0x10065_100, phys: 0x7100 }));
    let piece = dma.allocate(8).unwrap();
    assert_eq!(piece.physical(), 0x7120);
    assert_eq!(dma.next_free_byte, 0x128);
}

#[test]
fn dma_region_runs_out() {
    let mut dma = DmaAllocator { start: 0x10065_000, start_phys: 0x7000, size: 0x1000, next_free_byte: 0 };
    assert!(dma.allocate(0xfff).is_ok());
    // The last byte is never handed out.
    assert_eq!(dma.allocate(1), Err(Error { errno: ENOMEM }));
    assert_eq!(dma.next_free_byte, 0x1000);
    assert_eq!(dma.allocate(0), Err(Error { errno: ENOMEM }));
    let mut dma = DmaAllocator { start: 0x10065_000, start_phys: 0x7000, size: 0x1000, next_free_byte: 0 };
    assert_eq!(dma.allocate(0x2000), Err(Error { errno: ENOMEM }));
    assert_eq!(dma.next_free_byte, 0x2000);
    assert_eq!(dma.allocate(1), Err(Error { errno: ENOMEM }));
}

#[test]
fn pci_addresses() {
    assert_eq!(PciFunc::new(0, 0, 0).address(0), 0x8000_0000);
    assert_eq!(PciFunc::new(1, 2, 3).address(4), 0x8001_1304);
    assert_eq!(PciFunc::new(0xff, 0x1f, 7).address(0xff), 0x80ff_fffc);
    assert_eq!(PciFunc::new(0, 0x20, 0).address(0), 0x8001_0000);
    assert_eq!(PciFunc::new(0, 0, 0).address(0x13), 0x8000_0010);
    assert_eq!(PciFunc::new(3, 4, 5), PciFunc { bus: 3, dev: 4, func: 5 });
}

#[test]
fn every_pci_function_is_visited() {
    let count = Cell::new(0u32);
    let last = Cell::new(PciFunc::new(0, 0, 0));
    let first = Cell::new(None);
    let results = for_each_pci_func(|function: PciFunc| {
        if first.get().is_none() {
            first.set(Some(function));
        }
        count.set(count.get() + 1);
        last.set(function);
        function.address(0)
    });
    assert_eq!(count.get(), 255 * 32 * 8);
    assert_eq!(results.len(), VISITED_FUNCTIONS);
    assert_eq!(results[0], 0x8000_0000);
    assert_eq!(results[9], 0x8000_0900);
    assert_eq!(results[256 + 8 * 3 + 2], 0x8001_1a00);
    assert_eq!(results[VISITED_FUNCTIONS - 1], 0x80fe_ff00);
    assert_eq!(first.get(), Some(PciFunc { bus: 0, dev: 0, func: 0 }));
    assert_eq!(last.get(), PciFunc { bus: 254, dev: 31, func: 7 });
}

#[test]
fn disk_tells_what_it_is() {
    let disk = Disk::new(3, 1 << 30);
    assert_eq!(disk.id(), 3);
    assert_eq!(disk.size(), 1 << 30);
    assert_eq!(SECTOR_SIZE, 512);
    assert_eq!(MAX_SECTORS, 255);
    assert_eq!(Disk::sectors(512), 1);
    assert_eq!(Disk::sectors(1023), 1);
    assert_eq!(Disk::sectors(511), 0);
}

#[test]
fn transfers_move_at_most_255_sectors() {
    assert_eq!(Disk::next_transfer(0, 0), None);
    assert_eq!(Disk::next_transfer(1, 0), Some(1));
    assert_eq!(Disk::next_transfer(254, 0), Some(254));
    assert_eq!(Disk::next_transfer(255, 0), Some(255));
    assert_eq!(Disk::next_transfer(600, 0), Some(255));
    assert_eq!(Disk::next_transfer(600, 255), Some(255));
    assert_eq!(Disk::next_transfer(600, 510), Some(90));
    assert_eq!(Disk::next_transfer(600, 600), None);
}

#[test]
fn a_transfer_is_cut_into_pieces() {
    assert_eq!(Disk::transfers(0), Vec::<(u64, u64)>::new());
    assert_eq!(Disk::transfers(1), vec![(0, 1)]);
    assert_eq!(Disk::transfers(255), vec![(0, 255)]);
    assert_eq!(Disk::transfers(256), vec![(0, 255), (255, 1)]);
    assert_eq!(Disk::transfers(600), vec![(0, 255), (255, 255), (510, 90)]);
    assert_eq!(Disk::transfers(510), vec![(0, 255), (255, 255)]);
}
