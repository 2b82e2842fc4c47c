//! A region of memory for devices, handed out piece by piece.

use vstd::prelude::*;
use crate::memory::controller::{pages_for, MemoryController};
use crate::memory::paging::entry::WRITABLE;
use crate::memory::paging::mapper::{lemma_flag_facts, lemma_page_bound, page_at};
use crate::memory::paging::{Page, PhysicalAddress, VirtualAddress};
use crate::memory::region::{handed_out, paid_with};
use crate::memory::{lasts, FrameAllocator, PAGE_SIZE};
use crate::syscall::error::{Error, ENOMEM};

verus! {

/// A run of mapped pages, backed by frames with consecutive numbers, of
/// which the bytes from `next_free_byte` on are not handed out yet.
#[derive(Debug, PartialEq, Eq, Structural)]
pub struct DmaAllocator {
    pub start: VirtualAddress,
    pub start_phys: PhysicalAddress,
    pub size: u64,
    pub next_free_byte: u64,
}

/// A piece of memory for a device: the address at which the kernel sees
/// it and the address at which the device does.
#[derive(Debug, Clone, Copy, PartialEq, Eq, Structural)]
pub struct Dma {
    pub virt: VirtualAddress,
    pub phys: PhysicalAddress,
}

impl Dma {
    /// The address at which the device sees the piece.
    pub fn physical(&self) -> (address: PhysicalAddress)
        ensures
            address == self.phys,
    {
        self.phys
    }
}

impl DmaAllocator {
    /// Takes the pages that hold `size` bytes from the page region of
    /// `controller`, mapped writable to one run of fresh frames: the run
    /// with which the controller's allocator answers a request for that
    /// many frames. Where the region or the frames do not suffice, nothing
    /// is returned; they suffice where the region has the pages and the
    /// allocator has the run and, after it, three frames for each page.
    pub fn new(controller: &mut MemoryController, size: u64) -> (allocator: Option<DmaAllocator>)
        requires
            old(controller).wf(),
        ensures
            final(controller).wf(),
            final(controller).stack_allocator == old(controller).stack_allocator,
            final(controller).grant_allocator == old(controller).grant_allocator,
            final(controller).temporary_page == old(controller).temporary_page,
            handed_out(
                &old(controller).active_table.mapper,
                &final(controller).active_table.mapper,
                old(controller).page_allocator.range,
                final(controller).page_allocator.range,
                pages_for(size),
                WRITABLE,
                old(controller).frame_allocator.available(),
                final(controller).frame_allocator.available(),
                allocator.is_some(),
            ),
            paid_with(
                &old(controller).frame_allocator,
                &final(controller).frame_allocator,
                &final(controller).active_table.mapper,
                old(controller).page_allocator.range,
                pages_for(size),
                WRITABLE,
                allocator.is_some(),
            ),
            0 < pages_for(size) <= old(controller).page_allocator.range.len()
                && old(controller).frame_allocator.answer(pages_for(size)).is_some() && lasts(
                &old(controller).frame_allocator.after(pages_for(size)),
                3 * pages_for(size) as nat,
            ) ==> allocator.is_some(),
            match allocator {
                Some(made) => {
                    &&& made.start == old(controller).page_allocator.range.start.number * PAGE_SIZE
                    &&& made.start_phys == old(controller).frame_allocator.answer(
                        pages_for(size),
                    ).unwrap().start.number * PAGE_SIZE
                    &&& final(controller).active_table.mapper.translation(
                        old(controller).page_allocator.range.start,
                    ) == Some(made.start_phys / PAGE_SIZE)
                    &&& made.start_phys % PAGE_SIZE == 0
                    &&& made.size == size
                    &&& made.next_free_byte == 0
                },
                None => true,
            },
    {
        let ghost whole = controller.page_allocator.range;
        proof {
            lemma_flag_facts();
        }
        let start = match controller.alloc_vm(size, WRITABLE) {
            Some(start) => start,
            None => { return None; },
        };
        proof {
            assert(page_at(whole, 0) == whole.start);
            assert(whole.start.valid() && !crate::memory::paging::table::recursive(whole.start));
            lemma_page_bound(whole.start);
            crate::memory::paging::mapper::lemma_translation_bound(
                &controller.active_table.mapper.memory,
                controller.active_table.mapper.p4_spec(),
                whole.start,
            );
            controller.active_table.mapper.lemma_aligned(whole.start);
            lemma_canonical(whole.start);
            assert(crate::memory::paging::mapper::page_of(start) == whole.start);
        }
        match controller.translate_address(start) {
            Some(start_phys) => Some(DmaAllocator { start, start_phys, size, next_free_byte: 0 }),
            None => None,
        }
    }

    /// Hands out the next `length` bytes. The bytes are counted as handed
    /// out whether or not they were left: once a request has failed, every
    /// later one fails as well.
    pub fn allocate(&mut self, length: u64) -> (piece: Result<Dma, Error>)
        requires
            old(self).start + old(self).next_free_byte <= u64::MAX,
            old(self).start_phys + old(self).next_free_byte <= u64::MAX,
            old(self).next_free_byte + length <= u64::MAX,
        ensures
            final(self).start == old(self).start,
            final(self).start_phys == old(self).start_phys,
            final(self).size == old(self).size,
            final(self).next_free_byte == old(self).next_free_byte + length,
            piece == if old(self).next_free_byte + length < old(self).size {
                Ok::<Dma, Error>(
                    Dma {
                        virt: (old(self).start + old(self).next_free_byte) as u64,
                        phys: (old(self).start_phys + old(self).next_free_byte) as u64,
                    },
                )
            } else {
                Err::<Dma, Error>(Error { errno: ENOMEM })
            },
    {
        let addr_virt = self.start + self.next_free_byte;
        let addr_phys = self.start_phys + self.next_free_byte;
        self.next_free_byte = self.next_free_byte + length;
        if self.next_free_byte < self.size {
            Ok(Dma { virt: addr_virt, phys: addr_phys })
        } else {
            Err(Error::new(ENOMEM))
        }
    }
}

/// The first address of a canonical page is canonical.
pub proof fn lemma_canonical(page: Page)
    requires
        page.valid(),
    ensures
        crate::memory::paging::canonical((page.number * PAGE_SIZE) as u64),
        page.number * PAGE_SIZE <= u64::MAX,
{
    let number = page.number;
    assert(number < 0x8_0000_0000 ==> number * 4096 < 0x0000_8000_0000_0000) by (nonlinear_arith);
    assert(0xf_fff8_0000_0000 <= number < 0x10_0000_0000_0000 ==> number * 4096 >= 0xffff_8000_0000_0000
        && number * 4096 <= u64::MAX) by (nonlinear_arith);
}

} // verus!
