//! Where things lie in the virtual address space.
//!
//! The lower 256 entries of the highest table belong to user space. Each
//! entry of that table spans 512 GiB. The top entry, 511, is the recursive
//! slot; the one below it, 510, belongs to the kernel.

use vstd::prelude::*;

verus! {

/// The span of one entry of the highest table: 512 GiB.
pub const PML4_SIZE: u64 = 0x0000_0080_0000_0000;

/// Start of the part of the address space seen through the recursive slot.
pub const RECURSIVE_PAGE_OFFSET: u64 = 0xffff_ff80_0000_0000;

/// Start of the kernel.
pub const KERNEL_OFFSET: u64 = RECURSIVE_PAGE_OFFSET - PML4_SIZE;

/// Start of the kernel heap.
pub const KERNEL_HEAP_OFFSET: u64 = KERNEL_OFFSET + PML4_SIZE / 2;

/// Size of the kernel heap: 128 MiB.
pub const KERNEL_HEAP_SIZE: u64 = 128 * 1024 * 1024;

/// Start of the kernel's per-processor variables.
pub const KERNEL_PERCPU_OFFSET: u64 = 0xC000_0000;

/// Size of the kernel's per-processor variables: 64 KiB.
pub const KERNEL_PERCPU_SIZE: u64 = 64 * 1024;

/// The address named for a temporary page used to set up new page tables.
/// It lies in the recursive part of the address space, where no page can
/// be given a mapping of its own.
pub const KERNEL_TMP_PAGE_OFFSET: u64 = KERNEL_OFFSET + PML4_SIZE;

/// Start of the user image.
pub const USER_OFFSET: u64 = 0;

/// Start of the user thread control block.
pub const USER_TCB_OFFSET: u64 = 0xB000_0000;

/// Start of the user arguments.
pub const USER_ARG_OFFSET: u64 = USER_OFFSET + PML4_SIZE / 2;

/// Start of the user heap.
pub const USER_HEAP_OFFSET: u64 = USER_OFFSET + PML4_SIZE;

/// Start of the user grants.
pub const USER_GRANT_OFFSET: u64 = USER_HEAP_OFFSET + PML4_SIZE;

/// Start of the user stack.
pub const USER_STACK_OFFSET: u64 = USER_GRANT_OFFSET + PML4_SIZE;

/// Size of the user stack: 1 MiB.
pub const USER_STACK_SIZE: u64 = 1024 * 1024;

/// Start of the user thread-local storage.
pub const USER_TLS_OFFSET: u64 = USER_STACK_OFFSET + PML4_SIZE;

/// Start of the temporary user image, used when cloning.
pub const USER_TMP_OFFSET: u64 = USER_TLS_OFFSET + PML4_SIZE;

/// Start of the temporary user heap, used when cloning.
pub const USER_TMP_HEAP_OFFSET: u64 = USER_TMP_OFFSET + PML4_SIZE;

/// Start of the temporary user page for grants.
pub const USER_TMP_GRANT_OFFSET: u64 = USER_TMP_HEAP_OFFSET + PML4_SIZE;

/// Start of the temporary user stack, used when cloning.
pub const USER_TMP_STACK_OFFSET: u64 = USER_TMP_GRANT_OFFSET + PML4_SIZE;

/// Start of the temporary user thread-local storage, used when cloning.
pub const USER_TMP_TLS_OFFSET: u64 = USER_TMP_STACK_OFFSET + PML4_SIZE;

/// The named offsets, spelled out. The user regions lie one entry of the
/// highest table apart; the recursive part fills the last entry; and the
/// address named for the temporary page is the first address of the
/// recursive part.
pub proof fn law_layout()
    ensures
        RECURSIVE_PAGE_OFFSET + PML4_SIZE == 0x1_0000_0000_0000_0000,
        KERNEL_OFFSET == 0xffff_ff00_0000_0000,
        KERNEL_HEAP_OFFSET == 0xffff_ff40_0000_0000,
        KERNEL_TMP_PAGE_OFFSET == RECURSIVE_PAGE_OFFSET,
        USER_ARG_OFFSET == 0x40_0000_0000,
        USER_HEAP_OFFSET == 0x80_0000_0000,
        USER_GRANT_OFFSET == 0x100_0000_0000,
        USER_STACK_OFFSET == 0x180_0000_0000,
        USER_TLS_OFFSET == 0x200_0000_0000,
        USER_TMP_OFFSET == 0x280_0000_0000,
        USER_TMP_HEAP_OFFSET == 0x300_0000_0000,
        USER_TMP_GRANT_OFFSET == 0x380_0000_0000,
        USER_TMP_STACK_OFFSET == 0x400_0000_0000,
        USER_TMP_TLS_OFFSET == 0x480_0000_0000,
{
}

} // verus!
