//! The addresses through which the tables of the loaded tree are seen.
//!
//! The recursive slot of the highest table points at a highest table. So
//! an address whose highest index is 511 makes the processor walk through
//! that table once more, and ends the walk one level early: at a table
//! instead of a page. With four times 511 it ends at the highest table
//! itself.

use vstd::prelude::*;
use super::entry::{is_huge, is_present, lemma_pack, pack, PRESENT, WRITABLE};
use super::table::{index_at, recursive, PhysicalMemory};
use super::{canonical, Page, VirtualAddress};
use crate::memory::{MAX_FRAMES, PAGE_SIZE};

verus! {

/// The address through which the highest table is seen.
pub const P4_TABLE_ADDRESS: VirtualAddress = 0xffff_ffff_ffff_f000;

/// A table of the tree, known by the address through which it is seen and
/// by its level: 4 for the highest, 1 for the lowest.
#[derive(Debug, Clone, Copy, PartialEq, Eq, Structural)]
pub struct Table {
    pub address: VirtualAddress,
    pub level: u8,
}

/// The address through which the table below entry `index` of the table
/// at `address` is seen: every index moves up one place, and `index`
/// comes in at the lowest.
pub open spec fn child_address(address: VirtualAddress, index: u64) -> VirtualAddress {
    (address << 9) | (index << 12)
}

/// The address through which the table of level `level` on the path of
/// `page` is seen.
pub open spec fn window_address(page: Page, level: int) -> VirtualAddress {
    let p4 = page.p4() as u64;
    let p3 = page.p3() as u64;
    let p2 = page.p2() as u64;
    if level == 3 {
        0xffff_ffff_ffe0_0000u64 | (p4 << 12)
    } else if level == 2 {
        0xffff_ffff_c000_0000u64 | (p4 << 21) | (p3 << 12)
    } else if level == 1 {
        0xffff_ff80_0000_0000u64 | (p4 << 30) | (p3 << 21) | (p2 << 12)
    } else {
        P4_TABLE_ADDRESS
    }
}

/// The page through which the table of level `level` on the path of
/// `page` is seen.
pub open spec fn window(page: Page, level: int) -> Page {
    Page { number: window_address(page, level) / PAGE_SIZE }
}

/// The window of a table is a canonical page, its address is the page's
/// first, and its indices are those of the table's path behind as many
/// times 511 as the table's level says.
pub proof fn lemma_window_indices(page: Page, level: int)
    requires
        1 <= level <= 4,
    ensures
        canonical(window_address(page, level)),
        window_address(page, level) % PAGE_SIZE == 0,
        window(page, level).valid(),
        window(page, level).number * PAGE_SIZE == window_address(page, level),
        window(page, level).p4() == 511,
        window(page, level).p3() == if level >= 2 { 511 } else { page.p4() },
        window(page, level).p2() == if level >= 3 { 511 } else if level == 2 { page.p4() } else { page.p3() },
        window(page, level).p1() == if level == 4 {
            511
        } else if level == 3 {
            page.p4()
        } else if level == 2 {
            page.p3()
        } else {
            page.p2()
        },
{
    let n = page.number;
    let a = (n >> 27) & 0o777;
    let b = (n >> 18) & 0o777;
    let c = (n >> 9) & 0o777;
    let w4 = 0xffff_ffff_ffff_f000u64;
    let w3 = 0xffff_ffff_ffe0_0000u64 | (a << 12);
    let w2 = 0xffff_ffff_c000_0000u64 | (a << 21) | (b << 12);
    let w1 = 0xffff_ff80_0000_0000u64 | (a << 30) | (b << 21) | (c << 12);
    assert(w4 >= 0xffff_8000_0000_0000 && w4 % 4096 == 0 && ((w4 / 4096) >> 27) & 0o777 == 511 && ((w4
        / 4096) >> 18) & 0o777 == 511 && ((w4 / 4096) >> 9) & 0o777 == 511 && (w4 / 4096) & 0o777
        == 511 && 0xf_fff8_0000_0000 <= w4 / 4096 && w4 / 4096 < 0x10_0000_0000_0000) by (bit_vector)
        requires
            w4 == 0xffff_ffff_ffff_f000u64,
    ;
    assert(w3 >= 0xffff_8000_0000_0000 && w3 % 4096 == 0 && ((w3 / 4096) >> 27) & 0o777 == 511 && ((w3
        / 4096) >> 18) & 0o777 == 511 && ((w3 / 4096) >> 9) & 0o777 == 511 && (w3 / 4096) & 0o777 == a
        && 0xf_fff8_0000_0000 <= w3 / 4096 && w3 / 4096 < 0x10_0000_0000_0000) by (bit_vector)
        requires
            a == (n >> 27) & 0o777,
            w3 == 0xffff_ffff_ffe0_0000u64 | (a << 12),
    ;
    assert(w2 >= 0xffff_8000_0000_0000 && w2 % 4096 == 0 && ((w2 / 4096) >> 27) & 0o777 == 511 && ((w2
        / 4096) >> 18) & 0o777 == 511 && ((w2 / 4096) >> 9) & 0o777 == a && (w2 / 4096) & 0o777 == b
        && 0xf_fff8_0000_0000 <= w2 / 4096 && w2 / 4096 < 0x10_0000_0000_0000) by (bit_vector)
        requires
            a == (n >> 27) & 0o777,
            b == (n >> 18) & 0o777,
            w2 == 0xffff_ffff_c000_0000u64 | (a << 21) | (b << 12),
    ;
    assert(w1 >= 0xffff_8000_0000_0000 && w1 % 4096 == 0 && ((w1 / 4096) >> 27) & 0o777 == 511 && ((w1
        / 4096) >> 18) & 0o777 == a && ((w1 / 4096) >> 9) & 0o777 == b && (w1 / 4096) & 0o777 == c
        && 0xf_fff8_0000_0000 <= w1 / 4096 && w1 / 4096 < 0x10_0000_0000_0000) by (bit_vector)
        requires
            a == (n >> 27) & 0o777,
            b == (n >> 18) & 0o777,
            c == (n >> 9) & 0o777,
            w1 == 0xffff_ff80_0000_0000u64 | (a << 30) | (b << 21) | (c << 12),
    ;
}

/// The address of a child, worked out from the address of its parent and
/// the index of the entry, is the address of the window of the table one
/// level down.
pub proof fn lemma_child_window(page: Page, level: int)
    requires
        2 <= level <= 4,
    ensures
        child_address(window_address(page, level), index_at(page, level) as u64) == window_address(
            page,
            level - 1,
        ),
{
    let n = page.number;
    let a = (n >> 27) & 0o777;
    let b = (n >> 18) & 0o777;
    let c = (n >> 9) & 0o777;
    assert(((0xffff_ffff_ffff_f000u64 << 9) | (a << 12)) == 0xffff_ffff_ffe0_0000u64 | (a << 12)) by (bit_vector);
    assert((((0xffff_ffff_ffe0_0000u64 | (a << 12)) << 9) | (b << 12)) == 0xffff_ffff_c000_0000u64 | (a
        << 21) | (b << 12)) by (bit_vector)
        requires
            a == (n >> 27) & 0o777,
    ;
    assert((((0xffff_ffff_c000_0000u64 | (a << 21) | (b << 12)) << 9) | (c << 12))
        == 0xffff_ff80_0000_0000u64 | (a << 30) | (b << 21) | (c << 12)) by (bit_vector)
        requires
            a == (n >> 27) & 0o777,
            b == (n >> 18) & 0o777,
    ;
}

/// Whether the two recursive slots are in place: the one of the loaded
/// table, in `root`, points at the highest table of the tree, in `p4`,
/// and that one's points at itself.
pub open spec fn slots(m: &PhysicalMemory, root: u64, p4: u64) -> bool {
    &&& root < MAX_FRAMES
    &&& p4 < MAX_FRAMES
    &&& m.entry(root, 511) == pack(p4, PRESENT | WRITABLE)
    &&& m.entry(p4, 511) == pack(p4, PRESENT | WRITABLE)
}

/// Through the window of a table the processor reaches that table: with
/// the recursive slots in place, the walk from the loaded table to the
/// window of the table of level `level` on the path of `page` ends at the
/// frame of that table, and meets no huge page on its way.
pub proof fn law_window_shows_table(m: &PhysicalMemory, root: u64, p4: u64, page: Page, level: int, frame: u64)
    requires
        slots(m, root, p4),
        1 <= level <= 4,
        m.table_for(p4, page, level) == Some(frame),
    ensures
        m.translation(root, window(page, level)) == Some(frame),
        m.aligned(root, window(page, level)),
{
    lemma_window_indices(page, level);
    lemma_slot_entry(p4);
    let w = window(page, level);
    assert(m.next(root, 511) == Some(p4));
    assert(m.next(p4, 511) == Some(p4));
    assert(m.p3_table(root, w) == Some(p4));
    if level == 1 {
        assert(m.table_for(p4, page, 3).is_some());
        assert(m.table_for(p4, page, 2).is_some());
    } else if level == 2 {
        assert(m.table_for(p4, page, 3).is_some());
    }
}

/// Whether frame `frame` holds the highest table of the tree below `p4`
/// or one of its tables of the levels 3 and 2: the tables whose entries
/// point at tables.
pub open spec fn upper_table(m: &PhysicalMemory, p4: u64, frame: u64) -> bool {
    frame == p4 || exists|page: Page, level: int|
        !recursive(page) && 2 <= level <= 3 && #[trigger] m.table_for(p4, page, level) == Some(frame)
}

/// The page whose two highest indices are `a` and `b`, and whose two
/// lowest are 0.
pub open spec fn page_below(a: int, b: int) -> Page {
    Page { number: ((a as u64) << 27) | ((b as u64) << 18) }
}

/// The two highest indices of `page_below(a, b)` are `a` and `b`.
pub proof fn lemma_page_below(a: int, b: int)
    requires
        0 <= a < 512,
        0 <= b < 512,
    ensures
        page_below(a, b).p4() == a,
        page_below(a, b).p3() == b,
{
    let x = a as u64;
    let y = b as u64;
    assert((((x << 27) | (y << 18)) >> 27) & 0o777 == x && (((x << 27) | (y << 18)) >> 18) & 0o777 == y) by (bit_vector)
        requires
            x < 512,
            y < 512,
    ;
}

/// The indices of a page are below 512.
pub proof fn lemma_indices(page: Page)
    ensures
        0 <= page.p4() < 512,
        0 <= page.p3() < 512,
        0 <= page.p2() < 512,
        0 <= page.p1() < 512,
{
    let n = page.number;
    assert((n >> 27) & 0o777 < 512 && (n >> 18) & 0o777 < 512 && (n >> 9) & 0o777 < 512 && n & 0o777
        < 512) by (bit_vector);
}

/// On its walk to a page of the recursive part, the processor reads
/// nothing but entries of the highest table and of tables of the levels 3
/// and 2: with the recursive slots in place, the three tables that it
/// passes behind the loaded one are such tables.
pub proof fn lemma_window_path(m: &PhysicalMemory, root: u64, p4: u64, page: Page)
    requires
        slots(m, root, p4),
        recursive(page),
    ensures
        m.p3_table(root, page) == Some(p4),
        match m.p2_table(root, page) {
            Some(frame) => upper_table(m, p4, frame),
            None => true,
        },
        match m.p1_table(root, page) {
            Some(frame) => upper_table(m, p4, frame),
            None => true,
        },
{
    lemma_slot_entry(p4);
    lemma_indices(page);
    let a = page.p3();
    let b = page.p2();
    assert(m.next(root, 511) == Some(p4));
    assert(m.next(p4, 511) == Some(p4));
    if a == 511 {
        assert(m.p2_table(root, page) == Some(p4));
        if b != 511 {
            let witness = page_below(b, 0);
            lemma_page_below(b, 0);
            assert(m.p1_table(root, page) == m.table_for(p4, witness, 3));
        }
    } else {
        let witness = page_below(a, b);
        lemma_page_below(a, b);
        assert(m.p2_table(root, page) == m.table_for(p4, witness, 3));
        assert(m.p1_table(root, page) == m.table_for(p4, witness, 2));
    }
}

/// Where the entries on the walk to `page` are in `m2` what they were in
/// `m`, or pointed at nothing in `m`, a frame that the walk reached in `m`
/// it still reaches in `m2`.
pub proof fn lemma_walk_kept(m: &PhysicalMemory, m2: &PhysicalMemory, root: u64, page: Page)
    requires
        m.translation(root, page).is_some(),
        m2.entry(root, page.p4()) == m.entry(root, page.p4()) || !is_present(m.entry(root, page.p4())),
        match m.p3_table(root, page) {
            Some(table) => m2.entry(table, page.p3()) == m.entry(table, page.p3()) || !is_present(
                m.entry(table, page.p3()),
            ),
            None => true,
        },
        match m.p2_table(root, page) {
            Some(table) => m2.entry(table, page.p2()) == m.entry(table, page.p2()) || !is_present(
                m.entry(table, page.p2()),
            ),
            None => true,
        },
        match m.p1_table(root, page) {
            Some(table) => m2.entry(table, page.p1()) == m.entry(table, page.p1()) || !is_present(
                m.entry(table, page.p1()),
            ),
            None => true,
        },
    ensures
        m2.translation(root, page) == m.translation(root, page),
{
}

/// The entry of a recursive slot points at a table.
pub proof fn lemma_slot_entry(p4: u64)
    requires
        p4 < MAX_FRAMES,
    ensures
        is_present(pack(p4, PRESENT | WRITABLE)),
        !is_huge(pack(p4, PRESENT | WRITABLE)),
        super::entry::frame_number(pack(p4, PRESENT | WRITABLE)) == p4,
{
    super::mapper::lemma_flag_facts();
    lemma_pack(p4, PRESENT | WRITABLE);
}

/// The address through which the table below entry `index` of the table
/// at `address` is seen.
pub fn next_table_address(address: VirtualAddress, index: usize) -> (next: VirtualAddress)
    requires
        index < 512,
    ensures
        next == child_address(address, index as u64),
{
    (address << 9) | ((index as u64) << 12)
}

/// The address through which the table of level `level` on the path of
/// `page` is seen, worked out from the address of the highest table's
/// window by one step for each level down.
pub fn table_address(page: Page, level: u8) -> (address: VirtualAddress)
    requires
        1 <= level <= 4,
    ensures
        address == window_address(page, level as int),
{
    let mut address = P4_TABLE_ADDRESS;
    if level <= 3 {
        proof {
            lemma_child_window(page, 4);
        }
        address = next_table_address(address, page.p4_index());
    }
    if level <= 2 {
        proof {
            lemma_child_window(page, 3);
        }
        address = next_table_address(address, page.p3_index());
    }
    if level <= 1 {
        proof {
            lemma_child_window(page, 2);
        }
        address = next_table_address(address, page.p2_index());
    }
    address
}

} // verus!
