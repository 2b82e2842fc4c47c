//! How a transfer between a buffer and a disk is cut into pieces.

use vstd::prelude::*;

verus! {

/// Bytes in one sector.
pub const SECTOR_SIZE: u64 = 512;

/// The most sectors that one transfer moves.
pub const MAX_SECTORS: u64 = 255;

/// What is known of a disk: its number among the controller's ports and
/// its size in bytes.
#[derive(Debug, Clone, Copy, PartialEq, Eq, Structural)]
pub struct Disk {
    pub id: usize,
    pub size: u64,
}

/// How many sectors the next transfer moves when `sector` of `sectors`
/// sectors are through: 255 as long as that many are left, then the rest.
pub open spec fn transfer_at(sectors: u64, sector: u64) -> u64 {
    if sectors - sector >= MAX_SECTORS {
        MAX_SECTORS
    } else {
        (sectors - sector) as u64
    }
}

impl Disk {
    pub fn new(id: usize, size: u64) -> (disk: Disk)
        ensures
            disk.id == id,
            disk.size == size,
    {
        Disk { id, size }
    }

    pub fn id(&self) -> (id: usize)
        ensures
            id == self.id,
    {
        self.id
    }

    /// The disk's size in bytes.
    pub fn size(&self) -> (size: u64)
        ensures
            size == self.size,
    {
        self.size
    }

    /// How many whole sectors a buffer of `length` bytes holds.
    pub fn sectors(length: u64) -> (sectors: u64)
        ensures
            sectors == length / SECTOR_SIZE,
    {
        length / SECTOR_SIZE
    }

    /// The next step of a transfer of `sectors` sectors of which `sector`
    /// are through: how many sectors to move now, or nothing when the
    /// transfer is complete.
    pub fn next_transfer(sectors: u64, sector: u64) -> (count: Option<u64>)
        requires
            sector <= sectors,
        ensures
            count == if sector < sectors {
                Some(transfer_at(sectors, sector))
            } else {
                None::<u64>
            },
            match count {
                Some(now) => 0 < now <= MAX_SECTORS && sector + now <= sectors,
                None => sector == sectors,
            },
    {
        if sectors - sector >= MAX_SECTORS {
            Some(MAX_SECTORS)
        } else if sector < sectors {
            Some(sectors - sector)
        } else {
            None
        }
    }

    /// The pieces into which a transfer of `sectors` sectors is cut, each
    /// with the sector at which it starts and the number of sectors it
    /// moves: all of 255 sectors but the last, which moves the rest.
    pub fn transfers(sectors: u64) -> (pieces: Vec<(u64, u64)>)
        ensures
            pieces@.len() == (sectors + MAX_SECTORS - 1) / MAX_SECTORS as int,
            forall|i: int|
                0 <= i < pieces@.len() ==> (#[trigger] pieces@[i]).0 == i * MAX_SECTORS && pieces@[i].1
                    == transfer_at(sectors, (i * MAX_SECTORS) as u64),
    {
        let mut pieces: Vec<(u64, u64)> = Vec::new();
        let mut sector: u64 = 0;
        loop
            invariant
                sector <= sectors,
                sector == pieces@.len() * MAX_SECTORS || sector == sectors,
                sector == sectors ==> pieces@.len() == (sectors + MAX_SECTORS - 1) / MAX_SECTORS as int,
                sector < sectors ==> sector == pieces@.len() * MAX_SECTORS,
                forall|i: int|
                    0 <= i < pieces@.len() ==> (#[trigger] pieces@[i]).0 == i * MAX_SECTORS
                        && pieces@[i].1 == transfer_at(sectors, (i * MAX_SECTORS) as u64),
            decreases sectors - sector,
        {
            match Disk::next_transfer(sectors, sector) {
                Some(count) => {
                    pieces.push((sector, count));
                    sector = sector + count;
                },
                None => { return pieces; },
            }
        }
    }
}

} // verus!
