//! Functions of devices on the PCI bus.

use vstd::prelude::*;

verus! {

/// One function of one device on one bus.
#[derive(Debug, Clone, Copy, PartialEq, Eq, Structural)]
pub struct PciFunc {
    pub bus: u8,
    pub dev: u8,
    pub func: u8,
}

/// The word that selects the register at `offset` of function `func` of
/// device `dev` on bus `bus`: the enable bit, then the bus, the device's
/// low five bits, the function's low three, and the offset without its low
/// two.
pub open spec fn config_address(bus: u8, dev: u8, func: u8, offset: u8) -> u32 {
    0x80000000u32 | ((bus as u32) << 16) | ((dev as u32) << 11) | ((func as u32) << 8) | ((offset as u32)
        & 0xFC)
}

impl PciFunc {
    pub fn new(bus: u8, dev: u8, func: u8) -> (function: PciFunc)
        ensures
            function == (PciFunc { bus, dev, func }),
    {
        PciFunc { bus, dev, func }
    }

    /// The word to write to the address port before the register at
    /// `offset` of this function is read or written through the data
    /// port.
    pub fn address(&self, offset: u8) -> (address: u32)
        ensures
            address == config_address(self.bus, self.dev, self.func, offset),
    {
        0x80000000u32 | ((self.bus as u32) << 16) | ((self.dev as u32) << 11) | ((self.func as u32) << 8)
            | ((offset as u32) & 0xFC)
    }
}

/// How many functions `for_each_pci_func` visits.
pub const VISITED_FUNCTIONS: usize = 255 * 32 * 8;

/// The function that is visited at place `i`: the buses come in rising
/// order, on each bus the devices, on each device the functions.
pub open spec fn visited(i: int) -> PciFunc {
    PciFunc { bus: (i / 256) as u8, dev: ((i / 8) % 32) as u8, func: (i % 8) as u8 }
}

/// Calls `f` for each function of each device on each bus but the last:
/// the buses from 0 to 254, on each the devices from 0 to 31, on each the
/// functions from 0 to 7, in rising order. What `f` returned comes back
/// in the order of the calls.
pub fn for_each_pci_func<R, F: Fn(PciFunc) -> R>(f: F) -> (results: Vec<R>)
    requires
        forall|function: PciFunc| #[trigger] call_requires(f, (function,)),
    ensures
        results@.len() == VISITED_FUNCTIONS,
        forall|i: int| 0 <= i < results@.len() ==> call_ensures(f, (visited(i),), #[trigger] results@[i]),
{
    let mut results: Vec<R> = Vec::new();
    let mut bus: u8 = 0;
    while bus < 255
        invariant
            forall|function: PciFunc| #[trigger] call_requires(f, (function,)),
            results@.len() == bus * 256,
            forall|i: int| 0 <= i < results@.len() ==> call_ensures(f, (visited(i),), #[trigger] results@[i]),
        decreases 255 - bus,
    {
        let mut dev: u8 = 0;
        while dev < 32
            invariant
                forall|function: PciFunc| #[trigger] call_requires(f, (function,)),
                bus < 255,
                dev <= 32,
                results@.len() == bus * 256 + dev * 8,
                forall|i: int|
                    0 <= i < results@.len() ==> call_ensures(f, (visited(i),), #[trigger] results@[i]),
            decreases 32 - dev,
        {
            let mut func: u8 = 0;
            while func < 8
                invariant
                    forall|function: PciFunc| #[trigger] call_requires(f, (function,)),
                    bus < 255,
                    dev < 32,
                    func <= 8,
                    results@.len() == bus * 256 + dev * 8 + func,
                    forall|i: int|
                        0 <= i < results@.len() ==> call_ensures(f, (visited(i),), #[trigger] results@[i]),
                decreases 8 - func,
            {
                let ghost place = results@.len() as int;
                let result = f(PciFunc::new(bus, dev, func));
                proof {
                    assert(visited(place) == (PciFunc { bus, dev, func }));
                }
                results.push(result);
                func += 1;
            }
            dev += 1;
        }
        bus += 1;
    }
    results
}

} // verus!
