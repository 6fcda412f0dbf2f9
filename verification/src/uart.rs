//! Core state of the UART driver: the MMIO base address of a 16550a-style
//! device. The polled register reads and writes themselves are hardware I/O
//! and live outside the verified library.

use vstd::prelude::*;

verus! {

/// Core structure for the Universal Asynchronous Receiver-Transmitter.
pub struct Uart {
    /// Base MMIO address where the UART device is mapped in the memory space.
    pub base_address: usize,
}

impl Uart {
    /// Creates a new UART driver instance pointing to a specific MMIO address.
    pub fn new(base_address: usize) -> (r: Self)
        ensures
            r.base_address == base_address,
    {
        Self { base_address }
    }
}

} // verus!
