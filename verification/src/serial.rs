//! A COM serial port, identified by the base address of its I/O registers.
//! Writing bytes to the port is memory-mapped I/O and happens outside this
//! crate; here the port is only the value that names it.

use vstd::prelude::*;

verus! {

/// A COM serial port.
pub struct ComPort {
    port_address: u32,
}

impl ComPort {
    /// The base address this port was created with.
    pub closed spec fn spec_address(&self) -> u32 {
        self.port_address
    }

    /// Create a new COM port with the specified base address.
    pub fn new(port_address: u32) -> (r: Self)
        ensures
            r.spec_address() == port_address,
    {
        ComPort { port_address }
    }

    /// The base address of the port's I/O registers.
    pub fn address(&self) -> (r: u32)
        ensures
            r == self.spec_address(),
    {
        self.port_address
    }
}

} // verus!
