use vstd::prelude::*;

verus! {

/// A 16550 UART at a base address.
#[derive(Clone, Copy, Debug)]
pub struct Uart {
    base_address: usize,
}

impl Uart {
    pub closed spec fn spec_base_address(&self) -> usize {
        self.base_address
    }

    pub fn new(base_address: usize) -> (uart: Self)
        ensures
            uart.base_address() == base_address,
    {
        Self { base_address }
    }

    #[verifier::when_used_as_spec(spec_base_address)]
    pub fn base_address(&self) -> (base: usize)
        ensures
            base == self.base_address(),
    {
        self.base_address
    }

    /// Address of the register at `offset`.
    pub fn register(&self, offset: usize) -> (addr: usize)
        requires
            self.base_address() + offset <= usize::MAX,
        ensures
            addr == self.base_address() + offset,
    {
        self.base_address + offset
    }

    /// The interrupt enable register without the receive interrupt.
    pub fn disable_receive_interrupt(&self, current_ier: u8) -> (ier: u8)
        ensures
            ier == current_ier & !0x01u8,
    {
        current_ier & !0x01
    }

    /// The interrupt enable register with the receive interrupt.
    pub fn enable_receive_interrupt(&self, current_ier: u8) -> (ier: u8)
        ensures
            ier == current_ier | 0x01u8,
    {
        current_ier | 0x01
    }

    /// The interrupt enable register without the transmit interrupt.
    pub fn disable_transmit_interrupt(&self, current_ier: u8) -> (ier: u8)
        ensures
            ier == current_ier & !0x02u8,
    {
        current_ier & !0x02
    }

    /// The interrupt enable register with the transmit interrupt.
    pub fn enable_transmit_interrupt(&self, current_ier: u8) -> (ier: u8)
        ensures
            ier == current_ier | 0x02u8,
    {
        current_ier | 0x02
    }
}

} // verus!
