use vstd::prelude::*;
use crate::bsp::qemu_virt::UART_BASE;

verus! {

/// The UART of the board, driven by polling.
#[derive(Clone, Copy, Debug)]
pub struct UartPolling {
    base_address: usize,
}

impl UartPolling {
    pub closed spec fn spec_base_address(&self) -> usize {
        self.base_address
    }

    pub fn new() -> (uart: Self)
        ensures
            uart.base_address() == UART_BASE,
    {
        Self { base_address: UART_BASE }
    }

    #[verifier::when_used_as_spec(spec_base_address)]
    pub fn base_address(&self) -> (base: usize)
        ensures
            base == self.base_address(),
    {
        self.base_address
    }
}

} // verus!
