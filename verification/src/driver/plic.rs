use vstd::prelude::*;

verus! {

/// The device that an interrupt request number names.
#[derive(Clone, Copy, Debug, PartialEq, Eq, Structural)]
pub enum InterruptRequest {
    UART,
    UNKNOWN,
}

impl InterruptRequest {
    /// The device of request number `num`: 10 is the UART.
    pub open spec fn of_num(num: u32) -> InterruptRequest {
        if num == 10 {
            InterruptRequest::UART
        } else {
            InterruptRequest::UNKNOWN
        }
    }

    #[verifier::when_used_as_spec(of_num)]
    pub fn num_to_irq(num: u32) -> (irq: InterruptRequest)
        ensures
            irq == Self::of_num(num),
    {
        match num {
            10 => InterruptRequest::UART,
            _ => InterruptRequest::UNKNOWN,
        }
    }

    /// The request number of the device; 717 stands for no known device.
    pub fn to_num(&self) -> (num: u32)
        ensures
            num == (match *self {
                InterruptRequest::UART => 10u32,
                InterruptRequest::UNKNOWN => 717u32,
            }),
            *self == InterruptRequest::UART ==> Self::of_num(num) == *self,
    {
        match self {
            InterruptRequest::UART => 10,
            InterruptRequest::UNKNOWN => 717,
        }
    }
}

/// The platform-level interrupt controller.
#[derive(Clone, Copy, Debug)]
pub struct PLIC {}

} // verus!
