use vstd::prelude::*;
use crate::data_struct::ring_buf::RingBuffer;

verus! {

/// Bytes that the UART's transmit FIFO takes at once.
pub const UART_FIFO_CAPACITY: usize = 16;

/// The bits of the interrupt status register that tell the cause.
pub const ISR_CAUSE_MASK: u8 = 0b0000_1110;

/// Received data is available.
pub const ISR_RX_AVAILABLE: u8 = 0b0000_0100;

/// The transmit holding register is empty.
pub const ISR_TX_EMPTY: u8 = 0b0000_0010;

/// The line status has changed.
pub const ISR_LINE_STATUS: u8 = 0b0000_0110;

/// What the UART asks for with an interrupt, and so what clears it.
#[derive(Clone, Copy, Debug, PartialEq, Eq, Structural)]
pub enum UartInterrupt {
    /// No interrupt is pending: nothing to do.
    Spurious,
    /// The transmitter is empty: send queued bytes.
    TransmitterEmpty,
    /// A byte has arrived: read the receive holding register.
    ReceiverReady,
    /// The line status has changed: read the line status register.
    LineStatus,
    /// A cause that is not served.
    Other,
}

/// What a value of the interrupt status register asks for: bit 0 set means
/// that nothing is pending; otherwise bits 1 to 3 tell the cause.
pub open spec fn uart_interrupt_of(isr_val: u8) -> UartInterrupt {
    if isr_val & 0x01 == 1 {
        UartInterrupt::Spurious
    } else if isr_val & ISR_CAUSE_MASK == ISR_TX_EMPTY {
        UartInterrupt::TransmitterEmpty
    } else if isr_val & ISR_CAUSE_MASK == ISR_RX_AVAILABLE {
        UartInterrupt::ReceiverReady
    } else if isr_val & ISR_CAUSE_MASK == ISR_LINE_STATUS {
        UartInterrupt::LineStatus
    } else {
        UartInterrupt::Other
    }
}

/// Decides what an interrupt of the UART is served with, from the value read
/// from its interrupt status register.
pub fn uart_interrupt_handler(isr_val: u8) -> (request: UartInterrupt)
    ensures
        request == uart_interrupt_of(isr_val),
{
    if (isr_val & 0x01) == 1 {
        return UartInterrupt::Spurious;
    }
    let cause = isr_val & ISR_CAUSE_MASK;
    if cause == ISR_TX_EMPTY {
        UartInterrupt::TransmitterEmpty
    } else if cause == ISR_RX_AVAILABLE {
        UartInterrupt::ReceiverReady
    } else if cause == ISR_LINE_STATUS {
        UartInterrupt::LineStatus
    } else {
        UartInterrupt::Other
    }
}

/// The queues between the UART's interrupt service and its users.
pub struct UartService {
    pub receive_buffer: RingBuffer<u8, 4096>,
    pub transmit_buffer: RingBuffer<u8, 4096>,
}

/// The first `n` items of a queue, or all of them if there are fewer.
pub open spec fn front_of(queue: Seq<u8>, n: nat) -> Seq<u8> {
    if queue.len() <= n {
        queue
    } else {
        queue.subrange(0, n as int)
    }
}

/// A queue without its first `n` items.
pub open spec fn behind(queue: Seq<u8>, n: nat) -> Seq<u8> {
    if queue.len() <= n {
        Seq::empty()
    } else {
        queue.subrange(n as int, queue.len() as int)
    }
}

impl UartService {
    pub open spec fn wf(&self) -> bool {
        self.receive_buffer.wf() && self.transmit_buffer.wf()
    }

    /// A service with empty queues.
    pub fn new() -> (service: Self)
        ensures
            service.wf(),
            service.receive_buffer@.len() == 0,
            service.transmit_buffer@.len() == 0,
    {
        UartService { receive_buffer: RingBuffer::new(), transmit_buffer: RingBuffer::new() }
    }

    /// Takes the bytes to write to the transmit holding register now that the
    /// transmitter is empty: the first 16 of the transmit queue, or all of
    /// it. Says whether the queue is empty after that, in which case the
    /// transmit interrupt is to be disabled.
    pub fn send_data(&mut self) -> (sent: (Vec<u8>, bool))
        requires
            old(self).wf(),
        ensures
            final(self).wf(),
            final(self).receive_buffer@ == old(self).receive_buffer@,
            sent.0@ == front_of(old(self).transmit_buffer@, UART_FIFO_CAPACITY as nat),
            final(self).transmit_buffer@ == behind(
                old(self).transmit_buffer@,
                UART_FIFO_CAPACITY as nat,
            ),
            sent.1 == (final(self).transmit_buffer@.len() == 0),
    {
        let mut batch: Vec<u8> = Vec::new();
        let mut sending = true;
        let ghost queue = self.transmit_buffer@;
        while sending && batch.len() < UART_FIFO_CAPACITY
            invariant
                self.wf(),
                self.receive_buffer@ == old(self).receive_buffer@,
                queue == old(self).transmit_buffer@,
                batch@.len() <= UART_FIFO_CAPACITY,
                batch@.len() <= queue.len(),
                batch@ == queue.subrange(0, batch@.len() as int),
                self.transmit_buffer@ == queue.subrange(batch@.len() as int, queue.len() as int),
                !sending ==> self.transmit_buffer@.len() == 0,
            decreases
                    UART_FIFO_CAPACITY - batch.len() + (if sending {
                        1int
                    } else {
                        0int
                    }),
        {
            let ghost done = batch@.len() as int;
            match self.transmit_buffer.pop() {
                Some(character) => {
                    batch.push(character);
                    proof {
                        assert(batch@ =~= queue.subrange(0, done + 1));
                        assert(self.transmit_buffer@ =~= queue.subrange(
                            done + 1,
                            queue.len() as int,
                        ));
                    }
                },
                None => {
                    sending = false;
                },
            }
        }
        let drained = self.transmit_buffer.is_empty();
        proof {
            if queue.len() <= UART_FIFO_CAPACITY {
                assert(batch@ =~= queue);
                assert(self.transmit_buffer@ =~= Seq::<u8>::empty());
            }
        }
        (batch, drained)
    }
}

} // verus!
