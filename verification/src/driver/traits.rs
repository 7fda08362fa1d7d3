use vstd::prelude::*;

verus! {

/// A serial port that sends and receives bytes.
pub trait SerialPort {
    fn init(&mut self);

    fn putchar(&mut self, c: u8);

    fn getchar(&mut self) -> Option<u8>;
}

} // verus!
