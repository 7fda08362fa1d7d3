use vstd::prelude::*;

verus! {

/// What every board can do to the whole system. Each method gives the word
/// that, stored to the board's finisher device, does it.
pub trait SystemControl {
    /// The word that ends the run as passed.
    spec fn shutdown_word(&self) -> u32;

    /// The word that resets the machine.
    spec fn reboot_word(&self) -> u32;

    fn shutdown(&self) -> (word: u32)
        ensures
            word == self.shutdown_word(),
    ;

    fn reboot(&self) -> (word: u32)
        ensures
            word == self.reboot_word(),
    ;
}

} // verus!
