//! Interrupt identifiers as the memory subsystem's collaborators use
//! them: the two remapped controller lines the kernel listens on.
//!
//! Loading descriptor tables and programming the controller touch the
//! hardware directly and live with the unverified startup code.

use vstd::prelude::*;

verus! {

/// First vector of the primary interrupt controller after remapping.
pub const PIC1_OFFSET: u8 = 32;
/// First vector of the secondary interrupt controller after remapping.
pub const PIC2_OFFSET: u8 = PIC1_OFFSET + 8;

/// The interrupt lines the kernel handles.
#[derive(Debug, Clone, Copy, PartialEq, Eq, Structural)]
pub enum InterruptID {
    Timer,
    Keyboard,
}

impl InterruptID {
    /// Vector number of this interrupt: the timer sits on the controller's
    /// first line, the keyboard on the next.
    pub fn vector(self) -> (v: u8)
        ensures
            self == InterruptID::Timer ==> v == PIC1_OFFSET,
            self == InterruptID::Keyboard ==> v == PIC1_OFFSET + 1,
    {
        match self {
            InterruptID::Timer => PIC1_OFFSET,
            InterruptID::Keyboard => PIC1_OFFSET + 1,
        }
    }
}

} // verus!
