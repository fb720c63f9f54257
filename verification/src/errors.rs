//! Error kinds surfaced by the debug driver.

use vstd::prelude::*;

verus! {

/// Errors specific to the ARMv7-A state machine.
#[derive(Clone, Copy, PartialEq, Eq, Structural, Debug)]
pub enum Armv7aError {
    /// The register index lies outside the supported range of 0..=16.
    InvalidRegisterNumber(u16),
    /// The operation requires the core to be halted, but it is running.
    NotHalted,
    /// A data abort was latched after an injected instruction.
    DataAbort,
}

/// Errors surfaced by the debug driver as a whole.
#[derive(Clone, Copy, PartialEq, Eq, Structural, Debug)]
pub enum DebugError {
    /// An ARMv7-A specific failure.
    Armv7a(Armv7aError),
    /// The address does not fit in the 32-bit space the core can access.
    InvalidAddress(u64),
    /// A bounded wait exceeded its polling budget.
    Timeout,
    /// The lower-level transport reported a fault.
    Transport,
    /// The requested feature is not implemented.
    Unsupported,
}

impl Armv7aError {
    /// A short description of the error, for hosts that display messages.
    pub fn describe(&self) -> (r: &'static str)
    {
        match self {
            Armv7aError::InvalidRegisterNumber(_) => "register number is not valid for ARMv7-A",
            Armv7aError::NotHalted => "core is running but operation requires it to be halted",
            Armv7aError::DataAbort => "a data abort occurred",
        }
    }
}

impl DebugError {
    /// A short description of the error, for hosts that display messages.
    pub fn describe(&self) -> (r: &'static str)
    {
        match self {
            DebugError::Armv7a(inner) => inner.describe(),
            DebugError::InvalidAddress(_) => "address does not fit in 32 bits",
            DebugError::Timeout => "operation timed out",
            DebugError::Transport => "the memory interface reported a fault",
            DebugError::Unsupported => "not implemented",
        }
    }
}

} // verus!
