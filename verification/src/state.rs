//! Core status values and the per-session state kept by the drivers.

use vstd::prelude::*;

verus! {

/// Why a core entered the halted state, as reported by the debug hardware.
#[derive(Clone, Copy, PartialEq, Eq, Structural, Debug)]
pub enum HaltReason {
    /// The debugger requested the halt.
    Request,
    /// A breakpoint was hit.
    Breakpoint,
    /// A watchpoint was hit.
    Watchpoint,
    /// An external debug request halted the core.
    External,
    /// An exception was caught.
    Exception,
    /// Several reasons apply at once and cannot be told apart.
    Multiple,
    /// The hardware did not report a recognisable reason.
    Unknown,
}

/// The last observed execution state of a core.
#[derive(Clone, Copy, PartialEq, Eq, Structural, Debug)]
pub enum CoreStatus {
    /// No status has been observed yet.
    Unknown,
    /// The core is executing instructions.
    Running,
    /// The core is halted for the given reason.
    Halted(HaltReason),
}

impl CoreStatus {
    /// Whether the status is a halted state.
    pub open spec fn spec_is_halted(self) -> bool {
        self is Halted
    }

    /// Whether the status is a halted state.
    pub fn is_halted(&self) -> (r: bool)
        ensures
            r == self.spec_is_halted(),
    {
        match self {
            CoreStatus::Halted(_) => true,
            _ => false,
        }
    }
}

/// Information about a core returned by operations that halt it.
#[derive(Clone, Copy, PartialEq, Eq, Structural, Debug)]
pub struct CoreInformation {
    /// The current program counter.
    pub pc: u64,
}

/// The instruction set architecture family of a core.
#[derive(Clone, Copy, PartialEq, Eq, Structural, Debug)]
pub enum Architecture {
    /// An ARM core.
    Arm,
}

/// The specific core design.
#[derive(Clone, Copy, PartialEq, Eq, Structural, Debug)]
pub enum CoreType {
    /// An ARMv7-A application-profile core.
    Armv7a,
}

/// The instruction set a core is currently executing.
#[derive(Clone, Copy, PartialEq, Eq, Structural, Debug)]
pub enum InstructionSet {
    /// The 32-bit ARM instruction set.
    A32,
    /// The Thumb-2 instruction set.
    Thumb2,
}

/// Core information data which is downloaded from the target, represents its
/// state and can be used for debugging.
#[derive(Clone, PartialEq, Eq, Debug)]
pub struct Dump {
    /// The register values at the time of the dump.
    pub regs: [u32; 16],
    /// The stack pointer at the time of the dump.
    pub stack_addr: u32,
    /// The stack contents at the time of the dump.
    pub stack: Vec<u8>,
}

impl Dump {
    /// Create a new dump from a SP and a stack dump with zeroed out registers.
    pub fn new(stack_addr: u32, stack: Vec<u8>) -> (r: Dump)
        ensures
            forall|i: int| 0 <= i < 16 ==> r.regs@[i] == 0u32,
            r.stack_addr == stack_addr,
            r.stack@ == stack@,
    {
        Dump { regs: [0u32; 16], stack_addr, stack }
    }
}

/// Persistent session state for a Cortex-M core.
#[derive(Clone, PartialEq, Eq, Structural, Debug)]
pub struct CortexMState {
    /// True once the session has observed the core.
    pub initialized: bool,
    /// Whether hardware breakpoints are enabled.
    pub hw_breakpoints_enabled: bool,
    /// The last observed execution state.
    pub current_state: CoreStatus,
}

impl CortexMState {
    /// A fresh, uninitialized session state.
    pub fn new() -> (r: Self)
        ensures
            !r.initialized,
            !r.hw_breakpoints_enabled,
            r.current_state == CoreStatus::Unknown,
    {
        Self {
            initialized: false,
            hw_breakpoints_enabled: false,
            current_state: CoreStatus::Unknown,
        }
    }

    /// Mark the session as initialized.
    pub fn initialize(&mut self)
        ensures
            *final(self) == (CortexMState { initialized: true, ..*old(self) }),
    {
        self.initialized = true;
    }

    /// Whether the session has been initialized.
    pub fn initialized(&self) -> (r: bool)
        ensures
            r == self.initialized,
    {
        self.initialized
    }
}

/// Persistent session state for a Cortex-A core.
#[derive(Clone, PartialEq, Eq, Debug)]
pub struct CortexAState {
    /// True once the session has observed the core.
    pub initialized: bool,
    /// The last observed execution state.
    pub current_state: CoreStatus,
    /// Whether the core is currently in a 64-bit mode.
    pub is_64_bit: bool,
    /// Per-register slot holding a cached value and its dirty flag.
    pub register_cache: Vec<Option<(u32, bool)>>,
}

impl CortexAState {
    /// A fresh, uninitialized session state with an empty cache.
    pub fn new() -> (r: Self)
        ensures
            !r.initialized,
            r.current_state == CoreStatus::Unknown,
            !r.is_64_bit,
            r.register_cache@.len() == 0,
    {
        Self {
            initialized: false,
            current_state: CoreStatus::Unknown,
            is_64_bit: false,
            register_cache: Vec::new(),
        }
    }

    /// Mark the session as initialized.
    pub fn initialize(&mut self)
        ensures
            *final(self) == (CortexAState { initialized: true, ..*old(self) }),
    {
        self.initialized = true;
    }

    /// Whether the session has been initialized.
    pub fn initialized(&self) -> (r: bool)
        ensures
            r == self.initialized,
    {
        self.initialized
    }
}

} // verus!
