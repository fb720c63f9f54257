//! Typed views of the memory-mapped debug registers.
//!
//! Each register type wraps the raw 32-bit word and exposes accessors for its
//! named bit fields; bit positions follow the ARM Architecture Reference
//! Manual.  `get_mmio_address` yields the register's location inside the
//! debug component's register bank.

use vstd::prelude::*;
use crate::state::HaltReason;

verus! {

/// Every debug register of the bank lies within this many bytes of the base.
pub const DEBUG_REGISTER_SPAN: u64 = 0x200;

/// A word with a single-bit field replaced.
pub open spec fn with_bit(word: u32, mask: u32, value: bool) -> u32 {
    if value {
        word | mask
    } else {
        word & !mask
    }
}

/// A word with a multi-bit field replaced.
pub open spec fn with_field(word: u32, mask: u32, shift: u32, value: u32) -> u32 {
    (word & !mask) | ((value << shift) & mask)
}

/// The location of the DBGDSCR register.
pub open spec fn dbgdscr_address(base_address: u64) -> u64 {
    (base_address + 0x88) as u64
}

/// The location of the DBGDTRRX register.
pub open spec fn dbgdtrrx_address(base_address: u64) -> u64 {
    (base_address + 0x80) as u64
}

/// The location of the DBGITR register.
pub open spec fn dbgitr_address(base_address: u64) -> u64 {
    (base_address + 0x84) as u64
}

/// The location of the DBGDTRTX register.
pub open spec fn dbgdtrtx_address(base_address: u64) -> u64 {
    (base_address + 0x8C) as u64
}

/// The location of the DBGDRCR register.
pub open spec fn dbgdrcr_address(base_address: u64) -> u64 {
    (base_address + 0x90) as u64
}

/// The location of the DBGDIDR register.
pub open spec fn dbgdidr_address(base_address: u64) -> u64 {
    base_address
}

/// The location of the first DBGBVR register; units stride by four bytes.
pub open spec fn dbgbvr_address(base_address: u64) -> u64 {
    (base_address + 0x100) as u64
}

/// The location of the first DBGBCR register; units stride by four bytes.
pub open spec fn dbgbcr_address(base_address: u64) -> u64 {
    (base_address + 0x140) as u64
}

/// DBGDSCR: the debug status and control register.
#[derive(Clone, Copy, PartialEq, Eq, Structural, Debug)]
pub struct Dbgdscr(pub u32);

impl Dbgdscr {
    /// The register's location in the debug register bank.
    pub fn get_mmio_address(base_address: u64) -> (r: u64)
        requires
            base_address + DEBUG_REGISTER_SPAN <= u64::MAX,
        ensures
            r == dbgdscr_address(base_address),
    {
        base_address + 0x88
    }

    /// Whether the core is halted.
    pub open spec fn spec_halted(self) -> bool {
        self.0 & 0x1 != 0
    }

    /// Whether the core is halted.
    pub fn halted(&self) -> (r: bool)
        ensures
            r == self.spec_halted(),
    {
        self.0 & 0x1 != 0
    }

    /// Set the halted bit.
    pub fn set_halted(&mut self, value: bool)
        ensures
            final(self).0 == with_bit(old(self).0, 0x1, value),
    {
        self.0 = if value { self.0 | 0x1 } else { self.0 & !0x1 };
    }

    /// Whether the core has restarted after a resume request.
    pub open spec fn spec_restarted(self) -> bool {
        self.0 & 0x2 != 0
    }

    /// Whether the core has restarted after a resume request.
    pub fn restarted(&self) -> (r: bool)
        ensures
            r == self.spec_restarted(),
    {
        self.0 & 0x2 != 0
    }

    /// Set the restarted bit.
    pub fn set_restarted(&mut self, value: bool)
        ensures
            final(self).0 == with_bit(old(self).0, 0x2, value),
    {
        self.0 = if value { self.0 | 0x2 } else { self.0 & !0x2 };
    }

    /// The method-of-entry field: why the core halted.
    pub open spec fn spec_moe(self) -> u32 {
        (self.0 >> 2) & 0xF
    }

    /// The method-of-entry field: why the core halted.
    pub fn moe(&self) -> (r: u32)
        ensures
            r == self.spec_moe(),
    {
        (self.0 >> 2) & 0xF
    }

    /// Set the method-of-entry field.
    pub fn set_moe(&mut self, value: u32)
        ensures
            final(self).0 == with_field(old(self).0, 0x3C, 2, value),
    {
        self.0 = (self.0 & !0x3C) | ((value << 2) & 0x3C);
    }

    /// Whether a sticky synchronous data abort is latched.
    pub open spec fn spec_sdabort_l(self) -> bool {
        self.0 & 0x40 != 0
    }

    /// Whether a sticky synchronous data abort is latched.
    pub fn sdabort_l(&self) -> (r: bool)
        ensures
            r == self.spec_sdabort_l(),
    {
        self.0 & 0x40 != 0
    }

    /// Set the sticky synchronous abort bit.
    pub fn set_sdabort_l(&mut self, value: bool)
        ensures
            final(self).0 == with_bit(old(self).0, 0x40, value),
    {
        self.0 = if value { self.0 | 0x40 } else { self.0 & !0x40 };
    }

    /// Whether a sticky asynchronous data abort is latched.
    pub open spec fn spec_adabort_l(self) -> bool {
        self.0 & 0x80 != 0
    }

    /// Whether a sticky asynchronous data abort is latched.
    pub fn adabort_l(&self) -> (r: bool)
        ensures
            r == self.spec_adabort_l(),
    {
        self.0 & 0x80 != 0
    }

    /// Set the sticky asynchronous abort bit.
    pub fn set_adabort_l(&mut self, value: bool)
        ensures
            final(self).0 == with_bit(old(self).0, 0x80, value),
    {
        self.0 = if value { self.0 | 0x80 } else { self.0 & !0x80 };
    }

    /// Whether the instruction-transfer mechanism is enabled.
    pub open spec fn spec_itren(self) -> bool {
        self.0 & 0x2000 != 0
    }

    /// Whether the instruction-transfer mechanism is enabled.
    pub fn itren(&self) -> (r: bool)
        ensures
            r == self.spec_itren(),
    {
        self.0 & 0x2000 != 0
    }

    /// Set the instruction-transfer enable bit.
    pub fn set_itren(&mut self, value: bool)
        ensures
            final(self).0 == with_bit(old(self).0, 0x2000, value),
    {
        self.0 = if value { self.0 | 0x2000 } else { self.0 & !0x2000 };
    }

    /// Whether the last injected instruction has completed (latched).
    pub open spec fn spec_instrcoml_l(self) -> bool {
        self.0 & 0x0100_0000 != 0
    }

    /// Whether the last injected instruction has completed (latched).
    pub fn instrcoml_l(&self) -> (r: bool)
        ensures
            r == self.spec_instrcoml_l(),
    {
        self.0 & 0x0100_0000 != 0
    }

    /// Set the latched instruction-complete bit.
    pub fn set_instrcoml_l(&mut self, value: bool)
        ensures
            final(self).0 == with_bit(old(self).0, 0x0100_0000, value),
    {
        self.0 = if value { self.0 | 0x0100_0000 } else { self.0 & !0x0100_0000 };
    }

    /// Whether DBGDTRTX holds a word for the debugger (latched).
    pub open spec fn spec_txfull_l(self) -> bool {
        self.0 & 0x0400_0000 != 0
    }

    /// Whether DBGDTRTX holds a word for the debugger (latched).
    pub fn txfull_l(&self) -> (r: bool)
        ensures
            r == self.spec_txfull_l(),
    {
        self.0 & 0x0400_0000 != 0
    }

    /// Set the latched transmit-full bit.
    pub fn set_txfull_l(&mut self, value: bool)
        ensures
            final(self).0 == with_bit(old(self).0, 0x0400_0000, value),
    {
        self.0 = if value { self.0 | 0x0400_0000 } else { self.0 & !0x0400_0000 };
    }

    /// Whether DBGDTRRX holds a word for the core (latched).
    pub open spec fn spec_rxfull_l(self) -> bool {
        self.0 & 0x0800_0000 != 0
    }

    /// Whether DBGDTRRX holds a word for the core (latched).
    pub fn rxfull_l(&self) -> (r: bool)
        ensures
            r == self.spec_rxfull_l(),
    {
        self.0 & 0x0800_0000 != 0
    }

    /// Set the latched receive-full bit.
    pub fn set_rxfull_l(&mut self, value: bool)
        ensures
            final(self).0 == with_bit(old(self).0, 0x0800_0000, value),
    {
        self.0 = if value { self.0 | 0x0800_0000 } else { self.0 & !0x0800_0000 };
    }

    /// The halt reason encoded in the method-of-entry field.
    pub open spec fn spec_halt_reason(self) -> HaltReason {
        let moe = self.spec_moe();
        if moe == 0b0000 {
            HaltReason::Request
        } else if moe == 0b0001 {
            HaltReason::Breakpoint
        } else if moe == 0b0010 {
            HaltReason::Watchpoint
        } else if moe == 0b0011 {
            HaltReason::Breakpoint
        } else if moe == 0b0100 {
            HaltReason::External
        } else if moe == 0b0101 {
            HaltReason::Exception
        } else if moe == 0b1010 {
            HaltReason::Watchpoint
        } else {
            HaltReason::Unknown
        }
    }

    /// Decode the method-of-entry field into a halt reason.
    pub fn halt_reason(&self) -> (r: HaltReason)
        ensures
            r == self.spec_halt_reason(),
    {
        match self.moe() {
            // Halt request from the debugger
            0b0000 => HaltReason::Request,
            // Breakpoint debug event
            0b0001 => HaltReason::Breakpoint,
            // Asynchronous watchpoint debug event
            0b0010 => HaltReason::Watchpoint,
            // BKPT instruction
            0b0011 => HaltReason::Breakpoint,
            // External debug request
            0b0100 => HaltReason::External,
            // Vector catch
            0b0101 => HaltReason::Exception,
            // Synchronous watchpoint debug event
            0b1010 => HaltReason::Watchpoint,
            _ => HaltReason::Unknown,
        }
    }
}

/// DBGDTRRX: the host-to-core data transfer register.
#[derive(Clone, Copy, PartialEq, Eq, Structural, Debug)]
pub struct Dbgdtrrx(pub u32);

impl Dbgdtrrx {
    /// The register's location in the debug register bank.
    pub fn get_mmio_address(base_address: u64) -> (r: u64)
        requires
            base_address + DEBUG_REGISTER_SPAN <= u64::MAX,
        ensures
            r == dbgdtrrx_address(base_address),
    {
        base_address + 0x80
    }
}

/// DBGITR: the instruction transfer register.
#[derive(Clone, Copy, PartialEq, Eq, Structural, Debug)]
pub struct Dbgitr(pub u32);

impl Dbgitr {
    /// The register's location in the debug register bank.
    pub fn get_mmio_address(base_address: u64) -> (r: u64)
        requires
            base_address + DEBUG_REGISTER_SPAN <= u64::MAX,
        ensures
            r == dbgitr_address(base_address),
    {
        base_address + 0x84
    }
}

/// DBGDTRTX: the core-to-host data transfer register.
#[derive(Clone, Copy, PartialEq, Eq, Structural, Debug)]
pub struct Dbgdtrtx(pub u32);

impl Dbgdtrtx {
    /// The register's location in the debug register bank.
    pub fn get_mmio_address(base_address: u64) -> (r: u64)
        requires
            base_address + DEBUG_REGISTER_SPAN <= u64::MAX,
        ensures
            r == dbgdtrtx_address(base_address),
    {
        base_address + 0x8C
    }
}

/// DBGDRCR: the debug run control register.
#[derive(Clone, Copy, PartialEq, Eq, Structural, Debug)]
pub struct Dbgdrcr(pub u32);

impl Dbgdrcr {
    /// The register's location in the debug register bank.
    pub fn get_mmio_address(base_address: u64) -> (r: u64)
        requires
            base_address + DEBUG_REGISTER_SPAN <= u64::MAX,
        ensures
            r == dbgdrcr_address(base_address),
    {
        base_address + 0x90
    }

    /// Set the halt request bit.
    pub fn set_hrq(&mut self, value: bool)
        ensures
            final(self).0 == with_bit(old(self).0, 0x1, value),
    {
        self.0 = if value { self.0 | 0x1 } else { self.0 & !0x1 };
    }

    /// Set the restart request bit.
    pub fn set_rrq(&mut self, value: bool)
        ensures
            final(self).0 == with_bit(old(self).0, 0x2, value),
    {
        self.0 = if value { self.0 | 0x2 } else { self.0 & !0x2 };
    }

    /// Set the clear-sticky-exceptions bit.
    pub fn set_cse(&mut self, value: bool)
        ensures
            final(self).0 == with_bit(old(self).0, 0x4, value),
    {
        self.0 = if value { self.0 | 0x4 } else { self.0 & !0x4 };
    }
}

/// DBGDIDR: the debug identification register.
#[derive(Clone, Copy, PartialEq, Eq, Structural, Debug)]
pub struct Dbgdidr(pub u32);

impl Dbgdidr {
    /// The register's location in the debug register bank.
    pub fn get_mmio_address(base_address: u64) -> (r: u64)
        requires
            base_address + DEBUG_REGISTER_SPAN <= u64::MAX,
        ensures
            r == dbgdidr_address(base_address),
    {
        base_address
    }

    /// The number of breakpoint register pairs, minus one.
    pub open spec fn spec_brps(self) -> u32 {
        (self.0 >> 24) & 0xF
    }

    /// The number of breakpoint register pairs, minus one.
    pub fn brps(&self) -> (r: u32)
        ensures
            r == self.spec_brps(),
    {
        (self.0 >> 24) & 0xF
    }

    /// Set the breakpoint-register-pairs field.
    pub fn set_brps(&mut self, value: u32)
        ensures
            final(self).0 == with_field(old(self).0, 0x0F00_0000, 24, value),
    {
        self.0 = (self.0 & !0x0F00_0000) | ((value << 24) & 0x0F00_0000);
    }
}

/// DBGBVR: a breakpoint value register.
#[derive(Clone, Copy, PartialEq, Eq, Structural, Debug)]
pub struct Dbgbvr(pub u32);

impl Dbgbvr {
    /// The location of breakpoint value register zero; units stride by four.
    pub fn get_mmio_address(base_address: u64) -> (r: u64)
        requires
            base_address + DEBUG_REGISTER_SPAN <= u64::MAX,
        ensures
            r == dbgbvr_address(base_address),
    {
        base_address + 0x100
    }
}

/// DBGBCR: a breakpoint control register.
#[derive(Clone, Copy, PartialEq, Eq, Structural, Debug)]
pub struct Dbgbcr(pub u32);

impl Dbgbcr {
    /// The location of breakpoint control register zero; units stride by four.
    pub fn get_mmio_address(base_address: u64) -> (r: u64)
        requires
            base_address + DEBUG_REGISTER_SPAN <= u64::MAX,
        ensures
            r == dbgbcr_address(base_address),
    {
        base_address + 0x140
    }

    /// Whether the breakpoint unit is enabled.
    pub open spec fn spec_e(self) -> bool {
        self.0 & 0x1 != 0
    }

    /// Whether the breakpoint unit is enabled.
    pub fn e(&self) -> (r: bool)
        ensures
            r == self.spec_e(),
    {
        self.0 & 0x1 != 0
    }

    /// Set the enable bit.
    pub fn set_e(&mut self, value: bool)
        ensures
            final(self).0 == with_bit(old(self).0, 0x1, value),
    {
        self.0 = if value { self.0 | 0x1 } else { self.0 & !0x1 };
    }

    /// Set the privileged-mode-control field.
    pub fn set_pmc(&mut self, value: u32)
        ensures
            final(self).0 == with_field(old(self).0, 0x6, 1, value),
    {
        self.0 = (self.0 & !0x6) | ((value << 1) & 0x6);
    }

    /// Set the byte-address-select field.
    pub fn set_bas(&mut self, value: u32)
        ensures
            final(self).0 == with_field(old(self).0, 0x1E0, 5, value),
    {
        self.0 = (self.0 & !0x1E0) | ((value << 5) & 0x1E0);
    }

    /// Set the higher-mode-control bit.
    pub fn set_hmc(&mut self, value: bool)
        ensures
            final(self).0 == with_bit(old(self).0, 0x2000, value),
    {
        self.0 = if value { self.0 | 0x2000 } else { self.0 & !0x2000 };
    }

    /// Set the breakpoint-type field (address match or mismatch).
    pub fn set_bt(&mut self, value: u32)
        ensures
            final(self).0 == with_field(old(self).0, 0x00F0_0000, 20, value),
    {
        self.0 = (self.0 & !0x00F0_0000) | ((value << 20) & 0x00F0_0000);
    }
}

/// DFSR: the Cortex-M debug fault status register.
#[derive(Clone, Copy, PartialEq, Eq, Structural, Debug)]
pub struct Dfsr(pub u32);

impl Dfsr {
    /// The count of fault bits that are set.
    pub open spec fn spec_fault_bits(self) -> int {
        (self.0 & 0x1) + ((self.0 >> 1) & 0x1) + ((self.0 >> 2) & 0x1) + ((self.0 >> 3) & 0x1)
            + ((self.0 >> 4) & 0x1)
    }

    /// Whether an external debug request halted the core.
    pub open spec fn spec_external(self) -> bool {
        self.0 & 0x10 != 0
    }

    /// Whether an external debug request halted the core.
    pub fn external(&self) -> (r: bool)
        ensures
            r == self.spec_external(),
    {
        self.0 & 0x10 != 0
    }

    /// Whether a vector catch triggered.
    pub open spec fn spec_vcatch(self) -> bool {
        self.0 & 0x8 != 0
    }

    /// Whether a vector catch triggered.
    pub fn vcatch(&self) -> (r: bool)
        ensures
            r == self.spec_vcatch(),
    {
        self.0 & 0x8 != 0
    }

    /// Whether the data watchpoint unit trapped.
    pub open spec fn spec_dwttrap(self) -> bool {
        self.0 & 0x4 != 0
    }

    /// Whether the data watchpoint unit trapped.
    pub fn dwttrap(&self) -> (r: bool)
        ensures
            r == self.spec_dwttrap(),
    {
        self.0 & 0x4 != 0
    }

    /// Whether a breakpoint was hit.
    pub open spec fn spec_bkpt(self) -> bool {
        self.0 & 0x2 != 0
    }

    /// Whether a breakpoint was hit.
    pub fn bkpt(&self) -> (r: bool)
        ensures
            r == self.spec_bkpt(),
    {
        self.0 & 0x2 != 0
    }

    /// Whether a halt request was served.
    pub open spec fn spec_halted(self) -> bool {
        self.0 & 0x1 != 0
    }

    /// Whether a halt request was served.
    pub fn halted(&self) -> (r: bool)
        ensures
            r == self.spec_halted(),
    {
        self.0 & 0x1 != 0
    }

    /// A mask that clears every fault bit when written back.
    pub fn clear_all() -> (r: Self)
        ensures
            r.0 == 0b11111u32,
    {
        Dfsr(0b11111)
    }

    /// A fault status built from a raw word, with the unused bits cleared.
    pub fn from_raw(value: u32) -> (r: Self)
        ensures
            r.0 == value & 0b11111u32,
    {
        // Ensure that all unused bits are set to zero, so that the number of
        // reasons can be counted from the low bits alone.
        Dfsr(value & 0b11111)
    }

    /// The halt reason encoded by the fault bits.
    pub open spec fn spec_halt_reason(self) -> HaltReason {
        if self.0 == 0 {
            // No bit is set: the cause cannot be identified.
            HaltReason::Unknown
        } else if self.spec_fault_bits() > 1 {
            // Several reasons are possible; breakpoints take precedence
            // because debuggers care most about them.
            if self.spec_bkpt() {
                HaltReason::Breakpoint
            } else {
                HaltReason::Multiple
            }
        } else if self.spec_bkpt() {
            HaltReason::Breakpoint
        } else if self.spec_external() {
            HaltReason::External
        } else if self.spec_dwttrap() {
            HaltReason::Watchpoint
        } else if self.spec_halted() {
            HaltReason::Request
        } else {
            HaltReason::Exception
        }
    }

    /// Decode the fault bits into a halt reason.
    pub fn halt_reason(&self) -> (r: HaltReason)
        requires
            self.0 <= 0b11111,
        ensures
            r == self.spec_halt_reason(),
    {
        if self.0 == 0 {
            return HaltReason::Unknown;
        }
        let mut bits: u32 = 0;
        if self.0 & 0x1 != 0 {
            bits = bits + 1;
        }
        if self.0 & 0x2 != 0 {
            bits = bits + 1;
        }
        if self.0 & 0x4 != 0 {
            bits = bits + 1;
        }
        if self.0 & 0x8 != 0 {
            bits = bits + 1;
        }
        if self.0 & 0x10 != 0 {
            bits = bits + 1;
        }
        proof {
            let w = self.0;
            assert((w & 0x1) + ((w >> 1) & 0x1) + ((w >> 2) & 0x1) + ((w >> 3) & 0x1) + ((w >> 4)
                & 0x1) == (if w & 0x1 != 0 {
                1int
            } else {
                0int
            }) + (if w & 0x2 != 0 {
                1int
            } else {
                0int
            }) + (if w & 0x4 != 0 {
                1int
            } else {
                0int
            }) + (if w & 0x8 != 0 {
                1int
            } else {
                0int
            }) + (if w & 0x10 != 0 {
                1int
            } else {
                0int
            })) by (bit_vector);
        }
        if bits > 1 {
            if self.bkpt() {
                HaltReason::Breakpoint
            } else {
                HaltReason::Multiple
            }
        } else if self.bkpt() {
            HaltReason::Breakpoint
        } else if self.external() {
            HaltReason::External
        } else if self.dwttrap() {
            HaltReason::Watchpoint
        } else if self.halted() {
            HaltReason::Request
        } else {
            // Exactly one bit is set and the four above are clear, so it is
            // the vector-catch bit.
            HaltReason::Exception
        }
    }
}

} // verus!
