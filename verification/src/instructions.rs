//! Encoders for the handful of A32 instruction words that the debug driver
//! injects into a halted core through the instruction-transfer register.
//!
//! Every encoder is a pure function from field values to the 32-bit
//! instruction word; the bit placement follows the ARM Architecture
//! Reference Manual, with the condition field fixed to "always".

use vstd::prelude::*;

verus! {

/// MCR: move from an ARM core register to a coprocessor register.
pub open spec fn mcr_word(coproc: u32, opc1: u32, rt: u32, crn: u32, crm: u32, opc2: u32) -> u32 {
    0xEE00_0010u32 | (opc1 << 21) | (crn << 16) | (rt << 12) | (coproc << 8) | (opc2 << 5) | crm
}

/// MRC: move from a coprocessor register to an ARM core register.
pub open spec fn mrc_word(coproc: u32, opc1: u32, rt: u32, crn: u32, crm: u32, opc2: u32) -> u32 {
    0xEE10_0010u32 | (opc1 << 21) | (crn << 16) | (rt << 12) | (coproc << 8) | (opc2 << 5) | crm
}

/// LDC: coprocessor load, post-indexed with writeback.
pub open spec fn ldc_word(coproc: u32, crd: u32, rn: u32, imm: u32) -> u32 {
    0xECB0_0000u32 | (rn << 16) | (crd << 12) | (coproc << 8) | ((imm / 4) & 0xFF)
}

/// STC: coprocessor store, post-indexed with writeback.
pub open spec fn stc_word(coproc: u32, crd: u32, rn: u32, imm: u32) -> u32 {
    0xECA0_0000u32 | (rn << 16) | (crd << 12) | (coproc << 8) | ((imm / 4) & 0xFF)
}

/// MOV (register): move one core register into another.
pub open spec fn mov_word(rd: u32, rm: u32) -> u32 {
    0xE1A0_0000u32 | (rd << 12) | rm
}

/// MRS: read the CPSR into a core register.
pub open spec fn mrs_word(rd: u32) -> u32 {
    0xE10F_0000u32 | (rd << 12)
}

/// BX: branch and exchange to the address held in a core register.
pub open spec fn bx_word(rn: u32) -> u32 {
    0xE12F_FF10u32 | rn
}

/// Encode `MCR p<coproc>, <opc1>, R<rt>, c<crn>, c<crm>, <opc2>`.
pub fn build_mcr(coproc: u8, opc1: u8, rt: u16, crn: u8, crm: u8, opc2: u8) -> (r: u32)
    requires
        coproc < 16,
        opc1 < 8,
        rt < 16,
        crn < 16,
        crm < 16,
        opc2 < 8,
    ensures
        r == mcr_word(coproc as u32, opc1 as u32, rt as u32, crn as u32, crm as u32, opc2 as u32),
{
    0xEE00_0010u32 | ((opc1 as u32) << 21) | ((crn as u32) << 16) | ((rt as u32) << 12)
        | ((coproc as u32) << 8) | ((opc2 as u32) << 5) | (crm as u32)
}

/// Encode `MRC p<coproc>, <opc1>, R<rt>, c<crn>, c<crm>, <opc2>`.
pub fn build_mrc(coproc: u8, opc1: u8, rt: u16, crn: u8, crm: u8, opc2: u8) -> (r: u32)
    requires
        coproc < 16,
        opc1 < 8,
        rt < 16,
        crn < 16,
        crm < 16,
        opc2 < 8,
    ensures
        r == mrc_word(coproc as u32, opc1 as u32, rt as u32, crn as u32, crm as u32, opc2 as u32),
{
    0xEE10_0010u32 | ((opc1 as u32) << 21) | ((crn as u32) << 16) | ((rt as u32) << 12)
        | ((coproc as u32) << 8) | ((opc2 as u32) << 5) | (crm as u32)
}

/// Encode `LDC p<coproc>, c<crd>, [R<rn>], #<imm>` (post-indexed).
pub fn build_ldc(coproc: u8, crd: u8, rn: u16, imm: u32) -> (r: u32)
    requires
        coproc < 16,
        crd < 16,
        rn < 16,
    ensures
        r == ldc_word(coproc as u32, crd as u32, rn as u32, imm),
{
    0xECB0_0000u32 | ((rn as u32) << 16) | ((crd as u32) << 12) | ((coproc as u32) << 8)
        | ((imm / 4) & 0xFF)
}

/// Encode `STC p<coproc>, c<crd>, [R<rn>], #<imm>` (post-indexed).
pub fn build_stc(coproc: u8, crd: u8, rn: u16, imm: u32) -> (r: u32)
    requires
        coproc < 16,
        crd < 16,
        rn < 16,
    ensures
        r == stc_word(coproc as u32, crd as u32, rn as u32, imm),
{
    0xECA0_0000u32 | ((rn as u32) << 16) | ((crd as u32) << 12) | ((coproc as u32) << 8)
        | ((imm / 4) & 0xFF)
}

/// Encode `MOV R<rd>, R<rm>`.
pub fn build_mov(rd: u16, rm: u16) -> (r: u32)
    requires
        rd < 16,
        rm < 16,
    ensures
        r == mov_word(rd as u32, rm as u32),
{
    0xE1A0_0000u32 | ((rd as u32) << 12) | (rm as u32)
}

/// Encode `MRS R<rd>, CPSR`.
pub fn build_mrs(rd: u16) -> (r: u32)
    requires
        rd < 16,
    ensures
        r == mrs_word(rd as u32),
{
    0xE10F_0000u32 | ((rd as u32) << 12)
}

/// Encode `BX R<rn>`.
pub fn build_bx(rn: u16) -> (r: u32)
    requires
        rn < 16,
    ensures
        r == bx_word(rn as u32),
{
    0xE12F_FF10u32 | (rn as u32)
}

} // verus!
