//! Unit tests for the instruction encoders, the register bit fields and the
//! byte-lane helpers.

use armv7a_debug::armv7a::{le_byte_of_word, word_with_le_byte};
use armv7a_debug::debug_regs::{Dbgbcr, Dbgbvr, Dbgdidr, Dbgdrcr, Dbgdscr, Dbgdtrrx, Dbgdtrtx, Dbgitr, Dfsr};
use armv7a_debug::instructions::{build_bx, build_ldc, build_mcr, build_mov, build_mrc, build_mrs, build_stc};
use armv7a_debug::state::{Dump, HaltReason};

#[test]
fn encoder_words_match_the_architecture() {
    // MCR p14, 0, R0, c0, c5, 0: push R0 into the transfer register.
    assert_eq!(0xEE00_0E15, build_mcr(14, 0, 0, 0, 5, 0));
    assert_eq!(0xEE00_2E15, build_mcr(14, 0, 2, 0, 5, 0));
    // MRC p14, 0, R0, c0, c5, 0: pull the transfer register into R0.
    assert_eq!(0xEE10_0E15, build_mrc(14, 0, 0, 0, 5, 0));
    // LDC p14, c5, [R0], #4 and STC p14, c5, [R0], #4.
    assert_eq!(0xECB0_5E01, build_ldc(14, 5, 0, 4));
    assert_eq!(0xECA0_5E01, build_stc(14, 5, 0, 4));
    // MOV R0, PC.
    assert_eq!(0xE1A0_000F, build_mov(0, 15));
    // MRS R0, CPSR.
    assert_eq!(0xE10F_0000, build_mrs(0));
    // BX R0.
    assert_eq!(0xE12F_FF10, build_bx(0));
}

#[test]
fn register_addresses_follow_the_bank_layout() {
    let base: u64 = 0x8000_1000;
    assert_eq!(base, Dbgdidr::get_mmio_address(base));
    assert_eq!(base + 0x80, Dbgdtrrx::get_mmio_address(base));
    assert_eq!(base + 0x84, Dbgitr::get_mmio_address(base));
    assert_eq!(base + 0x88, Dbgdscr::get_mmio_address(base));
    assert_eq!(base + 0x8C, Dbgdtrtx::get_mmio_address(base));
    assert_eq!(base + 0x90, Dbgdrcr::get_mmio_address(base));
    assert_eq!(base + 0x100, Dbgbvr::get_mmio_address(base));
    assert_eq!(base + 0x140, Dbgbcr::get_mmio_address(base));
}

#[test]
fn dbgdscr_bits() {
    let mut dscr = Dbgdscr(0);
    assert!(!dscr.halted());
    dscr.set_halted(true);
    assert!(dscr.halted());
    assert_eq!(0x1, dscr.0);
    dscr.set_restarted(true);
    assert_eq!(0x3, dscr.0);
    dscr.set_itren(true);
    assert!(dscr.itren());
    assert_eq!(0x2003, dscr.0);
    dscr.set_instrcoml_l(true);
    assert!(dscr.instrcoml_l());
    dscr.set_txfull_l(true);
    assert!(dscr.txfull_l());
    dscr.set_rxfull_l(true);
    assert!(dscr.rxfull_l());
    assert_eq!(0x0D00_2003, dscr.0);
    dscr.set_sdabort_l(true);
    assert!(dscr.sdabort_l());
    dscr.set_adabort_l(true);
    assert!(dscr.adabort_l());
    assert_eq!(0x0D00_20C3, dscr.0);
}

#[test]
fn dbgdscr_halt_reasons() {
    let mut dscr = Dbgdscr(0);
    dscr.set_halted(true);
    assert_eq!(HaltReason::Request, dscr.halt_reason());
    dscr.set_moe(0b0001);
    assert_eq!(HaltReason::Breakpoint, dscr.halt_reason());
    dscr.set_moe(0b0010);
    assert_eq!(HaltReason::Watchpoint, dscr.halt_reason());
    dscr.set_moe(0b0011);
    assert_eq!(HaltReason::Breakpoint, dscr.halt_reason());
    dscr.set_moe(0b0100);
    assert_eq!(HaltReason::External, dscr.halt_reason());
    dscr.set_moe(0b0101);
    assert_eq!(HaltReason::Exception, dscr.halt_reason());
    dscr.set_moe(0b1010);
    assert_eq!(HaltReason::Watchpoint, dscr.halt_reason());
    dscr.set_moe(0b1111);
    assert_eq!(HaltReason::Unknown, dscr.halt_reason());
}

#[test]
fn dbgbcr_control_word() {
    let mut bcr = Dbgbcr(0);
    bcr.set_bt(0b0000);
    bcr.set_hmc(true);
    bcr.set_pmc(0b11);
    bcr.set_bas(0b1111);
    bcr.set_e(true);
    assert!(bcr.e());
    assert_eq!(0x21E7, bcr.0);

    let mut mismatch = Dbgbcr(0);
    mismatch.set_bt(0b0100);
    mismatch.set_hmc(true);
    mismatch.set_pmc(0b11);
    mismatch.set_bas(0b1111);
    mismatch.set_e(true);
    assert_eq!(0x0040_21E7, mismatch.0);
}

#[test]
fn dbgdidr_brps() {
    let mut didr = Dbgdidr(0);
    didr.set_brps(5);
    assert_eq!(5, didr.brps());
    assert_eq!(5 << 24, didr.0);
}

#[test]
fn dbgdrcr_bits() {
    let mut drcr = Dbgdrcr(0);
    drcr.set_hrq(true);
    assert_eq!(0x1, drcr.0);
    let mut drcr = Dbgdrcr(0);
    drcr.set_rrq(true);
    assert_eq!(0x2, drcr.0);
    let mut drcr = Dbgdrcr(0);
    drcr.set_cse(true);
    assert_eq!(0x4, drcr.0);
}

#[test]
fn dfsr_halt_reasons() {
    assert_eq!(0b11111, Dfsr::clear_all().0);
    assert_eq!(0b11111, Dfsr::from_raw(0xFFFF_FFFF).0);

    assert_eq!(HaltReason::Unknown, Dfsr::from_raw(0).halt_reason());
    assert_eq!(HaltReason::Request, Dfsr::from_raw(0b00001).halt_reason());
    assert_eq!(HaltReason::Breakpoint, Dfsr::from_raw(0b00010).halt_reason());
    assert_eq!(HaltReason::Watchpoint, Dfsr::from_raw(0b00100).halt_reason());
    assert_eq!(HaltReason::Exception, Dfsr::from_raw(0b01000).halt_reason());
    assert_eq!(HaltReason::External, Dfsr::from_raw(0b10000).halt_reason());
    // Breakpoints take precedence when several bits are set.
    assert_eq!(HaltReason::Breakpoint, Dfsr::from_raw(0b00011).halt_reason());
    // Several reasons without a breakpoint cannot be told apart.
    assert_eq!(HaltReason::Multiple, Dfsr::from_raw(0b10100).halt_reason());
}

#[test]
fn byte_lane_helpers() {
    // 0xBA5EBA11 holds, in little-endian order, 0x11, 0xBA, 0x5E, 0xBA.
    assert_eq!(0x11, le_byte_of_word(0xBA5E_BA11, 0));
    assert_eq!(0xBA, le_byte_of_word(0xBA5E_BA11, 1));
    assert_eq!(0x5E, le_byte_of_word(0xBA5E_BA11, 2));
    assert_eq!(0xBA, le_byte_of_word(0xBA5E_BA11, 3));

    assert_eq!(0x12AB_5678, word_with_le_byte(0x1234_5678, 2, 0xAB));
    // Splicing a byte and reading the same lane yields the byte back.
    assert_eq!(0xAB, le_byte_of_word(word_with_le_byte(0x1234_5678, 2, 0xAB), 2));
    assert_eq!(0xCD, le_byte_of_word(word_with_le_byte(0xFFFF_FFFF, 0, 0xCD), 0));
}

#[test]
fn dump_starts_with_zeroed_registers() {
    let dump = Dump::new(0x2000_0400, vec![1, 2, 3, 4]);
    assert_eq!([0u32; 16], dump.regs);
    assert_eq!(0x2000_0400, dump.stack_addr);
    assert_eq!(vec![1, 2, 3, 4], dump.stack);
}
