//! Controller tests against a scripted mock of the memory interface.

use armv7a_debug::armv7a::Armv7a;
use armv7a_debug::debug_regs::{Dbgbcr, Dbgbvr, Dbgdidr, Dbgdrcr, Dbgdscr, Dbgdtrrx, Dbgdtrtx, Dbgitr};
use armv7a_debug::errors::{Armv7aError, DebugError};
use armv7a_debug::instructions::{build_ldc, build_mcr, build_mov, build_mrc, build_mrs, build_stc};
use armv7a_debug::interface::{DebugMemoryInterface, InertSequence, MemOp, ScriptedMemory};
use armv7a_debug::state::{CoreStatus, CortexAState, HaltReason, InstructionSet};

const TEST_BASE_ADDRESS: u64 = 0x8000_1000;

struct ExpectedMemoryOp {
    read: bool,
    address: u64,
    value: u32,
}

struct MockProbe {
    expected_ops: Vec<ExpectedMemoryOp>,
}

impl MockProbe {
    fn new() -> Self {
        MockProbe { expected_ops: vec![] }
    }

    fn expected_read(&mut self, addr: u64, value: u32) {
        self.expected_ops.push(ExpectedMemoryOp { read: true, address: addr, value });
    }

    fn expected_write(&mut self, addr: u64, value: u32) {
        self.expected_ops.push(ExpectedMemoryOp { read: false, address: addr, value });
    }

    fn all_consumed(&self) -> bool {
        self.expected_ops.is_empty()
    }
}

impl DebugMemoryInterface for MockProbe {
    fn history(&self) -> vstd::seq::Seq<armv7a_debug::interface::MemOp> {
        // Ghost state: never evaluated at run time.
        panic!("the access history is ghost state");
    }

    fn read_word_32(&mut self, address: u64) -> Result<u32, DebugError> {
        if self.expected_ops.is_empty() {
            panic!("received unexpected read at {:#x}", address);
        }
        let expected = self.expected_ops.remove(0);
        assert!(expected.read, "expected a write, got a read at {:#x}", address);
        assert_eq!(expected.address, address, "read from unexpected register");
        Ok(expected.value)
    }

    fn write_word_32(&mut self, address: u64, data: u32) -> Result<(), DebugError> {
        if self.expected_ops.is_empty() {
            panic!("received unexpected write at {:#x}", address);
        }
        let expected = self.expected_ops.remove(0);
        assert!(!expected.read, "expected a read, got a write at {:#x}", address);
        assert_eq!(expected.address, address, "write to unexpected register");
        assert_eq!(expected.value, data, "write value mismatch at {:#x}", address);
        Ok(())
    }
}

fn add_status_expectations(probe: &mut MockProbe, halted: bool) {
    let mut dbgdscr = Dbgdscr(0);
    dbgdscr.set_halted(halted);
    dbgdscr.set_restarted(true);
    probe.expected_read(Dbgdscr::get_mmio_address(TEST_BASE_ADDRESS), dbgdscr.0);
}

fn add_enable_itr_expectations(probe: &mut MockProbe) {
    let mut dbgdscr = Dbgdscr(0);
    dbgdscr.set_halted(true);
    probe.expected_read(Dbgdscr::get_mmio_address(TEST_BASE_ADDRESS), dbgdscr.0);
    dbgdscr.set_itren(true);
    probe.expected_write(Dbgdscr::get_mmio_address(TEST_BASE_ADDRESS), dbgdscr.0);
}

fn add_read_reg_expectations(probe: &mut MockProbe, reg: u16, value: u32) {
    probe.expected_write(
        Dbgitr::get_mmio_address(TEST_BASE_ADDRESS),
        build_mcr(14, 0, reg, 0, 5, 0),
    );
    let mut dbgdscr = Dbgdscr(0);
    dbgdscr.set_instrcoml_l(true);
    dbgdscr.set_txfull_l(true);

    probe.expected_read(Dbgdscr::get_mmio_address(TEST_BASE_ADDRESS), dbgdscr.0);
    probe.expected_read(Dbgdtrtx::get_mmio_address(TEST_BASE_ADDRESS), value);
}

fn add_read_pc_expectations(probe: &mut MockProbe, value: u32) {
    let mut dbgdscr = Dbgdscr(0);
    dbgdscr.set_instrcoml_l(true);
    dbgdscr.set_txfull_l(true);

    probe.expected_write(Dbgitr::get_mmio_address(TEST_BASE_ADDRESS), build_mov(0, 15));
    probe.expected_read(Dbgdscr::get_mmio_address(TEST_BASE_ADDRESS), dbgdscr.0);
    // The observed program counter carries the expected pipeline offset.
    add_read_reg_expectations(probe, 0, value + 8);
}

fn add_read_cpsr_expectations(probe: &mut MockProbe, value: u32) {
    let mut dbgdscr = Dbgdscr(0);
    dbgdscr.set_instrcoml_l(true);
    dbgdscr.set_txfull_l(true);

    probe.expected_write(Dbgitr::get_mmio_address(TEST_BASE_ADDRESS), build_mrs(0));
    probe.expected_read(Dbgdscr::get_mmio_address(TEST_BASE_ADDRESS), dbgdscr.0);
    add_read_reg_expectations(probe, 0, value);
}

fn add_idr_expectations(probe: &mut MockProbe, bp_count: u32) {
    let mut dbgdidr = Dbgdidr(0);
    dbgdidr.set_brps(bp_count - 1);
    probe.expected_read(Dbgdidr::get_mmio_address(TEST_BASE_ADDRESS), dbgdidr.0);
}

fn add_set_r0_expectation(probe: &mut MockProbe, value: u32) {
    let mut dbgdscr = Dbgdscr(0);
    dbgdscr.set_instrcoml_l(true);
    dbgdscr.set_rxfull_l(true);

    probe.expected_write(Dbgdtrrx::get_mmio_address(TEST_BASE_ADDRESS), value);
    probe.expected_read(Dbgdscr::get_mmio_address(TEST_BASE_ADDRESS), dbgdscr.0);

    probe.expected_write(
        Dbgitr::get_mmio_address(TEST_BASE_ADDRESS),
        build_mrc(14, 0, 0, 0, 5, 0),
    );
    probe.expected_read(Dbgdscr::get_mmio_address(TEST_BASE_ADDRESS), dbgdscr.0);
}

fn add_write_memory_expectations(probe: &mut MockProbe, address: u64, value: u32) {
    add_set_r0_expectation(probe, address as u32);

    let mut dbgdscr = Dbgdscr(0);
    dbgdscr.set_instrcoml_l(true);
    dbgdscr.set_rxfull_l(true);

    probe.expected_write(Dbgdtrrx::get_mmio_address(TEST_BASE_ADDRESS), value);
    probe.expected_read(Dbgdscr::get_mmio_address(TEST_BASE_ADDRESS), dbgdscr.0);
    probe.expected_write(Dbgitr::get_mmio_address(TEST_BASE_ADDRESS), build_stc(14, 5, 0, 4));
    let mut done = Dbgdscr(0);
    done.set_instrcoml_l(true);
    probe.expected_read(Dbgdscr::get_mmio_address(TEST_BASE_ADDRESS), done.0);
}

fn add_read_memory_expectations(probe: &mut MockProbe, address: u64, value: u32) {
    add_set_r0_expectation(probe, address as u32);

    let mut dbgdscr = Dbgdscr(0);
    dbgdscr.set_instrcoml_l(true);
    dbgdscr.set_txfull_l(true);

    probe.expected_write(Dbgitr::get_mmio_address(TEST_BASE_ADDRESS), build_ldc(14, 5, 0, 4));
    probe.expected_read(Dbgdscr::get_mmio_address(TEST_BASE_ADDRESS), dbgdscr.0);
    probe.expected_read(Dbgdtrtx::get_mmio_address(TEST_BASE_ADDRESS), value);
}

fn make_core(probe: MockProbe) -> Armv7a<MockProbe, InertSequence> {
    Armv7a::new(probe, CortexAState::new(), TEST_BASE_ADDRESS, InertSequence::new()).unwrap()
}

#[test]
fn armv7a_new() {
    let mut probe = MockProbe::new();

    // Add expectations
    add_status_expectations(&mut probe, true);

    let _ = make_core(probe);
}

#[test]
fn armv7a_core_halted() {
    let mut probe = MockProbe::new();

    // Add expectations
    add_status_expectations(&mut probe, true);

    let mut dbgdscr = Dbgdscr(0);
    dbgdscr.set_halted(false);
    probe.expected_read(Dbgdscr::get_mmio_address(TEST_BASE_ADDRESS), dbgdscr.0);

    dbgdscr.set_halted(true);
    probe.expected_read(Dbgdscr::get_mmio_address(TEST_BASE_ADDRESS), dbgdscr.0);

    let mut armv7a = make_core(probe);

    // First read false, second read true
    assert_eq!(false, armv7a.core_halted().unwrap());
    assert_eq!(true, armv7a.core_halted().unwrap());
}

#[test]
fn armv7a_wait_for_core_halted() {
    let mut probe = MockProbe::new();

    // Add expectations
    add_status_expectations(&mut probe, true);

    let mut dbgdscr = Dbgdscr(0);
    dbgdscr.set_halted(false);
    probe.expected_read(Dbgdscr::get_mmio_address(TEST_BASE_ADDRESS), dbgdscr.0);

    dbgdscr.set_halted(true);
    probe.expected_read(Dbgdscr::get_mmio_address(TEST_BASE_ADDRESS), dbgdscr.0);

    let mut armv7a = make_core(probe);

    // Should halt on second read
    armv7a.wait_for_core_halted(100).unwrap();
}

#[test]
fn armv7a_status_running() {
    let mut probe = MockProbe::new();

    // Add expectations
    add_status_expectations(&mut probe, true);

    let mut dbgdscr = Dbgdscr(0);
    dbgdscr.set_halted(false);
    probe.expected_read(Dbgdscr::get_mmio_address(TEST_BASE_ADDRESS), dbgdscr.0);

    let mut armv7a = make_core(probe);

    assert_eq!(CoreStatus::Running, armv7a.status().unwrap());
}

#[test]
fn armv7a_status_halted() {
    let mut probe = MockProbe::new();

    // Add expectations
    add_status_expectations(&mut probe, true);

    let mut dbgdscr = Dbgdscr(0);
    dbgdscr.set_halted(true);
    probe.expected_read(Dbgdscr::get_mmio_address(TEST_BASE_ADDRESS), dbgdscr.0);

    let mut armv7a = make_core(probe);

    assert_eq!(CoreStatus::Halted(HaltReason::Request), armv7a.status().unwrap());
}

#[test]
fn armv7a_read_core_reg_common() {
    const REG_VALUE: u32 = 0xABCD;

    let mut probe = MockProbe::new();

    // Add expectations
    add_status_expectations(&mut probe, true);

    // Read status, update ITR
    add_enable_itr_expectations(&mut probe);

    // Read register
    add_read_reg_expectations(&mut probe, 2, REG_VALUE);

    let mut armv7a = make_core(probe);

    // First read will hit expectations
    assert_eq!(REG_VALUE, armv7a.read_core_reg(2).unwrap());

    // Second read will cache, no new expectations
    assert_eq!(REG_VALUE, armv7a.read_core_reg(2).unwrap());
    assert!(armv7a.memory.all_consumed());
}

#[test]
fn armv7a_read_core_reg_pc() {
    const REG_VALUE: u32 = 0xABCD;

    let mut probe = MockProbe::new();

    // Add expectations
    add_status_expectations(&mut probe, true);

    // Read status, update ITR
    add_enable_itr_expectations(&mut probe);

    // Read PC
    add_read_reg_expectations(&mut probe, 0, 0);
    add_read_pc_expectations(&mut probe, REG_VALUE);

    let mut armv7a = make_core(probe);

    // First read will hit expectations
    assert_eq!(REG_VALUE, armv7a.read_core_reg(15).unwrap());

    // Second read will cache, no new expectations
    assert_eq!(REG_VALUE, armv7a.read_core_reg(15).unwrap());
}

#[test]
fn armv7a_read_core_reg_cpsr() {
    const REG_VALUE: u32 = 0xABCD;

    let mut probe = MockProbe::new();

    // Add expectations
    add_status_expectations(&mut probe, true);

    // Read status, update ITR
    add_enable_itr_expectations(&mut probe);

    // Read CPSR
    add_read_reg_expectations(&mut probe, 0, 0);
    add_read_cpsr_expectations(&mut probe, REG_VALUE);

    let mut armv7a = make_core(probe);

    // First read will hit expectations
    assert_eq!(REG_VALUE, armv7a.read_core_reg(16).unwrap());

    // Second read will cache, no new expectations
    assert_eq!(REG_VALUE, armv7a.read_core_reg(16).unwrap());
}

#[test]
fn armv7a_halt() {
    const REG_VALUE: u32 = 0xABCD;

    let mut probe = MockProbe::new();

    // Add expectations
    add_status_expectations(&mut probe, false);

    // Write halt request
    let mut dbgdrcr = Dbgdrcr(0);
    dbgdrcr.set_hrq(true);
    probe.expected_write(Dbgdrcr::get_mmio_address(TEST_BASE_ADDRESS), dbgdrcr.0);

    // Wait for halted
    add_status_expectations(&mut probe, true);

    // Read status
    add_status_expectations(&mut probe, true);

    // Read status, update ITR
    add_enable_itr_expectations(&mut probe);

    // Read PC
    add_read_reg_expectations(&mut probe, 0, 0);
    add_read_pc_expectations(&mut probe, REG_VALUE);

    let mut armv7a = make_core(probe);

    // Verify PC
    assert_eq!(REG_VALUE as u64, armv7a.halt(100).unwrap().pc);

    // Every slot but the program-counter read's refill is empty again.
    for (i, slot) in armv7a.state.register_cache.iter().enumerate() {
        if i != 0 && i != 15 {
            assert_eq!(None, *slot);
        }
    }
}

#[test]
fn armv7a_run() {
    let mut probe = MockProbe::new();

    // Add expectations
    add_status_expectations(&mut probe, true);

    // Write resume request
    let mut dbgdrcr = Dbgdrcr(0);
    dbgdrcr.set_rrq(true);
    probe.expected_write(Dbgdrcr::get_mmio_address(TEST_BASE_ADDRESS), dbgdrcr.0);

    // Wait for running
    add_status_expectations(&mut probe, false);

    // Read status
    add_status_expectations(&mut probe, false);

    let mut armv7a = make_core(probe);

    armv7a.run().unwrap();

    // The cache is empty after a resume.
    for slot in armv7a.state.register_cache.iter() {
        assert_eq!(None, *slot);
    }
}

#[test]
fn armv7a_available_breakpoint_units() {
    const BP_COUNT: u32 = 4;
    let mut probe = MockProbe::new();

    // Add expectations
    add_status_expectations(&mut probe, true);

    // Read breakpoint count
    add_idr_expectations(&mut probe, BP_COUNT);

    let mut armv7a = make_core(probe);

    assert_eq!(BP_COUNT, armv7a.available_breakpoint_units().unwrap());
}

#[test]
fn armv7a_hw_breakpoints() {
    const BP_COUNT: u32 = 4;
    const BP1: u64 = 0x2345;
    const BP2: u64 = 0x8000_0000;
    let mut probe = MockProbe::new();

    // Add expectations
    add_status_expectations(&mut probe, true);

    // Read breakpoint count
    add_idr_expectations(&mut probe, BP_COUNT);

    // Read BP values and controls
    probe.expected_read(Dbgbvr::get_mmio_address(TEST_BASE_ADDRESS), BP1 as u32);
    probe.expected_read(Dbgbcr::get_mmio_address(TEST_BASE_ADDRESS), 1);

    probe.expected_read(Dbgbvr::get_mmio_address(TEST_BASE_ADDRESS) + (1 * 4), BP2 as u32);
    probe.expected_read(Dbgbcr::get_mmio_address(TEST_BASE_ADDRESS) + (1 * 4), 1);

    probe.expected_read(Dbgbvr::get_mmio_address(TEST_BASE_ADDRESS) + (2 * 4), 0);
    probe.expected_read(Dbgbcr::get_mmio_address(TEST_BASE_ADDRESS) + (2 * 4), 0);

    probe.expected_read(Dbgbvr::get_mmio_address(TEST_BASE_ADDRESS) + (3 * 4), 0);
    probe.expected_read(Dbgbcr::get_mmio_address(TEST_BASE_ADDRESS) + (3 * 4), 0);

    let mut armv7a = make_core(probe);

    let results = armv7a.hw_breakpoints().unwrap();
    assert_eq!(Some(BP1), results[0]);
    assert_eq!(Some(BP2), results[1]);
    assert_eq!(None, results[2]);
    assert_eq!(None, results[3]);
}

#[test]
fn armv7a_set_hw_breakpoint() {
    const BP_VALUE: u64 = 0x2345;
    let mut probe = MockProbe::new();

    // Add expectations
    add_status_expectations(&mut probe, true);

    // Update BP value and control
    let mut dbgbcr = Dbgbcr(0);
    // Match on all modes
    dbgbcr.set_hmc(true);
    dbgbcr.set_pmc(0b11);
    // Match on all bytes
    dbgbcr.set_bas(0b1111);
    // Enable
    dbgbcr.set_e(true);

    probe.expected_write(Dbgbvr::get_mmio_address(TEST_BASE_ADDRESS), BP_VALUE as u32);
    probe.expected_write(Dbgbcr::get_mmio_address(TEST_BASE_ADDRESS), dbgbcr.0);

    let mut armv7a = make_core(probe);

    armv7a.set_hw_breakpoint(0, BP_VALUE).unwrap();
}

#[test]
fn armv7a_clear_hw_breakpoint() {
    let mut probe = MockProbe::new();

    // Add expectations
    add_status_expectations(&mut probe, true);

    // Update BP value and control
    probe.expected_write(Dbgbvr::get_mmio_address(TEST_BASE_ADDRESS), 0);
    probe.expected_write(Dbgbcr::get_mmio_address(TEST_BASE_ADDRESS), 0);

    let mut armv7a = make_core(probe);

    armv7a.clear_hw_breakpoint(0).unwrap();
}

#[test]
fn armv7a_read_word_32() {
    const MEMORY_VALUE: u32 = 0xBA5EBA11;
    const MEMORY_ADDRESS: u64 = 0x12345678;

    let mut probe = MockProbe::new();

    // Add expectations
    add_status_expectations(&mut probe, true);
    add_enable_itr_expectations(&mut probe);

    // Read memory
    add_read_reg_expectations(&mut probe, 0, 0);
    add_read_memory_expectations(&mut probe, MEMORY_ADDRESS, MEMORY_VALUE);

    let mut armv7a = make_core(probe);

    assert_eq!(MEMORY_VALUE, armv7a.read_word_32(MEMORY_ADDRESS).unwrap());
}

#[test]
fn armv7a_read_word_8() {
    const MEMORY_VALUE: u32 = 0xBA5EBA11;
    const MEMORY_ADDRESS: u64 = 0x12345679;
    const MEMORY_WORD_ADDRESS: u64 = 0x12345678;

    let mut probe = MockProbe::new();

    // Add expectations
    add_status_expectations(&mut probe, true);
    add_enable_itr_expectations(&mut probe);

    // Read memory
    add_read_reg_expectations(&mut probe, 0, 0);
    add_read_memory_expectations(&mut probe, MEMORY_WORD_ADDRESS, MEMORY_VALUE);

    let mut armv7a = make_core(probe);

    assert_eq!(0xBA, armv7a.read_word_8(MEMORY_ADDRESS).unwrap());
}

#[test]
fn armv7a_write_then_read_register_roundtrip() {
    const REG_VALUE: u32 = 0xCAFE;
    let mut probe = MockProbe::new();

    // Connect with the core halted.
    add_status_expectations(&mut probe, true);

    // run(): the dirty R2 slot is written back first.
    let mut dbgdscr = Dbgdscr(0);
    dbgdscr.set_instrcoml_l(true);
    dbgdscr.set_rxfull_l(true);
    probe.expected_write(Dbgdtrrx::get_mmio_address(TEST_BASE_ADDRESS), REG_VALUE);
    probe.expected_read(Dbgdscr::get_mmio_address(TEST_BASE_ADDRESS), dbgdscr.0);
    // The first injected instruction enables the transfer mechanism.
    let mut enable = Dbgdscr(0);
    enable.set_halted(true);
    probe.expected_read(Dbgdscr::get_mmio_address(TEST_BASE_ADDRESS), enable.0);
    enable.set_itren(true);
    probe.expected_write(Dbgdscr::get_mmio_address(TEST_BASE_ADDRESS), enable.0);
    probe.expected_write(
        Dbgitr::get_mmio_address(TEST_BASE_ADDRESS),
        build_mrc(14, 0, 2, 0, 5, 0),
    );
    let mut done = Dbgdscr(0);
    done.set_instrcoml_l(true);
    probe.expected_read(Dbgdscr::get_mmio_address(TEST_BASE_ADDRESS), done.0);
    // Resume request and restart acknowledgment.
    let mut dbgdrcr = Dbgdrcr(0);
    dbgdrcr.set_rrq(true);
    probe.expected_write(Dbgdrcr::get_mmio_address(TEST_BASE_ADDRESS), dbgdrcr.0);
    add_status_expectations(&mut probe, false);
    add_status_expectations(&mut probe, false);

    // halt(): request, acknowledgment, status refresh, program counter read.
    let mut hrq = Dbgdrcr(0);
    hrq.set_hrq(true);
    probe.expected_write(Dbgdrcr::get_mmio_address(TEST_BASE_ADDRESS), hrq.0);
    add_status_expectations(&mut probe, true);
    add_status_expectations(&mut probe, true);
    add_read_reg_expectations(&mut probe, 0, 0);
    add_read_pc_expectations(&mut probe, 0x1000);

    // The register read observes the value written before the resume.
    add_read_reg_expectations(&mut probe, 2, REG_VALUE);

    let mut armv7a = make_core(probe);

    armv7a.write_core_reg(2, REG_VALUE).unwrap();
    armv7a.run().unwrap();
    armv7a.halt(100).unwrap();
    assert_eq!(REG_VALUE, armv7a.read_core_reg(2).unwrap());
    assert!(armv7a.memory.all_consumed());
}

#[test]
fn armv7a_reset_empties_cache() {
    let mut probe = MockProbe::new();
    add_status_expectations(&mut probe, true);

    let mut armv7a = make_core(probe);
    armv7a.write_core_reg(3, 0x1234).unwrap();

    armv7a.reset().unwrap();

    for slot in armv7a.state.register_cache.iter() {
        assert_eq!(None, *slot);
    }
    assert!(!armv7a.itr_enabled);
}

#[test]
fn armv7a_data_abort_clears_sticky_bits() {
    const INSTRUCTION: u32 = 0xE1A00000;

    let mut probe = MockProbe::new();
    add_status_expectations(&mut probe, true);

    // First injection: the abort bit is latched, so the driver clears the
    // sticky errors through DBGDRCR and fails.
    add_enable_itr_expectations(&mut probe);
    probe.expected_write(Dbgitr::get_mmio_address(TEST_BASE_ADDRESS), INSTRUCTION);
    let mut aborted = Dbgdscr(0);
    aborted.set_instrcoml_l(true);
    aborted.set_sdabort_l(true);
    probe.expected_read(Dbgdscr::get_mmio_address(TEST_BASE_ADDRESS), aborted.0);
    let mut cse = Dbgdrcr(0);
    cse.set_cse(true);
    probe.expected_write(Dbgdrcr::get_mmio_address(TEST_BASE_ADDRESS), cse.0);

    // Second injection: with the bits cleared the instruction completes.
    probe.expected_write(Dbgitr::get_mmio_address(TEST_BASE_ADDRESS), INSTRUCTION);
    let mut done = Dbgdscr(0);
    done.set_instrcoml_l(true);
    probe.expected_read(Dbgdscr::get_mmio_address(TEST_BASE_ADDRESS), done.0);

    let mut armv7a = make_core(probe);

    assert_eq!(
        Err(DebugError::Armv7a(Armv7aError::DataAbort)),
        armv7a.execute_instruction(INSTRUCTION)
    );
    assert!(armv7a.execute_instruction(INSTRUCTION).is_ok());
    assert!(armv7a.memory.all_consumed());
}

#[test]
fn armv7a_set_then_query_breakpoint() {
    const BP_COUNT: u32 = 2;
    const BP_VALUE: u64 = 0x2345;

    let mut probe = MockProbe::new();
    add_status_expectations(&mut probe, true);

    // Program unit zero.
    probe.expected_write(Dbgbvr::get_mmio_address(TEST_BASE_ADDRESS), BP_VALUE as u32);
    probe.expected_write(Dbgbcr::get_mmio_address(TEST_BASE_ADDRESS), 0x21E7);

    // Query: the unit count, then both units, with the programmed state
    // read back.
    add_idr_expectations(&mut probe, BP_COUNT);
    probe.expected_read(Dbgbvr::get_mmio_address(TEST_BASE_ADDRESS), BP_VALUE as u32);
    probe.expected_read(Dbgbcr::get_mmio_address(TEST_BASE_ADDRESS), 0x21E7);
    probe.expected_read(Dbgbvr::get_mmio_address(TEST_BASE_ADDRESS) + 4, 0);
    probe.expected_read(Dbgbcr::get_mmio_address(TEST_BASE_ADDRESS) + 4, 0);

    // Clear, then query again.
    probe.expected_write(Dbgbvr::get_mmio_address(TEST_BASE_ADDRESS), 0);
    probe.expected_write(Dbgbcr::get_mmio_address(TEST_BASE_ADDRESS), 0);
    probe.expected_read(Dbgbvr::get_mmio_address(TEST_BASE_ADDRESS), 0);
    probe.expected_read(Dbgbcr::get_mmio_address(TEST_BASE_ADDRESS), 0);
    probe.expected_read(Dbgbvr::get_mmio_address(TEST_BASE_ADDRESS) + 4, 0);
    probe.expected_read(Dbgbcr::get_mmio_address(TEST_BASE_ADDRESS) + 4, 0);

    let mut armv7a = make_core(probe);

    armv7a.set_hw_breakpoint(0, BP_VALUE).unwrap();
    let programmed = armv7a.hw_breakpoints().unwrap();
    assert_eq!(Some(BP_VALUE), programmed[0]);
    assert_eq!(None, programmed[1]);
    assert_eq!(programmed.len() as u32, armv7a.available_breakpoint_units().unwrap());

    armv7a.clear_hw_breakpoint(0).unwrap();
    let cleared = armv7a.hw_breakpoints().unwrap();
    assert_eq!(None, cleared[0]);
    assert_eq!(None, cleared[1]);
    assert!(armv7a.memory.all_consumed());
}

#[test]
fn armv7a_write_then_read_word_32() {
    const MEMORY_VALUE: u32 = 0xBA5EBA11;
    const MEMORY_ADDRESS: u64 = 0x1000;

    let mut probe = MockProbe::new();
    add_status_expectations(&mut probe, true);
    add_enable_itr_expectations(&mut probe);
    add_read_reg_expectations(&mut probe, 0, 0);

    // write_word_32: the address is loaded into R0, then STC streams the
    // data word in through the transfer register.
    add_set_r0_expectation(&mut probe, MEMORY_ADDRESS as u32);
    let mut dbgdscr = Dbgdscr(0);
    dbgdscr.set_instrcoml_l(true);
    dbgdscr.set_rxfull_l(true);
    probe.expected_write(Dbgdtrrx::get_mmio_address(TEST_BASE_ADDRESS), MEMORY_VALUE);
    probe.expected_read(Dbgdscr::get_mmio_address(TEST_BASE_ADDRESS), dbgdscr.0);
    probe.expected_write(Dbgitr::get_mmio_address(TEST_BASE_ADDRESS), build_stc(14, 5, 0, 4));
    let mut done = Dbgdscr(0);
    done.set_instrcoml_l(true);
    probe.expected_read(Dbgdscr::get_mmio_address(TEST_BASE_ADDRESS), done.0);

    // read_word_32 observes the stored value.
    add_read_memory_expectations(&mut probe, MEMORY_ADDRESS, MEMORY_VALUE);

    let mut armv7a = make_core(probe);

    armv7a.write_word_32(MEMORY_ADDRESS, MEMORY_VALUE).unwrap();
    assert_eq!(MEMORY_VALUE, armv7a.read_word_32(MEMORY_ADDRESS).unwrap());
    assert!(armv7a.memory.all_consumed());
}

#[test]
fn armv7a_write_then_read_word_8() {
    const OLD_WORD: u32 = 0xBA5EBA11;
    const NEW_BYTE: u8 = 0x7F;
    const NEW_WORD: u32 = 0xBA5E7F11;
    const MEMORY_ADDRESS: u64 = 0x12345679;
    const MEMORY_WORD_ADDRESS: u64 = 0x12345678;

    let mut probe = MockProbe::new();
    add_status_expectations(&mut probe, true);
    add_enable_itr_expectations(&mut probe);
    add_read_reg_expectations(&mut probe, 0, 0);

    // write_word_8: read the enclosing word, splice the byte, write back.
    add_read_memory_expectations(&mut probe, MEMORY_WORD_ADDRESS, OLD_WORD);
    add_set_r0_expectation(&mut probe, MEMORY_WORD_ADDRESS as u32);
    let mut dbgdscr = Dbgdscr(0);
    dbgdscr.set_instrcoml_l(true);
    dbgdscr.set_rxfull_l(true);
    probe.expected_write(Dbgdtrrx::get_mmio_address(TEST_BASE_ADDRESS), NEW_WORD);
    probe.expected_read(Dbgdscr::get_mmio_address(TEST_BASE_ADDRESS), dbgdscr.0);
    probe.expected_write(Dbgitr::get_mmio_address(TEST_BASE_ADDRESS), build_stc(14, 5, 0, 4));
    let mut done = Dbgdscr(0);
    done.set_instrcoml_l(true);
    probe.expected_read(Dbgdscr::get_mmio_address(TEST_BASE_ADDRESS), done.0);

    // read_word_8 observes the spliced byte.
    add_read_memory_expectations(&mut probe, MEMORY_WORD_ADDRESS, NEW_WORD);

    let mut armv7a = make_core(probe);

    armv7a.write_word_8(MEMORY_ADDRESS, NEW_BYTE).unwrap();
    assert_eq!(NEW_BYTE, armv7a.read_word_8(MEMORY_ADDRESS).unwrap());
    assert!(armv7a.memory.all_consumed());
}

#[test]
fn armv7a_rejects_wide_addresses() {
    let mut probe = MockProbe::new();
    add_status_expectations(&mut probe, true);

    let mut armv7a = make_core(probe);

    assert_eq!(
        Err(DebugError::InvalidAddress(0x1_0000_0000)),
        armv7a.read_word_32(0x1_0000_0000)
    );
    assert_eq!(
        Err(DebugError::InvalidAddress(0x1_0000_0000)),
        armv7a.write_word_32(0x1_0000_0000, 0)
    );
    assert_eq!(
        Err(DebugError::InvalidAddress(0x1_0000_0000)),
        armv7a.read_word_8(0x1_0000_0002)
    );
    assert_eq!(
        Err(DebugError::InvalidAddress(0x2_0000_0000)),
        armv7a.set_hw_breakpoint(0, 0x2_0000_0000)
    );
    assert!(armv7a.memory.all_consumed());
}

#[test]
fn armv7a_rejects_register_seventeen() {
    let mut probe = MockProbe::new();
    add_status_expectations(&mut probe, true);

    let mut armv7a = make_core(probe);

    assert_eq!(
        Err(DebugError::Armv7a(Armv7aError::InvalidRegisterNumber(17))),
        armv7a.read_core_reg(17)
    );
    assert_eq!(
        Err(DebugError::Armv7a(Armv7aError::InvalidRegisterNumber(17))),
        armv7a.write_core_reg(17, 0)
    );
    assert!(armv7a.memory.all_consumed());
}

#[test]
fn armv7a_halt_with_zero_budget_times_out() {
    let mut probe = MockProbe::new();
    add_status_expectations(&mut probe, false);

    // The halt request is written, and then the zero polling budget runs
    // out before any status read.
    let mut dbgdrcr = Dbgdrcr(0);
    dbgdrcr.set_hrq(true);
    probe.expected_write(Dbgdrcr::get_mmio_address(TEST_BASE_ADDRESS), dbgdrcr.0);

    let mut armv7a = make_core(probe);

    assert_eq!(Err(DebugError::Timeout), armv7a.halt(0).map(|info| info.pc));
    assert!(armv7a.memory.all_consumed());
}

#[test]
fn armv7a_reset_and_halt() {
    const REG_VALUE: u32 = 0xABCD;

    let mut probe = MockProbe::new();
    add_status_expectations(&mut probe, true);

    // The sequence hooks touch nothing; the halt request goes out while the
    // core sits in the reset catch.
    let mut dbgdrcr = Dbgdrcr(0);
    dbgdrcr.set_hrq(true);
    probe.expected_write(Dbgdrcr::get_mmio_address(TEST_BASE_ADDRESS), dbgdrcr.0);

    // Halt acknowledgment and status refresh.
    add_status_expectations(&mut probe, true);
    add_status_expectations(&mut probe, true);

    // Program counter read on the fresh cache.
    add_enable_itr_expectations(&mut probe);
    add_read_reg_expectations(&mut probe, 0, 0);
    add_read_pc_expectations(&mut probe, REG_VALUE);

    let mut armv7a = make_core(probe);

    assert_eq!(REG_VALUE as u64, armv7a.reset_and_halt(100).unwrap().pc);
    for (i, slot) in armv7a.state.register_cache.iter().enumerate() {
        if i != 0 && i != 15 {
            assert_eq!(None, *slot);
        }
    }
    assert!(armv7a.memory.all_consumed());
}

#[test]
fn armv7a_step() {
    const START_PC: u32 = 0x1000;
    const NEXT_PC: u32 = 0x1004;
    const SAVED_BP_VALUE: u32 = 0x55;
    const SAVED_BP_CONTROL: u32 = 0x11;

    let mut probe = MockProbe::new();
    add_status_expectations(&mut probe, true);

    // One breakpoint unit; its programming is saved.
    add_idr_expectations(&mut probe, 1);
    probe.expected_read(Dbgbvr::get_mmio_address(TEST_BASE_ADDRESS), SAVED_BP_VALUE);
    probe.expected_read(Dbgbcr::get_mmio_address(TEST_BASE_ADDRESS), SAVED_BP_CONTROL);

    // The current program counter is read through R0.
    add_enable_itr_expectations(&mut probe);
    add_read_reg_expectations(&mut probe, 0, 0);
    add_read_pc_expectations(&mut probe, START_PC);

    // The unit is programmed to fire on any fetch away from it.
    probe.expected_write(Dbgbvr::get_mmio_address(TEST_BASE_ADDRESS), START_PC);
    probe.expected_write(Dbgbcr::get_mmio_address(TEST_BASE_ADDRESS), 0x0040_21E7);

    // run(): the dirty scratch copy of R0 is restored first.
    let mut accepted = Dbgdscr(0);
    accepted.set_instrcoml_l(true);
    accepted.set_rxfull_l(true);
    probe.expected_write(Dbgdtrrx::get_mmio_address(TEST_BASE_ADDRESS), 0);
    probe.expected_read(Dbgdscr::get_mmio_address(TEST_BASE_ADDRESS), accepted.0);
    probe.expected_write(
        Dbgitr::get_mmio_address(TEST_BASE_ADDRESS),
        build_mrc(14, 0, 0, 0, 5, 0),
    );
    let mut done = Dbgdscr(0);
    done.set_instrcoml_l(true);
    probe.expected_read(Dbgdscr::get_mmio_address(TEST_BASE_ADDRESS), done.0);
    let mut dbgdrcr = Dbgdrcr(0);
    dbgdrcr.set_rrq(true);
    probe.expected_write(Dbgdrcr::get_mmio_address(TEST_BASE_ADDRESS), dbgdrcr.0);
    let mut restarted = Dbgdscr(0);
    restarted.set_restarted(true);
    probe.expected_read(Dbgdscr::get_mmio_address(TEST_BASE_ADDRESS), restarted.0);
    // The mismatch fires at once: the trailing status refresh already sees
    // the core halted again.
    add_status_expectations(&mut probe, true);

    // The halt acknowledgment is observed.
    add_status_expectations(&mut probe, true);

    // The unit's saved programming is restored.
    probe.expected_write(Dbgbvr::get_mmio_address(TEST_BASE_ADDRESS), SAVED_BP_VALUE);
    probe.expected_write(Dbgbcr::get_mmio_address(TEST_BASE_ADDRESS), SAVED_BP_CONTROL);

    // The new program counter is read through R0 on the fresh cache.
    add_read_reg_expectations(&mut probe, 0, 0);
    add_read_pc_expectations(&mut probe, NEXT_PC);

    let mut armv7a = make_core(probe);

    assert_eq!(NEXT_PC as u64, armv7a.step().unwrap().pc);
    assert!(armv7a.memory.all_consumed());
}

#[test]
fn armv7a_instruction_set_from_cpsr() {
    const CPSR_THUMB: u32 = 1 << 5;

    let mut probe = MockProbe::new();
    add_status_expectations(&mut probe, true);
    add_enable_itr_expectations(&mut probe);
    add_read_reg_expectations(&mut probe, 0, 0);
    add_read_cpsr_expectations(&mut probe, CPSR_THUMB);

    let mut armv7a = make_core(probe);

    assert_eq!(InstructionSet::Thumb2, armv7a.instruction_set().unwrap());
}

#[test]
fn armv7a_status_through_scripted_memory() {
    let dscr_address = Dbgdscr::get_mmio_address(TEST_BASE_ADDRESS);
    let mut connect = Dbgdscr(0);
    connect.set_halted(true);
    connect.set_restarted(true);
    let mut halted = Dbgdscr(0);
    halted.set_halted(true);
    let script = vec![
        MemOp::Read(dscr_address, connect.0),
        MemOp::Read(dscr_address, halted.0),
    ];

    let memory = ScriptedMemory::new(script);
    let mut armv7a =
        Armv7a::new(memory, CortexAState::new(), TEST_BASE_ADDRESS, InertSequence::new()).unwrap();

    assert_eq!(CoreStatus::Halted(HaltReason::Request), armv7a.status().unwrap());
    assert!(armv7a.memory.script_consumed());

    // The script exhausted, further accesses report transport faults.
    assert_eq!(Err(DebugError::Transport), armv7a.core_halted());
}

#[test]
fn armv7a_read_word_64() {
    const LOW: u32 = 0xDEAD_BEEF;
    const HIGH: u32 = 0x0BAD_CAFE;
    const MEMORY_ADDRESS: u64 = 0x2000;

    let mut probe = MockProbe::new();
    add_status_expectations(&mut probe, true);
    add_enable_itr_expectations(&mut probe);
    add_read_reg_expectations(&mut probe, 0, 0);
    add_read_memory_expectations(&mut probe, MEMORY_ADDRESS, LOW);
    add_read_memory_expectations(&mut probe, MEMORY_ADDRESS + 4, HIGH);

    let mut armv7a = make_core(probe);

    assert_eq!(0x0BAD_CAFE_DEAD_BEEF, armv7a.read_word_64(MEMORY_ADDRESS).unwrap());
    assert!(armv7a.memory.all_consumed());
}

#[test]
fn armv7a_write_word_64() {
    const VALUE: u64 = 0x0BAD_CAFE_DEAD_BEEF;
    const MEMORY_ADDRESS: u64 = 0x2000;

    let mut probe = MockProbe::new();
    add_status_expectations(&mut probe, true);
    add_enable_itr_expectations(&mut probe);
    add_read_reg_expectations(&mut probe, 0, 0);
    add_write_memory_expectations(&mut probe, MEMORY_ADDRESS, 0xDEAD_BEEF);
    add_write_memory_expectations(&mut probe, MEMORY_ADDRESS + 4, 0x0BAD_CAFE);

    let mut armv7a = make_core(probe);

    armv7a.write_word_64(MEMORY_ADDRESS, VALUE).unwrap();
    assert!(armv7a.memory.all_consumed());
}

#[test]
fn armv7a_read_32_bulk() {
    const MEMORY_ADDRESS: u64 = 0x3000;

    let mut probe = MockProbe::new();
    add_status_expectations(&mut probe, true);
    add_enable_itr_expectations(&mut probe);
    add_read_reg_expectations(&mut probe, 0, 0);
    add_read_memory_expectations(&mut probe, MEMORY_ADDRESS, 0x1111_1111);
    add_read_memory_expectations(&mut probe, MEMORY_ADDRESS + 4, 0x2222_2222);

    let mut armv7a = make_core(probe);

    let mut data = vec![0u32; 2];
    armv7a.read_32(MEMORY_ADDRESS, &mut data).unwrap();
    assert_eq!(vec![0x1111_1111, 0x2222_2222], data);
    assert!(armv7a.memory.all_consumed());
}

#[test]
fn armv7a_write_32_bulk() {
    const MEMORY_ADDRESS: u64 = 0x3000;

    let mut probe = MockProbe::new();
    add_status_expectations(&mut probe, true);
    add_enable_itr_expectations(&mut probe);
    add_read_reg_expectations(&mut probe, 0, 0);
    add_write_memory_expectations(&mut probe, MEMORY_ADDRESS, 0x1111_1111);
    add_write_memory_expectations(&mut probe, MEMORY_ADDRESS + 4, 0x2222_2222);

    let mut armv7a = make_core(probe);

    let data = vec![0x1111_1111u32, 0x2222_2222u32];
    armv7a.write_32(MEMORY_ADDRESS, &data).unwrap();
    assert!(armv7a.memory.all_consumed());
}

#[test]
fn armv7a_read_8_bulk() {
    const MEMORY_VALUE: u32 = 0xBA5E_BA11;
    const MEMORY_WORD_ADDRESS: u64 = 0x12345678;

    let mut probe = MockProbe::new();
    add_status_expectations(&mut probe, true);
    add_enable_itr_expectations(&mut probe);
    add_read_reg_expectations(&mut probe, 0, 0);
    // Both bytes sit in the same word, which is read once per byte.
    add_read_memory_expectations(&mut probe, MEMORY_WORD_ADDRESS, MEMORY_VALUE);
    add_read_memory_expectations(&mut probe, MEMORY_WORD_ADDRESS, MEMORY_VALUE);

    let mut armv7a = make_core(probe);

    let mut data = vec![0u8; 2];
    armv7a.read_8(MEMORY_WORD_ADDRESS + 1, &mut data).unwrap();
    assert_eq!(vec![0xBA, 0x5E], data);
    assert!(armv7a.memory.all_consumed());
}

#[test]
fn armv7a_write_8_bulk() {
    const OLD_WORD: u32 = 0xBA5E_BA11;
    const NEW_WORD: u32 = 0xBA5E_7711;
    const MEMORY_WORD_ADDRESS: u64 = 0x12345678;

    let mut probe = MockProbe::new();
    add_status_expectations(&mut probe, true);
    add_enable_itr_expectations(&mut probe);
    add_read_reg_expectations(&mut probe, 0, 0);
    // One byte: read the enclosing word, splice, write back.
    add_read_memory_expectations(&mut probe, MEMORY_WORD_ADDRESS, OLD_WORD);
    add_write_memory_expectations(&mut probe, MEMORY_WORD_ADDRESS, NEW_WORD);

    let mut armv7a = make_core(probe);

    let data = vec![0x77u8];
    armv7a.write_8(MEMORY_WORD_ADDRESS + 1, &data).unwrap();
    assert!(armv7a.memory.all_consumed());
}

#[test]
fn armv7a_flush_and_feature_queries() {
    let mut probe = MockProbe::new();
    add_status_expectations(&mut probe, true);

    let mut armv7a = make_core(probe);

    armv7a.flush().unwrap();
    assert!(!armv7a.supports_native_64bit_access());
    assert!(armv7a.hw_breakpoints_enabled());
    assert!(armv7a.enable_breakpoints(false).is_ok());
    assert_eq!(Err(DebugError::Unsupported), armv7a.fpu_support());
    armv7a.on_session_stop().unwrap();
    assert!(armv7a.memory.all_consumed());
}
