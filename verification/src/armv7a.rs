//! The ARMv7-A debug controller.
//!
//! The controller drives a core through its memory-mapped debug registers:
//! halting and resuming, reading and writing architectural registers through
//! the instruction-transfer mechanism, CPU-mediated memory access, and
//! hardware breakpoint management.  It owns the per-session state: the
//! 17-slot register cache with deferred write-back (slots 0..=14 hold
//! R0..R14, slot 15 the program counter, slot 16 the CPSR), the cached halt
//! status, and the lazily read breakpoint-unit count.

use vstd::prelude::*;
use crate::debug_regs::{
    dbgbcr_address, dbgbvr_address, dbgdidr_address, dbgdrcr_address, dbgdscr_address,
    dbgdtrrx_address, dbgdtrtx_address, dbgitr_address, Dbgbcr, Dbgbvr, Dbgdidr, Dbgdrcr, Dbgdscr,
    Dbgdtrrx, Dbgdtrtx, Dbgitr, DEBUG_REGISTER_SPAN,
};
use crate::errors::{Armv7aError, DebugError};
use crate::instructions::{
    build_bx, build_ldc, build_mcr, build_mov, build_mrc, build_mrs, build_stc,
};
use crate::interface::{
    contains_op, contains_op_before, lemma_contains_op_extend, lemma_contains_op_stays_before,
    lemma_contains_op_widen, ArmDebugSequence, DebugMemoryInterface, MemOp, SequenceOp,
};
use crate::state::{CoreInformation, CoreStatus, CortexAState};

verus! {

broadcast use crate::interface::group_history;

/// How many completion polls an instruction-transfer step tolerates before
/// it gives up with a timeout.
pub const ITE_POLL_LIMIT: u64 = 100000;

/// Whether every slot of the register cache is empty.
pub open spec fn cache_reset(cache: Seq<Option<(u32, bool)>>) -> bool {
    cache.len() == 17 && forall|i: int| 0 <= i < 17 ==> cache[i] is None
}

/// The core status reported by a DBGDSCR snapshot.
pub open spec fn spec_core_status(dscr: Dbgdscr) -> CoreStatus {
    if dscr.spec_halted() {
        CoreStatus::Halted(dscr.spec_halt_reason())
    } else {
        CoreStatus::Running
    }
}

/// The location of the breakpoint value register of the given unit.
pub open spec fn bvr_unit_address(base_address: u64, unit: int) -> u64 {
    (dbgbvr_address(base_address) + 4 * unit) as u64
}

/// The location of the breakpoint control register of the given unit.
pub open spec fn bcr_unit_address(base_address: u64, unit: int) -> u64 {
    (dbgbcr_address(base_address) + 4 * unit) as u64
}

/// The DBGBCR word programmed for an enabled breakpoint: matching in every
/// privilege mode and on all byte lanes, with breakpoint type zero (address
/// match).
pub const BREAKPOINT_CONTROL_MATCH: u32 = 0x21E7;

/// The DBGBCR word programmed while emulating a single step: as above but
/// with breakpoint type 0b0100 (address mismatch).
pub const BREAKPOINT_CONTROL_MISMATCH: u32 = 0x0040_21E7;

/// Whether `list` reports breakpoint units 0..n as derived from value and
/// control words that were read over the memory interface: entry `i` holds
/// the value read from the unit's DBGBVR exactly when the word read from its
/// DBGBCR has the enable bit set.
pub open spec fn breakpoint_list_matches(
    ops: Seq<MemOp>,
    lo: int,
    base_address: u64,
    list: Seq<Option<u64>>,
    vals: Seq<u32>,
    ctrls: Seq<u32>,
    n: int,
) -> bool {
    forall|i: int|
        #![trigger vals[i]]
        0 <= i < n ==> {
            &&& contains_op(ops, lo, MemOp::Read(bvr_unit_address(base_address, i), vals[i]))
            &&& contains_op(ops, lo, MemOp::Read(bcr_unit_address(base_address, i), ctrls[i]))
            &&& list[i] == (if Dbgbcr(ctrls[i]).spec_e() {
                Some(vals[i] as u64)
            } else {
                None::<u64>
            })
        }
}

/// Whether the traffic at or after `lo` shows `words[i]` read out of the
/// transfer register after the word address `address + 4*i` was staged into
/// R0 through it, for every i below n: the shape of a bulk read done by
/// repeated single-word reads.
pub open spec fn bulk_words_read(
    ops: Seq<MemOp>,
    lo: int,
    base_address: u64,
    address: u64,
    words: Seq<u32>,
    n: int,
) -> bool {
    forall|i: int|
        #![trigger words[i]]
        0 <= i < n ==> {
            &&& contains_op(
                ops,
                lo,
                MemOp::Write(dbgdtrrx_address(base_address), (address + 4 * i) as u32),
            )
            &&& contains_op(ops, lo, MemOp::Read(dbgdtrtx_address(base_address), words[i]))
        }
}

/// Whether the traffic at or after `lo` shows `words[i]` handed into the
/// transfer register along with its staged word address `address + 4*i`, for
/// every i below n: the shape of a bulk write done by repeated single-word
/// writes.
pub open spec fn bulk_words_written(
    ops: Seq<MemOp>,
    lo: int,
    base_address: u64,
    address: u64,
    words: Seq<u32>,
    n: int,
) -> bool {
    forall|i: int|
        #![trigger words[i]]
        0 <= i < n ==> {
            &&& contains_op(
                ops,
                lo,
                MemOp::Write(dbgdtrrx_address(base_address), (address + 4 * i) as u32),
            )
            &&& contains_op(ops, lo, MemOp::Write(dbgdtrrx_address(base_address), words[i]))
        }
}

/// Whether the traffic at or after `lo` shows, for every i below n, a word
/// `words[i]` read out of the transfer register of which `bytes[i]` is the
/// byte lane addressed by `address + i`: the shape of a bulk byte read done
/// by repeated single-byte reads.
pub open spec fn bulk_bytes_read(
    ops: Seq<MemOp>,
    lo: int,
    base_address: u64,
    address: u64,
    bytes: Seq<u8>,
    words: Seq<u32>,
    n: int,
) -> bool {
    forall|i: int|
        #![trigger words[i]]
        0 <= i < n ==> {
            &&& contains_op(
                ops,
                lo,
                MemOp::Write(
                    dbgdtrrx_address(base_address),
                    word_start_of((address + i) as u64) as u32,
                ),
            )
            &&& contains_op(ops, lo, MemOp::Read(dbgdtrtx_address(base_address), words[i]))
            &&& bytes[i] == le_byte_of(words[i], ((address + i) % 4) as int)
        }
}

/// Whether the traffic at or after `lo` shows, for every i below n, a word
/// `words[i]` read out of the transfer register and handed back in with
/// `bytes[i]` spliced into the byte lane addressed by `address + i`: the
/// shape of a bulk byte write done by repeated read-modify-write.
pub open spec fn bulk_bytes_written(
    ops: Seq<MemOp>,
    lo: int,
    base_address: u64,
    address: u64,
    bytes: Seq<u8>,
    words: Seq<u32>,
    n: int,
) -> bool {
    forall|i: int|
        #![trigger words[i]]
        0 <= i < n ==> {
            &&& contains_op(
                ops,
                lo,
                MemOp::Write(
                    dbgdtrrx_address(base_address),
                    word_start_of((address + i) as u64) as u32,
                ),
            )
            &&& contains_op(ops, lo, MemOp::Read(dbgdtrtx_address(base_address), words[i]))
            &&& contains_op(
                ops,
                lo,
                MemOp::Write(
                    dbgdtrrx_address(base_address),
                    with_le_byte(words[i], ((address + i) % 4) as int, bytes[i]),
                ),
            )
        }
}

/// Whether the traffic at or after `lo` shows, for every i below n, the two
/// halves of `values[i]` read out of the transfer register: the shape of a
/// bulk 64-bit read done by repeated double-word reads.
pub open spec fn bulk_dwords_read(
    ops: Seq<MemOp>,
    lo: int,
    base_address: u64,
    address: u64,
    values: Seq<u64>,
    lows: Seq<u32>,
    highs: Seq<u32>,
    n: int,
) -> bool {
    forall|i: int|
        #![trigger lows[i]]
        0 <= i < n ==> {
            &&& values[i] == word64_from(lows[i], highs[i])
            &&& contains_op(
                ops,
                lo,
                MemOp::Write(dbgdtrrx_address(base_address), ((address + 8 * i) as u64) as u32),
            )
            &&& contains_op(
                ops,
                lo,
                MemOp::Write(
                    dbgdtrrx_address(base_address),
                    ((address + 8 * i + 4) as u64) as u32,
                ),
            )
            &&& contains_op(ops, lo, MemOp::Read(dbgdtrtx_address(base_address), lows[i]))
            &&& contains_op(ops, lo, MemOp::Read(dbgdtrtx_address(base_address), highs[i]))
        }
}

/// Whether the traffic at or after `lo` shows, for every i below n, both
/// halves of `values[i]` handed into the transfer register: the shape of a
/// bulk 64-bit write done by repeated double-word writes.
pub open spec fn bulk_dwords_written(
    ops: Seq<MemOp>,
    lo: int,
    base_address: u64,
    address: u64,
    values: Seq<u64>,
    n: int,
) -> bool {
    forall|i: int|
        #![trigger values[i]]
        0 <= i < n ==> {
            &&& contains_op(
                ops,
                lo,
                MemOp::Write(dbgdtrrx_address(base_address), ((address + 8 * i) as u64) as u32),
            )
            &&& contains_op(
                ops,
                lo,
                MemOp::Write(
                    dbgdtrrx_address(base_address),
                    ((address + 8 * i + 4) as u64) as u32,
                ),
            )
            &&& contains_op(
                ops,
                lo,
                MemOp::Write(dbgdtrrx_address(base_address), (values[i] & 0xFFFF_FFFF) as u32),
            )
            &&& contains_op(
                ops,
                lo,
                MemOp::Write(dbgdtrrx_address(base_address), (values[i] >> 32u64) as u32),
            )
        }
}

/// Every write recorded at or after `lo` is instruction-transfer traffic:
/// the DBGDSCR, DBGITR or DBGDTRRX register, or the sticky-error clear
/// (DBGDRCR with only CSE set).  In particular no halt or restart request is
/// issued and no breakpoint register is touched.
pub open spec fn ite_writes_only(ops: Seq<MemOp>, lo: int, base_address: u64) -> bool {
    forall|k: int|
        #![trigger ops[k]]
        lo <= k < ops.len() ==> (ops[k] matches MemOp::Write(a, v) ==> {
            ||| a == dbgdscr_address(base_address)
            ||| a == dbgitr_address(base_address)
            ||| a == dbgdtrrx_address(base_address)
            ||| (a == dbgdrcr_address(base_address) && v == 4)
        })
}

/// No write at or after `lo` touches DBGDSCR.
pub open spec fn no_dscr_writes(ops: Seq<MemOp>, lo: int, base_address: u64) -> bool {
    forall|k: int|
        #![trigger ops[k]]
        lo <= k < ops.len() ==> (ops[k] matches MemOp::Write(a, v) ==> a != dbgdscr_address(
            base_address,
        ))
}

/// Exactly one write at or after `lo` touches DBGITR, and it carries the
/// given instruction word.
pub open spec fn writes_itr_once(
    ops: Seq<MemOp>,
    lo: int,
    base_address: u64,
    instruction: u32,
) -> bool {
    exists|k: int|
        {
            &&& lo <= k < ops.len()
            &&& ops[k] == MemOp::Write(dbgitr_address(base_address), instruction)
            &&& forall|j: int|
                #![trigger ops[j]]
                lo <= j < ops.len() && j != k ==> (ops[j] matches MemOp::Write(a, _) ==> a
                    != dbgitr_address(base_address))
        }
}

/// No slot of R0..R14 or the program counter is marked dirty.
pub open spec fn no_dirty_slots(cache: Seq<Option<(u32, bool)>>) -> bool {
    forall|i: int| #![trigger cache[i]] 0 <= i <= 15 ==> (cache[i] matches Some(entry) ==> !entry.1)
}

/// Every dirty slot of `cache` was flushed in the traffic at or after `lo`:
/// its value crossed DBGDTRRX, and the instruction that consumes it was
/// injected — `MRC p14,0,Rn,c0,c5,0` for R0..R14, and for the program
/// counter `MRC p14,0,R0,c0,c5,0` followed by `BX R0`.
pub open spec fn dirty_slots_flushed(
    cache: Seq<Option<(u32, bool)>>,
    ops: Seq<MemOp>,
    lo: int,
    base_address: u64,
) -> bool {
    forall|i: int|
        #![trigger cache[i]]
        cache[i] matches Some(entry) ==> ((0 <= i <= 15 && entry.1) ==> {
            &&& contains_op(ops, lo, MemOp::Write(dbgdtrrx_address(base_address), entry.0))
            &&& (i <= 14 ==> contains_op(
                ops,
                lo,
                MemOp::Write(
                    dbgitr_address(base_address),
                    crate::instructions::mrc_word(14, 0, i as u32, 0, 5, 0),
                ),
            ))
            &&& (i == 15 ==> contains_op(
                ops,
                lo,
                MemOp::Write(
                    dbgitr_address(base_address),
                    crate::instructions::mrc_word(14, 0, 0, 0, 5, 0),
                ),
            ) && contains_op(
                ops,
                lo,
                MemOp::Write(dbgitr_address(base_address), crate::instructions::bx_word(0)),
            ))
        })
}

/// As [`dirty_slots_flushed`], with all the flush traffic lying before
/// position `hi`.
pub open spec fn dirty_slots_flushed_before(
    cache: Seq<Option<(u32, bool)>>,
    ops: Seq<MemOp>,
    lo: int,
    hi: int,
    base_address: u64,
) -> bool {
    forall|i: int|
        #![trigger cache[i]]
        cache[i] matches Some(entry) ==> ((0 <= i <= 15 && entry.1) ==> {
            &&& contains_op_before(ops, lo, hi, MemOp::Write(dbgdtrrx_address(base_address), entry.0))
            &&& (i <= 14 ==> contains_op_before(
                ops,
                lo,
                hi,
                MemOp::Write(
                    dbgitr_address(base_address),
                    crate::instructions::mrc_word(14, 0, i as u32, 0, 5, 0),
                ),
            ))
            &&& (i == 15 ==> contains_op_before(
                ops,
                lo,
                hi,
                MemOp::Write(
                    dbgitr_address(base_address),
                    crate::instructions::mrc_word(14, 0, 0, 0, 5, 0),
                ),
            ) && contains_op_before(
                ops,
                lo,
                hi,
                MemOp::Write(dbgitr_address(base_address), crate::instructions::bx_word(0)),
            ))
        })
}

/// Every write at or after `lo` targets one of the core-control registers:
/// DBGDSCR, DBGITR, DBGDTRRX or DBGDRCR.  In particular no breakpoint
/// register is touched.
pub open spec fn core_control_writes_only(ops: Seq<MemOp>, lo: int, base_address: u64) -> bool {
    forall|k: int|
        #![trigger ops[k]]
        lo <= k < ops.len() ==> (ops[k] matches MemOp::Write(a, v) ==> {
            ||| a == dbgdscr_address(base_address)
            ||| a == dbgitr_address(base_address)
            ||| a == dbgdtrrx_address(base_address)
            ||| a == dbgdrcr_address(base_address)
        })
}

/// No access at or after `lo` is a write.
pub open spec fn no_writes(ops: Seq<MemOp>, lo: int) -> bool {
    forall|k: int|
        #![trigger ops[k]]
        lo <= k < ops.len() ==> (ops[k] matches MemOp::Write(a, v) ==> false)
}

/// Instruction-transfer writes are core-control writes.
pub proof fn lemma_ite_implies_core_control(ops: Seq<MemOp>, lo: int, base_address: u64)
    requires
        ite_writes_only(ops, lo, base_address),
    ensures
        core_control_writes_only(ops, lo, base_address),
{
    assert forall|k: int| #![trigger ops[k]]
        lo <= k < ops.len() implies (ops[k] matches MemOp::Write(a, v) ==> {
        ||| a == dbgdscr_address(base_address)
        ||| a == dbgitr_address(base_address)
        ||| a == dbgdtrrx_address(base_address)
        ||| a == dbgdrcr_address(base_address)
    }) by {}
}

/// Two extensions in a row that both keep to core-control writes make one
/// such extension.
pub proof fn lemma_core_control_chain(b: Seq<MemOp>, c: Seq<MemOp>, lo: int, base_address: u64)
    requires
        b.is_prefix_of(c),
        0 <= lo <= b.len(),
        core_control_writes_only(b, lo, base_address),
        core_control_writes_only(c, b.len() as int, base_address),
    ensures
        core_control_writes_only(c, lo, base_address),
{
    assert forall|k: int| #![trigger c[k]]
        lo <= k < c.len() implies (c[k] matches MemOp::Write(a, v) ==> {
        ||| a == dbgdscr_address(base_address)
        ||| a == dbgitr_address(base_address)
        ||| a == dbgdtrrx_address(base_address)
        ||| a == dbgdrcr_address(base_address)
    }) by {
        if k < b.len() {
            assert(b[k] == c.subrange(0, b.len() as int)[k]);
        }
    }
}

/// The dirty slots were flushed one after another in ascending index order:
/// `cut` splits the traffic from `lo` into consecutive windows, one per
/// cache slot.  A dirty slot's window holds its flush traffic — the value
/// through DBGDTRRX and the injected instruction (`MRC p14,0,Rn,c0,c5,0`,
/// and `BX R0` after the load for the program counter) — while the window of
/// a slot that needs no flush (clean, empty, or the CPSR slot) is empty.
/// This refines [`dirty_slots_flushed`] with the order.
pub open spec fn dirty_slots_flushed_in_order(
    cache: Seq<Option<(u32, bool)>>,
    ops: Seq<MemOp>,
    lo: int,
    base_address: u64,
    cut: Seq<int>,
) -> bool {
    &&& cut.len() == 18
    &&& cut[0] == lo
    &&& forall|i: int| #![trigger cut[i]] 0 <= i < 17 ==> cut[i] <= cut[i + 1]
    &&& cut[17] <= ops.len()
    &&& forall|i: int|
        #![trigger cut[i]]
        0 <= i < 17 ==> {
            if 0 <= i <= 15 && cache[i] is Some && cache[i]->Some_0.1 {
                &&& contains_op_before(
                    ops,
                    cut[i],
                    cut[i + 1],
                    MemOp::Write(dbgdtrrx_address(base_address), cache[i]->Some_0.0),
                )
                &&& (i <= 14 ==> contains_op_before(
                    ops,
                    cut[i],
                    cut[i + 1],
                    MemOp::Write(
                        dbgitr_address(base_address),
                        crate::instructions::mrc_word(14, 0, i as u32, 0, 5, 0),
                    ),
                ))
                &&& (i == 15 ==> contains_op_before(
                    ops,
                    cut[i],
                    cut[i + 1],
                    MemOp::Write(
                        dbgitr_address(base_address),
                        crate::instructions::mrc_word(14, 0, 0, 0, 5, 0),
                    ),
                ) && contains_op_before(
                    ops,
                    cut[i],
                    cut[i + 1],
                    MemOp::Write(dbgitr_address(base_address), crate::instructions::bx_word(0)),
                ))
            } else {
                cut[i + 1] == cut[i]
            }
        }
}

/// An access contained in a window of a history is contained in the same
/// window of every extension that still covers it.
pub proof fn lemma_contains_op_before_extend(
    a: Seq<MemOp>,
    b: Seq<MemOp>,
    lo: int,
    hi: int,
    op: MemOp,
)
    requires
        a.is_prefix_of(b),
        contains_op_before(a, lo, hi, op),
        0 <= lo,
        hi <= a.len(),
    ensures
        contains_op_before(b, lo, hi, op),
{
    let k = choose|k: int| lo <= k < hi && k < a.len() && a[k] == op;
    assert(a[k] == b.subrange(0, a.len() as int)[k]);
    assert(b[k] == op);
}

/// Every write at or after `lo` targets a core-control register or the
/// breakpoint unit `unit`'s value or control register: the confinement a
/// single step keeps, touching no other breakpoint unit.
pub open spec fn step_writes_only(ops: Seq<MemOp>, lo: int, base_address: u64, unit: int) -> bool {
    forall|k: int|
        #![trigger ops[k]]
        lo <= k < ops.len() ==> (ops[k] matches MemOp::Write(a, v) ==> {
            ||| a == dbgdscr_address(base_address)
            ||| a == dbgitr_address(base_address)
            ||| a == dbgdtrrx_address(base_address)
            ||| a == dbgdrcr_address(base_address)
            ||| a == bvr_unit_address(base_address, unit)
            ||| a == bcr_unit_address(base_address, unit)
        })
}

/// Core-control writes are step-confined writes.
pub proof fn lemma_core_control_implies_step_writes(
    ops: Seq<MemOp>,
    lo: int,
    base_address: u64,
    unit: int,
)
    requires
        core_control_writes_only(ops, lo, base_address),
    ensures
        step_writes_only(ops, lo, base_address, unit),
{
    assert forall|k: int| #![trigger ops[k]]
        lo <= k < ops.len() implies (ops[k] matches MemOp::Write(a, v) ==> {
        ||| a == dbgdscr_address(base_address)
        ||| a == dbgitr_address(base_address)
        ||| a == dbgdtrrx_address(base_address)
        ||| a == dbgdrcr_address(base_address)
        ||| a == bvr_unit_address(base_address, unit)
        ||| a == bcr_unit_address(base_address, unit)
    }) by {}
}

/// Two extensions in a row that both keep the step's write confinement make
/// one such extension.
pub proof fn lemma_step_writes_chain(
    b: Seq<MemOp>,
    c: Seq<MemOp>,
    lo: int,
    base_address: u64,
    unit: int,
)
    requires
        b.is_prefix_of(c),
        0 <= lo <= b.len(),
        step_writes_only(b, lo, base_address, unit),
        step_writes_only(c, b.len() as int, base_address, unit),
    ensures
        step_writes_only(c, lo, base_address, unit),
{
    assert forall|k: int| #![trigger c[k]]
        lo <= k < c.len() implies (c[k] matches MemOp::Write(a, v) ==> {
        ||| a == dbgdscr_address(base_address)
        ||| a == dbgitr_address(base_address)
        ||| a == dbgdtrrx_address(base_address)
        ||| a == dbgdrcr_address(base_address)
        ||| a == bvr_unit_address(base_address, unit)
        ||| a == bcr_unit_address(base_address, unit)
    }) by {
        if k < b.len() {
            assert(b[k] == c.subrange(0, b.len() as int)[k]);
        }
    }
}

/// Every access at or after `lo` is a DBGDSCR read that observed the core
/// still running.
pub open spec fn all_unhalted_status_reads(ops: Seq<MemOp>, lo: int, base_address: u64) -> bool {
    forall|k: int|
        #![trigger ops[k]]
        lo <= k < ops.len() ==> exists|v: u32|
            ops[k] == MemOp::Read(dbgdscr_address(base_address), v) && !Dbgdscr(v).spec_halted()
}

/// The last write at or after `lo` that touches `address` carries `value`.
pub open spec fn last_write_to(ops: Seq<MemOp>, lo: int, address: u64, value: u32) -> bool {
    exists|k: int|
        {
            &&& lo <= k < ops.len()
            &&& ops[k] == MemOp::Write(address, value)
            &&& forall|j: int|
                #![trigger ops[j]]
                k < j < ops.len() ==> (ops[j] matches MemOp::Write(a, _) ==> a != address)
        }
}

/// Two extensions in a row that both keep to instruction-transfer writes
/// make one such extension.
pub proof fn lemma_ite_writes_only_chain(b: Seq<MemOp>, c: Seq<MemOp>, lo: int, base_address: u64)
    requires
        b.is_prefix_of(c),
        0 <= lo <= b.len(),
        ite_writes_only(b, lo, base_address),
        ite_writes_only(c, b.len() as int, base_address),
    ensures
        ite_writes_only(c, lo, base_address),
{
    assert forall|k: int| #![trigger c[k]]
        lo <= k < c.len() implies (c[k] matches MemOp::Write(a, v) ==> {
        ||| a == dbgdscr_address(base_address)
        ||| a == dbgitr_address(base_address)
        ||| a == dbgdtrrx_address(base_address)
        ||| (a == dbgdrcr_address(base_address) && v == 4)
    }) by {
        if k < b.len() {
            assert(b[k] == c.subrange(0, b.len() as int)[k]);
        }
    }
}

/// The fixed debug registers and the breakpoint units all sit at distinct
/// locations in the register bank.
pub proof fn lemma_distinct_register_addresses(base_address: u64)
    requires
        base_address + DEBUG_REGISTER_SPAN <= u64::MAX,
    ensures
        dbgdscr_address(base_address) != dbgitr_address(base_address),
        dbgdscr_address(base_address) != dbgdtrrx_address(base_address),
        dbgdscr_address(base_address) != dbgdrcr_address(base_address),
        dbgitr_address(base_address) != dbgdtrrx_address(base_address),
        dbgitr_address(base_address) != dbgdrcr_address(base_address),
        dbgdtrrx_address(base_address) != dbgdrcr_address(base_address),
        forall|u: int|
            #![trigger bvr_unit_address(base_address, u)]
            0 <= u < 16 ==> {
                &&& bvr_unit_address(base_address, u) != dbgdscr_address(base_address)
                &&& bvr_unit_address(base_address, u) != dbgitr_address(base_address)
                &&& bvr_unit_address(base_address, u) != dbgdtrrx_address(base_address)
                &&& bvr_unit_address(base_address, u) != dbgdrcr_address(base_address)
                &&& bvr_unit_address(base_address, u) != bcr_unit_address(base_address, u)
            },
        forall|u: int|
            #![trigger bcr_unit_address(base_address, u)]
            0 <= u < 16 ==> {
                &&& bcr_unit_address(base_address, u) != dbgdscr_address(base_address)
                &&& bcr_unit_address(base_address, u) != dbgitr_address(base_address)
                &&& bcr_unit_address(base_address, u) != dbgdtrrx_address(base_address)
                &&& bcr_unit_address(base_address, u) != dbgdrcr_address(base_address)
            },
{
}

/// The instruction set selected by a CPSR value: bit five is the Thumb bit.
pub open spec fn spec_instruction_set_of(cpsr: u32) -> crate::state::InstructionSet {
    if (cpsr >> 5) & 1 == 1 {
        crate::state::InstructionSet::Thumb2
    } else {
        crate::state::InstructionSet::A32
    }
}

/// The little-endian byte of a word at the given byte index.
pub open spec fn le_byte_of(word: u32, index: int) -> u8 {
    ((word >> ((8 * index) as u32)) & 0xFF) as u8
}

/// The word with the little-endian byte at the given index replaced.
pub open spec fn with_le_byte(word: u32, index: int, value: u8) -> u32 {
    (word & !(0xFFu32 << ((8 * index) as u32))) | ((value as u32) << ((8 * index) as u32))
}

/// The word-aligned address enclosing the given byte address.
pub open spec fn word_start_of(address: u64) -> u64 {
    (address - (address % 4)) as u64
}

/// The 64-bit value assembled from a low and a high word.
pub open spec fn word64_from(low: u32, high: u32) -> u64 {
    (low as u64) | ((high as u64) << 32u64)
}

/// Extract the little-endian byte of a word at the given byte index.
pub fn le_byte_of_word(word: u32, index: u64) -> (r: u8)
    requires
        index < 4,
    ensures
        r == le_byte_of(word, index as int),
{
    ((word >> ((8 * index) as u32)) & 0xFF) as u8
}

/// Replace the little-endian byte of a word at the given byte index.
pub fn word_with_le_byte(word: u32, index: u64, value: u8) -> (r: u32)
    requires
        index < 4,
    ensures
        r == with_le_byte(word, index as int, value),
{
    let shift = (8 * index) as u32;
    (word & !(0xFFu32 << shift)) | ((value as u32) << shift)
}

/// Splicing a byte into a word and reading the same byte lane back yields
/// that byte, whatever the word held before.
pub proof fn lemma_le_byte_roundtrip(word: u32, index: int, value: u8)
    requires
        0 <= index < 4,
    ensures
        le_byte_of(with_le_byte(word, index, value), index) == value,
{
    let sh = (8 * index) as u32;
    let v32 = value as u32;
    assert((((word & !(0xFFu32 << sh)) | (v32 << sh)) >> sh) & 0xFF == v32) by (bit_vector)
        requires
            sh == 0 || sh == 8 || sh == 16 || sh == 24,
            v32 < 256,
    ;
}

/// The debugger-visible program counter recovered from an observed read:
/// A32 reads of the program counter see the current instruction plus eight,
/// which is undone here with 32-bit wrap-around.
pub open spec fn pc_pipeline_undone(observed: u32) -> u32 {
    if observed >= 8 {
        (observed - 8) as u32
    } else {
        (observed + 0x1_0000_0000 - 8) as u32
    }
}

/// Interface for interacting with an ARMv7-A core.
pub struct Armv7a<M: DebugMemoryInterface, S: ArmDebugSequence<M>> {
    /// The transport used to reach the debug register bank.
    pub memory: M,
    /// The per-session state.
    pub state: CortexAState,
    /// The debug component's base address.
    pub base_address: u64,
    /// The debug sequence invoked around resets.
    pub sequence: S,
    /// The lazily read number of breakpoint units.
    pub num_breakpoints: Option<u32>,
    /// Whether DBGDSCR.ITREN has been set this session.
    pub itr_enabled: bool,
}

impl<M: DebugMemoryInterface, S: ArmDebugSequence<M>> Armv7a<M, S> {
    /// The structural invariant of a constructed controller.
    pub open spec fn wf(self) -> bool {
        &&& self.state.initialized
        &&& self.state.register_cache@.len() == 17
        &&& self.base_address + DEBUG_REGISTER_SPAN <= u64::MAX
        &&& (self.num_breakpoints matches Some(n) ==> 1 <= n <= 16)
    }

    /// The register cache, as a sequence of slots.
    pub open spec fn cache(self) -> Seq<Option<(u32, bool)>> {
        self.state.register_cache@
    }

    /// The accesses performed on the memory interface so far.
    pub open spec fn ops(self) -> Seq<MemOp> {
        self.memory.history()
    }

    /// Whether the construction-time configuration is unchanged.
    pub open spec fn same_config(self, pre: Self) -> bool {
        &&& self.base_address == pre.base_address
        &&& self.sequence == pre.sequence
    }

    /// A register cache with one empty slot per supported register.
    fn empty_register_cache() -> (r: Vec<Option<(u32, bool)>>)
        ensures
            cache_reset(r@),
    {
        let mut cache: Vec<Option<(u32, bool)>> = Vec::new();
        let mut i: usize = 0;
        while i < 17
            invariant
                cache@.len() == i,
                i <= 17,
                forall|j: int| 0 <= j < i ==> cache@[j] is None,
            decreases 17 - i,
        {
            cache.push(None);
            i = i + 1;
        }
        cache
    }

    /// Construct a controller around a memory interface and session state.
    ///
    /// On the first construction of a session the core's status is read once
    /// from DBGDSCR and the register cache is preallocated; a session that
    /// was initialized earlier is reused without touching the hardware.
    pub fn new(memory: M, state: CortexAState, base_address: u64, sequence: S) -> (r: Result<
        Self,
        DebugError,
    >)
        requires
            base_address + DEBUG_REGISTER_SPAN <= u64::MAX,
            state.initialized ==> state.register_cache@.len() == 17,
        ensures
            match r {
                Ok(core) => {
                    &&& core.wf()
                    &&& core.base_address == base_address
                    &&& core.sequence == sequence
                    &&& !core.itr_enabled
                    &&& core.num_breakpoints is None
                    &&& state.initialized ==> core.state == state && core.memory == memory
                    &&& !state.initialized ==> {
                        &&& cache_reset(core.cache())
                        &&& core.state.is_64_bit == state.is_64_bit
                        &&& exists|v: u32|
                            core.ops() == memory.history().push(
                                MemOp::Read(dbgdscr_address(base_address), v),
                            ) && core.state.current_state == spec_core_status(Dbgdscr(v))
                    }
                },
                Err(e) => e == DebugError::Transport && !state.initialized,
            },
    {
        let mut mem = memory;
        let mut st = state;
        if !st.initialized() {
            // Determine the current state with a single status read.
            let address = Dbgdscr::get_mmio_address(base_address);
            let raw = match mem.read_word_32(address) {
                Ok(v) => v,
                Err(e) => {
                    return Err(e);
                },
            };
            let dbgdscr = Dbgdscr(raw);

            let core_state = if dbgdscr.halted() {
                let reason = dbgdscr.halt_reason();
                CoreStatus::Halted(reason)
            } else {
                CoreStatus::Running
            };

            st.current_state = core_state;
            st.register_cache = Self::empty_register_cache();
            st.initialize();
            let core = Self {
                memory: mem,
                state: st,
                base_address,
                sequence,
                num_breakpoints: None,
                itr_enabled: false,
            };
            proof {
                assert(core.ops() == memory.history().push(
                    MemOp::Read(dbgdscr_address(base_address), raw),
                ));
                assert(core.state.current_state == spec_core_status(Dbgdscr(raw)));
            }
            Ok(core)
        } else {
            Ok(
                Self {
                    memory: mem,
                    state: st,
                    base_address,
                    sequence,
                    num_breakpoints: None,
                    itr_enabled: false,
                },
            )
        }
    }

    /// Empty every slot of the register cache.
    pub fn reset_register_cache(&mut self)
        ensures
            cache_reset(final(self).cache()),
            final(self).memory == old(self).memory,
            final(self).same_config(*old(self)),
            final(self).num_breakpoints == old(self).num_breakpoints,
            final(self).itr_enabled == old(self).itr_enabled,
            final(self).state.initialized == old(self).state.initialized,
            final(self).state.current_state == old(self).state.current_state,
            final(self).state.is_64_bit == old(self).state.is_64_bit,
    {
        self.state.register_cache = Self::empty_register_cache();
    }

    /// Execute an instruction on the halted core through DBGITR.
    ///
    /// Enables the instruction-transfer mechanism on first use, writes the
    /// instruction word, polls DBGDSCR until the instruction has completed,
    /// and checks for latched data aborts.  On an abort the sticky error
    /// bits are cleared through DBGDRCR before the failure is reported.
    pub fn execute_instruction(&mut self, instruction: u32) -> (r: Result<Dbgdscr, DebugError>)
        requires
            old(self).wf(),
        ensures
            final(self).wf(),
            final(self).same_config(*old(self)),
            final(self).num_breakpoints == old(self).num_breakpoints,
            final(self).state == old(self).state,
            old(self).ops().is_prefix_of(final(self).ops()),
            !old(self).state.current_state.spec_is_halted() ==> r == Err::<Dbgdscr, DebugError>(
                DebugError::Armv7a(Armv7aError::NotHalted),
            ) && *final(self) == *old(self),
            r == Err::<Dbgdscr, DebugError>(DebugError::Armv7a(Armv7aError::NotHalted)) ==> !old(
                self,
            ).state.current_state.spec_is_halted(),
            match r {
                Ok(dscr) => {
                    &&& old(self).state.current_state.spec_is_halted()
                    &&& final(self).itr_enabled
                    &&& dscr.spec_instrcoml_l()
                    &&& !dscr.spec_adabort_l()
                    &&& !dscr.spec_sdabort_l()
                    &&& final(self).ops().len() > 0
                    &&& final(self).ops().last() == MemOp::Read(
                        dbgdscr_address(old(self).base_address),
                        dscr.0,
                    )
                    &&& contains_op(
                        final(self).ops(),
                        old(self).ops().len() as int,
                        MemOp::Write(dbgitr_address(old(self).base_address), instruction),
                    )
                },
                Err(e) => e == DebugError::Armv7a(Armv7aError::NotHalted) || e == DebugError::Armv7a(
                    Armv7aError::DataAbort,
                ) || e == DebugError::Transport || e == DebugError::Timeout,
            },
            r == Err::<Dbgdscr, DebugError>(DebugError::Armv7a(Armv7aError::DataAbort)) ==> final(self).ops().len() > 0
                && final(self).ops().last() == MemOp::Write(
                dbgdrcr_address(old(self).base_address),
                4u32,
            ),
            ite_writes_only(final(self).ops(), old(self).ops().len() as int, old(self).base_address),
            old(self).itr_enabled ==> no_dscr_writes(
                final(self).ops(),
                old(self).ops().len() as int,
                old(self).base_address,
            ),
            r is Ok && !old(self).itr_enabled ==> final(self).ops().len() >= old(self).ops().len()
                + 2 && exists|v: u32|
                final(self).ops()[old(self).ops().len() as int] == MemOp::Read(
                    dbgdscr_address(old(self).base_address),
                    v,
                ) && final(self).ops()[old(self).ops().len() as int + 1] == MemOp::Write(
                dbgdscr_address(old(self).base_address),
                crate::debug_regs::with_bit(v, 0x2000, true),
            ),
            r is Ok ==> writes_itr_once(
                final(self).ops(),
                old(self).ops().len() as int,
                old(self).base_address,
                instruction,
            ),
    {
        if !self.state.current_state.is_halted() {
            return Err(DebugError::Armv7a(Armv7aError::NotHalted));
        }
        proof {
            lemma_distinct_register_addresses(self.base_address);
        }
        let ghost was_itr_enabled = self.itr_enabled;
        let ghost mut enable_raw: u32 = 0;
        // Enable the instruction-transfer mechanism if needed.
        if !self.itr_enabled {
            let address = Dbgdscr::get_mmio_address(self.base_address);
            let raw = self.memory.read_word_32(address)?;
            let mut dbgdscr = Dbgdscr(raw);
            dbgdscr.set_itren(true);
            self.memory.write_word_32(address, dbgdscr.0)?;
            self.itr_enabled = true;
            proof {
                enable_raw = raw;
            }
        }
        // Hand the instruction to the core.
        let itr_address = Dbgitr::get_mmio_address(self.base_address);
        self.memory.write_word_32(itr_address, instruction)?;
        let ghost itr_op = MemOp::Write(dbgitr_address(self.base_address), instruction);
        let ghost itr_position = self.ops().len() - 1;
        proof {
            assert(self.ops().last() == itr_op);
            assert(contains_op(self.ops(), old(self).ops().len() as int, itr_op));
        }
        // Wait for completion.
        let dscr_address = Dbgdscr::get_mmio_address(self.base_address);
        let raw = self.memory.read_word_32(dscr_address)?;
        let mut dbgdscr = Dbgdscr(raw);
        let mut polls: u64 = 0;
        while !dbgdscr.instrcoml_l()
            invariant
                polls <= ITE_POLL_LIMIT,
                self.wf(),
                self.same_config(*old(self)),
                self.num_breakpoints == old(self).num_breakpoints,
                self.state == old(self).state,
                self.itr_enabled,
                old(self).state.current_state.spec_is_halted(),
                dscr_address == dbgdscr_address(old(self).base_address),
                old(self).ops().is_prefix_of(self.ops()),
                contains_op(self.ops(), old(self).ops().len() as int, itr_op),
                itr_op == MemOp::Write(dbgitr_address(old(self).base_address), instruction),
                self.ops().len() > 0,
                self.ops().last() == MemOp::Read(
                    dbgdscr_address(old(self).base_address),
                    dbgdscr.0,
                ),
                ite_writes_only(
                    self.ops(),
                    old(self).ops().len() as int,
                    old(self).base_address,
                ),
                was_itr_enabled == old(self).itr_enabled,
                was_itr_enabled ==> no_dscr_writes(
                    self.ops(),
                    old(self).ops().len() as int,
                    old(self).base_address,
                ),
                !was_itr_enabled ==> self.ops().len() >= old(self).ops().len() + 2 && self.ops()[old(
                    self,
                ).ops().len() as int] == MemOp::Read(
                    dbgdscr_address(old(self).base_address),
                    enable_raw,
                ) && self.ops()[old(self).ops().len() as int + 1] == MemOp::Write(
                    dbgdscr_address(old(self).base_address),
                    crate::debug_regs::with_bit(enable_raw, 0x2000, true),
                ),
                old(self).ops().len() <= itr_position < self.ops().len(),
                self.ops()[itr_position] == itr_op,
                forall|j: int|
                    #![trigger self.ops()[j]]
                    old(self).ops().len() <= j < self.ops().len() && j != itr_position ==> (
                    self.ops()[j] matches MemOp::Write(a, _) ==> a != dbgitr_address(
                        old(self).base_address,
                    )),
            decreases ITE_POLL_LIMIT - polls,
        {
            if polls >= ITE_POLL_LIMIT {
                return Err(DebugError::Timeout);
            }
            polls = polls + 1;
            let raw = self.memory.read_word_32(dscr_address)?;
            dbgdscr = Dbgdscr(raw);
        }
        // Check for latched aborts; clear them and fail if any is set.
        if dbgdscr.adabort_l() || dbgdscr.sdabort_l() {
            let drcr_address = Dbgdrcr::get_mmio_address(self.base_address);
            let mut dbgdrcr = Dbgdrcr(0);
            dbgdrcr.set_cse(true);
            proof {
                assert(0u32 | 0x4u32 == 4u32) by (bit_vector);
                lemma_distinct_register_addresses(self.base_address);
            }
            self.memory.write_word_32(drcr_address, dbgdrcr.0)?;
            return Err(DebugError::Armv7a(Armv7aError::DataAbort));
        }
        Ok(dbgdscr)
    }

    /// Execute an instruction and hand back the word it pushed into DBGDTRTX.
    pub fn execute_instruction_with_result(&mut self, instruction: u32) -> (r: Result<
        u32,
        DebugError,
    >)
        requires
            old(self).wf(),
        ensures
            final(self).wf(),
            final(self).same_config(*old(self)),
            final(self).num_breakpoints == old(self).num_breakpoints,
            final(self).state == old(self).state,
            old(self).ops().is_prefix_of(final(self).ops()),
            !old(self).state.current_state.spec_is_halted() ==> r == Err::<u32, DebugError>(
                DebugError::Armv7a(Armv7aError::NotHalted),
            ) && *final(self) == *old(self),
            r == Err::<u32, DebugError>(DebugError::Armv7a(Armv7aError::NotHalted)) ==> !old(
                self,
            ).state.current_state.spec_is_halted(),
            ite_writes_only(final(self).ops(), old(self).ops().len() as int, old(self).base_address),
            r is Ok ==> writes_itr_once(
                final(self).ops(),
                old(self).ops().len() as int,
                old(self).base_address,
                instruction,
            ),
            match r {
                Ok(value) => {
                    &&& old(self).state.current_state.spec_is_halted()
                    &&& final(self).itr_enabled
                    &&& final(self).ops().len() >= 2
                    &&& final(self).ops().last() == MemOp::Read(
                        dbgdtrtx_address(old(self).base_address),
                        value,
                    )
                    &&& exists|v: u32|
                        final(self).ops()[final(self).ops().len() - 2] == MemOp::Read(
                            dbgdscr_address(old(self).base_address),
                            v,
                        ) && Dbgdscr(v).spec_txfull_l()
                    &&& contains_op(
                        final(self).ops(),
                        old(self).ops().len() as int,
                        MemOp::Write(dbgitr_address(old(self).base_address), instruction),
                    )
                },
                Err(e) => e == DebugError::Armv7a(Armv7aError::NotHalted) || e == DebugError::Armv7a(
                    Armv7aError::DataAbort,
                ) || e == DebugError::Transport || e == DebugError::Timeout,
            },
    {
        let mut dbgdscr = self.execute_instruction(instruction)?;
        let ghost itr_op = MemOp::Write(dbgitr_address(self.base_address), instruction);
        let ghost h_executed = self.ops();
        let ghost k_issued = choose|k: int|
            {
                &&& old(self).ops().len() <= k < h_executed.len()
                &&& h_executed[k] == MemOp::Write(
                    dbgitr_address(old(self).base_address),
                    instruction,
                )
                &&& forall|j: int|
                    #![trigger h_executed[j]]
                    old(self).ops().len() <= j < h_executed.len() && j != k ==> (h_executed[j]
                        matches MemOp::Write(a, _) ==> a != dbgitr_address(
                        old(self).base_address,
                    ))
            };
        // Wait for the transfer register to fill.
        let dscr_address = Dbgdscr::get_mmio_address(self.base_address);
        let mut polls: u64 = 0;
        while !dbgdscr.txfull_l()
            invariant
                polls <= ITE_POLL_LIMIT,
                self.wf(),
                self.same_config(*old(self)),
                self.num_breakpoints == old(self).num_breakpoints,
                self.state == old(self).state,
                self.itr_enabled,
                dscr_address == dbgdscr_address(old(self).base_address),
                old(self).ops().is_prefix_of(self.ops()),
                h_executed.is_prefix_of(self.ops()),
                no_writes(self.ops(), h_executed.len() as int),
                contains_op(self.ops(), old(self).ops().len() as int, itr_op),
                itr_op == MemOp::Write(dbgitr_address(old(self).base_address), instruction),
                old(self).state.current_state.spec_is_halted(),
                self.ops().len() > 0,
                self.ops().last() == MemOp::Read(
                    dbgdscr_address(old(self).base_address),
                    dbgdscr.0,
                ),
                ite_writes_only(
                    self.ops(),
                    old(self).ops().len() as int,
                    old(self).base_address,
                ),
            decreases ITE_POLL_LIMIT - polls,
        {
            if polls >= ITE_POLL_LIMIT {
                return Err(DebugError::Timeout);
            }
            polls = polls + 1;
            let raw = self.memory.read_word_32(dscr_address)?;
            dbgdscr = Dbgdscr(raw);
        }
        // Read the result out of the transfer register.
        let tx_address = Dbgdtrtx::get_mmio_address(self.base_address);
        let result = self.memory.read_word_32(tx_address)?;
        proof {
            assert(self.ops()[self.ops().len() - 2] == MemOp::Read(
                dbgdscr_address(old(self).base_address),
                dbgdscr.0,
            ));
            // The one instruction injection of the inner execution is the
            // only DBGITR write of the whole call.
            assert(self.ops()[k_issued] == h_executed[k_issued]);
            assert(writes_itr_once(
                self.ops(),
                old(self).ops().len() as int,
                old(self).base_address,
                instruction,
            )) by {
                assert forall|j: int| #![trigger self.ops()[j]]
                    old(self).ops().len() <= j < self.ops().len() && j != k_issued implies (
                self.ops()[j] matches MemOp::Write(a, _) ==> a != dbgitr_address(
                    old(self).base_address,
                )) by {
                    if j < h_executed.len() {
                        assert(h_executed[j] == self.ops()[j]);
                    }
                }
            }
        }
        Ok(result)
    }

    /// Hand one word to the core through DBGDTRRX, then execute an
    /// instruction that consumes it.
    pub fn execute_instruction_with_input(&mut self, instruction: u32, value: u32) -> (r: Result<
        (),
        DebugError,
    >)
        requires
            old(self).wf(),
        ensures
            final(self).wf(),
            final(self).same_config(*old(self)),
            final(self).num_breakpoints == old(self).num_breakpoints,
            final(self).state == old(self).state,
            old(self).ops().is_prefix_of(final(self).ops()),
            !old(self).state.current_state.spec_is_halted() ==> r is Err,
            r == Err::<(), DebugError>(DebugError::Armv7a(Armv7aError::NotHalted)) ==> !old(
                self,
            ).state.current_state.spec_is_halted(),
            ite_writes_only(final(self).ops(), old(self).ops().len() as int, old(self).base_address),
            r is Ok ==> writes_itr_once(
                final(self).ops(),
                old(self).ops().len() as int,
                old(self).base_address,
                instruction,
            ),
            match r {
                Ok(()) => {
                    &&& old(self).state.current_state.spec_is_halted()
                    &&& final(self).itr_enabled
                    &&& final(self).ops().len() > old(self).ops().len()
                    &&& final(self).ops()[old(self).ops().len() as int] == MemOp::Write(
                        dbgdtrrx_address(old(self).base_address),
                        value,
                    )
                    &&& contains_op(
                        final(self).ops(),
                        old(self).ops().len() as int,
                        MemOp::Write(dbgitr_address(old(self).base_address), instruction),
                    )
                    &&& exists|k_accepted: int, k_issued: int, v: u32|
                        {
                            &&& old(self).ops().len() <= k_accepted
                            &&& k_accepted < k_issued
                            &&& k_issued < final(self).ops().len()
                            &&& final(self).ops()[k_accepted] == MemOp::Read(
                                dbgdscr_address(old(self).base_address),
                                v,
                            )
                            &&& Dbgdscr(v).spec_rxfull_l()
                            &&& final(self).ops()[k_issued] == MemOp::Write(
                                dbgitr_address(old(self).base_address),
                                instruction,
                            )
                        }
                },
                Err(e) => e == DebugError::Armv7a(Armv7aError::NotHalted) || e == DebugError::Armv7a(
                    Armv7aError::DataAbort,
                ) || e == DebugError::Transport || e == DebugError::Timeout,
            },
    {
        // Hand the word over.
        let rx_address = Dbgdtrrx::get_mmio_address(self.base_address);
        self.memory.write_word_32(rx_address, value)?;
        proof {
            assert(self.ops()[old(self).ops().len() as int] == MemOp::Write(
                dbgdtrrx_address(old(self).base_address),
                value,
            ));
        }
        // Wait for the core side to pick it up.
        let dscr_address = Dbgdscr::get_mmio_address(self.base_address);
        let raw = self.memory.read_word_32(dscr_address)?;
        let mut dbgdscr = Dbgdscr(raw);
        let mut polls: u64 = 0;
        while !dbgdscr.rxfull_l()
            invariant
                polls <= ITE_POLL_LIMIT,
                self.wf(),
                self.same_config(*old(self)),
                self.num_breakpoints == old(self).num_breakpoints,
                self.state == old(self).state,
                self.itr_enabled == old(self).itr_enabled,
                dscr_address == dbgdscr_address(old(self).base_address),
                old(self).ops().is_prefix_of(self.ops()),
                self.ops().len() > old(self).ops().len(),
                self.ops()[old(self).ops().len() as int] == MemOp::Write(
                    dbgdtrrx_address(old(self).base_address),
                    value,
                ),
                self.ops().last() == MemOp::Read(
                    dbgdscr_address(old(self).base_address),
                    dbgdscr.0,
                ),
                ite_writes_only(
                    self.ops(),
                    old(self).ops().len() as int,
                    old(self).base_address,
                ),
                forall|j: int|
                    #![trigger self.ops()[j]]
                    old(self).ops().len() <= j < self.ops().len() ==> (self.ops()[j] matches
                        MemOp::Write(a, _) ==> a == dbgdtrrx_address(old(self).base_address)),
            decreases ITE_POLL_LIMIT - polls,
        {
            if polls >= ITE_POLL_LIMIT {
                return Err(DebugError::Timeout);
            }
            polls = polls + 1;
            let raw = self.memory.read_word_32(dscr_address)?;
            dbgdscr = Dbgdscr(raw);
        }
        let ghost h_accepted = self.ops();
        let ghost k_accepted = self.ops().len() - 1;
        // Let the core consume it.
        let executed = self.execute_instruction(instruction);
        proof {
            lemma_ite_writes_only_chain(
                h_accepted,
                self.ops(),
                old(self).ops().len() as int,
                old(self).base_address,
            );
        }
        match executed {
            Ok(_) => {},
            Err(e) => {
                return Err(e);
            },
        }
        proof {
            lemma_distinct_register_addresses(old(self).base_address);
            let k_once = choose|k: int|
                {
                    &&& h_accepted.len() <= k < self.ops().len()
                    &&& self.ops()[k] == MemOp::Write(
                        dbgitr_address(old(self).base_address),
                        instruction,
                    )
                    &&& forall|j: int|
                        #![trigger self.ops()[j]]
                        h_accepted.len() <= j < self.ops().len() && j != k ==> (self.ops()[j]
                            matches MemOp::Write(a, _) ==> a != dbgitr_address(
                            old(self).base_address,
                        ))
                };
            assert(writes_itr_once(
                self.ops(),
                old(self).ops().len() as int,
                old(self).base_address,
                instruction,
            )) by {
                assert forall|j: int| #![trigger self.ops()[j]]
                    old(self).ops().len() <= j < self.ops().len() && j != k_once implies (
                self.ops()[j] matches MemOp::Write(a, _) ==> a != dbgitr_address(
                    old(self).base_address,
                )) by {
                    if j < h_accepted.len() {
                        assert(h_accepted[j] == self.ops()[j]);
                    }
                }
            }
        }
        proof {
            let k_issued = choose|k: int|
                {
                    &&& h_accepted.len() <= k < self.ops().len()
                    &&& self.ops()[k] == MemOp::Write(
                        dbgitr_address(old(self).base_address),
                        instruction,
                    )
                    &&& forall|j: int|
                        #![trigger self.ops()[j]]
                        h_accepted.len() <= j < self.ops().len() && j != k ==> (self.ops()[j]
                            matches MemOp::Write(a, _) ==> a != dbgitr_address(
                            old(self).base_address,
                        ))
                };
            assert(self.ops()[k_accepted] == h_accepted[k_accepted]);
            assert({
                &&& old(self).ops().len() <= k_accepted
                &&& k_accepted < k_issued
                &&& k_issued < self.ops().len()
                &&& self.ops()[k_accepted] == MemOp::Read(
                    dbgdscr_address(old(self).base_address),
                    dbgdscr.0,
                )
                &&& Dbgdscr(dbgdscr.0).spec_rxfull_l()
                &&& self.ops()[k_issued] == MemOp::Write(
                    dbgitr_address(old(self).base_address),
                    instruction,
                )
            });
        }
        Ok(())
    }

    /// Load R0 with a value by executing `MRC p14, 0, R0, c0, c5, 0`.
    pub fn set_r0(&mut self, value: u32) -> (r: Result<(), DebugError>)
        requires
            old(self).wf(),
        ensures
            final(self).wf(),
            final(self).same_config(*old(self)),
            final(self).num_breakpoints == old(self).num_breakpoints,
            final(self).state == old(self).state,
            old(self).ops().is_prefix_of(final(self).ops()),
            !old(self).state.current_state.spec_is_halted() ==> r is Err,
            r == Err::<(), DebugError>(DebugError::Armv7a(Armv7aError::NotHalted)) ==> !old(
                self,
            ).state.current_state.spec_is_halted(),
            ite_writes_only(final(self).ops(), old(self).ops().len() as int, old(self).base_address),
            match r {
                Ok(()) => {
                    &&& old(self).state.current_state.spec_is_halted()
                    &&& final(self).ops().len() > old(self).ops().len()
                    &&& final(self).ops()[old(self).ops().len() as int] == MemOp::Write(
                        dbgdtrrx_address(old(self).base_address),
                        value,
                    )
                    &&& contains_op(
                        final(self).ops(),
                        old(self).ops().len() as int,
                        MemOp::Write(
                            dbgitr_address(old(self).base_address),
                            crate::instructions::mrc_word(14, 0, 0, 0, 5, 0),
                        ),
                    )
                    &&& writes_itr_once(
                        final(self).ops(),
                        old(self).ops().len() as int,
                        old(self).base_address,
                        crate::instructions::mrc_word(14, 0, 0, 0, 5, 0),
                    )
                },
                Err(e) => e == DebugError::Armv7a(Armv7aError::NotHalted) || e == DebugError::Armv7a(
                    Armv7aError::DataAbort,
                ) || e == DebugError::Transport || e == DebugError::Timeout,
            },
    {
        let instruction = build_mrc(14, 0, 0, 0, 5, 0);
        self.execute_instruction_with_input(instruction, value)
    }

    /// Make sure R0's pre-clobber value sits in the cache marked dirty, so
    /// that write-back restores it after the debugger used R0 as scratch.
    pub fn prepare_r0_for_clobber(&mut self) -> (r: Result<(), DebugError>)
        requires
            old(self).wf(),
        ensures
            final(self).wf(),
            final(self).same_config(*old(self)),
            final(self).num_breakpoints == old(self).num_breakpoints,
            final(self).state.current_state == old(self).state.current_state,
            final(self).state.is_64_bit == old(self).state.is_64_bit,
            forall|i: int| 1 <= i < 17 ==> final(self).cache()[i] == old(self).cache()[i],
            old(self).ops().is_prefix_of(final(self).ops()),
            old(self).cache()[0] is Some ==> final(self).memory == old(self).memory && r is Ok,
            r == Err::<(), DebugError>(DebugError::Armv7a(Armv7aError::NotHalted)) ==> !old(
                self,
            ).state.current_state.spec_is_halted() && final(self).ops() == old(self).ops(),
            (!old(self).state.current_state.spec_is_halted() && old(self).cache()[0] is None)
                ==> (r == Err::<(), DebugError>(DebugError::Armv7a(Armv7aError::NotHalted))
                && final(self).ops() == old(self).ops()),
            ite_writes_only(final(self).ops(), old(self).ops().len() as int, old(self).base_address),
            match r {
                Ok(()) => {
                    &&& final(self).cache()[0] is Some
                    &&& (final(self).cache()[0] matches Some(entry) && entry.1 == true)
                    &&& (old(self).cache()[0] matches Some(entry) ==> final(self).cache()[0]
                        == Some((entry.0, true)))
                    &&& old(self).cache()[0] is None ==> {
                        &&& old(self).state.current_state.spec_is_halted()
                        &&& exists|v: u32|
                            final(self).cache()[0] == Some((v, true)) && final(self).ops().len() > 0
                                && final(self).ops().last() == MemOp::Read(
                                dbgdtrtx_address(old(self).base_address),
                                v,
                            )
                    }
                },
                Err(e) => final(self).state == old(self).state && (e == DebugError::Armv7a(
                    Armv7aError::NotHalted,
                ) || e == DebugError::Armv7a(Armv7aError::DataAbort) || e == DebugError::Transport
                    || e == DebugError::Timeout),
            },
    {
        let slot = self.state.register_cache[0];
        match slot {
            Some(entry) => {
                if !entry.1 {
                    // A clean copy is already cached; mark it dirty so that
                    // write-back restores it.
                    self.state.register_cache[0] = Some((entry.0, true));
                }
                Ok(())
            },
            None => {
                // Cache R0 before it gets clobbered, and mark it for
                // write-back.
                let instruction = build_mcr(14, 0, 0, 0, 5, 0);
                let r0_val = self.execute_instruction_with_result(instruction)?;
                self.state.register_cache[0] = Some((r0_val, true));
                Ok(())
            },
        }
    }

    /// Read an architectural register: indices 0..=14 name R0..R14, 15 the
    /// program counter and 16 the CPSR.
    ///
    /// A value already sitting in the cache is returned without any bus
    /// traffic.  R0..R14 are pulled through `MCR p14, 0, Rn, c0, c5, 0`; the
    /// program counter and CPSR are staged through R0 (`MOV R0, PC` and
    /// `MRS R0, CPSR`), whose pre-clobber value is cached dirty first.  The
    /// observed program counter has eight subtracted to undo the A32
    /// pipeline offset.  A successful read caches the value as clean.
    pub fn read_core_reg(&mut self, reg_num: u16) -> (r: Result<u32, DebugError>)
        requires
            old(self).wf(),
        ensures
            final(self).wf(),
            final(self).same_config(*old(self)),
            final(self).num_breakpoints == old(self).num_breakpoints,
            final(self).state.current_state == old(self).state.current_state,
            final(self).state.is_64_bit == old(self).state.is_64_bit,
            old(self).ops().is_prefix_of(final(self).ops()),
            forall|i: int|
                0 <= i < 17 && i != reg_num && i != 0 ==> final(self).cache()[i] == old(
                    self,
                ).cache()[i],
            reg_num > 16 ==> r == Err::<u32, DebugError>(
                DebugError::Armv7a(Armv7aError::InvalidRegisterNumber(reg_num)),
            ) && *final(self) == *old(self),
            r matches Err(DebugError::Armv7a(Armv7aError::InvalidRegisterNumber(n))) ==> n
                == reg_num && reg_num > 16,
            reg_num <= 16 && old(self).cache()[reg_num as int] is Some ==> *final(self) == *old(
                self,
            ) && (old(self).cache()[reg_num as int] matches Some(entry) && r == Ok::<
                u32,
                DebugError,
            >(entry.0)),
            r is Err ==> forall|i: int| 1 <= i < 17 ==> final(self).cache()[i] == old(
                self,
            ).cache()[i],
            old(self).state.current_state.spec_is_halted() ==> r != Err::<u32, DebugError>(
                DebugError::Armv7a(Armv7aError::NotHalted),
            ),
            !old(self).state.current_state.spec_is_halted() && reg_num <= 16 && old(
                self,
            ).cache()[reg_num as int] is None ==> r == Err::<u32, DebugError>(
                DebugError::Armv7a(Armv7aError::NotHalted),
            ) && final(self).ops() == old(self).ops(),
            ite_writes_only(final(self).ops(), old(self).ops().len() as int, old(self).base_address),
            match r {
                Ok(value) => {
                    &&& reg_num <= 16
                    &&& (final(self).cache()[reg_num as int] matches Some(entry) && entry.0
                        == value)
                    &&& old(self).cache()[reg_num as int] is None ==> {
                        &&& old(self).state.current_state.spec_is_halted()
                        &&& final(self).cache()[reg_num as int] == Some((value, false))
                        &&& final(self).ops().len() > 0
                        &&& reg_num <= 14 ==> final(self).ops().last() == MemOp::Read(
                            dbgdtrtx_address(old(self).base_address),
                            value,
                        ) && writes_itr_once(
                            final(self).ops(),
                            old(self).ops().len() as int,
                            old(self).base_address,
                            crate::instructions::mcr_word(14, 0, reg_num as u32, 0, 5, 0),
                        )
                        &&& reg_num == 15 ==> exists|observed: u32|
                            final(self).ops().last() == MemOp::Read(
                                dbgdtrtx_address(old(self).base_address),
                                observed,
                            ) && value == pc_pipeline_undone(observed) && contains_op(
                                final(self).ops(),
                                old(self).ops().len() as int,
                                MemOp::Write(
                                    dbgitr_address(old(self).base_address),
                                    crate::instructions::mov_word(0, 15),
                                ),
                            )
                        &&& reg_num == 16 ==> final(self).ops().last() == MemOp::Read(
                            dbgdtrtx_address(old(self).base_address),
                            value,
                        ) && contains_op(
                            final(self).ops(),
                            old(self).ops().len() as int,
                            MemOp::Write(
                                dbgitr_address(old(self).base_address),
                                crate::instructions::mrs_word(0),
                            ),
                        )
                        &&& (reg_num == 15 || reg_num == 16) ==> (final(self).cache()[0] matches
                            Some(entry) && entry.1 == true)
                    }
                },
                Err(e) => e == DebugError::Armv7a(Armv7aError::InvalidRegisterNumber(reg_num)) || e
                    == DebugError::Armv7a(Armv7aError::NotHalted) || e == DebugError::Armv7a(
                    Armv7aError::DataAbort,
                ) || e == DebugError::Transport || e == DebugError::Timeout,
            },
    {
        let reg_idx = reg_num as usize;
        // Serve the read from the cache when the slot is filled.
        if reg_idx < 17 {
            let slot = self.state.register_cache[reg_idx];
            if let Some(cached) = slot {
                return Ok(cached.0);
            }
        }
        if reg_num <= 14 {
            // MCR p14, 0, Rn, c0, c5, 0 pushes Rn into the transfer register.
            let instruction = build_mcr(14, 0, reg_num, 0, 5, 0);
            let value = self.execute_instruction_with_result(instruction)?;
            self.state.register_cache[reg_idx] = Some((value, false));
            Ok(value)
        } else if reg_num == 15 {
            // The program counter must be staged through R0.
            self.prepare_r0_for_clobber()?;
            let ghost h_prepared = self.ops();
            let instruction = build_mov(0, 15);
            let moved = self.execute_instruction(instruction);
            proof {
                lemma_ite_writes_only_chain(
                    h_prepared,
                    self.ops(),
                    old(self).ops().len() as int,
                    old(self).base_address,
                );
            }
            match moved {
                Ok(_) => {},
                Err(e) => {
                    return Err(e);
                },
            }
            let ghost h_moved = self.ops();
            let ghost mov_op = MemOp::Write(
                dbgitr_address(old(self).base_address),
                crate::instructions::mov_word(0, 15),
            );
            proof {
                lemma_contains_op_widen(
                    h_moved,
                    old(self).ops().len() as int,
                    h_prepared.len() as int,
                    mov_op,
                );
            }
            let instruction = build_mcr(14, 0, 0, 0, 5, 0);
            let fetched = self.execute_instruction_with_result(instruction);
            proof {
                lemma_contains_op_extend(
                    h_moved,
                    self.ops(),
                    old(self).ops().len() as int,
                    mov_op,
                );
                lemma_ite_writes_only_chain(
                    h_moved,
                    self.ops(),
                    old(self).ops().len() as int,
                    old(self).base_address,
                );
            }
            let observed = match fetched {
                Ok(v) => v,
                Err(e) => {
                    return Err(e);
                },
            };
            // The observed value is the program counter plus eight.
            let value = if observed >= 8 {
                observed - 8
            } else {
                ((observed as u64 + 0x1_0000_0000) - 8) as u32
            };
            self.state.register_cache[reg_idx] = Some((value, false));
            proof {
                assert(self.ops().last() == MemOp::Read(
                    dbgdtrtx_address(old(self).base_address),
                    observed,
                ));
                assert(value == pc_pipeline_undone(observed));
            }
            Ok(value)
        } else if reg_num == 16 {
            // The CPSR must be staged through R0.
            self.prepare_r0_for_clobber()?;
            let ghost h_prepared = self.ops();
            let instruction = build_mrs(0);
            let moved = self.execute_instruction(instruction);
            proof {
                lemma_ite_writes_only_chain(
                    h_prepared,
                    self.ops(),
                    old(self).ops().len() as int,
                    old(self).base_address,
                );
            }
            match moved {
                Ok(_) => {},
                Err(e) => {
                    return Err(e);
                },
            }
            let ghost h_moved = self.ops();
            let ghost mrs_op = MemOp::Write(
                dbgitr_address(old(self).base_address),
                crate::instructions::mrs_word(0),
            );
            proof {
                lemma_contains_op_widen(
                    h_moved,
                    old(self).ops().len() as int,
                    h_prepared.len() as int,
                    mrs_op,
                );
            }
            let instruction = build_mcr(14, 0, 0, 0, 5, 0);
            let fetched = self.execute_instruction_with_result(instruction);
            proof {
                lemma_contains_op_extend(
                    h_moved,
                    self.ops(),
                    old(self).ops().len() as int,
                    mrs_op,
                );
                lemma_ite_writes_only_chain(
                    h_moved,
                    self.ops(),
                    old(self).ops().len() as int,
                    old(self).base_address,
                );
            }
            let value = match fetched {
                Ok(v) => v,
                Err(e) => {
                    return Err(e);
                },
            };
            self.state.register_cache[reg_idx] = Some((value, false));
            Ok(value)
        } else {
            Err(DebugError::Armv7a(Armv7aError::InvalidRegisterNumber(reg_num)))
        }
    }

    /// Write an architectural register.
    ///
    /// The value only lands in the cache, marked dirty; the hardware is
    /// touched when the dirty slots are written back before the core resumes.
    pub fn write_core_reg(&mut self, reg_num: u16, value: u32) -> (r: Result<(), DebugError>)
        requires
            old(self).wf(),
        ensures
            final(self).wf(),
            final(self).same_config(*old(self)),
            final(self).memory == old(self).memory,
            final(self).num_breakpoints == old(self).num_breakpoints,
            final(self).itr_enabled == old(self).itr_enabled,
            final(self).state.current_state == old(self).state.current_state,
            final(self).state.is_64_bit == old(self).state.is_64_bit,
            reg_num > 16 ==> r == Err::<(), DebugError>(
                DebugError::Armv7a(Armv7aError::InvalidRegisterNumber(reg_num)),
            ) && *final(self) == *old(self),
            reg_num <= 16 ==> r == Ok::<(), DebugError>(()) && final(self).cache() == old(
                self,
            ).cache().update(reg_num as int, Some((value, true))),
    {
        let reg_idx = reg_num as usize;
        if reg_idx >= self.state.register_cache.len() {
            return Err(DebugError::Armv7a(Armv7aError::InvalidRegisterNumber(reg_num)));
        }
        self.state.register_cache[reg_idx] = Some((value, true));
        Ok(())
    }

    /// Write every dirty cache slot back to the core, then empty the cache.
    ///
    /// R0..R14 are restored by `MRC p14, 0, Rn, c0, c5, 0` with the value fed
    /// through DBGDTRRX; the program counter is restored by loading R0 and
    /// branching to it with `BX R0`.  A dirty CPSR slot has no defined
    /// write-back and is dropped.
    #[verifier::spinoff_prover]
    #[verifier::rlimit(100)]
    pub fn writeback_registers(&mut self) -> (r: Result<(), DebugError>)
        requires
            old(self).wf(),
        ensures
            final(self).wf(),
            final(self).same_config(*old(self)),
            final(self).num_breakpoints == old(self).num_breakpoints,
            final(self).state.current_state == old(self).state.current_state,
            final(self).state.is_64_bit == old(self).state.is_64_bit,
            old(self).ops().is_prefix_of(final(self).ops()),
            no_dirty_slots(old(self).cache()) ==> r == Ok::<(), DebugError>(()),
            no_dirty_slots(old(self).cache()) ==> final(self).memory == old(self).memory,
            ite_writes_only(final(self).ops(), old(self).ops().len() as int, old(self).base_address),
            match r {
                Ok(()) => {
                    &&& cache_reset(final(self).cache())
                    &&& dirty_slots_flushed(
                        old(self).cache(),
                        final(self).ops(),
                        old(self).ops().len() as int,
                        old(self).base_address,
                    )
                    &&& exists|cut: Seq<int>|
                        #[trigger] dirty_slots_flushed_in_order(
                            old(self).cache(),
                            final(self).ops(),
                            old(self).ops().len() as int,
                            old(self).base_address,
                            cut,
                        ) && cut[17] == final(self).ops().len()
                },
                Err(e) => final(self).state == old(self).state && (e == DebugError::Armv7a(
                    Armv7aError::NotHalted,
                ) || e == DebugError::Armv7a(Armv7aError::DataAbort) || e == DebugError::Transport
                    || e == DebugError::Timeout),
            },
    {
        let ghost mut cut: Seq<int> = seq![old(self).ops().len() as int];
        let mut i: usize = 0;
        while i < 17
            invariant
                old(self).wf(),
                self.wf(),
                i <= 17,
                self.same_config(*old(self)),
                self.num_breakpoints == old(self).num_breakpoints,
                self.state == old(self).state,
                old(self).ops().is_prefix_of(self.ops()),
                no_dirty_slots(old(self).cache()) ==> self.memory == old(self).memory,
                ite_writes_only(
                    self.ops(),
                    old(self).ops().len() as int,
                    old(self).base_address,
                ),
                cut.len() == i + 1,
                cut[0] == old(self).ops().len() as int,
                forall|j: int| #![trigger cut[j]] 0 <= j < i ==> cut[j] <= cut[j + 1],
                cut[i as int] == self.ops().len() as int,
                forall|j: int|
                    #![trigger cut[j]]
                    0 <= j < i ==> {
                        if 0 <= j <= 15 && old(self).cache()[j] is Some && old(
                            self,
                        ).cache()[j]->Some_0.1 {
                            &&& contains_op_before(
                                self.ops(),
                                cut[j],
                                cut[j + 1],
                                MemOp::Write(
                                    dbgdtrrx_address(old(self).base_address),
                                    old(self).cache()[j]->Some_0.0,
                                ),
                            )
                            &&& (j <= 14 ==> contains_op_before(
                                self.ops(),
                                cut[j],
                                cut[j + 1],
                                MemOp::Write(
                                    dbgitr_address(old(self).base_address),
                                    crate::instructions::mrc_word(14, 0, j as u32, 0, 5, 0),
                                ),
                            ))
                            &&& (j == 15 ==> contains_op_before(
                                self.ops(),
                                cut[j],
                                cut[j + 1],
                                MemOp::Write(
                                    dbgitr_address(old(self).base_address),
                                    crate::instructions::mrc_word(14, 0, 0, 0, 5, 0),
                                ),
                            ) && contains_op_before(
                                self.ops(),
                                cut[j],
                                cut[j + 1],
                                MemOp::Write(
                                    dbgitr_address(old(self).base_address),
                                    crate::instructions::bx_word(0),
                                ),
                            ))
                        } else {
                            cut[j + 1] == cut[j]
                        }
                    },
                forall|j: int|
                    #![trigger old(self).cache()[j]]
                    old(self).cache()[j] matches Some(entry) ==> ((0 <= j < i && j <= 15
                        && entry.1) ==> {
                        &&& contains_op(
                            self.ops(),
                            old(self).ops().len() as int,
                            MemOp::Write(dbgdtrrx_address(old(self).base_address), entry.0),
                        )
                        &&& (j <= 14 ==> contains_op(
                            self.ops(),
                            old(self).ops().len() as int,
                            MemOp::Write(
                                dbgitr_address(old(self).base_address),
                                crate::instructions::mrc_word(14, 0, j as u32, 0, 5, 0),
                            ),
                        ))
                        &&& (j == 15 ==> contains_op(
                            self.ops(),
                            old(self).ops().len() as int,
                            MemOp::Write(
                                dbgitr_address(old(self).base_address),
                                crate::instructions::mrc_word(14, 0, 0, 0, 5, 0),
                            ),
                        ) && contains_op(
                            self.ops(),
                            old(self).ops().len() as int,
                            MemOp::Write(
                                dbgitr_address(old(self).base_address),
                                crate::instructions::bx_word(0),
                            ),
                        ))
                    }),
            decreases 17 - i,
        {
            let ghost h_iter = self.ops();
            let slot = self.state.register_cache[i];
            if let Some(entry) = slot {
                if entry.1 {
                    if i <= 14 {
                        let instruction = build_mrc(14, 0, i as u16, 0, 5, 0);
                        let flushed = self.execute_instruction_with_input(instruction, entry.0);
                        proof {
                            lemma_ite_writes_only_chain(
                                h_iter,
                                self.ops(),
                                old(self).ops().len() as int,
                                old(self).base_address,
                            );
                        }
                        flushed?;
                    } else if i == 15 {
                        // Load the new program counter into R0 and branch to
                        // it.
                        let instruction = build_mrc(14, 0, 0, 0, 5, 0);
                        let loaded = self.execute_instruction_with_input(instruction, entry.0);
                        proof {
                            lemma_ite_writes_only_chain(
                                h_iter,
                                self.ops(),
                                old(self).ops().len() as int,
                                old(self).base_address,
                            );
                        }
                        loaded?;
                        let ghost h_loaded = self.ops();
                        let instruction = build_bx(0);
                        let branched = self.execute_instruction(instruction);
                        proof {
                            lemma_ite_writes_only_chain(
                                h_loaded,
                                self.ops(),
                                old(self).ops().len() as int,
                                old(self).base_address,
                            );
                        }
                        branched?;
                    }
                    // A dirty CPSR slot (16) has no defined write-back.
                }
            }
            proof {
                let ghost cut_entry = cut;
                cut = cut.push(self.ops().len() as int);
                assert forall|j: int| #![trigger cut[j]]
                    0 <= j < i + 1 implies {
                    if 0 <= j <= 15 && old(self).cache()[j] is Some && old(
                        self,
                    ).cache()[j]->Some_0.1 {
                        &&& contains_op_before(
                            self.ops(),
                            cut[j],
                            cut[j + 1],
                            MemOp::Write(
                                dbgdtrrx_address(old(self).base_address),
                                old(self).cache()[j]->Some_0.0,
                            ),
                        )
                        &&& (j <= 14 ==> contains_op_before(
                            self.ops(),
                            cut[j],
                            cut[j + 1],
                            MemOp::Write(
                                dbgitr_address(old(self).base_address),
                                crate::instructions::mrc_word(14, 0, j as u32, 0, 5, 0),
                            ),
                        ))
                        &&& (j == 15 ==> contains_op_before(
                            self.ops(),
                            cut[j],
                            cut[j + 1],
                            MemOp::Write(
                                dbgitr_address(old(self).base_address),
                                crate::instructions::mrc_word(14, 0, 0, 0, 5, 0),
                            ),
                        ) && contains_op_before(
                            self.ops(),
                            cut[j],
                            cut[j + 1],
                            MemOp::Write(
                                dbgitr_address(old(self).base_address),
                                crate::instructions::bx_word(0),
                            ),
                        ))
                    } else {
                        cut[j + 1] == cut[j]
                    }
                } by {
                    if j < i {
                        assert(cut[j] == cut_entry[j]);
                        assert(cut[j + 1] == cut_entry[j + 1]);
                        if 0 <= j <= 15 && old(self).cache()[j] is Some && old(
                            self,
                        ).cache()[j]->Some_0.1 {
                            lemma_contains_op_before_extend(
                                h_iter,
                                self.ops(),
                                cut_entry[j],
                                cut_entry[j + 1],
                                MemOp::Write(
                                    dbgdtrrx_address(old(self).base_address),
                                    old(self).cache()[j]->Some_0.0,
                                ),
                            );
                            if j <= 14 {
                                lemma_contains_op_before_extend(
                                    h_iter,
                                    self.ops(),
                                    cut_entry[j],
                                    cut_entry[j + 1],
                                    MemOp::Write(
                                        dbgitr_address(old(self).base_address),
                                        crate::instructions::mrc_word(14, 0, j as u32, 0, 5, 0),
                                    ),
                                );
                            }
                            if j == 15 {
                                lemma_contains_op_before_extend(
                                    h_iter,
                                    self.ops(),
                                    cut_entry[j],
                                    cut_entry[j + 1],
                                    MemOp::Write(
                                        dbgitr_address(old(self).base_address),
                                        crate::instructions::mrc_word(14, 0, 0, 0, 5, 0),
                                    ),
                                );
                                lemma_contains_op_before_extend(
                                    h_iter,
                                    self.ops(),
                                    cut_entry[j],
                                    cut_entry[j + 1],
                                    MemOp::Write(
                                        dbgitr_address(old(self).base_address),
                                        crate::instructions::bx_word(0),
                                    ),
                                );
                            }
                        }
                    }
                }
            }
            i = i + 1;
        }
        proof {
            assert(dirty_slots_flushed(
                old(self).cache(),
                self.ops(),
                old(self).ops().len() as int,
                old(self).base_address,
            ));
            assert(dirty_slots_flushed_in_order(
                old(self).cache(),
                self.ops(),
                old(self).ops().len() as int,
                old(self).base_address,
                cut,
            ));
            assert(cut[17] == self.ops().len());
        }
        self.reset_register_cache();
        Ok(())
    }

    /// Poll DBGDSCR until the core reports halted, budgeting one access per
    /// millisecond of the timeout; the budget exhausted, fail with a timeout.
    pub fn wait_for_core_halted(&mut self, timeout_ms: u64) -> (r: Result<(), DebugError>)
        requires
            old(self).wf(),
        ensures
            final(self).wf(),
            final(self).same_config(*old(self)),
            final(self).num_breakpoints == old(self).num_breakpoints,
            final(self).state == old(self).state,
            final(self).itr_enabled == old(self).itr_enabled,
            old(self).ops().is_prefix_of(final(self).ops()),
            timeout_ms == 0 ==> r == Err::<(), DebugError>(DebugError::Timeout),
            match r {
                Ok(()) => exists|v: u32|
                    final(self).ops().len() > 0 && final(self).ops().last() == MemOp::Read(
                        dbgdscr_address(old(self).base_address),
                        v,
                    ) && Dbgdscr(v).spec_halted(),
                Err(e) => e == DebugError::Timeout || e == DebugError::Transport,
            },
            r == Err::<(), DebugError>(DebugError::Timeout) ==> final(self).ops().len() == old(
                self,
            ).ops().len() + timeout_ms,
            r == Err::<(), DebugError>(DebugError::Timeout) ==> all_unhalted_status_reads(
                final(self).ops(),
                old(self).ops().len() as int,
                old(self).base_address,
            ),
            no_writes(final(self).ops(), old(self).ops().len() as int),
    {
        let address = Dbgdscr::get_mmio_address(self.base_address);
        let mut attempts: u64 = 0;
        while attempts < timeout_ms
            invariant
                self.wf(),
                attempts <= timeout_ms,
                self.same_config(*old(self)),
                self.num_breakpoints == old(self).num_breakpoints,
                self.state == old(self).state,
                self.itr_enabled == old(self).itr_enabled,
                address == dbgdscr_address(old(self).base_address),
                old(self).ops().is_prefix_of(self.ops()),
                self.ops().len() == old(self).ops().len() + attempts,
                all_unhalted_status_reads(
                    self.ops(),
                    old(self).ops().len() as int,
                    old(self).base_address,
                ),
                no_writes(self.ops(), old(self).ops().len() as int),
            decreases timeout_ms - attempts,
        {
            let raw = self.memory.read_word_32(address)?;
            let dbgdscr = Dbgdscr(raw);
            if dbgdscr.halted() {
                return Ok(());
            }
            proof {
                assert(self.ops().last() == MemOp::Read(
                    dbgdscr_address(old(self).base_address),
                    raw,
                ));
            }
            attempts = attempts + 1;
        }
        Err(DebugError::Timeout)
    }

    /// Read DBGDSCR once and report whether the core is halted, without
    /// updating the session state.
    pub fn core_halted(&mut self) -> (r: Result<bool, DebugError>)
        requires
            old(self).wf(),
        ensures
            final(self).wf(),
            final(self).same_config(*old(self)),
            final(self).num_breakpoints == old(self).num_breakpoints,
            final(self).state == old(self).state,
            final(self).itr_enabled == old(self).itr_enabled,
            old(self).ops().is_prefix_of(final(self).ops()),
            match r {
                Ok(halted) => exists|v: u32|
                    final(self).ops() == old(self).ops().push(
                        MemOp::Read(dbgdscr_address(old(self).base_address), v),
                    ) && halted == Dbgdscr(v).spec_halted(),
                Err(e) => e == DebugError::Transport && final(self).ops() == old(self).ops(),
            },
    {
        let address = Dbgdscr::get_mmio_address(self.base_address);
        let raw = self.memory.read_word_32(address)?;
        let dbgdscr = Dbgdscr(raw);
        Ok(dbgdscr.halted())
    }

    /// Read DBGDSCR once, record the observed status in the session state,
    /// and return it: halted with its reason, or running.
    pub fn status(&mut self) -> (r: Result<CoreStatus, DebugError>)
        requires
            old(self).wf(),
        ensures
            final(self).wf(),
            final(self).same_config(*old(self)),
            final(self).num_breakpoints == old(self).num_breakpoints,
            final(self).itr_enabled == old(self).itr_enabled,
            final(self).cache() == old(self).cache(),
            final(self).state.initialized == old(self).state.initialized,
            final(self).state.is_64_bit == old(self).state.is_64_bit,
            old(self).ops().is_prefix_of(final(self).ops()),
            ite_writes_only(final(self).ops(), old(self).ops().len() as int, old(self).base_address),
            match r {
                Ok(st) => {
                    &&& exists|v: u32|
                        final(self).ops() == old(self).ops().push(
                            MemOp::Read(dbgdscr_address(old(self).base_address), v),
                        ) && st == spec_core_status(Dbgdscr(v))
                    &&& final(self).state.current_state == st
                    &&& !(st is Unknown)
                },
                Err(e) => e == DebugError::Transport && final(self).ops() == old(self).ops()
                    && final(self).state == old(self).state,
            },
    {
        let address = Dbgdscr::get_mmio_address(self.base_address);
        let raw = self.memory.read_word_32(address)?;
        let dbgdscr = Dbgdscr(raw);
        proof {
            assert(self.ops() == old(self).ops().push(
                MemOp::Read(dbgdscr_address(old(self).base_address), raw),
            ));
        }
        if dbgdscr.halted() {
            let reason = dbgdscr.halt_reason();
            self.state.current_state = CoreStatus::Halted(reason);
            proof {
                assert(CoreStatus::Halted(reason) == spec_core_status(Dbgdscr(raw)));
            }
            return Ok(CoreStatus::Halted(reason));
        }
        // The core is neither halted nor sleeping, so it is taken as running.
        self.state.current_state = CoreStatus::Running;
        proof {
            assert(CoreStatus::Running == spec_core_status(Dbgdscr(raw)));
        }
        Ok(CoreStatus::Running)
    }

    /// Halt the core and report the program counter it stopped at.
    ///
    /// If the session does not believe the core is halted already, a halt
    /// request is written to DBGDRCR, the halt acknowledgment is awaited
    /// within the timeout, and the register cache is emptied.  The status is
    /// refreshed and the program counter read in either case.
    pub fn halt(&mut self, timeout_ms: u64) -> (r: Result<CoreInformation, DebugError>)
        requires
            old(self).wf(),
        ensures
            final(self).wf(),
            final(self).same_config(*old(self)),
            final(self).num_breakpoints == old(self).num_breakpoints,
            old(self).ops().is_prefix_of(final(self).ops()),
            !old(self).state.current_state.spec_is_halted() && timeout_ms == 0 ==> r == Err::<
                CoreInformation,
                DebugError,
            >(DebugError::Timeout) || r == Err::<CoreInformation, DebugError>(
                DebugError::Transport,
            ),
            match r {
                Ok(info) => {
                    &&& info.pc <= u32::MAX
                    &&& (final(self).cache()[15] matches Some(entry) && entry.0 as u64 == info.pc)
                    &&& !old(self).state.current_state.spec_is_halted() ==> {
                        &&& final(self).state.current_state.spec_is_halted()
                        &&& forall|i: int|
                            0 <= i < 17 && i != 0 && i != 15 ==> final(self).cache()[i] is None
                        &&& contains_op(
                            final(self).ops(),
                            old(self).ops().len() as int,
                            MemOp::Write(dbgdrcr_address(old(self).base_address), 1u32),
                        )
                        &&& exists|observed: u32|
                            final(self).ops().len() > 0 && final(self).ops().last() == MemOp::Read(
                                dbgdtrtx_address(old(self).base_address),
                                observed,
                            ) && info.pc == pc_pipeline_undone(observed) as u64
                    }
                    &&& old(self).state.current_state.spec_is_halted() ==> {
                        &&& forall|i: int|
                            0 <= i < 17 && i != 0 && i != 15 ==> final(self).cache()[i] == old(
                                self,
                            ).cache()[i]
                        &&& ite_writes_only(
                            final(self).ops(),
                            old(self).ops().len() as int,
                            old(self).base_address,
                        )
                        &&& final(self).ops().len() > old(self).ops().len()
                        &&& exists|v: u32|
                            final(self).ops()[old(self).ops().len() as int] == MemOp::Read(
                                dbgdscr_address(old(self).base_address),
                                v,
                            ) && final(self).state.current_state == spec_core_status(Dbgdscr(v))
                        &&& (old(self).cache()[15] matches Some(entry) ==> info.pc == entry.0
                            as u64 && exists|v: u32|
                            final(self).ops() == old(self).ops().push(
                                MemOp::Read(dbgdscr_address(old(self).base_address), v),
                            ))
                        &&& (old(self).cache()[15] is None ==> exists|observed: u32|
                            final(self).ops().len() > 0 && final(self).ops().last() == MemOp::Read(
                                dbgdtrtx_address(old(self).base_address),
                                observed,
                            ) && info.pc == pc_pipeline_undone(observed) as u64)
                    }
                },
                Err(e) => e == DebugError::Armv7a(Armv7aError::NotHalted) || e == DebugError::Armv7a(
                    Armv7aError::DataAbort,
                ) || e == DebugError::Transport || e == DebugError::Timeout,
            },
    {
        if !self.state.current_state.is_halted() {
            let address = Dbgdrcr::get_mmio_address(self.base_address);
            let mut value = Dbgdrcr(0);
            value.set_hrq(true);
            proof {
                assert(0u32 | 0x1u32 == 1u32) by (bit_vector);
            }
            self.memory.write_word_32(address, value.0)?;
            let ghost h_request = self.ops();
            proof {
                assert(h_request[old(self).ops().len() as int] == MemOp::Write(
                    dbgdrcr_address(old(self).base_address),
                    1u32,
                ));
            }
            self.wait_for_core_halted(timeout_ms)?;
            // The halt dropped whatever the cache knew about the core.
            self.reset_register_cache();
            let _ = self.status()?;
            let pc_value = self.read_core_reg(15)?;
            proof {
                lemma_contains_op_extend(
                    h_request,
                    self.ops(),
                    old(self).ops().len() as int,
                    MemOp::Write(dbgdrcr_address(old(self).base_address), 1u32),
                );
            }
            Ok(CoreInformation { pc: pc_value as u64 })
        } else {
            let _ = self.status()?;
            let ghost h_status = self.ops();
            let ghost status_read = h_status[old(self).ops().len() as int];
            let pc_value = self.read_core_reg(15)?;
            proof {
                assert(self.ops()[old(self).ops().len() as int] == status_read);
                lemma_ite_writes_only_chain(
                    h_status,
                    self.ops(),
                    old(self).ops().len() as int,
                    old(self).base_address,
                );
            }
            Ok(CoreInformation { pc: pc_value as u64 })
        }
    }

    /// Resume the core: write back the dirty register slots, request the
    /// restart through DBGDRCR, await the restart acknowledgment, and
    /// refresh the status.  A core the session believes is running already
    /// is left untouched.
    pub fn run(&mut self) -> (r: Result<(), DebugError>)
        requires
            old(self).wf(),
        ensures
            final(self).wf(),
            final(self).same_config(*old(self)),
            final(self).num_breakpoints == old(self).num_breakpoints,
            old(self).ops().is_prefix_of(final(self).ops()),
            old(self).state.current_state == CoreStatus::Running ==> r == Ok::<(), DebugError>(())
                && *final(self) == *old(self),
            core_control_writes_only(
                final(self).ops(),
                old(self).ops().len() as int,
                old(self).base_address,
            ),
            match r {
                Ok(()) => (old(self).state.current_state == CoreStatus::Running && *final(self)
                    == *old(self)) || {
                    &&& cache_reset(final(self).cache())
                    &&& exists|m: int|
                        {
                            &&& old(self).ops().len() <= m < final(self).ops().len()
                            &&& final(self).ops()[m] == MemOp::Write(
                                dbgdrcr_address(old(self).base_address),
                                2u32,
                            )
                            &&& dirty_slots_flushed_before(
                                old(self).cache(),
                                final(self).ops(),
                                old(self).ops().len() as int,
                                m,
                                old(self).base_address,
                            )
                        }
                    &&& exists|v: u32|
                        final(self).ops().len() > 0 && final(self).ops().last() == MemOp::Read(
                            dbgdscr_address(old(self).base_address),
                            v,
                        ) && final(self).state.current_state == spec_core_status(Dbgdscr(v))
                },
                Err(e) => e == DebugError::Armv7a(Armv7aError::NotHalted) || e == DebugError::Armv7a(
                    Armv7aError::DataAbort,
                ) || e == DebugError::Transport || e == DebugError::Timeout,
            },
    {
        match self.state.current_state {
            CoreStatus::Running => {
                return Ok(());
            },
            _ => {},
        }
        // Push the dirty register values back into the core.
        let flushed = self.writeback_registers();
        proof {
            lemma_ite_implies_core_control(
                self.ops(),
                old(self).ops().len() as int,
                old(self).base_address,
            );
        }
        flushed?;
        let ghost h_flushed = self.ops();
        let address = Dbgdrcr::get_mmio_address(self.base_address);
        let mut value = Dbgdrcr(0);
        value.set_rrq(true);
        proof {
            assert(0u32 | 0x2u32 == 2u32) by (bit_vector);
        }
        let requested = self.memory.write_word_32(address, value.0);
        proof {
            if requested is Ok {
                assert(self.ops()[h_flushed.len() as int] == MemOp::Write(
                    dbgdrcr_address(old(self).base_address),
                    2u32,
                ));
            }
            assert(core_control_writes_only(
                self.ops(),
                old(self).ops().len() as int,
                old(self).base_address,
            ));
        }
        requested?;
        let ghost h_requested = self.ops();
        proof {
            assert(h_requested[h_flushed.len() as int] == MemOp::Write(
                dbgdrcr_address(old(self).base_address),
                2u32,
            ));
            assert(contains_op(
                h_requested,
                old(self).ops().len() as int,
                MemOp::Write(dbgdrcr_address(old(self).base_address), 2u32),
            ));
        }
        // Wait for the restart acknowledgment.
        let dscr_address = Dbgdscr::get_mmio_address(self.base_address);
        let mut polls: u64 = 0;
        let mut restarted = false;
        while !restarted
            invariant
                polls <= ITE_POLL_LIMIT,
                old(self).wf(),
                old(self).state.current_state != CoreStatus::Running,
                self.wf(),
                self.same_config(*old(self)),
                self.num_breakpoints == old(self).num_breakpoints,
                cache_reset(self.cache()),
                self.state.current_state == old(self).state.current_state,
                self.state.is_64_bit == old(self).state.is_64_bit,
                dscr_address == dbgdscr_address(old(self).base_address),
                old(self).ops().is_prefix_of(self.ops()),
                h_flushed.is_prefix_of(self.ops()),
                h_requested.is_prefix_of(self.ops()),
                h_requested[h_flushed.len() as int] == MemOp::Write(
                    dbgdrcr_address(old(self).base_address),
                    2u32,
                ),
                h_requested.len() == h_flushed.len() + 1,
                dirty_slots_flushed(
                    old(self).cache(),
                    h_flushed,
                    old(self).ops().len() as int,
                    old(self).base_address,
                ),
                core_control_writes_only(
                    self.ops(),
                    old(self).ops().len() as int,
                    old(self).base_address,
                ),
            decreases ITE_POLL_LIMIT - polls,
        {
            if polls >= ITE_POLL_LIMIT {
                return Err(DebugError::Timeout);
            }
            polls = polls + 1;
            let raw = self.memory.read_word_32(dscr_address)?;
            restarted = Dbgdscr(raw).restarted();
        }
        self.state.current_state = CoreStatus::Running;
        let ghost h_polled = self.ops();
        let refreshed = self.status();
        proof {
            lemma_ite_implies_core_control(
                self.ops(),
                h_polled.len() as int,
                old(self).base_address,
            );
            lemma_core_control_chain(
                h_polled,
                self.ops(),
                old(self).ops().len() as int,
                old(self).base_address,
            );
        }
        let _ = refreshed?;
        proof {
            let lo = old(self).ops().len() as int;
            let base = old(self).base_address;
            let m = h_flushed.len() as int;
            assert(self.ops()[m] == h_requested[m]);
            assert(dirty_slots_flushed_before(
                old(self).cache(),
                self.ops(),
                lo,
                m,
                base,
            )) by {
                assert forall|i: int| #![trigger old(self).cache()[i]]
                    0 <= i <= 15 && old(self).cache()[i] is Some && old(
                        self,
                    ).cache()[i]->Some_0.1 implies {
                    &&& contains_op_before(
                        self.ops(),
                        lo,
                        m,
                        MemOp::Write(dbgdtrrx_address(base), old(self).cache()[i]->Some_0.0),
                    )
                    &&& (i <= 14 ==> contains_op_before(
                        self.ops(),
                        lo,
                        m,
                        MemOp::Write(
                            dbgitr_address(base),
                            crate::instructions::mrc_word(14, 0, i as u32, 0, 5, 0),
                        ),
                    ))
                    &&& (i == 15 ==> contains_op_before(
                        self.ops(),
                        lo,
                        m,
                        MemOp::Write(
                            dbgitr_address(base),
                            crate::instructions::mrc_word(14, 0, 0, 0, 5, 0),
                        ),
                    ) && contains_op_before(
                        self.ops(),
                        lo,
                        m,
                        MemOp::Write(dbgitr_address(base), crate::instructions::bx_word(0)),
                    ))
                } by {
                    if 0 <= i <= 15 && old(self).cache()[i] is Some && old(
                        self,
                    ).cache()[i]->Some_0.1 {
                        let entry_value = old(self).cache()[i]->Some_0.0;
                        lemma_contains_op_stays_before(
                            h_flushed,
                            self.ops(),
                            lo,
                            MemOp::Write(dbgdtrrx_address(base), entry_value),
                        );
                        if i <= 14 {
                            lemma_contains_op_stays_before(
                                h_flushed,
                                self.ops(),
                                lo,
                                MemOp::Write(
                                    dbgitr_address(base),
                                    crate::instructions::mrc_word(14, 0, i as u32, 0, 5, 0),
                                ),
                            );
                        }
                        if i == 15 {
                            lemma_contains_op_stays_before(
                                h_flushed,
                                self.ops(),
                                lo,
                                MemOp::Write(
                                    dbgitr_address(base),
                                    crate::instructions::mrc_word(14, 0, 0, 0, 5, 0),
                                ),
                            );
                            lemma_contains_op_stays_before(
                                h_flushed,
                                self.ops(),
                                lo,
                                MemOp::Write(
                                    dbgitr_address(base),
                                    crate::instructions::bx_word(0),
                                ),
                            );
                        }
                    }
                }
            }
        }
        Ok(())
    }

    /// Reset the core through the debug sequence's system reset and drop the
    /// session's view of it: the register cache is emptied and the
    /// instruction-transfer enable is considered cleared by the reset.
    pub fn reset(&mut self) -> (r: Result<(), DebugError>)
        requires
            old(self).wf(),
        ensures
            final(self).wf(),
            final(self).base_address == old(self).base_address,
            final(self).num_breakpoints == old(self).num_breakpoints,
            old(self).ops().is_prefix_of(final(self).ops()),
            final(self).sequence.invocations() == old(self).sequence.invocations().push(
                SequenceOp::ResetSystem(crate::state::CoreType::Armv7a, Some(old(self).base_address)),
            ),
            match r {
                Ok(()) => {
                    &&& cache_reset(final(self).cache())
                    &&& !final(self).itr_enabled
                    &&& final(self).state.current_state == old(self).state.current_state
                },
                Err(e) => final(self).state == old(self).state && final(self).itr_enabled == old(
                    self,
                ).itr_enabled,
            },
    {
        let base_address = self.base_address;
        let result = self.sequence.reset_system(
            &mut self.memory,
            crate::state::CoreType::Armv7a,
            Some(base_address),
        );
        match result {
            Ok(()) => {},
            Err(e) => {
                return Err(e);
            },
        }
        // The system reset cleared the instruction-transfer enable bit.
        self.itr_enabled = false;
        self.reset_register_cache();
        Ok(())
    }

    /// Reset the core and catch it halted right out of reset: arm the reset
    /// catch, reset the system, request a halt, release the catch, await the
    /// halt, and read the program counter the core stopped at.
    pub fn reset_and_halt(&mut self, timeout_ms: u64) -> (r: Result<CoreInformation, DebugError>)
        requires
            old(self).wf(),
        ensures
            final(self).wf(),
            final(self).base_address == old(self).base_address,
            final(self).num_breakpoints == old(self).num_breakpoints,
            old(self).ops().is_prefix_of(final(self).ops()),
            old(self).sequence.invocations().is_prefix_of(final(self).sequence.invocations()),
            match r {
                Ok(info) => {
                    &&& info.pc <= u32::MAX
                    &&& final(self).state.current_state.spec_is_halted()
                    &&& final(self).cache()[15] == Some((info.pc as u32, false))
                    &&& forall|i: int|
                        0 <= i < 17 && i != 0 && i != 15 ==> final(self).cache()[i] is None
                    &&& (final(self).cache()[0] matches Some(entry) && entry.1 == true)
                    &&& final(self).sequence.invocations() == old(self).sequence.invocations().push(
                        SequenceOp::ResetCatchSet(
                            crate::state::CoreType::Armv7a,
                            Some(old(self).base_address),
                        ),
                    ).push(
                        SequenceOp::ResetSystem(
                            crate::state::CoreType::Armv7a,
                            Some(old(self).base_address),
                        ),
                    ).push(
                        SequenceOp::ResetCatchClear(
                            crate::state::CoreType::Armv7a,
                            Some(old(self).base_address),
                        ),
                    )
                    &&& exists|k_request: int, k_halted: int, v: u32|
                        {
                            &&& old(self).ops().len() <= k_request
                            &&& k_request < k_halted
                            &&& k_halted < final(self).ops().len()
                            &&& final(self).ops()[k_request] == MemOp::Write(
                                dbgdrcr_address(old(self).base_address),
                                1u32,
                            )
                            &&& final(self).ops()[k_halted] == MemOp::Read(
                                dbgdscr_address(old(self).base_address),
                                v,
                            )
                            &&& Dbgdscr(v).spec_halted()
                        }
                    &&& exists|observed: u32|
                        final(self).ops().len() > 0 && final(self).ops().last() == MemOp::Read(
                            dbgdtrtx_address(old(self).base_address),
                            observed,
                        ) && info.pc == pc_pipeline_undone(observed) as u64
                },
                Err(e) => true,
            },
    {
        let base_address = self.base_address;
        self.sequence.reset_catch_set(
            &mut self.memory,
            crate::state::CoreType::Armv7a,
            Some(base_address),
        )?;
        self.sequence.reset_system(
            &mut self.memory,
            crate::state::CoreType::Armv7a,
            Some(base_address),
        )?;
        // The system reset cleared the instruction-transfer enable bit.
        self.itr_enabled = false;
        // Request a halt before the core leaves the reset catch.
        let address = Dbgdrcr::get_mmio_address(self.base_address);
        let mut value = Dbgdrcr(0);
        value.set_hrq(true);
        proof {
            assert(0u32 | 0x1u32 == 1u32) by (bit_vector);
        }
        self.memory.write_word_32(address, value.0)?;
        let ghost h_requested = self.ops();
        let ghost hrq_op = MemOp::Write(dbgdrcr_address(old(self).base_address), 1u32);
        proof {
            assert(h_requested.last() == hrq_op);
            assert(contains_op(h_requested, old(self).ops().len() as int, hrq_op));
        }
        self.sequence.reset_catch_clear(
            &mut self.memory,
            crate::state::CoreType::Armv7a,
            Some(base_address),
        )?;
        self.wait_for_core_halted(timeout_ms)?;
        let ghost h_halted = self.ops();
        let ghost k_halted = self.ops().len() - 1;
        let ghost halted_read = choose|v: u32|
            h_halted.len() > 0 && h_halted.last() == MemOp::Read(
                dbgdscr_address(old(self).base_address),
                v,
            ) && Dbgdscr(v).spec_halted();
        let ghost k_request = h_requested.len() - 1;
        let _ = self.status()?;
        // The reset dropped whatever the cache knew about the core.
        self.reset_register_cache();
        let pc_value = self.read_core_reg(15)?;
        proof {
            // The halt request sits before the DBGDSCR read that observed
            // the core halted.
            assert(h_requested[k_request] == hrq_op);
            assert(self.ops()[k_request] == hrq_op);
            assert(h_halted[k_halted] == MemOp::Read(
                dbgdscr_address(old(self).base_address),
                halted_read,
            ));
            assert(self.ops()[k_halted] == MemOp::Read(
                dbgdscr_address(old(self).base_address),
                halted_read,
            ));
            assert(k_request < k_halted);
        }
        Ok(CoreInformation { pc: pc_value as u64 })
    }

    /// Write the dirty register slots back if the core sits halted, so that
    /// debugger-made changes are not lost when the session closes.
    pub fn on_session_stop(&mut self) -> (r: Result<(), DebugError>)
        requires
            old(self).wf(),
        ensures
            final(self).wf(),
            final(self).same_config(*old(self)),
            final(self).num_breakpoints == old(self).num_breakpoints,
            old(self).ops().is_prefix_of(final(self).ops()),
            !old(self).state.current_state.spec_is_halted() ==> r == Ok::<(), DebugError>(())
                && *final(self) == *old(self),
            no_dirty_slots(old(self).cache()) ==> r == Ok::<(), DebugError>(()),
            no_dirty_slots(old(self).cache()) ==> final(self).memory == old(self).memory,
            r is Ok && old(self).state.current_state.spec_is_halted() ==> cache_reset(
                final(self).cache(),
            ) && dirty_slots_flushed(
                old(self).cache(),
                final(self).ops(),
                old(self).ops().len() as int,
                old(self).base_address,
            ),
            r matches Err(e) ==> e == DebugError::Armv7a(Armv7aError::NotHalted) || e
                == DebugError::Armv7a(Armv7aError::DataAbort) || e == DebugError::Transport || e
                == DebugError::Timeout,
    {
        if self.state.current_state.is_halted() {
            // Registers written during debugging may not have reached the
            // core yet; restore them before the session ends.
            self.writeback_registers()
        } else {
            Ok(())
        }
    }

    /// The number of hardware breakpoint units the core offers, read lazily
    /// from DBGDIDR (its BRPs field plus one) and cached thereafter.
    pub fn available_breakpoint_units(&mut self) -> (r: Result<u32, DebugError>)
        requires
            old(self).wf(),
        ensures
            final(self).wf(),
            final(self).same_config(*old(self)),
            final(self).state == old(self).state,
            final(self).itr_enabled == old(self).itr_enabled,
            old(self).ops().is_prefix_of(final(self).ops()),
            old(self).num_breakpoints matches Some(m) ==> (r == Ok::<u32, DebugError>(m)
                && *final(self) == *old(self)),
            match r {
                Ok(n) => {
                    &&& 1 <= n <= 16
                    &&& final(self).num_breakpoints == Some(n)
                    &&& (old(self).num_breakpoints matches Some(m) ==> n == m && *final(self)
                        == *old(self))
                    &&& old(self).num_breakpoints is None ==> exists|v: u32|
                        final(self).ops() == old(self).ops().push(
                            MemOp::Read(dbgdidr_address(old(self).base_address), v),
                        ) && n == Dbgdidr(v).spec_brps() + 1
                },
                Err(e) => e == DebugError::Transport && final(self).ops() == old(self).ops()
                    && final(self).num_breakpoints == old(self).num_breakpoints,
            },
    {
        match self.num_breakpoints {
            Some(n) => Ok(n),
            None => {
                let address = Dbgdidr::get_mmio_address(self.base_address);
                let raw = self.memory.read_word_32(address)?;
                let dbgdidr = Dbgdidr(raw);
                let brps = dbgdidr.brps();
                proof {
                    assert((raw >> 24u32) & 0xFu32 <= 0xFu32) by (bit_vector);
                }
                let n = brps + 1;
                self.num_breakpoints = Some(n);
                proof {
                    assert(self.ops() == old(self).ops().push(
                        MemOp::Read(dbgdidr_address(old(self).base_address), raw),
                    ));
                    assert(n == Dbgdidr(raw).spec_brps() + 1);
                }
                Ok(n)
            },
        }
    }

    /// Accepted for interface parity: breakpoints are always enabled on this
    /// core, so there is nothing to switch.
    pub fn enable_breakpoints(&mut self, _state: bool) -> (r: Result<(), DebugError>)
        ensures
            r == Ok::<(), DebugError>(()),
            *final(self) == *old(self),
    {
        Ok(())
    }

    /// Program a hardware breakpoint unit to halt the core when it fetches
    /// from the given address: the address lands in DBGBVR of the unit and
    /// an enabled address-match control word in its DBGBCR.
    pub fn set_hw_breakpoint(&mut self, bp_unit_index: usize, addr: u64) -> (r: Result<
        (),
        DebugError,
    >)
        requires
            old(self).wf(),
            bp_unit_index < 16,
        ensures
            final(self).wf(),
            final(self).same_config(*old(self)),
            final(self).state == old(self).state,
            final(self).itr_enabled == old(self).itr_enabled,
            final(self).num_breakpoints == old(self).num_breakpoints,
            old(self).ops().is_prefix_of(final(self).ops()),
            addr > 0xFFFF_FFFF ==> r == Err::<(), DebugError>(DebugError::InvalidAddress(addr))
                && *final(self) == *old(self),
            r matches Err(DebugError::InvalidAddress(a)) ==> a == addr && addr > 0xFFFF_FFFF,
            match r {
                Ok(()) => {
                    &&& addr <= 0xFFFF_FFFF
                    &&& final(self).ops() == old(self).ops().push(
                        MemOp::Write(
                            bvr_unit_address(old(self).base_address, bp_unit_index as int),
                            addr as u32,
                        ),
                    ).push(
                        MemOp::Write(
                            bcr_unit_address(old(self).base_address, bp_unit_index as int),
                            BREAKPOINT_CONTROL_MATCH,
                        ),
                    )
                },
                Err(e) => e == DebugError::InvalidAddress(addr) || e == DebugError::Transport,
            },
    {
        if addr > 0xFFFF_FFFF {
            return Err(DebugError::InvalidAddress(addr));
        }
        let addr_32 = addr as u32;
        let bvr_base = Dbgbvr::get_mmio_address(self.base_address);
        let bp_value_addr = bvr_base + (bp_unit_index * 4) as u64;
        let bcr_base = Dbgbcr::get_mmio_address(self.base_address);
        let bp_control_addr = bcr_base + (bp_unit_index * 4) as u64;

        let mut bp_control = Dbgbcr(0);
        // Breakpoint type: address match.
        bp_control.set_bt(0b0000);
        // Match in every privilege mode.
        bp_control.set_hmc(true);
        bp_control.set_pmc(0b11);
        // Match on all byte lanes.
        bp_control.set_bas(0b1111);
        // Enable the unit.
        bp_control.set_e(true);
        proof {
            assert((0u32 & !0x00F0_0000u32) | ((0u32 << 20u32) & 0x00F0_0000u32) == 0u32)
                by (bit_vector);
            assert(0u32 | 0x2000u32 == 0x2000u32) by (bit_vector);
            assert((0x2000u32 & !0x6u32) | ((0x3u32 << 1u32) & 0x6u32) == 0x2006u32)
                by (bit_vector);
            assert((0x2006u32 & !0x1E0u32) | ((0xFu32 << 5u32) & 0x1E0u32) == 0x21E6u32)
                by (bit_vector);
            assert(0x21E6u32 | 0x1u32 == 0x21E7u32) by (bit_vector);
            assert(bp_control.0 == BREAKPOINT_CONTROL_MATCH);
        }

        self.memory.write_word_32(bp_value_addr, addr_32)?;
        self.memory.write_word_32(bp_control_addr, bp_control.0)?;
        Ok(())
    }

    /// Clear a hardware breakpoint unit by zeroing both its value and its
    /// control register.
    pub fn clear_hw_breakpoint(&mut self, bp_unit_index: usize) -> (r: Result<(), DebugError>)
        requires
            old(self).wf(),
            bp_unit_index < 16,
        ensures
            final(self).wf(),
            final(self).same_config(*old(self)),
            final(self).state == old(self).state,
            final(self).itr_enabled == old(self).itr_enabled,
            final(self).num_breakpoints == old(self).num_breakpoints,
            old(self).ops().is_prefix_of(final(self).ops()),
            match r {
                Ok(()) => final(self).ops() == old(self).ops().push(
                    MemOp::Write(
                        bvr_unit_address(old(self).base_address, bp_unit_index as int),
                        0u32,
                    ),
                ).push(
                    MemOp::Write(
                        bcr_unit_address(old(self).base_address, bp_unit_index as int),
                        0u32,
                    ),
                ),
                Err(e) => e == DebugError::Transport,
            },
    {
        let bvr_base = Dbgbvr::get_mmio_address(self.base_address);
        let bp_value_addr = bvr_base + (bp_unit_index * 4) as u64;
        let bcr_base = Dbgbcr::get_mmio_address(self.base_address);
        let bp_control_addr = bcr_base + (bp_unit_index * 4) as u64;

        self.memory.write_word_32(bp_value_addr, 0)?;
        self.memory.write_word_32(bp_control_addr, 0)?;
        Ok(())
    }

    /// Report the state of every breakpoint unit, in unit order: the
    /// programmed address where the unit is enabled, and nothing where it is
    /// not.  The list holds one entry per available unit.
    #[verifier::spinoff_prover]
    #[verifier::rlimit(100)]
    pub fn hw_breakpoints(&mut self) -> (r: Result<Vec<Option<u64>>, DebugError>)
        requires
            old(self).wf(),
        ensures
            final(self).wf(),
            final(self).same_config(*old(self)),
            final(self).state == old(self).state,
            final(self).itr_enabled == old(self).itr_enabled,
            old(self).ops().is_prefix_of(final(self).ops()),
            old(self).num_breakpoints matches Some(m) ==> final(self).num_breakpoints == Some(m),
            r is Ok && old(self).num_breakpoints is None ==> exists|v: u32|
                contains_op(
                    final(self).ops(),
                    old(self).ops().len() as int,
                    MemOp::Read(dbgdidr_address(old(self).base_address), v),
                ) && final(self).num_breakpoints == Some((Dbgdidr(v).spec_brps() + 1) as u32),
            match r {
                Ok(list) => {
                    &&& (final(self).num_breakpoints matches Some(n) && list@.len() == n)
                    &&& exists|vals: Seq<u32>, ctrls: Seq<u32>|
                        #[trigger] breakpoint_list_matches(
                            final(self).ops(),
                            old(self).ops().len() as int,
                            old(self).base_address,
                            list@,
                            vals,
                            ctrls,
                            list@.len() as int,
                        )
                },
                Err(e) => e == DebugError::Transport,
            },
    {
        let units = self.available_breakpoint_units()?;
        let ghost didr_value = if old(self).num_breakpoints is None {
            choose|v: u32|
                self.ops() == old(self).ops().push(
                    MemOp::Read(dbgdidr_address(old(self).base_address), v),
                ) && units == Dbgdidr(v).spec_brps() + 1
        } else {
            0u32
        };
        proof {
            if old(self).num_breakpoints is None {
                assert(self.ops()[old(self).ops().len() as int] == MemOp::Read(
                    dbgdidr_address(old(self).base_address),
                    didr_value,
                ));
            }
        }
        let num_hw_breakpoints = units as usize;
        let mut breakpoints: Vec<Option<u64>> = Vec::new();
        let ghost mut vals: Seq<u32> = Seq::empty();
        let ghost mut ctrls: Seq<u32> = Seq::empty();
        let mut bp_unit_index: usize = 0;
        while bp_unit_index < num_hw_breakpoints
            invariant
                old(self).wf(),
                self.wf(),
                self.same_config(*old(self)),
                self.state == old(self).state,
                self.itr_enabled == old(self).itr_enabled,
                self.num_breakpoints == Some(num_hw_breakpoints as u32),
                num_hw_breakpoints <= 16,
                bp_unit_index <= num_hw_breakpoints,
                breakpoints@.len() == bp_unit_index,
                vals.len() == bp_unit_index,
                ctrls.len() == bp_unit_index,
                old(self).ops().is_prefix_of(self.ops()),
                old(self).num_breakpoints matches Some(m) ==> self.num_breakpoints == Some(m),
                old(self).num_breakpoints is None ==> contains_op(
                    self.ops(),
                    old(self).ops().len() as int,
                    MemOp::Read(dbgdidr_address(old(self).base_address), didr_value),
                ) && self.num_breakpoints == Some((Dbgdidr(didr_value).spec_brps() + 1) as u32),
                breakpoint_list_matches(
                    self.ops(),
                    old(self).ops().len() as int,
                    old(self).base_address,
                    breakpoints@,
                    vals,
                    ctrls,
                    bp_unit_index as int,
                ),
            decreases num_hw_breakpoints - bp_unit_index,
        {
            let ghost h_entry = self.ops();
            let ghost vals_entry = vals;
            let ghost ctrls_entry = ctrls;
            let ghost bp_entry = breakpoints@;
            let bvr_base = Dbgbvr::get_mmio_address(self.base_address);
            let bp_value_addr = bvr_base + (bp_unit_index * 4) as u64;
            let bp_value = self.memory.read_word_32(bp_value_addr)?;
            let bcr_base = Dbgbcr::get_mmio_address(self.base_address);
            let bp_control_addr = bcr_base + (bp_unit_index * 4) as u64;
            let raw_control = self.memory.read_word_32(bp_control_addr)?;
            let bp_control = Dbgbcr(raw_control);
            if bp_control.e() {
                breakpoints.push(Some(bp_value as u64));
            } else {
                breakpoints.push(None);
            }
            proof {
                vals = vals.push(bp_value);
                ctrls = ctrls.push(raw_control);
                assert(self.ops()[self.ops().len() - 2] == MemOp::Read(
                    bvr_unit_address(old(self).base_address, bp_unit_index as int),
                    bp_value,
                ));
                assert(self.ops()[self.ops().len() - 1] == MemOp::Read(
                    bcr_unit_address(old(self).base_address, bp_unit_index as int),
                    raw_control,
                ));
                assert(breakpoint_list_matches(
                    self.ops(),
                    old(self).ops().len() as int,
                    old(self).base_address,
                    breakpoints@,
                    vals,
                    ctrls,
                    bp_unit_index + 1,
                )) by {
                    assert forall|i: int| #![trigger vals[i]]
                        0 <= i < bp_unit_index + 1 implies {
                        &&& contains_op(
                            self.ops(),
                            old(self).ops().len() as int,
                            MemOp::Read(bvr_unit_address(old(self).base_address, i), vals[i]),
                        )
                        &&& contains_op(
                            self.ops(),
                            old(self).ops().len() as int,
                            MemOp::Read(bcr_unit_address(old(self).base_address, i), ctrls[i]),
                        )
                        &&& breakpoints@[i] == (if Dbgbcr(ctrls[i]).spec_e() {
                            Some(vals[i] as u64)
                        } else {
                            None::<u64>
                        })
                    } by {
                        if i < bp_unit_index {
                            assert(vals[i] == vals_entry[i]);
                            assert(ctrls[i] == ctrls_entry[i]);
                            assert(breakpoints@[i] == bp_entry[i]);
                            assert(contains_op(
                                h_entry,
                                old(self).ops().len() as int,
                                MemOp::Read(bvr_unit_address(old(self).base_address, i), vals[i]),
                            ));
                            lemma_contains_op_extend(
                                h_entry,
                                self.ops(),
                                old(self).ops().len() as int,
                                MemOp::Read(bvr_unit_address(old(self).base_address, i), vals[i]),
                            );
                            lemma_contains_op_extend(
                                h_entry,
                                self.ops(),
                                old(self).ops().len() as int,
                                MemOp::Read(bcr_unit_address(old(self).base_address, i), ctrls[i]),
                            );
                        }
                    }
                }
            }
            bp_unit_index = bp_unit_index + 1;
        }
        proof {
            assert(breakpoint_list_matches(
                self.ops(),
                old(self).ops().len() as int,
                old(self).base_address,
                breakpoints@,
                vals,
                ctrls,
                breakpoints@.len() as int,
            ));
            assert(exists|wit_vals: Seq<u32>, wit_ctrls: Seq<u32>|
                #[trigger] breakpoint_list_matches(
                    self.ops(),
                    old(self).ops().len() as int,
                    old(self).base_address,
                    breakpoints@,
                    wit_vals,
                    wit_ctrls,
                    breakpoints@.len() as int,
                ));
        }
        Ok(breakpoints)
    }

    /// Breakpoints cannot be switched off on this core.
    pub fn hw_breakpoints_enabled(&self) -> (r: bool)
        ensures
            r == true,
    {
        true
    }

    /// The architecture family of the core.
    pub fn architecture(&self) -> (r: crate::state::Architecture)
        ensures
            r == crate::state::Architecture::Arm,
    {
        crate::state::Architecture::Arm
    }

    /// The specific core design.
    pub fn core_type(&self) -> (r: crate::state::CoreType)
        ensures
            r == crate::state::CoreType::Armv7a,
    {
        crate::state::CoreType::Armv7a
    }

    /// The instruction set the core is currently executing, decided by the
    /// Thumb bit of the CPSR.
    pub fn instruction_set(&mut self) -> (r: Result<crate::state::InstructionSet, DebugError>)
        requires
            old(self).wf(),
        ensures
            final(self).wf(),
            final(self).same_config(*old(self)),
            final(self).num_breakpoints == old(self).num_breakpoints,
            final(self).state.current_state == old(self).state.current_state,
            old(self).ops().is_prefix_of(final(self).ops()),
            forall|i: int|
                0 <= i < 17 && i != 16 && i != 0 ==> final(self).cache()[i] == old(
                    self,
                ).cache()[i],
            old(self).cache()[16] matches Some(entry) ==> (*final(self) == *old(self) && r
                == Ok::<crate::state::InstructionSet, DebugError>(spec_instruction_set_of(
                entry.0,
            ))),
            match r {
                Ok(isa) => {
                    &&& (final(self).cache()[16] matches Some(entry) && isa
                        == spec_instruction_set_of(entry.0))
                    &&& old(self).cache()[16] is None ==> {
                        &&& old(self).state.current_state.spec_is_halted()
                        &&& exists|cpsr: u32|
                            final(self).cache()[16] == Some((cpsr, false)) && isa
                                == spec_instruction_set_of(cpsr) && final(self).ops().len() > 0
                                && final(self).ops().last() == MemOp::Read(
                                dbgdtrtx_address(old(self).base_address),
                                cpsr,
                            ) && contains_op(
                                final(self).ops(),
                                old(self).ops().len() as int,
                                MemOp::Write(
                                    dbgitr_address(old(self).base_address),
                                    crate::instructions::mrs_word(0),
                                ),
                            )
                    }
                },
                Err(e) => e == DebugError::Armv7a(Armv7aError::NotHalted) || e == DebugError::Armv7a(
                    Armv7aError::DataAbort,
                ) || e == DebugError::Transport || e == DebugError::Timeout,
            },
    {
        let cpsr = self.read_core_reg(16)?;
        // CPSR bit 5: the Thumb bit.
        if (cpsr >> 5) & 1 == 1 {
            Ok(crate::state::InstructionSet::Thumb2)
        } else {
            Ok(crate::state::InstructionSet::A32)
        }
    }

    /// Floating-point unit queries are not implemented for this core.
    pub fn fpu_support(&mut self) -> (r: Result<bool, DebugError>)
        ensures
            r == Err::<bool, DebugError>(DebugError::Unsupported),
            *final(self) == *old(self),
    {
        Err(DebugError::Unsupported)
    }

    /// Emulate a single step with an address-mismatch breakpoint: the last
    /// breakpoint unit is saved, programmed to fire on any fetch away from
    /// the current program counter, the core is resumed and awaited, and the
    /// unit is restored before the new program counter is read.
    #[verifier::spinoff_prover]
    #[verifier::rlimit(100)]
    pub fn step(&mut self) -> (r: Result<CoreInformation, DebugError>)
        requires
            old(self).wf(),
        ensures
            final(self).wf(),
            final(self).same_config(*old(self)),
            old(self).ops().is_prefix_of(final(self).ops()),
            match r {
                Ok(info) => {
                    &&& info.pc <= u32::MAX
                    &&& (final(self).cache()[15] matches Some(entry) && entry.0 as u64 == info.pc)
                    &&& old(self).state.current_state.spec_is_halted() ==> exists|observed: u32|
                        final(self).ops().len() > 0 && final(self).ops().last() == MemOp::Read(
                            dbgdtrtx_address(old(self).base_address),
                            observed,
                        ) && info.pc == pc_pipeline_undone(observed) as u64
                    &&& old(self).state.current_state.spec_is_halted() ==> forall|i: int|
                        #![trigger old(self).cache()[i]]
                        old(self).cache()[i] matches Some(entry) ==> ((1 <= i <= 14 && entry.1)
                            ==> contains_op(
                            final(self).ops(),
                            old(self).ops().len() as int,
                            MemOp::Write(dbgdtrrx_address(old(self).base_address), entry.0),
                        ))
                    &&& (final(self).num_breakpoints matches Some(n) && {
                        &&& step_writes_only(
                            final(self).ops(),
                            old(self).ops().len() as int,
                            old(self).base_address,
                            n - 1,
                        )
                        &&& contains_op(
                            final(self).ops(),
                            old(self).ops().len() as int,
                            MemOp::Write(
                                bcr_unit_address(old(self).base_address, n - 1),
                                BREAKPOINT_CONTROL_MISMATCH,
                            ),
                        )
                        &&& exists|start_pc: u32|
                            #[trigger] contains_op(
                                final(self).ops(),
                                old(self).ops().len() as int,
                                MemOp::Write(
                                    bvr_unit_address(old(self).base_address, n - 1),
                                    start_pc,
                                ),
                            ) && (old(self).cache()[15] matches Some(entry) ==> start_pc
                                == entry.0) && (old(self).cache()[15] is None ==> exists|
                                observed: u32,
                                k_read: int,
                                k_prog: int,
                            |
                                {
                                    &&& old(self).ops().len() <= k_read
                                    &&& k_read < k_prog
                                    &&& k_prog < final(self).ops().len()
                                    &&& final(self).ops()[k_read] == MemOp::Read(
                                        dbgdtrtx_address(old(self).base_address),
                                        observed,
                                    )
                                    &&& final(self).ops()[k_prog] == MemOp::Write(
                                        bvr_unit_address(old(self).base_address, n - 1),
                                        start_pc,
                                    )
                                    &&& start_pc == pc_pipeline_undone(observed)
                                })
                        &&& exists|saved_value: u32|
                            #[trigger] contains_op(
                                final(self).ops(),
                                old(self).ops().len() as int,
                                MemOp::Read(
                                    bvr_unit_address(old(self).base_address, n - 1),
                                    saved_value,
                                ),
                            ) && last_write_to(
                                final(self).ops(),
                                old(self).ops().len() as int,
                                bvr_unit_address(old(self).base_address, n - 1),
                                saved_value,
                            )
                        &&& exists|saved_control: u32|
                            #[trigger] contains_op(
                                final(self).ops(),
                                old(self).ops().len() as int,
                                MemOp::Read(
                                    bcr_unit_address(old(self).base_address, n - 1),
                                    saved_control,
                                ),
                            ) && last_write_to(
                                final(self).ops(),
                                old(self).ops().len() as int,
                                bcr_unit_address(old(self).base_address, n - 1),
                                saved_control,
                            )
                    })
                },
                Err(e) => e == DebugError::Armv7a(Armv7aError::NotHalted) || e == DebugError::Armv7a(
                    Armv7aError::DataAbort,
                ) || e == DebugError::Transport || e == DebugError::Timeout,
            },
    {
        // Save the unit's current programming.
        let units = self.available_breakpoint_units()?;
        let bp_unit_index = (units - 1) as usize;
        let bvr_base = Dbgbvr::get_mmio_address(self.base_address);
        let bp_value_addr = bvr_base + (bp_unit_index * 4) as u64;
        let saved_bp_value = self.memory.read_word_32(bp_value_addr)?;
        let bcr_base = Dbgbcr::get_mmio_address(self.base_address);
        let bp_control_addr = bcr_base + (bp_unit_index * 4) as u64;
        let saved_bp_control = self.memory.read_word_32(bp_control_addr)?;
        let ghost h_saved = self.ops();
        proof {
            assert(h_saved[h_saved.len() - 2] == MemOp::Read(
                bvr_unit_address(old(self).base_address, (units - 1) as int),
                saved_bp_value,
            ));
            assert(h_saved[h_saved.len() - 1] == MemOp::Read(
                bcr_unit_address(old(self).base_address, (units - 1) as int),
                saved_bp_control,
            ));
        }

        proof {
            assert(step_writes_only(
                self.ops(),
                old(self).ops().len() as int,
                old(self).base_address,
                (units - 1) as int,
            ));
        }

        // Program the unit to halt on any fetch away from the current
        // program counter.
        let current_pc = self.read_core_reg(15)?;
        let ghost h_pc = self.ops();
        let ghost k_read = self.ops().len() - 1;
        let ghost pc_observed = choose|observed: u32|
            h_pc.len() > 0 && h_pc.last() == MemOp::Read(
                dbgdtrtx_address(old(self).base_address),
                observed,
            ) && current_pc == pc_pipeline_undone(observed);
        proof {
            lemma_ite_implies_core_control(
                self.ops(),
                h_saved.len() as int,
                old(self).base_address,
            );
            lemma_core_control_implies_step_writes(
                self.ops(),
                h_saved.len() as int,
                old(self).base_address,
                (units - 1) as int,
            );
            lemma_step_writes_chain(
                h_saved,
                self.ops(),
                old(self).ops().len() as int,
                old(self).base_address,
                (units - 1) as int,
            );
        }
        let mut bp_control = Dbgbcr(0);
        // Breakpoint type: address mismatch.
        bp_control.set_bt(0b0100);
        // Match in every privilege mode.
        bp_control.set_hmc(true);
        bp_control.set_pmc(0b11);
        // Match on all byte lanes.
        bp_control.set_bas(0b1111);
        // Enable the unit.
        bp_control.set_e(true);
        proof {
            assert((0u32 & !0x00F0_0000u32) | ((0x4u32 << 20u32) & 0x00F0_0000u32)
                == 0x0040_0000u32) by (bit_vector);
            assert(0x0040_0000u32 | 0x2000u32 == 0x0040_2000u32) by (bit_vector);
            assert((0x0040_2000u32 & !0x6u32) | ((0x3u32 << 1u32) & 0x6u32) == 0x0040_2006u32)
                by (bit_vector);
            assert((0x0040_2006u32 & !0x1E0u32) | ((0xFu32 << 5u32) & 0x1E0u32) == 0x0040_21E6u32)
                by (bit_vector);
            assert(0x0040_21E6u32 | 0x1u32 == 0x0040_21E7u32) by (bit_vector);
            assert(bp_control.0 == BREAKPOINT_CONTROL_MISMATCH);
        }
        self.memory.write_word_32(bp_value_addr, current_pc)?;
        self.memory.write_word_32(bp_control_addr, bp_control.0)?;
        let ghost h_programmed = self.ops();
        let ghost mismatch_op = MemOp::Write(
            bcr_unit_address(old(self).base_address, units - 1),
            BREAKPOINT_CONTROL_MISMATCH,
        );
        let ghost k_prog = h_programmed.len() - 2;
        proof {
            assert(h_programmed.last() == mismatch_op);
            assert(contains_op(h_programmed, old(self).ops().len() as int, mismatch_op));
            assert(h_programmed[k_prog] == MemOp::Write(
                bvr_unit_address(old(self).base_address, (units - 1) as int),
                current_pc,
            ));
            assert(step_writes_only(
                h_programmed,
                h_pc.len() as int,
                old(self).base_address,
                (units - 1) as int,
            ));
            lemma_step_writes_chain(
                h_pc,
                h_programmed,
                old(self).ops().len() as int,
                old(self).base_address,
                (units - 1) as int,
            );
        }

        // Let the core execute; the mismatch fires on the next instruction.
        let ghost h_run_pre = self.ops();
        let ghost cache_run_pre = self.cache();
        self.run()?;
        let ghost h_run_post = self.ops();
        proof {
            lemma_core_control_implies_step_writes(
                self.ops(),
                h_run_pre.len() as int,
                old(self).base_address,
                (units - 1) as int,
            );
            lemma_step_writes_chain(
                h_run_pre,
                self.ops(),
                old(self).ops().len() as int,
                old(self).base_address,
                (units - 1) as int,
            );
            if old(self).state.current_state.spec_is_halted() {
                let m = choose|m: int|
                    {
                        &&& h_run_pre.len() <= m < h_run_post.len()
                        &&& h_run_post[m] == MemOp::Write(
                            dbgdrcr_address(old(self).base_address),
                            2u32,
                        )
                        &&& dirty_slots_flushed_before(
                            cache_run_pre,
                            h_run_post,
                            h_run_pre.len() as int,
                            m,
                            old(self).base_address,
                        )
                    };
                assert forall|i: int| #![trigger old(self).cache()[i]]
                    1 <= i <= 14 && old(self).cache()[i] is Some && old(
                        self,
                    ).cache()[i]->Some_0.1 implies contains_op(
                    h_run_post,
                    old(self).ops().len() as int,
                    MemOp::Write(
                        dbgdtrrx_address(old(self).base_address),
                        old(self).cache()[i]->Some_0.0,
                    ),
                ) by {
                    assert(cache_run_pre[i] == old(self).cache()[i]);
                    let op = MemOp::Write(
                        dbgdtrrx_address(old(self).base_address),
                        old(self).cache()[i]->Some_0.0,
                    );
                    assert(contains_op_before(
                        h_run_post,
                        h_run_pre.len() as int,
                        m,
                        op,
                    ));
                    let k = choose|k: int|
                        h_run_pre.len() as int <= k < m && k < h_run_post.len() && h_run_post[k]
                            == op;
                    assert(old(self).ops().len() <= k < h_run_post.len() && h_run_post[k] == op);
                }
            }
        }
        self.wait_for_core_halted(100)?;
        let ghost h_waited = self.ops();
        proof {
            assert(step_writes_only(
                h_waited,
                h_run_post.len() as int,
                old(self).base_address,
                (units - 1) as int,
            ));
            lemma_step_writes_chain(
                h_run_post,
                h_waited,
                old(self).ops().len() as int,
                old(self).base_address,
                (units - 1) as int,
            );
        }

        // Restore the unit.
        self.memory.write_word_32(bp_value_addr, saved_bp_value)?;
        let ghost h_value_restored = self.ops();
        let ghost k_value_restored = self.ops().len() - 1;
        self.memory.write_word_32(bp_control_addr, saved_bp_control)?;
        let ghost h_restored = self.ops();
        let ghost k_control_restored = self.ops().len() - 1;
        proof {
            assert(step_writes_only(
                h_restored,
                h_waited.len() as int,
                old(self).base_address,
                (units - 1) as int,
            ));
            lemma_step_writes_chain(
                h_waited,
                h_restored,
                old(self).ops().len() as int,
                old(self).base_address,
                (units - 1) as int,
            );
        }

        let pc_value = self.read_core_reg(15)?;
        proof {
            lemma_ite_implies_core_control(
                self.ops(),
                h_restored.len() as int,
                old(self).base_address,
            );
            lemma_core_control_implies_step_writes(
                self.ops(),
                h_restored.len() as int,
                old(self).base_address,
                (units - 1) as int,
            );
            lemma_step_writes_chain(
                h_restored,
                self.ops(),
                old(self).ops().len() as int,
                old(self).base_address,
                (units - 1) as int,
            );
        }
        proof {
            let lo = old(self).ops().len() as int;
            let base = old(self).base_address;
            let unit = units - 1;
            lemma_distinct_register_addresses(base);
            assert(h_value_restored[k_value_restored] == MemOp::Write(
                bvr_unit_address(base, unit as int),
                saved_bp_value,
            ));
            assert(h_restored[k_control_restored] == MemOp::Write(
                bcr_unit_address(base, unit as int),
                saved_bp_control,
            ));
            lemma_contains_op_extend(h_programmed, self.ops(), lo, mismatch_op);
            lemma_contains_op_extend(
                h_programmed,
                self.ops(),
                lo,
                MemOp::Write(bvr_unit_address(base, unit as int), current_pc),
            );
            lemma_contains_op_extend(
                h_saved,
                self.ops(),
                lo,
                MemOp::Read(bvr_unit_address(base, unit as int), saved_bp_value),
            );
            lemma_contains_op_extend(
                h_saved,
                self.ops(),
                lo,
                MemOp::Read(bcr_unit_address(base, unit as int), saved_bp_control),
            );
            // The restore writes are the last to touch the unit's registers:
            // everything after them is the program-counter read, whose writes
            // stay within the core-control registers.
            assert(self.ops()[k_value_restored] == MemOp::Write(
                bvr_unit_address(base, unit as int),
                saved_bp_value,
            ));
            assert(self.ops()[k_control_restored] == MemOp::Write(
                bcr_unit_address(base, unit as int),
                saved_bp_control,
            ));
            assert forall|j: int| #![trigger self.ops()[j]]
                k_value_restored < j < self.ops().len() implies (self.ops()[j] matches
                MemOp::Write(a, _) ==> a != bvr_unit_address(base, unit as int)) by {
                if j == k_control_restored {
                    assert(self.ops()[j] == MemOp::Write(
                        bcr_unit_address(base, unit as int),
                        saved_bp_control,
                    ));
                }
            }
            assert(last_write_to(
                self.ops(),
                lo,
                bvr_unit_address(base, unit as int),
                saved_bp_value,
            ));
            assert forall|j: int| #![trigger self.ops()[j]]
                k_control_restored < j < self.ops().len() implies (self.ops()[j] matches
                MemOp::Write(a, _) ==> a != bcr_unit_address(base, unit as int)) by {}
            assert(last_write_to(
                self.ops(),
                lo,
                bcr_unit_address(base, unit as int),
                saved_bp_control,
            ));
            if old(self).state.current_state.spec_is_halted() {
                assert forall|i: int| #![trigger old(self).cache()[i]]
                    1 <= i <= 14 && old(self).cache()[i] is Some && old(
                        self,
                    ).cache()[i]->Some_0.1 implies contains_op(
                    self.ops(),
                    lo,
                    MemOp::Write(
                        dbgdtrrx_address(base),
                        old(self).cache()[i]->Some_0.0,
                    ),
                ) by {
                    lemma_contains_op_extend(
                        h_run_post,
                        self.ops(),
                        lo,
                        MemOp::Write(
                            dbgdtrrx_address(base),
                            old(self).cache()[i]->Some_0.0,
                        ),
                    );
                }
            }
            if old(self).cache()[15] is None {
                // The programmed DBGBVR value came out of the observed
                // program-counter read, pipeline offset undone.
                assert(h_pc[k_read] == MemOp::Read(dbgdtrtx_address(base), pc_observed));
                assert(self.ops()[k_read] == MemOp::Read(dbgdtrtx_address(base), pc_observed));
                assert(h_programmed[k_prog] == MemOp::Write(
                    bvr_unit_address(base, unit as int),
                    current_pc,
                ));
                assert(self.ops()[k_prog] == MemOp::Write(
                    bvr_unit_address(base, unit as int),
                    current_pc,
                ));
                assert(k_read < k_prog);
            }
        }
        Ok(CoreInformation { pc: pc_value as u64 })
    }

    /// This core performs no native 64-bit accesses; wider transactions are
    /// split into word accesses.
    pub fn supports_native_64bit_access(&mut self) -> (r: bool)
        ensures
            r == false,
            *final(self) == *old(self),
    {
        false
    }

    /// Read a 32-bit word of target memory through the core: R0 is staged as
    /// scratch, loaded with the address, and `LDC p14, c5, [R0], #4` streams
    /// the word at [R0] out through the transfer register.
    pub fn read_word_32(&mut self, address: u64) -> (r: Result<u32, DebugError>)
        requires
            old(self).wf(),
        ensures
            final(self).wf(),
            final(self).same_config(*old(self)),
            final(self).num_breakpoints == old(self).num_breakpoints,
            final(self).state.current_state == old(self).state.current_state,
            final(self).state.is_64_bit == old(self).state.is_64_bit,
            forall|i: int| 1 <= i < 17 ==> final(self).cache()[i] == old(self).cache()[i],
            old(self).ops().is_prefix_of(final(self).ops()),
            address > 0xFFFF_FFFF ==> r == Err::<u32, DebugError>(
                DebugError::InvalidAddress(address),
            ) && *final(self) == *old(self),
            r matches Err(DebugError::InvalidAddress(a)) ==> a == address && address > 0xFFFF_FFFF,
            match r {
                Ok(value) => {
                    &&& address <= 0xFFFF_FFFF
                    &&& old(self).state.current_state.spec_is_halted()
                    &&& final(self).ops().len() > 0
                    &&& final(self).ops().last() == MemOp::Read(
                        dbgdtrtx_address(old(self).base_address),
                        value,
                    )
                    &&& contains_op(
                        final(self).ops(),
                        old(self).ops().len() as int,
                        MemOp::Write(dbgdtrrx_address(old(self).base_address), address as u32),
                    )
                    &&& contains_op(
                        final(self).ops(),
                        old(self).ops().len() as int,
                        MemOp::Write(
                            dbgitr_address(old(self).base_address),
                            crate::instructions::ldc_word(14, 5, 0, 4),
                        ),
                    )
                    &&& (final(self).cache()[0] matches Some(entry) && entry.1 == true)
                },
                Err(e) => e == DebugError::InvalidAddress(address) || e == DebugError::Armv7a(
                    Armv7aError::NotHalted,
                ) || e == DebugError::Armv7a(Armv7aError::DataAbort) || e == DebugError::Transport
                    || e == DebugError::Timeout,
            },
    {
        if address > 0xFFFF_FFFF {
            return Err(DebugError::InvalidAddress(address));
        }
        let address_32 = address as u32;
        // LDC p14, c5, [R0], #4
        let instr = build_ldc(14, 5, 0, 4);
        // Save R0 before it is clobbered with the address.
        self.prepare_r0_for_clobber()?;
        let ghost h_prepared = self.ops();
        self.set_r0(address_32)?;
        let ghost h_loaded = self.ops();
        let ghost address_op = MemOp::Write(dbgdtrrx_address(old(self).base_address), address_32);
        proof {
            assert(h_loaded[h_prepared.len() as int] == address_op);
            lemma_contains_op_widen(
                h_loaded,
                old(self).ops().len() as int,
                h_prepared.len() as int,
                address_op,
            );
        }
        let result = self.execute_instruction_with_result(instr)?;
        proof {
            lemma_contains_op_extend(
                h_loaded,
                self.ops(),
                old(self).ops().len() as int,
                address_op,
            );
        }
        Ok(result)
    }

    /// Write a 32-bit word of target memory through the core: R0 is staged
    /// as scratch, loaded with the address, and `STC p14, c5, [R0], #4`
    /// streams the data word from the transfer register into [R0].
    pub fn write_word_32(&mut self, address: u64, data: u32) -> (r: Result<(), DebugError>)
        requires
            old(self).wf(),
        ensures
            final(self).wf(),
            final(self).same_config(*old(self)),
            final(self).num_breakpoints == old(self).num_breakpoints,
            final(self).state.current_state == old(self).state.current_state,
            final(self).state.is_64_bit == old(self).state.is_64_bit,
            forall|i: int| 1 <= i < 17 ==> final(self).cache()[i] == old(self).cache()[i],
            old(self).ops().is_prefix_of(final(self).ops()),
            address > 0xFFFF_FFFF ==> r == Err::<(), DebugError>(
                DebugError::InvalidAddress(address),
            ) && *final(self) == *old(self),
            r matches Err(DebugError::InvalidAddress(a)) ==> a == address && address > 0xFFFF_FFFF,
            match r {
                Ok(()) => {
                    &&& address <= 0xFFFF_FFFF
                    &&& old(self).state.current_state.spec_is_halted()
                    &&& contains_op(
                        final(self).ops(),
                        old(self).ops().len() as int,
                        MemOp::Write(dbgdtrrx_address(old(self).base_address), address as u32),
                    )
                    &&& contains_op(
                        final(self).ops(),
                        old(self).ops().len() as int,
                        MemOp::Write(dbgdtrrx_address(old(self).base_address), data),
                    )
                    &&& contains_op(
                        final(self).ops(),
                        old(self).ops().len() as int,
                        MemOp::Write(
                            dbgitr_address(old(self).base_address),
                            crate::instructions::stc_word(14, 5, 0, 4),
                        ),
                    )
                    &&& (final(self).cache()[0] matches Some(entry) && entry.1 == true)
                },
                Err(e) => e == DebugError::InvalidAddress(address) || e == DebugError::Armv7a(
                    Armv7aError::NotHalted,
                ) || e == DebugError::Armv7a(Armv7aError::DataAbort) || e == DebugError::Transport
                    || e == DebugError::Timeout,
            },
    {
        if address > 0xFFFF_FFFF {
            return Err(DebugError::InvalidAddress(address));
        }
        let address_32 = address as u32;
        // STC p14, c5, [R0], #4
        let instr = build_stc(14, 5, 0, 4);
        // Save R0 before it is clobbered with the address.
        self.prepare_r0_for_clobber()?;
        let ghost h_prepared = self.ops();
        self.set_r0(address_32)?;
        let ghost h_loaded = self.ops();
        let ghost address_op = MemOp::Write(dbgdtrrx_address(old(self).base_address), address_32);
        proof {
            assert(h_loaded[h_prepared.len() as int] == address_op);
            lemma_contains_op_widen(
                h_loaded,
                old(self).ops().len() as int,
                h_prepared.len() as int,
                address_op,
            );
        }
        self.execute_instruction_with_input(instr, data)?;
        proof {
            lemma_contains_op_extend(
                h_loaded,
                self.ops(),
                old(self).ops().len() as int,
                address_op,
            );
            lemma_contains_op_widen(
                self.ops(),
                old(self).ops().len() as int,
                h_loaded.len() as int,
                MemOp::Write(dbgdtrrx_address(old(self).base_address), data),
            );
        }
        Ok(())
    }

    /// Read one byte of target memory: the enclosing word is read and the
    /// byte picked out in little-endian order.
    pub fn read_word_8(&mut self, address: u64) -> (r: Result<u8, DebugError>)
        requires
            old(self).wf(),
        ensures
            final(self).wf(),
            final(self).same_config(*old(self)),
            final(self).num_breakpoints == old(self).num_breakpoints,
            final(self).state.current_state == old(self).state.current_state,
            old(self).ops().is_prefix_of(final(self).ops()),
            address > 0xFFFF_FFFF ==> r == Err::<u8, DebugError>(
                DebugError::InvalidAddress(word_start_of(address)),
            ) && *final(self) == *old(self),
            r matches Err(DebugError::InvalidAddress(a)) ==> a == word_start_of(address) && address
                > 0xFFFF_FFFF,
            match r {
                Ok(value) => {
                    &&& address <= 0xFFFF_FFFF
                    &&& final(self).ops().len() > old(self).ops().len()
                    &&& contains_op(
                        final(self).ops(),
                        old(self).ops().len() as int,
                        MemOp::Write(
                            dbgdtrrx_address(old(self).base_address),
                            word_start_of(address) as u32,
                        ),
                    )
                    &&& exists|w: u32|
                        final(self).ops().last() == MemOp::Read(
                            dbgdtrtx_address(old(self).base_address),
                            w,
                        ) && value == le_byte_of(w, (address % 4) as int)
                },
                Err(e) => e == DebugError::InvalidAddress(word_start_of(address)) || e
                    == DebugError::Armv7a(Armv7aError::NotHalted) || e == DebugError::Armv7a(
                    Armv7aError::DataAbort,
                ) || e == DebugError::Transport || e == DebugError::Timeout,
            },
    {
        // Find the enclosing word and the byte's position in it.
        let byte_offset = address % 4;
        let word_start = address - byte_offset;
        let data = self.read_word_32(word_start)?;
        let value = le_byte_of_word(data, byte_offset);
        proof {
            assert(value == le_byte_of(data, (address % 4) as int));
        }
        Ok(value)
    }

    /// Write one byte of target memory by read-modify-write of the enclosing
    /// word, in little-endian byte order.
    pub fn write_word_8(&mut self, address: u64, data: u8) -> (r: Result<(), DebugError>)
        requires
            old(self).wf(),
        ensures
            final(self).wf(),
            final(self).same_config(*old(self)),
            final(self).num_breakpoints == old(self).num_breakpoints,
            final(self).state.current_state == old(self).state.current_state,
            old(self).ops().is_prefix_of(final(self).ops()),
            address > 0xFFFF_FFFF ==> r == Err::<(), DebugError>(
                DebugError::InvalidAddress(word_start_of(address)),
            ) && *final(self) == *old(self),
            r matches Err(DebugError::InvalidAddress(a)) ==> a == word_start_of(address) && address
                > 0xFFFF_FFFF,
            match r {
                Ok(()) => {
                    &&& address <= 0xFFFF_FFFF
                    &&& contains_op(
                        final(self).ops(),
                        old(self).ops().len() as int,
                        MemOp::Write(
                            dbgdtrrx_address(old(self).base_address),
                            word_start_of(address) as u32,
                        ),
                    )
                    &&& exists|w: u32|
                        contains_op(
                            final(self).ops(),
                            old(self).ops().len() as int,
                            MemOp::Read(dbgdtrtx_address(old(self).base_address), w),
                        ) && contains_op(
                            final(self).ops(),
                            old(self).ops().len() as int,
                            MemOp::Write(
                                dbgdtrrx_address(old(self).base_address),
                                with_le_byte(w, (address % 4) as int, data),
                            ),
                        )
                },
                Err(e) => e == DebugError::InvalidAddress(word_start_of(address)) || e
                    == DebugError::Armv7a(Armv7aError::NotHalted) || e == DebugError::Armv7a(
                    Armv7aError::DataAbort,
                ) || e == DebugError::Transport || e == DebugError::Timeout,
            },
    {
        // Find the enclosing word and the byte's position in it.
        let byte_offset = address % 4;
        let word_start = address - byte_offset;
        // Splice the byte into the current word value.
        let current_word = self.read_word_32(word_start)?;
        let ghost h_read = self.ops();
        let new_word = word_with_le_byte(current_word, byte_offset, data);
        self.write_word_32(word_start, new_word)?;
        proof {
            lemma_contains_op_extend(
                h_read,
                self.ops(),
                old(self).ops().len() as int,
                MemOp::Read(dbgdtrtx_address(old(self).base_address), current_word),
            );
            lemma_contains_op_widen(
                self.ops(),
                old(self).ops().len() as int,
                h_read.len() as int,
                MemOp::Write(
                    dbgdtrrx_address(old(self).base_address),
                    with_le_byte(current_word, (address % 4) as int, data),
                ),
            );
        }
        Ok(())
    }

    /// Read a 64-bit value as two word reads, low word first.
    pub fn read_word_64(&mut self, address: u64) -> (r: Result<u64, DebugError>)
        requires
            old(self).wf(),
        ensures
            final(self).wf(),
            final(self).same_config(*old(self)),
            final(self).num_breakpoints == old(self).num_breakpoints,
            final(self).state.current_state == old(self).state.current_state,
            old(self).ops().is_prefix_of(final(self).ops()),
            address > 0xFFFF_FFFF ==> r == Err::<u64, DebugError>(
                DebugError::InvalidAddress(address),
            ) && *final(self) == *old(self),
            r matches Err(DebugError::InvalidAddress(a)) ==> (a == address || a == address + 4) && a
                > 0xFFFF_FFFF,
            match r {
                Ok(value) => {
                    &&& exists|k_low: int, k_high: int|
                        {
                            &&& old(self).ops().len() <= k_low
                            &&& k_low < k_high
                            &&& k_high < final(self).ops().len()
                            &&& final(self).ops()[k_low] == MemOp::Write(
                                dbgdtrrx_address(old(self).base_address),
                                address as u32,
                            )
                            &&& final(self).ops()[k_high] == MemOp::Write(
                                dbgdtrrx_address(old(self).base_address),
                                (address + 4) as u32,
                            )
                        }
                    &&& exists|low: u32, high: u32|
                        {
                            &&& value == word64_from(low, high)
                            &&& contains_op_before(
                                final(self).ops(),
                                old(self).ops().len() as int,
                                final(self).ops().len() - 1,
                                MemOp::Read(dbgdtrtx_address(old(self).base_address), low),
                            )
                            &&& final(self).ops().len() > 0
                            &&& final(self).ops().last() == MemOp::Read(
                                dbgdtrtx_address(old(self).base_address),
                                high,
                            )
                        }
                },
                Err(e) => true,
            },
    {
        let data_low = self.read_word_32(address)?;
        let ghost h_low = self.ops();
        let data_high = self.read_word_32(address + 4)?;
        proof {
            lemma_contains_op_extend(
                h_low,
                self.ops(),
                old(self).ops().len() as int,
                MemOp::Read(dbgdtrtx_address(old(self).base_address), data_low),
            );
        }
        let value = (data_low as u64) | ((data_high as u64) << 32u64);
        proof {
            assert(value == word64_from(data_low, data_high));
            assert(self.ops().last() == MemOp::Read(
                dbgdtrtx_address(old(self).base_address),
                data_high,
            ));
        }
        Ok(value)
    }

    /// Write a 64-bit value as two word writes, low word first.
    pub fn write_word_64(&mut self, address: u64, data: u64) -> (r: Result<(), DebugError>)
        requires
            old(self).wf(),
        ensures
            final(self).wf(),
            final(self).same_config(*old(self)),
            final(self).num_breakpoints == old(self).num_breakpoints,
            final(self).state.current_state == old(self).state.current_state,
            old(self).ops().is_prefix_of(final(self).ops()),
            address > 0xFFFF_FFFF ==> r == Err::<(), DebugError>(
                DebugError::InvalidAddress(address),
            ) && *final(self) == *old(self),
            r matches Err(DebugError::InvalidAddress(a)) ==> (a == address || a == address + 4) && a
                > 0xFFFF_FFFF,
            match r {
                Ok(()) => {
                    &&& contains_op(
                        final(self).ops(),
                        old(self).ops().len() as int,
                        MemOp::Write(
                            dbgdtrrx_address(old(self).base_address),
                            address as u32,
                        ),
                    )
                    &&& contains_op(
                        final(self).ops(),
                        old(self).ops().len() as int,
                        MemOp::Write(
                            dbgdtrrx_address(old(self).base_address),
                            (address + 4) as u32,
                        ),
                    )
                    &&& exists|k_low: int, k_high: int|
                        {
                            &&& old(self).ops().len() <= k_low
                            &&& k_low < k_high
                            &&& k_high < final(self).ops().len()
                            &&& final(self).ops()[k_low] == MemOp::Write(
                                dbgdtrrx_address(old(self).base_address),
                                (data & 0xFFFF_FFFF) as u32,
                            )
                            &&& final(self).ops()[k_high] == MemOp::Write(
                                dbgdtrrx_address(old(self).base_address),
                                (data >> 32u64) as u32,
                            )
                        }
                },
                Err(e) => true,
            },
    {
        let data_low = (data & 0xFFFF_FFFF) as u32;
        let data_high = (data >> 32u64) as u32;
        self.write_word_32(address, data_low)?;
        let ghost h_low = self.ops();
        self.write_word_32(address + 4, data_high)?;
        proof {
            lemma_contains_op_extend(
                h_low,
                self.ops(),
                old(self).ops().len() as int,
                MemOp::Write(dbgdtrrx_address(old(self).base_address), data_low),
            );
            lemma_contains_op_widen(
                self.ops(),
                old(self).ops().len() as int,
                h_low.len() as int,
                MemOp::Write(dbgdtrrx_address(old(self).base_address), data_high),
            );
        }
        Ok(())
    }

    /// Fill the buffer with words read from consecutive addresses, four
    /// bytes apart, by repeated single-word reads.
    pub fn read_32(&mut self, address: u64, data: &mut Vec<u32>) -> (r: Result<(), DebugError>)
        requires
            old(self).wf(),
            address + 4 * old(data)@.len() <= u64::MAX,
        ensures
            final(self).wf(),
            final(self).same_config(*old(self)),
            final(self).num_breakpoints == old(self).num_breakpoints,
            final(self).state.current_state == old(self).state.current_state,
            old(self).ops().is_prefix_of(final(self).ops()),
            final(data)@.len() == old(data)@.len(),
            r is Ok ==> bulk_words_read(
                final(self).ops(),
                old(self).ops().len() as int,
                old(self).base_address,
                address,
                final(data)@,
                old(data)@.len() as int,
            ),
    {
        let ghost mut words: Seq<u32> = Seq::empty();
        let mut i: usize = 0;
        while i < data.len()
            invariant
                old(self).wf(),
                self.wf(),
                self.same_config(*old(self)),
                self.num_breakpoints == old(self).num_breakpoints,
                self.state.current_state == old(self).state.current_state,
                old(self).ops().is_prefix_of(self.ops()),
                data@.len() == old(data)@.len(),
                i <= data@.len(),
                address + 4 * data@.len() <= u64::MAX,
                words.len() == i,
                forall|j: int| #![trigger words[j]] 0 <= j < i ==> data@[j] == words[j],
                bulk_words_read(
                    self.ops(),
                    old(self).ops().len() as int,
                    old(self).base_address,
                    address,
                    words,
                    i as int,
                ),
            decreases data@.len() - i,
        {
            let ghost h_entry = self.ops();
            let ghost words_entry = words;
            let word = self.read_word_32(address + (i as u64) * 4)?;
            data[i] = word;
            proof {
                words = words.push(word);
                assert(bulk_words_read(
                    self.ops(),
                    old(self).ops().len() as int,
                    old(self).base_address,
                    address,
                    words,
                    i + 1,
                )) by {
                    assert forall|j: int| #![trigger words[j]] 0 <= j < i + 1 implies {
                        &&& contains_op(
                            self.ops(),
                            old(self).ops().len() as int,
                            MemOp::Write(
                                dbgdtrrx_address(old(self).base_address),
                                (address + 4 * j) as u32,
                            ),
                        )
                        &&& contains_op(
                            self.ops(),
                            old(self).ops().len() as int,
                            MemOp::Read(dbgdtrtx_address(old(self).base_address), words[j]),
                        )
                    } by {
                        if j < i {
                            assert(words[j] == words_entry[j]);
                            lemma_contains_op_extend(
                                h_entry,
                                self.ops(),
                                old(self).ops().len() as int,
                                MemOp::Write(
                                    dbgdtrrx_address(old(self).base_address),
                                    (address + 4 * j) as u32,
                                ),
                            );
                            lemma_contains_op_extend(
                                h_entry,
                                self.ops(),
                                old(self).ops().len() as int,
                                MemOp::Read(
                                    dbgdtrtx_address(old(self).base_address),
                                    words_entry[j],
                                ),
                            );
                        } else {
                            assert(self.ops().last() == MemOp::Read(
                                dbgdtrtx_address(old(self).base_address),
                                word,
                            ));
                        }
                    }
                }
            }
            i = i + 1;
        }
        proof {
            assert(words =~= data@);
            assert(bulk_words_read(
                self.ops(),
                old(self).ops().len() as int,
                old(self).base_address,
                address,
                data@,
                data@.len() as int,
            ));
        }
        Ok(())
    }

    /// Fill the buffer with bytes read from consecutive addresses by
    /// repeated single-byte reads.
    pub fn read_8(&mut self, address: u64, data: &mut Vec<u8>) -> (r: Result<(), DebugError>)
        requires
            old(self).wf(),
            address + old(data)@.len() <= u64::MAX,
        ensures
            final(self).wf(),
            final(self).same_config(*old(self)),
            final(self).num_breakpoints == old(self).num_breakpoints,
            final(self).state.current_state == old(self).state.current_state,
            old(self).ops().is_prefix_of(final(self).ops()),
            final(data)@.len() == old(data)@.len(),
            r is Ok ==> exists|words: Seq<u32>|
                #[trigger] bulk_bytes_read(
                    final(self).ops(),
                    old(self).ops().len() as int,
                    old(self).base_address,
                    address,
                    final(data)@,
                    words,
                    old(data)@.len() as int,
                ),
    {
        let ghost mut bytes: Seq<u8> = Seq::empty();
        let ghost mut words: Seq<u32> = Seq::empty();
        let mut i: usize = 0;
        while i < data.len()
            invariant
                old(self).wf(),
                self.wf(),
                self.same_config(*old(self)),
                self.num_breakpoints == old(self).num_breakpoints,
                self.state.current_state == old(self).state.current_state,
                old(self).ops().is_prefix_of(self.ops()),
                data@.len() == old(data)@.len(),
                i <= data@.len(),
                address + data@.len() <= u64::MAX,
                bytes.len() == i,
                words.len() == i,
                forall|j: int| #![trigger bytes[j]] 0 <= j < i ==> data@[j] == bytes[j],
                bulk_bytes_read(
                    self.ops(),
                    old(self).ops().len() as int,
                    old(self).base_address,
                    address,
                    bytes,
                    words,
                    i as int,
                ),
            decreases data@.len() - i,
        {
            let ghost h_entry = self.ops();
            let ghost words_entry = words;
            let ghost bytes_entry = bytes;
            let byte = self.read_word_8(address + (i as u64))?;
            data[i] = byte;
            proof {
                let w = choose|w: u32|
                    self.ops().len() > 0 && self.ops().last() == MemOp::Read(
                        dbgdtrtx_address(old(self).base_address),
                        w,
                    ) && byte == le_byte_of(w, ((address + (i as u64)) % 4) as int);
                bytes = bytes.push(byte);
                words = words.push(w);
                assert(bulk_bytes_read(
                    self.ops(),
                    old(self).ops().len() as int,
                    old(self).base_address,
                    address,
                    bytes,
                    words,
                    i + 1,
                )) by {
                    assert forall|j: int| #![trigger words[j]] 0 <= j < i + 1 implies {
                        &&& contains_op(
                            self.ops(),
                            old(self).ops().len() as int,
                            MemOp::Read(dbgdtrtx_address(old(self).base_address), words[j]),
                        )
                        &&& bytes[j] == le_byte_of(words[j], ((address + j) % 4) as int)
                    } by {
                        if j < i {
                            assert(words[j] == words_entry[j]);
                            assert(bytes[j] == bytes_entry[j]);
                            lemma_contains_op_extend(
                                h_entry,
                                self.ops(),
                                old(self).ops().len() as int,
                                MemOp::Read(
                                    dbgdtrtx_address(old(self).base_address),
                                    words_entry[j],
                                ),
                            );
                        } else {
                            assert(self.ops().last() == MemOp::Read(
                                dbgdtrtx_address(old(self).base_address),
                                w,
                            ));
                        }
                    }
                }
            }
            i = i + 1;
        }
        proof {
            assert(bytes =~= data@);
            assert(bulk_bytes_read(
                self.ops(),
                old(self).ops().len() as int,
                old(self).base_address,
                address,
                data@,
                words,
                data@.len() as int,
            ));
        }
        Ok(())
    }

    /// Fill the buffer with 64-bit values read from consecutive addresses,
    /// eight bytes apart, by repeated double-word reads.
    pub fn read_64(&mut self, address: u64, data: &mut Vec<u64>) -> (r: Result<(), DebugError>)
        requires
            old(self).wf(),
            address + 8 * old(data)@.len() <= u64::MAX,
        ensures
            final(self).wf(),
            final(self).same_config(*old(self)),
            final(self).num_breakpoints == old(self).num_breakpoints,
            final(self).state.current_state == old(self).state.current_state,
            old(self).ops().is_prefix_of(final(self).ops()),
            final(data)@.len() == old(data)@.len(),
            r is Ok ==> exists|lows: Seq<u32>, highs: Seq<u32>|
                #[trigger] bulk_dwords_read(
                    final(self).ops(),
                    old(self).ops().len() as int,
                    old(self).base_address,
                    address,
                    final(data)@,
                    lows,
                    highs,
                    old(data)@.len() as int,
                ),
    {
        let ghost mut values: Seq<u64> = Seq::empty();
        let ghost mut lows: Seq<u32> = Seq::empty();
        let ghost mut highs: Seq<u32> = Seq::empty();
        let mut i: usize = 0;
        while i < data.len()
            invariant
                old(self).wf(),
                self.wf(),
                self.same_config(*old(self)),
                self.num_breakpoints == old(self).num_breakpoints,
                self.state.current_state == old(self).state.current_state,
                old(self).ops().is_prefix_of(self.ops()),
                data@.len() == old(data)@.len(),
                i <= data@.len(),
                address + 8 * data@.len() <= u64::MAX,
                values.len() == i,
                lows.len() == i,
                highs.len() == i,
                forall|j: int| #![trigger values[j]] 0 <= j < i ==> data@[j] == values[j],
                bulk_dwords_read(
                    self.ops(),
                    old(self).ops().len() as int,
                    old(self).base_address,
                    address,
                    values,
                    lows,
                    highs,
                    i as int,
                ),
            decreases data@.len() - i,
        {
            let ghost h_entry = self.ops();
            let ghost lows_entry = lows;
            let ghost highs_entry = highs;
            let ghost values_entry = values;
            let word = self.read_word_64(address + (i as u64) * 8)?;
            data[i] = word;
            proof {
                let (low, high) = choose|low: u32, high: u32|
                    {
                        &&& word == word64_from(low, high)
                        &&& contains_op(
                            self.ops(),
                            h_entry.len() as int,
                            MemOp::Read(dbgdtrtx_address(old(self).base_address), low),
                        )
                        &&& self.ops().len() > 0
                        &&& self.ops().last() == MemOp::Read(
                            dbgdtrtx_address(old(self).base_address),
                            high,
                        )
                    };
                values = values.push(word);
                lows = lows.push(low);
                highs = highs.push(high);
                assert(bulk_dwords_read(
                    self.ops(),
                    old(self).ops().len() as int,
                    old(self).base_address,
                    address,
                    values,
                    lows,
                    highs,
                    i + 1,
                )) by {
                    assert forall|j: int| #![trigger lows[j]] 0 <= j < i + 1 implies {
                        &&& values[j] == word64_from(lows[j], highs[j])
                        &&& contains_op(
                            self.ops(),
                            old(self).ops().len() as int,
                            MemOp::Read(dbgdtrtx_address(old(self).base_address), lows[j]),
                        )
                        &&& contains_op(
                            self.ops(),
                            old(self).ops().len() as int,
                            MemOp::Read(dbgdtrtx_address(old(self).base_address), highs[j]),
                        )
                    } by {
                        if j < i {
                            assert(lows[j] == lows_entry[j]);
                            assert(highs[j] == highs_entry[j]);
                            assert(values[j] == values_entry[j]);
                            lemma_contains_op_extend(
                                h_entry,
                                self.ops(),
                                old(self).ops().len() as int,
                                MemOp::Read(
                                    dbgdtrtx_address(old(self).base_address),
                                    lows_entry[j],
                                ),
                            );
                            lemma_contains_op_extend(
                                h_entry,
                                self.ops(),
                                old(self).ops().len() as int,
                                MemOp::Read(
                                    dbgdtrtx_address(old(self).base_address),
                                    highs_entry[j],
                                ),
                            );
                        } else {
                            lemma_contains_op_widen(
                                self.ops(),
                                old(self).ops().len() as int,
                                h_entry.len() as int,
                                MemOp::Read(dbgdtrtx_address(old(self).base_address), low),
                            );
                            assert(self.ops().last() == MemOp::Read(
                                dbgdtrtx_address(old(self).base_address),
                                high,
                            ));
                        }
                    }
                }
            }
            i = i + 1;
        }
        proof {
            assert(values =~= data@);
            assert(bulk_dwords_read(
                self.ops(),
                old(self).ops().len() as int,
                old(self).base_address,
                address,
                data@,
                lows,
                highs,
                data@.len() as int,
            ));
        }
        Ok(())
    }

    /// Write the buffer's words to consecutive addresses, four bytes apart,
    /// by repeated single-word writes.
    pub fn write_32(&mut self, address: u64, data: &Vec<u32>) -> (r: Result<(), DebugError>)
        requires
            old(self).wf(),
            address + 4 * data@.len() <= u64::MAX,
        ensures
            final(self).wf(),
            final(self).same_config(*old(self)),
            final(self).num_breakpoints == old(self).num_breakpoints,
            final(self).state.current_state == old(self).state.current_state,
            old(self).ops().is_prefix_of(final(self).ops()),
            r is Ok ==> bulk_words_written(
                final(self).ops(),
                old(self).ops().len() as int,
                old(self).base_address,
                address,
                data@,
                data@.len() as int,
            ),
    {
        let mut i: usize = 0;
        while i < data.len()
            invariant
                old(self).wf(),
                self.wf(),
                self.same_config(*old(self)),
                self.num_breakpoints == old(self).num_breakpoints,
                self.state.current_state == old(self).state.current_state,
                old(self).ops().is_prefix_of(self.ops()),
                i <= data@.len(),
                address + 4 * data@.len() <= u64::MAX,
                bulk_words_written(
                    self.ops(),
                    old(self).ops().len() as int,
                    old(self).base_address,
                    address,
                    data@.take(i as int),
                    i as int,
                ),
            decreases data@.len() - i,
        {
            let ghost h_entry = self.ops();
            let word = data[i];
            self.write_word_32(address + (i as u64) * 4, word)?;
            proof {
                assert(bulk_words_written(
                    self.ops(),
                    old(self).ops().len() as int,
                    old(self).base_address,
                    address,
                    data@.take(i + 1),
                    i + 1,
                )) by {
                    assert forall|j: int| #![trigger data@.take(i + 1)[j]]
                        0 <= j < i + 1 implies {
                        &&& contains_op(
                            self.ops(),
                            old(self).ops().len() as int,
                            MemOp::Write(
                                dbgdtrrx_address(old(self).base_address),
                                (address + 4 * j) as u32,
                            ),
                        )
                        &&& contains_op(
                            self.ops(),
                            old(self).ops().len() as int,
                            MemOp::Write(
                                dbgdtrrx_address(old(self).base_address),
                                data@.take(i + 1)[j],
                            ),
                        )
                    } by {
                        if j < i {
                            assert(data@.take(i + 1)[j] == data@.take(i as int)[j]);
                            lemma_contains_op_extend(
                                h_entry,
                                self.ops(),
                                old(self).ops().len() as int,
                                MemOp::Write(
                                    dbgdtrrx_address(old(self).base_address),
                                    (address + 4 * j) as u32,
                                ),
                            );
                            lemma_contains_op_extend(
                                h_entry,
                                self.ops(),
                                old(self).ops().len() as int,
                                MemOp::Write(
                                    dbgdtrrx_address(old(self).base_address),
                                    data@.take(i as int)[j],
                                ),
                            );
                        } else {
                            assert(data@.take(i + 1)[j] == word);
                        }
                    }
                }
            }
            i = i + 1;
        }
        proof {
            assert(data@.take(data@.len() as int) =~= data@);
        }
        Ok(())
    }

    /// Write the buffer's bytes to consecutive addresses by repeated
    /// single-byte writes.
    pub fn write_8(&mut self, address: u64, data: &Vec<u8>) -> (r: Result<(), DebugError>)
        requires
            old(self).wf(),
            address + data@.len() <= u64::MAX,
        ensures
            final(self).wf(),
            final(self).same_config(*old(self)),
            final(self).num_breakpoints == old(self).num_breakpoints,
            final(self).state.current_state == old(self).state.current_state,
            old(self).ops().is_prefix_of(final(self).ops()),
            r is Ok ==> exists|words: Seq<u32>|
                #[trigger] bulk_bytes_written(
                    final(self).ops(),
                    old(self).ops().len() as int,
                    old(self).base_address,
                    address,
                    data@,
                    words,
                    data@.len() as int,
                ),
    {
        let ghost mut words: Seq<u32> = Seq::empty();
        let mut i: usize = 0;
        while i < data.len()
            invariant
                old(self).wf(),
                self.wf(),
                self.same_config(*old(self)),
                self.num_breakpoints == old(self).num_breakpoints,
                self.state.current_state == old(self).state.current_state,
                old(self).ops().is_prefix_of(self.ops()),
                i <= data@.len(),
                address + data@.len() <= u64::MAX,
                words.len() == i,
                bulk_bytes_written(
                    self.ops(),
                    old(self).ops().len() as int,
                    old(self).base_address,
                    address,
                    data@,
                    words,
                    i as int,
                ),
            decreases data@.len() - i,
        {
            let ghost h_entry = self.ops();
            let ghost words_entry = words;
            let byte = data[i];
            self.write_word_8(address + (i as u64), byte)?;
            proof {
                let w = choose|w: u32|
                    contains_op(
                        self.ops(),
                        h_entry.len() as int,
                        MemOp::Read(dbgdtrtx_address(old(self).base_address), w),
                    ) && contains_op(
                        self.ops(),
                        h_entry.len() as int,
                        MemOp::Write(
                            dbgdtrrx_address(old(self).base_address),
                            with_le_byte(w, ((address + (i as u64)) % 4) as int, byte),
                        ),
                    );
                words = words.push(w);
                assert(bulk_bytes_written(
                    self.ops(),
                    old(self).ops().len() as int,
                    old(self).base_address,
                    address,
                    data@,
                    words,
                    i + 1,
                )) by {
                    assert forall|j: int| #![trigger words[j]] 0 <= j < i + 1 implies {
                        &&& contains_op(
                            self.ops(),
                            old(self).ops().len() as int,
                            MemOp::Read(dbgdtrtx_address(old(self).base_address), words[j]),
                        )
                        &&& contains_op(
                            self.ops(),
                            old(self).ops().len() as int,
                            MemOp::Write(
                                dbgdtrrx_address(old(self).base_address),
                                with_le_byte(words[j], ((address + j) % 4) as int, data@[j]),
                            ),
                        )
                    } by {
                        if j < i {
                            assert(words[j] == words_entry[j]);
                            lemma_contains_op_extend(
                                h_entry,
                                self.ops(),
                                old(self).ops().len() as int,
                                MemOp::Read(
                                    dbgdtrtx_address(old(self).base_address),
                                    words_entry[j],
                                ),
                            );
                            lemma_contains_op_extend(
                                h_entry,
                                self.ops(),
                                old(self).ops().len() as int,
                                MemOp::Write(
                                    dbgdtrrx_address(old(self).base_address),
                                    with_le_byte(
                                        words_entry[j],
                                        ((address + j) % 4) as int,
                                        data@[j],
                                    ),
                                ),
                            );
                        } else {
                            lemma_contains_op_widen(
                                self.ops(),
                                old(self).ops().len() as int,
                                h_entry.len() as int,
                                MemOp::Read(dbgdtrtx_address(old(self).base_address), w),
                            );
                            lemma_contains_op_widen(
                                self.ops(),
                                old(self).ops().len() as int,
                                h_entry.len() as int,
                                MemOp::Write(
                                    dbgdtrrx_address(old(self).base_address),
                                    with_le_byte(
                                        w,
                                        ((address + (i as u64)) % 4) as int,
                                        byte,
                                    ),
                                ),
                            );
                        }
                    }
                }
            }
            i = i + 1;
        }
        Ok(())
    }

    /// Write the buffer's 64-bit values to consecutive addresses, eight
    /// bytes apart, by repeated double-word writes.
    pub fn write_64(&mut self, address: u64, data: &Vec<u64>) -> (r: Result<(), DebugError>)
        requires
            old(self).wf(),
            address + 8 * data@.len() <= u64::MAX,
        ensures
            final(self).wf(),
            final(self).same_config(*old(self)),
            final(self).num_breakpoints == old(self).num_breakpoints,
            final(self).state.current_state == old(self).state.current_state,
            old(self).ops().is_prefix_of(final(self).ops()),
            r is Ok ==> bulk_dwords_written(
                final(self).ops(),
                old(self).ops().len() as int,
                old(self).base_address,
                address,
                data@,
                data@.len() as int,
            ),
    {
        let mut i: usize = 0;
        while i < data.len()
            invariant
                old(self).wf(),
                self.wf(),
                self.same_config(*old(self)),
                self.num_breakpoints == old(self).num_breakpoints,
                self.state.current_state == old(self).state.current_state,
                old(self).ops().is_prefix_of(self.ops()),
                i <= data@.len(),
                address + 8 * data@.len() <= u64::MAX,
                bulk_dwords_written(
                    self.ops(),
                    old(self).ops().len() as int,
                    old(self).base_address,
                    address,
                    data@.take(i as int),
                    i as int,
                ),
            decreases data@.len() - i,
        {
            let ghost h_entry = self.ops();
            let word = data[i];
            self.write_word_64(address + (i as u64) * 8, word)?;
            proof {
                assert(bulk_dwords_written(
                    self.ops(),
                    old(self).ops().len() as int,
                    old(self).base_address,
                    address,
                    data@.take(i + 1),
                    i + 1,
                )) by {
                    assert forall|j: int| #![trigger data@.take(i + 1)[j]]
                        0 <= j < i + 1 implies {
                        &&& contains_op(
                            self.ops(),
                            old(self).ops().len() as int,
                            MemOp::Write(
                                dbgdtrrx_address(old(self).base_address),
                                (data@.take(i + 1)[j] & 0xFFFF_FFFF) as u32,
                            ),
                        )
                        &&& contains_op(
                            self.ops(),
                            old(self).ops().len() as int,
                            MemOp::Write(
                                dbgdtrrx_address(old(self).base_address),
                                (data@.take(i + 1)[j] >> 32u64) as u32,
                            ),
                        )
                    } by {
                        if j < i {
                            assert(data@.take(i + 1)[j] == data@.take(i as int)[j]);
                            lemma_contains_op_extend(
                                h_entry,
                                self.ops(),
                                old(self).ops().len() as int,
                                MemOp::Write(
                                    dbgdtrrx_address(old(self).base_address),
                                    (data@.take(i as int)[j] & 0xFFFF_FFFF) as u32,
                                ),
                            );
                            lemma_contains_op_extend(
                                h_entry,
                                self.ops(),
                                old(self).ops().len() as int,
                                MemOp::Write(
                                    dbgdtrrx_address(old(self).base_address),
                                    (data@.take(i as int)[j] >> 32u64) as u32,
                                ),
                            );
                        } else {
                            assert(data@.take(i + 1)[j] == word);
                            lemma_contains_op_widen(
                                self.ops(),
                                old(self).ops().len() as int,
                                h_entry.len() as int,
                                MemOp::Write(
                                    dbgdtrrx_address(old(self).base_address),
                                    (word & 0xFFFF_FFFF) as u32,
                                ),
                            );
                            lemma_contains_op_widen(
                                self.ops(),
                                old(self).ops().len() as int,
                                h_entry.len() as int,
                                MemOp::Write(
                                    dbgdtrrx_address(old(self).base_address),
                                    (word >> 32u64) as u32,
                                ),
                            );
                        }
                    }
                }
            }
            i = i + 1;
        }
        proof {
            assert(data@.take(data@.len() as int) =~= data@);
        }
        Ok(())
    }

    /// Nothing to flush: accesses run through the core, which keeps its own
    /// caches coherent.
    pub fn flush(&mut self) -> (r: Result<(), DebugError>)
        ensures
            r == Ok::<(), DebugError>(()),
            *final(self) == *old(self),
    {
        Ok(())
    }
}

} // verus!
