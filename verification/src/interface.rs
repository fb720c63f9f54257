//! The lower-level capabilities the driver consumes.
//!
//! The debug component is reached through a transport that reads and writes
//! 32-bit words at 64-bit addresses.  Implementations carry a ghost history
//! of the accesses they performed, so that the driver's contracts can state
//! exactly which register traffic an operation generates.  Reset handling is
//! delegated to a debug-sequence capability with three hooks.

use vstd::prelude::*;
use crate::errors::DebugError;
use crate::state::CoreType;

verus! {

/// One access performed on the 32-bit memory interface.
#[derive(Clone, Copy, PartialEq, Eq, Structural, Debug)]
pub enum MemOp {
    /// A 32-bit read at the address, returning the value.
    Read(u64, u32),
    /// A 32-bit write of the value at the address.
    Write(u64, u32),
}

/// A transport that performs word accesses within the debug register bank.
///
/// The ghost `history` records every completed access in order.  The values
/// a read returns are entirely up to the implementation — they model the
/// hardware's behaviour, of which nothing is assumed.  A failed access
/// reports a transport fault and leaves no trace in the history.
///
/// The method contracts are obligations on implementors: an implementation
/// outside this crate is not verified against them, and everything proved
/// about the driver holds of a session only as far as its transport keeps
/// this bookkeeping.  [`ScriptedMemory`] is a verified implementation.
pub trait DebugMemoryInterface: Sized {
    /// The accesses completed so far, in order.
    spec fn history(&self) -> Seq<MemOp>;

    /// Read a 32-bit word from the given address.
    fn read_word_32(&mut self, address: u64) -> (r: Result<u32, DebugError>)
        ensures
            match r {
                Ok(value) => final(self).history() == old(self).history().push(
                    MemOp::Read(address, value),
                ),
                Err(e) => final(self).history() == old(self).history()
                    && e == DebugError::Transport,
            },
    ;

    /// Write a 32-bit word to the given address.
    fn write_word_32(&mut self, address: u64, data: u32) -> (r: Result<(), DebugError>)
        ensures
            match r {
                Ok(()) => final(self).history() == old(self).history().push(
                    MemOp::Write(address, data),
                ),
                Err(e) => final(self).history() == old(self).history()
                    && e == DebugError::Transport,
            },
    ;
}

/// Whether `ops` holds `op` somewhere at or after position `lo`.
pub open spec fn contains_op(ops: Seq<MemOp>, lo: int, op: MemOp) -> bool {
    exists|k: int| lo <= k < ops.len() && ops[k] == op
}

/// Pushing an entry onto a history keeps every prefix of it a prefix.
pub broadcast proof fn lemma_history_push_prefix<T>(a: Seq<T>, x: T)
    ensures
        a.is_prefix_of(#[trigger] a.push(x)),
{
    assert(a =~= a.push(x).subrange(0, a.len() as int));
}

/// A history is a prefix of itself.
pub broadcast proof fn lemma_history_prefix_refl<T>(a: Seq<T>)
    ensures
        #[trigger] a.is_prefix_of(a),
{
    assert(a =~= a.subrange(0, a.len() as int));
}

/// Being a prefix of a history is transitive.
pub broadcast proof fn lemma_history_prefix_trans<T>(a: Seq<T>, b: Seq<T>, c: Seq<T>)
    requires
        a.is_prefix_of(b),
        b.is_prefix_of(c),
    ensures
        #![trigger a.is_prefix_of(b), b.is_prefix_of(c)]
        a.is_prefix_of(c),
{
    assert forall|i: int| 0 <= i < a.len() implies a[i] == c[i] by {
        assert(a[i] == b.subrange(0, a.len() as int)[i]);
        assert(b[i] == c.subrange(0, b.len() as int)[i]);
    }
    assert(a =~= c.subrange(0, a.len() as int));
}

/// An extension of a history agrees with it on every recorded entry.
pub broadcast proof fn lemma_history_prefix_index<T>(a: Seq<T>, b: Seq<T>, k: int)
    requires
        a.is_prefix_of(b),
        0 <= k < a.len(),
    ensures
        #![trigger a.is_prefix_of(b), a[k]]
        b[k] == a[k],
{
    assert(a[k] == b.subrange(0, a.len() as int)[k]);
}

/// An access contained in a history is contained in every extension of it.
pub proof fn lemma_contains_op_extend(a: Seq<MemOp>, b: Seq<MemOp>, lo: int, op: MemOp)
    requires
        a.is_prefix_of(b),
        contains_op(a, lo, op),
        0 <= lo,
    ensures
        contains_op(b, lo, op),
{
    let k = choose|k: int| lo <= k < a.len() && a[k] == op;
    assert(a[k] == b.subrange(0, a.len() as int)[k]);
    assert(b[k] == op);
}

/// An access found at or after a position is found at or after any earlier
/// position.
pub proof fn lemma_contains_op_widen(ops: Seq<MemOp>, lo1: int, lo2: int, op: MemOp)
    requires
        contains_op(ops, lo2, op),
        lo1 <= lo2,
    ensures
        contains_op(ops, lo1, op),
{
    let k = choose|k: int| lo2 <= k < ops.len() && ops[k] == op;
    assert(lo1 <= k < ops.len() && ops[k] == op);
}

/// An access contained in a history is contained, in an extension of it,
/// before the position where the extension begins.
pub proof fn lemma_contains_op_stays_before(a: Seq<MemOp>, b: Seq<MemOp>, lo: int, op: MemOp)
    requires
        a.is_prefix_of(b),
        contains_op(a, lo, op),
        0 <= lo,
    ensures
        contains_op_before(b, lo, a.len() as int, op),
{
    let k = choose|k: int| lo <= k < a.len() && a[k] == op;
    assert(a[k] == b.subrange(0, a.len() as int)[k]);
    assert(b[k] == op);
}

/// Whether `ops` holds `op` somewhere at or after position `lo` and before
/// position `hi`.
pub open spec fn contains_op_before(ops: Seq<MemOp>, lo: int, hi: int, op: MemOp) -> bool {
    exists|k: int| lo <= k < hi && k < ops.len() && ops[k] == op
}

/// The facts about access histories that proofs in this crate lean on.
pub broadcast group group_history {
    lemma_history_push_prefix,
    lemma_history_prefix_refl,
    lemma_history_prefix_trans,
    lemma_history_prefix_index,
}

/// A transport that replays a script of expected accesses.
///
/// Each access is checked against the front of the script: a matching read
/// returns the scripted value, a matching write succeeds, and anything else
/// reports a transport fault.  The type grounds [`DebugMemoryInterface`]'s
/// contract with a verified implementation.
pub struct ScriptedMemory {
    /// The accesses still expected, in order.
    pub script: Vec<MemOp>,
    /// The ghost record of the accesses performed.
    pub performed: Ghost<Seq<MemOp>>,
}

impl ScriptedMemory {
    /// A transport that expects exactly the scripted accesses.
    pub fn new(script: Vec<MemOp>) -> (r: Self)
        ensures
            r.script == script,
            r.performed@ == Seq::<MemOp>::empty(),
    {
        ScriptedMemory { script, performed: Ghost(Seq::empty()) }
    }

    /// Whether the whole script has been consumed.
    pub fn script_consumed(&self) -> (r: bool)
        ensures
            r == (self.script@.len() == 0),
    {
        self.script.len() == 0
    }
}

impl DebugMemoryInterface for ScriptedMemory {
    open spec fn history(&self) -> Seq<MemOp> {
        self.performed@
    }

    fn read_word_32(&mut self, address: u64) -> (r: Result<u32, DebugError>) {
        if self.script.len() == 0 {
            return Err(DebugError::Transport);
        }
        let next = self.script.remove(0);
        match next {
            MemOp::Read(a, value) => {
                if a == address {
                    proof {
                        self.performed@ = self.performed@.push(MemOp::Read(address, value));
                    }
                    Ok(value)
                } else {
                    Err(DebugError::Transport)
                }
            },
            MemOp::Write(_, _) => Err(DebugError::Transport),
        }
    }

    fn write_word_32(&mut self, address: u64, data: u32) -> (r: Result<(), DebugError>) {
        if self.script.len() == 0 {
            return Err(DebugError::Transport);
        }
        let next = self.script.remove(0);
        match next {
            MemOp::Write(a, value) => {
                if a == address && value == data {
                    proof {
                        self.performed@ = self.performed@.push(MemOp::Write(address, data));
                    }
                    Ok(())
                } else {
                    Err(DebugError::Transport)
                }
            },
            MemOp::Read(_, _) => Err(DebugError::Transport),
        }
    }
}

/// One invocation of an ARM debug sequence hook.
#[derive(Clone, Copy, PartialEq, Eq, Debug)]
pub enum SequenceOp {
    /// A system reset was asserted for the core at the base address.
    ResetSystem(CoreType, Option<u64>),
    /// A reset catch was armed for the core at the base address.
    ResetCatchSet(CoreType, Option<u64>),
    /// A reset catch was released for the core at the base address.
    ResetCatchClear(CoreType, Option<u64>),
}

/// The ARM debug sequence hooks used around a system reset.
///
/// Almost nothing is assumed of their behaviour: each hook may perform
/// arbitrary traffic on the memory interface — which it only extends, never
/// rewrites — and may fail.  The ghost `invocations` records the hook calls
/// in order, so that the driver's contracts can state which hooks an
/// operation delegated to.  As with [`DebugMemoryInterface`], these method
/// contracts are obligations on implementors; [`InertSequence`] is a
/// verified implementation.
pub trait ArmDebugSequence<M: DebugMemoryInterface>: Sized {
    /// The hook calls performed so far, in order.
    spec fn invocations(&self) -> Seq<SequenceOp>;

    /// Assert a system reset of the core.
    fn reset_system(&mut self, memory: &mut M, core_type: CoreType, debug_base: Option<u64>) -> (r:
        Result<(), DebugError>)
        ensures
            final(self).invocations() == old(self).invocations().push(
                SequenceOp::ResetSystem(core_type, debug_base),
            ),
            old(memory).history().is_prefix_of(final(memory).history()),
    ;

    /// Arrange for the core to be caught right out of reset.
    fn reset_catch_set(&mut self, memory: &mut M, core_type: CoreType, debug_base: Option<u64>) -> (
        r: Result<(), DebugError>)
        ensures
            final(self).invocations() == old(self).invocations().push(
                SequenceOp::ResetCatchSet(core_type, debug_base),
            ),
            old(memory).history().is_prefix_of(final(memory).history()),
    ;

    /// Release a reset catch set up earlier.
    fn reset_catch_clear(&mut self, memory: &mut M, core_type: CoreType, debug_base: Option<u64>) -> (
        r: Result<(), DebugError>)
        ensures
            final(self).invocations() == old(self).invocations().push(
                SequenceOp::ResetCatchClear(core_type, debug_base),
            ),
            old(memory).history().is_prefix_of(final(memory).history()),
    ;
}

/// A debug sequence that performs no reset work of its own: each hook
/// records its invocation and succeeds without touching the memory
/// interface.  The type grounds [`ArmDebugSequence`]'s contract with a
/// verified implementation, and serves targets whose probe needs no special
/// reset handling.
pub struct InertSequence {
    /// The ghost record of the hook calls performed.
    pub invoked: Ghost<Seq<SequenceOp>>,
}

impl InertSequence {
    /// A sequence that has not been invoked yet.
    pub fn new() -> (r: Self)
        ensures
            r.invoked@ == Seq::<SequenceOp>::empty(),
    {
        InertSequence { invoked: Ghost(Seq::empty()) }
    }
}

impl<M: DebugMemoryInterface> ArmDebugSequence<M> for InertSequence {
    open spec fn invocations(&self) -> Seq<SequenceOp> {
        self.invoked@
    }

    fn reset_system(&mut self, memory: &mut M, core_type: CoreType, debug_base: Option<u64>) -> (r:
        Result<(), DebugError>) {
        proof {
            self.invoked@ = self.invoked@.push(SequenceOp::ResetSystem(core_type, debug_base));
            lemma_history_prefix_refl(memory.history());
        }
        Ok(())
    }

    fn reset_catch_set(&mut self, memory: &mut M, core_type: CoreType, debug_base: Option<u64>) -> (
        r: Result<(), DebugError>) {
        proof {
            self.invoked@ = self.invoked@.push(SequenceOp::ResetCatchSet(core_type, debug_base));
            lemma_history_prefix_refl(memory.history());
        }
        Ok(())
    }

    fn reset_catch_clear(&mut self, memory: &mut M, core_type: CoreType, debug_base: Option<u64>) -> (
        r: Result<(), DebugError>) {
        proof {
            self.invoked@ = self.invoked@.push(SequenceOp::ResetCatchClear(core_type, debug_base));
            lemma_history_prefix_refl(memory.history());
        }
        Ok(())
    }
}

} // verus!
