//! The single-slot instruction mailbox: at most one pending instruction,
//! overwritten by `deposit`, read and cleared atomically by `withdraw`.
//!
//! The server holds one `Mailbox` behind its own exclusion; the operations
//! here are the critical sections themselves.

use vstd::prelude::*;

use crate::player::{opt_instruction_view, Instruction, InstructionView};

verus! {

/// Holds at most one pending `Instruction`.
pub struct Mailbox {
    slot: Option<Instruction>,
}

impl View for Mailbox {
    type V = Option<InstructionView>;

    closed spec fn view(&self) -> Option<InstructionView> {
        opt_instruction_view(self.slot)
    }
}

impl Mailbox {
    /// An empty mailbox: nothing is pending at startup.
    pub fn new() -> (m: Mailbox)
        ensures
            m@ is None,
    {
        Mailbox { slot: None }
    }

    /// Unconditionally overwrites any pending instruction (last-deposit-wins;
    /// an undelivered earlier instruction is silently dropped).
    pub fn deposit(&mut self, i: Instruction)
        ensures
            final(self)@ == Some(i@),
    {
        self.slot = Some(i);
    }

    /// Reads the pending instruction and clears the slot in one step, so a
    /// deposited instruction is observed at most once: a second `withdraw`
    /// with no deposit in between returns `None`.
    pub fn withdraw(&mut self) -> (r: Option<Instruction>)
        ensures
            opt_instruction_view(r) == old(self)@,
            final(self)@ is None,
    {
        self.slot.take()
    }
}

} // verus!
