//! The instruction set of the matching machine.

use crate::predicate::Test;
use vstd::prelude::*;

verus! {

/// A program counter: an index into the instruction array.
pub type PC = usize;

/// The number of a capture group.
pub type GroupIndex = usize;

/// One instruction. All but `Check` are zero-width: they neither consume a
/// symbol nor advance the input position.
pub enum Inst<F> {
    /// Succeeds at input position 0 only.
    Begin,
    /// Succeeds at the end of the input only.
    End,
    /// Consumes one symbol that the test accepts.
    Check(Test<F>),
    /// Records the input position as the start of a group.
    SaveOpen(GroupIndex),
    /// Records the input position as the end of a group.
    SaveClose(GroupIndex),
    /// As `SaveOpen`, and associates the name with the group.
    SaveNamedOpen(String, GroupIndex),
    /// As `SaveClose`, and associates the name with the group.
    SaveNamedClose(String, GroupIndex),
    /// Forks; the first target has strictly higher priority than the second.
    Split(PC, PC),
    /// Continues at the target.
    Jmp(PC),
    /// Accepts.
    Match,
}

} // verus!
