use vstd::prelude::*;

verus! {

/// The eight opcodes of the language.  A pure data tag: created once by the
/// loader, immutable thereafter, dispatched on by the execution engine.
#[derive(Clone, Copy, Debug, PartialEq, Eq, Structural)]
pub enum Instructions {
    /// `>`: advance the tape pointer, wrapping from the last cell to cell 0.
    IncrementPointer,
    /// `<`: retreat the tape pointer, wrapping from cell 0 to the last cell.
    DecrementPointer,
    /// `+`: add 1 to the current cell, modulo 256.
    IncrementByte,
    /// `-`: subtract 1 from the current cell, modulo 256.
    DecrementByte,
    /// `.`: emit the current cell as one output byte.
    WriteByte,
    /// `,`: store one input byte into the current cell.
    ReadByte,
    /// `[`: if the current cell is zero, jump to the matching `]`.
    JumpForward,
    /// `]`: if the current cell is non-zero, jump back to the matching `[`.
    JumpBackward,
}

} // verus!
