//! The two instruction alphabets of the language: flat lexer tokens and the
//! nested instruction tree the parser builds from them.

use vstd::prelude::*;

verus! {

/// One recognized instruction symbol of the source text.
#[derive(Debug, Clone, Copy, PartialEq, Eq, Structural)]
pub enum Token {
    /// `>`: move the data pointer one cell to the right.
    Right,
    /// `<`: move the data pointer one cell to the left.
    Left,
    /// `+`: increment the current cell.
    Inc,
    /// `-`: decrement the current cell.
    Dec,
    /// `.`: emit the current cell as one output byte.
    Out,
    /// `,`: overwrite the current cell with one input byte.
    In,
    /// `[`: open a loop.
    Begin,
    /// `]`: close the innermost open loop.
    End,
}

/// One node of the instruction tree: a primitive operation, or a loop
/// owning the ordered sequence of instructions of its body.
#[derive(Debug, PartialEq, Eq)]
pub enum Command {
    Right,
    Left,
    Inc,
    Dec,
    Out,
    In,
    Loop { commands: Vec<Command> },
}

} // verus!
