use vstd::prelude::*;

verus! {

/// One instruction of a compiled program.
///
/// The jump instructions carry the index of their partner; `None` marks a
/// jump whose partner has not been found (yet).
#[derive(Debug, Clone, Copy, PartialEq, Eq, Structural)]
pub enum BrainCommand {
    Decrement,
    Increment,
    Input,
    JumpBackward(Option<usize>),
    JumpForward(Option<usize>),
    MoveLeft,
    MoveRight,
    Noop,
    Output,
}

/// Why source text could not be turned into a program.
#[derive(Debug, Clone, Copy, PartialEq, Eq, Structural)]
pub enum BrainError {
    ParseError,
}

} // verus!
