use vstd::prelude::*;

verus! {

/// A structural fault found while assembling source text, before any
/// execution begins. Each variant carries the offending source position.
#[derive(Clone, Copy, PartialEq, Eq, Structural, Debug)]
pub enum LoadError {
    /// A `]` with no `[` open before it.
    UnmatchedCloseBracket(usize),
    /// A `)` with no `(` open before it.
    UnmatchedCloseParen(usize),
    /// A `[` still open at the end of the source.
    UnmatchedOpenBracket(usize),
    /// A `(` still open at the end of the source.
    UnmatchedOpenParen(usize),
}

/// A fatal condition met during execution. None of these is recovered from:
/// a single timeline's fault halts the whole multiverse.
#[derive(Clone, Copy, PartialEq, Eq, Structural, Debug)]
pub enum RuntimeError {
    /// A cursor was moved off the tape while the pointer-bound policy
    /// forbids wrapping.
    PointerOutOfBounds,
    /// `Rewind` was executed with no snapshot left to restore.
    EmptyHistory,
    /// A tick began with no timeline left in the multiverse.
    EmptyMultiverse,
}

} // verus!
