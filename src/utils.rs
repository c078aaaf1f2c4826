//! Small traits shared by the components.

use vstd::prelude::*;

verus! {

/// A source of tokens. `Eos` marks the end, so no `Option` wraps each
/// token.
pub trait TokenIterator {
    type Output;

    fn next(&mut self) -> Self::Output;
}

/// A type with a constructor that takes nothing.
pub trait New {
    type Output;

    fn new() -> Self::Output;
}

} // verus!
