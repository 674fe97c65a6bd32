//! From source bytes to a syntax tree.

use vstd::prelude::*;

pub mod token;
pub mod lexer;
pub mod ast;
pub mod lines;
pub mod grammar;
pub mod sound;
pub mod relex;
pub mod actions;
pub mod parser;

pub use actions::ActionParser;
pub use lexer::Lexer;
pub use lines::{Lines, Position};
pub use parser::Parser;

verus! {

/// A half-open range of byte offsets, `low` up to but not including `high`.
#[derive(Clone, Copy, Debug, PartialEq, Eq, Hash, Structural)]
pub struct Span {
    pub low: usize,
    pub high: usize,
}

impl Span {
    /// Whether `inner` lies within this span.
    pub open spec fn covers(self, inner: Span) -> bool {
        self.low <= inner.low && inner.high <= self.high
    }
}

} // verus!
