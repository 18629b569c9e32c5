//! Core of an outline (table-of-contents) editor for documents whose outline
//! is exchanged in a nested, quoted, backslash-escaped text format.
//!
//! The crate provides a path-addressed mutable tree of outline entries
//! ([`nav`]), a codec between that tree and the exchange text ([`parser`] for
//! reading, printing lives on the tree itself), a navigation state machine
//! over selection and expansion ([`tree_state`]), and a viewport computation
//! that keeps the selection visible among variable-height rows
//! ([`viewport`]).
use vstd::prelude::*;

pub mod edit;
pub mod flatten;
pub mod nav;
pub mod parser;
pub mod text;
pub mod tree_state;
pub mod viewport;

verus! {

/// Lifecycle phase of an interactive session driving this library.
#[derive(Debug, PartialEq, Eq, Structural, Clone, Copy)]
pub enum AppState {
    Quitting,
    Navigating,
    RunningOtherCommand,
}

} // verus!
