use vstd::prelude::*;

pub mod changeset;
pub mod document;
pub mod history;
pub mod lsp;
pub mod syntax;
pub mod uri;
pub mod ops;
pub mod selection;
pub mod state;
pub mod transaction;

verus! {

/// The editing mode a document is in; set directly by the caller,
/// the core enforces no transition rules between modes.
#[derive(Copy, Clone, PartialEq, Eq, Hash, Debug, Structural)]
pub enum Mode {
    Normal,
    Insert,
    Goto,
}

} // verus!
