use vstd::prelude::*;

use crate::ops::copy_chars;
use crate::selection::{Range, Selection};

verus! {

/// The mutable heart of a document: the text buffer and the selection.
pub struct State {
    pub doc: Vec<char>,
    pub selection: Selection,
}

/// Mathematical model of a `State`.
#[verifier::ext_equal]
pub struct StateModel {
    pub doc: Seq<char>,
    pub ranges: Seq<Range>,
    pub primary: int,
}

impl View for State {
    type V = StateModel;

    open spec fn view(&self) -> StateModel {
        StateModel {
            doc: self.doc@,
            ranges: self.selection.ranges@,
            primary: self.selection.primary_index as int,
        }
    }
}

impl State {
    pub open spec fn wf(&self) -> bool {
        self.selection.wf()
    }

    /// A fresh state over `doc`, with a bare cursor at the start.
    pub fn new(doc: Vec<char>) -> (r: State)
        ensures
            r.wf(),
            r@.doc == doc@,
            r@.ranges == seq![Range { anchor: 0, head: 0 }],
            r@.primary == 0,
    {
        State { doc, selection: Selection::single(0, 0) }
    }

    /// An independent copy of this state, used as an undo checkpoint.
    pub fn snapshot(&self) -> (r: State)
        ensures
            r@ == self@,
            r.wf() == self.wf(),
    {
        let r = State { doc: copy_chars(&self.doc), selection: self.selection.snapshot() };
        proof {
            assert(r@ =~= self@);
        }
        r
    }
}

} // verus!
