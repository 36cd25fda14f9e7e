use vstd::prelude::*;

use crate::ops::{apply_ops, lemma_apply_len};
use crate::state::State;
use crate::changeset::invert_ops;
use crate::transaction::Transaction;

verus! {

/// One committed revision: the forward transaction and its prepared
/// inverse, each carrying the selection it restores.
pub struct Revision {
    pub transaction: Transaction,
    pub inversion: Transaction,
}

/// Whether `rev` carries a document's text from `a` to `b` and back.
pub open spec fn rev_connects(rev: Revision, a: Seq<char>, b: Seq<char>) -> bool {
    &&& rev.transaction.wf()
    &&& rev.inversion.wf()
    &&& rev.transaction.selection is Some
    &&& rev.inversion.selection is Some
    &&& rev.transaction.changes.len == a.len()
    &&& apply_ops(rev.transaction.changes.m(), a) == b
    &&& rev.inversion.changes.len == b.len()
    &&& apply_ops(rev.inversion.changes.m(), b) == a
}

/// The undo history: committed revisions and a cursor. Revisions before
/// the cursor are applied; those after it can be redone. The ghost `texts`
/// sequence holds the document texts the revisions step between.
pub struct History {
    pub revisions: Vec<Revision>,
    pub cursor: usize,
    pub texts: Ghost<Seq<Seq<char>>>,
}

impl History {
    pub open spec fn wf(&self) -> bool {
        &&& self.cursor <= self.revisions@.len()
        &&& self.texts@.len() == self.revisions@.len() + 1
        &&& forall|i: int|
            0 <= i < self.revisions@.len() ==> rev_connects(
                #[trigger] self.revisions@[i],
                self.texts@[i],
                self.texts@[i + 1],
            )
    }

    /// The text the history currently stands at.
    pub open spec fn current(&self) -> Seq<char> {
        self.texts@[self.cursor as int]
    }

    /// A history with no revisions, standing at `initial`.
    pub fn new(Ghost(initial): Ghost<Seq<char>>) -> (r: History)
        ensures
            r.wf(),
            r.revisions@.len() == 0,
            r.cursor == 0,
            r.current() == initial,
    {
        let ghost t: Seq<Seq<char>> = seq![initial];
        History { revisions: Vec::new(), cursor: 0, texts: Ghost(t) }
    }

    /// Commit a revision that carries `original` to the transaction's
    /// outcome. Revisions undone but not redone are discarded: a new edit
    /// abandons the redo branch.
    pub fn commit_revision(&mut self, transaction: Transaction, original: &State)
        requires
            old(self).wf(),
            transaction.wf(),
            transaction.selection is Some,
            original.wf(),
            transaction.changes.len == original@.doc.len(),
            old(self).current() == original@.doc,
        ensures
            final(self).wf(),
            final(self).cursor == old(self).cursor + 1,
            final(self).revisions@.len() == old(self).cursor + 1,
            forall|i: int|
                0 <= i < old(self).cursor ==> #[trigger] final(self).revisions@[i] == old(
                    self,
                ).revisions@[i],
            final(self).texts@ == old(self).texts@.take(old(self).cursor + 1).push(
                apply_ops(transaction.changes.m(), original@.doc),
            ),
            final(self).current() == apply_ops(transaction.changes.m(), original@.doc),
            final(self).revisions@.last().transaction == transaction,
            final(self).revisions@.last().inversion.changes.m() == invert_ops(
                transaction.changes.m(),
                original@.doc,
            ),
            final(self).revisions@.last().inversion.changes.is_identity()
                == transaction.changes.is_identity(),
            final(self).revisions@.last().inversion.selection is Some,
            final(self).revisions@.last().inversion.selection.unwrap().ranges@
                == original@.ranges,
            final(self).revisions@.last().inversion.selection.unwrap().primary_index as int
                == original@.primary,
    {
        let inversion = transaction.invert(original);
        let ghost newdoc = apply_ops(transaction.changes.m(), original@.doc);
        let ghost oldtexts = self.texts@;
        let ghost oldrevs = self.revisions@;
        let c = self.cursor;
        proof {
            lemma_apply_len(transaction.changes.m(), original@.doc);
        }
        self.revisions.truncate(c);
        self.revisions.push(Revision { transaction, inversion });
        let nl: usize = self.revisions.len();
        proof {
            assert(nl == c + 1);
        }
        self.cursor = c + 1;
        self.texts = Ghost(oldtexts.take(c as int + 1).push(newdoc));
        proof {
            let newrevs = self.revisions@;
            let newtexts = self.texts@;
            assert(newrevs.len() == c + 1);
            assert forall|i: int| 0 <= i < newrevs.len() implies rev_connects(
                #[trigger] newrevs[i],
                newtexts[i],
                newtexts[i + 1],
            ) by {
                if i < c {
                    assert(newrevs[i] == oldrevs.take(c as int)[i]);
                    assert(newrevs[i] == oldrevs[i]);
                    assert(newtexts[i] == oldtexts[i]);
                    assert(newtexts[i + 1] == oldtexts[i + 1]);
                    assert(rev_connects(oldrevs[i], oldtexts[i], oldtexts[i + 1]));
                } else {
                    assert(newtexts[i] == oldtexts[i]);
                    assert(newtexts[i + 1] == newdoc);
                }
            }
        }
    }

    /// Step back one revision: hands out its inverse transaction, which
    /// carries the current text back to the previous one. `None`, changing
    /// nothing, when no revision lies before the cursor.
    pub fn undo(&mut self) -> (r: Option<Transaction>)
        requires
            old(self).wf(),
        ensures
            final(self).wf(),
            final(self).revisions@ == old(self).revisions@,
            final(self).texts@ == old(self).texts@,
            r is None <==> old(self).cursor == 0,
            r is None ==> *final(self) == *old(self),
            r is Some ==> final(self).cursor == old(self).cursor - 1,
            r is Some ==> ({
                let t = r.unwrap();
                let stored = old(self).revisions@[old(self).cursor - 1].inversion;
                &&& t.wf()
                &&& t.changes.m() == stored.changes.m()
                &&& t.changes.is_identity() == stored.changes.is_identity()
                &&& t.changes.len == old(self).current().len()
                &&& apply_ops(t.changes.m(), old(self).current()) == final(self).current()
                &&& t.selection is Some
                &&& t.selection.unwrap().ranges@ == stored.selection.unwrap().ranges@
                &&& t.selection.unwrap().primary_index == stored.selection.unwrap().primary_index
            }),
    {
        if self.cursor == 0 {
            None
        } else {
            self.cursor = self.cursor - 1;
            let t = self.revisions[self.cursor].inversion.snapshot();
            proof {
                assert(rev_connects(
                    self.revisions@[self.cursor as int],
                    self.texts@[self.cursor as int],
                    self.texts@[self.cursor as int + 1],
                ));
            }
            Some(t)
        }
    }

    /// Step forward over the revision most recently undone: hands out its
    /// forward transaction. `None`, changing nothing, when every revision
    /// is applied.
    pub fn redo(&mut self) -> (r: Option<Transaction>)
        requires
            old(self).wf(),
        ensures
            final(self).wf(),
            final(self).revisions@ == old(self).revisions@,
            final(self).texts@ == old(self).texts@,
            r is None <==> old(self).cursor == old(self).revisions@.len(),
            r is None ==> *final(self) == *old(self),
            r is Some ==> final(self).cursor == old(self).cursor + 1,
            r is Some ==> ({
                let t = r.unwrap();
                let stored = old(self).revisions@[old(self).cursor as int].transaction;
                &&& t.wf()
                &&& t.changes.m() == stored.changes.m()
                &&& t.changes.is_identity() == stored.changes.is_identity()
                &&& t.changes.len == old(self).current().len()
                &&& apply_ops(t.changes.m(), old(self).current()) == final(self).current()
                &&& t.selection is Some
                &&& t.selection.unwrap().ranges@ == stored.selection.unwrap().ranges@
                &&& t.selection.unwrap().primary_index == stored.selection.unwrap().primary_index
            }),
    {
        if self.cursor == self.revisions.len() {
            None
        } else {
            let t = self.revisions[self.cursor].transaction.snapshot();
            proof {
                assert(rev_connects(
                    self.revisions@[self.cursor as int],
                    self.texts@[self.cursor as int],
                    self.texts@[self.cursor as int + 1],
                ));
            }
            self.cursor = self.cursor + 1;
            Some(t)
        }
    }
}

} // verus!
