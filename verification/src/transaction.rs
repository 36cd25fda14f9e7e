use vstd::prelude::*;

use crate::changeset::{invert_ops, ChangeSet};
use crate::ops::{
    apply_ops, copy_chars, len_in, len_out, lemma_apply_concat, lemma_apply_len, lemma_cons,
    op_wf, ops_m, ops_wf, OpModel, Operation,
};
use crate::state::State;
use crate::selection::Selection;

verus! {

/// One edit of a `change` transaction: replace the text between the first
/// and the second position with the given text (`None` deletes).
pub type Change = (usize, usize, Option<Vec<char>>);

/// Model of one edit: positions and replacement text.
pub open spec fn edit_m(e: Change) -> (int, int, Seq<char>) {
    (
        e.0 as int,
        e.1 as int,
        match e.2 {
            Some(t) => t@,
            None => Seq::<char>::empty(),
        },
    )
}

pub open spec fn edits_m(edits: Seq<Change>) -> Seq<(int, int, Seq<char>)> {
    edits.map_values(|e: Change| edit_m(e))
}

/// Edits are ordered, do not overlap, and lie within a text of length `n`.
pub open spec fn edits_wf(em: Seq<(int, int, Seq<char>)>, n: int) -> bool {
    &&& forall|k: int| 0 <= k < em.len() ==> 0 <= #[trigger] em[k].0 <= em[k].1 <= n
    &&& forall|k: int| 0 <= k < em.len() - 1 ==> #[trigger] em[k].1 <= em[k + 1].0
}

/// The text `s` with every edit applied, each range replaced by its text.
/// Positions refer to the unedited `s`.
pub open spec fn spliced(s: Seq<char>, em: Seq<(int, int, Seq<char>)>) -> Seq<char>
    decreases em.len(),
{
    if em.len() == 0 {
        s
    } else {
        let e = em.last();
        spliced(s.take(e.0), em.drop_last()) + e.2 + s.skip(e.1)
    }
}

/// Total length of the replacement texts.
pub open spec fn inserted_len(em: Seq<(int, int, Seq<char>)>) -> int
    decreases em.len(),
{
    if em.len() == 0 {
        0
    } else {
        inserted_len(em.drop_last()) + em.last().2.len()
    }
}

proof fn lemma_inserted_nonneg(em: Seq<(int, int, Seq<char>)>)
    ensures
        inserted_len(em) >= 0,
    decreases em.len(),
{
    if em.len() > 0 {
        lemma_inserted_nonneg(em.drop_last());
    }
}

proof fn lemma_inserted_take(em: Seq<(int, int, Seq<char>)>, k: int)
    requires
        0 <= k <= em.len(),
    ensures
        inserted_len(em.take(k)) <= inserted_len(em),
    decreases em.len() - k,
{
    if k == em.len() {
        assert(em.take(k) =~= em);
    } else {
        lemma_inserted_take(em, k + 1);
        assert(em.take(k + 1).drop_last() =~= em.take(k));
        assert(em.take(k + 1).last() == em[k]);
        assert(inserted_len(em.take(k + 1)) == inserted_len(em.take(k)) + em[k].2.len());
    }
}

/// Edits earlier in a well-formed list end before later ones begin.
proof fn lemma_edits_chain(em: Seq<(int, int, Seq<char>)>, n: int, j: int, k: int)
    requires
        edits_wf(em, n),
        0 <= j < k < em.len(),
    ensures
        em[j].1 <= em[k].0,
    decreases k - j,
{
    if j + 1 < k {
        lemma_edits_chain(em, n, j + 1, k);
    }
}

/// Splicing edits that lie within `s` into `s + e` splices them into `s`
/// and keeps `e`.
proof fn lemma_spliced_extend(s: Seq<char>, e: Seq<char>, em: Seq<(int, int, Seq<char>)>)
    requires
        em.len() > 0 ==> 0 <= em.last().0 <= em.last().1 <= s.len(),
    ensures
        spliced(s + e, em) == spliced(s, em) + e,
{
    if em.len() == 0 {
        assert(spliced(s + e, em) =~= spliced(s, em) + e);
    } else {
        let ed = em.last();
        assert((s + e).take(ed.0) =~= s.take(ed.0));
        assert((s + e).skip(ed.1) =~= s.skip(ed.1) + e);
        assert(spliced(s.take(ed.0), em.drop_last()) + ed.2 + (s.skip(ed.1) + e) =~= (spliced(
            s.take(ed.0),
            em.drop_last(),
        ) + ed.2 + s.skip(ed.1)) + e);
    }
}

/// An atomic edit of a document: an ordered change-set plus an optional
/// selection that the document takes after the edit.
pub struct Transaction {
    pub changes: ChangeSet,
    pub selection: Option<Selection>,
}

impl Transaction {
    pub open spec fn wf(&self) -> bool {
        &&& self.changes.wf()
        &&& match self.selection {
            Some(sel) => sel.wf(),
            None => true,
        }
    }

    /// Wrap a change-set as a transaction without a selection.
    pub fn from_changes(changes: ChangeSet) -> (r: Transaction)
        ensures
            r.changes == changes,
            r.selection is None,
    {
        Transaction { changes, selection: None }
    }

    /// The same transaction, taking the given post-edit selection.
    pub fn with_selection(self, selection: Selection) -> (r: Transaction)
        ensures
            r.changes == self.changes,
            r.selection == Some(selection),
    {
        Transaction { changes: self.changes, selection: Some(selection) }
    }

    /// The transaction's change-set.
    pub fn changes(&self) -> (r: &ChangeSet)
        ensures
            r == self.changes,
    {
        &self.changes
    }

    /// Apply this transaction to a state: the text becomes what the
    /// change-set makes of it, and the transaction's selection, if any,
    /// replaces the state's. Fails, leaving the state untouched, exactly
    /// when the change-set does not fit the text.
    pub fn apply(&self, state: &mut State) -> (success: bool)
        requires
            self.wf(),
            old(state).wf(),
        ensures
            final(state).wf(),
            success <==> self.changes.len == old(state)@.doc.len(),
            success ==> final(state)@.doc == self.changes.applied(old(state)@.doc),
            success ==> final(state)@.doc.len() == len_out(self.changes.m()),
            success ==> match self.selection {
                Some(sel) => final(state)@.ranges == sel.ranges@ && final(state)@.primary
                    == sel.primary_index as int,
                None => final(state)@.ranges == old(state)@.ranges && final(state)@.primary
                    == old(state)@.primary,
            },
            !success ==> *final(state) == *old(state),
    {
        match self.changes.apply(&state.doc) {
            None => false,
            Some(newdoc) => {
                proof {
                    lemma_apply_len(self.changes.m(), state@.doc);
                }
                state.doc = newdoc;
                match &self.selection {
                    Some(sel) => {
                        state.selection = sel.snapshot();
                    },
                    None => {},
                }
                true
            },
        }
    }

    /// The inverse of this transaction with respect to the state it was
    /// applied to. Applying the inverse to the transaction's outcome
    /// restores `original`'s text, and the inverse carries `original`'s
    /// selection.
    pub fn invert(&self, original: &State) -> (r: Transaction)
        requires
            self.wf(),
            original.wf(),
            self.changes.len == original@.doc.len(),
        ensures
            r.wf(),
            r.changes.len == len_out(self.changes.m()),
            r.changes.len_after == self.changes.len,
            apply_ops(r.changes.m(), apply_ops(self.changes.m(), original@.doc))
                == original@.doc,
            r.changes.m() == invert_ops(self.changes.m(), original@.doc),
            r.changes.is_identity() == self.changes.is_identity(),
            r.selection is Some,
            r.selection.unwrap().ranges@ == original@.ranges,
            r.selection.unwrap().primary_index as int == original@.primary,
    {
        let changes = self.changes.invert(&original.doc);
        Transaction { changes, selection: Some(original.selection.snapshot()) }
    }
}

/// The operations that realise one edit, after `last` characters of the
/// input are already accounted for.
pub open spec fn edit_delta(e: (int, int, Seq<char>), last: int) -> Seq<OpModel> {
    (if e.0 > last {
        seq![OpModel::Retain(e.0 - last)]
    } else {
        Seq::<OpModel>::empty()
    }) + (if e.1 > e.0 {
        seq![OpModel::Delete(e.1 - e.0)]
    } else {
        Seq::<OpModel>::empty()
    }) + (if e.2.len() > 0 {
        seq![OpModel::Insert(e.2)]
    } else {
        Seq::<OpModel>::empty()
    })
}

/// The operation run that realises an ordered edit list over a text of
/// length `n`, from position `last` on: each edit's delta in order, then
/// one retain over the rest of the text.
pub open spec fn ops_of_edits(em: Seq<(int, int, Seq<char>)>, last: int, n: int) -> Seq<OpModel>
    decreases em.len(),
{
    if em.len() == 0 {
        if last < n {
            seq![OpModel::Retain(n - last)]
        } else {
            Seq::<OpModel>::empty()
        }
    } else {
        edit_delta(em[0], last) + ops_of_edits(em.drop_first(), em[0].1, n)
    }
}

/// What the step of the builder appends for one edit, and what it does to
/// the text built so far.
proof fn lemma_change_step(
    ops0: Seq<OpModel>,
    dm: Seq<OpModel>,
    s: Seq<char>,
    last: int,
    f: int,
    t: int,
    ins: Seq<char>,
    em: Seq<(int, int, Seq<char>)>,
    k: int,
    n: int,
)
    requires
        0 <= last <= f <= t <= n,
        s.len() == n,
        edits_wf(em, n),
        0 <= k < em.len(),
        em[k] == (f, t, ins),
        k > 0 ==> last == em[k - 1].1,
        dm == (if f > last {
            seq![OpModel::Retain(f - last)]
        } else {
            Seq::<OpModel>::empty()
        }) + (if t > f {
            seq![OpModel::Delete(t - f)]
        } else {
            Seq::<OpModel>::empty()
        }) + (if ins.len() > 0 {
            seq![OpModel::Insert(ins)]
        } else {
            Seq::<OpModel>::empty()
        }),
        ops_wf(ops0),
        len_in(ops0) == last,
        apply_ops(ops0, s.take(last)) == spliced(s.take(last), em.take(k)),
    ensures
        ops_wf(ops0 + dm),
        len_in(ops0 + dm) == t,
        len_out(ops0 + dm) == len_out(ops0) + (f - last) + ins.len(),
        apply_ops(ops0 + dm, s.take(t)) == spliced(s.take(t), em.take(k + 1)),
{
    let ra = if f > last {
        seq![OpModel::Retain(f - last)]
    } else {
        Seq::<OpModel>::empty()
    };
    let rb = if t > f {
        seq![OpModel::Delete(t - f)]
    } else {
        Seq::<OpModel>::empty()
    };
    let rc = if ins.len() > 0 {
        seq![OpModel::Insert(ins)]
    } else {
        Seq::<OpModel>::empty()
    };
    let u1 = s.subrange(last, f);
    let u2 = s.subrange(f, t);
    if f > last {
        lemma_cons(OpModel::Retain(f - last), Seq::<OpModel>::empty());
        crate::ops::lemma_apply_one(OpModel::Retain(f - last), u1);
        assert(ra =~= seq![OpModel::Retain(f - last)]);
        assert(apply_ops(ra, u1) =~= u1);
    } else {
        assert(u1 =~= Seq::<char>::empty());
        assert(apply_ops(ra, u1) =~= u1);
    }
    assert(len_in(ra) == f - last && len_out(ra) == f - last && ops_wf(ra));
    if t > f {
        lemma_cons(OpModel::Delete(t - f), Seq::<OpModel>::empty());
        crate::ops::lemma_apply_one(OpModel::Delete(t - f), u2);
        assert(rb =~= seq![OpModel::Delete(t - f)]);
        assert(apply_ops(rb, u2) =~= Seq::<char>::empty());
    } else {
        assert(u2 =~= Seq::<char>::empty());
        assert(apply_ops(rb, u2) =~= Seq::<char>::empty());
    }
    assert(len_in(rb) == t - f && len_out(rb) == 0 && ops_wf(rb));
    if ins.len() > 0 {
        lemma_cons(OpModel::Insert(ins), Seq::<OpModel>::empty());
        crate::ops::lemma_apply_one(OpModel::Insert(ins), Seq::<char>::empty());
        assert(rc =~= seq![OpModel::Insert(ins)]);
        assert(apply_ops(rc, Seq::<char>::empty()) =~= ins);
    } else {
        assert(apply_ops(rc, Seq::<char>::empty()) =~= ins);
    }
    assert(len_in(rc) == 0 && len_out(rc) == ins.len() && ops_wf(rc));
    lemma_apply_concat(rb, rc, u2, Seq::<char>::empty());
    assert(u2 + Seq::<char>::empty() =~= u2);
    assert(apply_ops(rb + rc, u2) =~= ins);
    lemma_apply_concat(ra, rb + rc, u1, u2);
    assert(u1 + u2 =~= s.subrange(last, t));
    assert(dm =~= ra + (rb + rc));
    assert(apply_ops(dm, s.subrange(last, t)) =~= u1 + ins);
    lemma_apply_concat(ops0, dm, s.take(last), s.subrange(last, t));
    assert(s.take(last) + s.subrange(last, t) =~= s.take(t));
    assert(apply_ops(ops0 + dm, s.take(t)) == spliced(s.take(last), em.take(k)) + (u1 + ins));
    // wf and lengths of the whole
    assert forall|i: int| 0 <= i < (ops0 + dm).len() implies op_wf(#[trigger] (ops0 + dm)[i]) by {
        if i < ops0.len() {
            assert((ops0 + dm)[i] == ops0[i]);
        } else {
            assert((ops0 + dm)[i] == dm[i - ops0.len()]);
            assert(ops_wf(ra) && ops_wf(rb) && ops_wf(rc));
            assert(op_wf(dm[i - ops0.len()]));
        }
    }
    lemma_len_concat(ops0, dm);
    lemma_len_concat(ra, rb + rc);
    lemma_len_concat(rb, rc);
    // the splice after this edit
    if em.take(k).len() > 0 {
        lemma_edits_chain(em, n, k - 1, k);
        assert(em.take(k).last() == em[k - 1]);
        assert(em.take(k).last().1 == last);
        assert(0 <= em.take(k).last().0 <= em.take(k).last().1 <= s.take(last).len());
    }
    lemma_spliced_extend(s.take(last), u1, em.take(k));
    assert(s.take(last) + u1 =~= s.take(f));
    assert(spliced(s.take(f), em.take(k)) == spliced(s.take(last), em.take(k)) + u1);
    assert(em.take(k + 1).last() == em[k]);
    assert(em.take(k + 1).drop_last() =~= em.take(k));
    assert(s.take(t).take(f) =~= s.take(f));
    assert(s.take(t).skip(t) =~= Seq::<char>::empty());
    assert(spliced(s.take(t), em.take(k + 1)) == spliced(s.take(f), em.take(k)) + ins
        + Seq::<char>::empty());
    assert(spliced(s.take(t), em.take(k + 1)) =~= spliced(s.take(f), em.take(k)) + ins);
    assert(spliced(s.take(last), em.take(k)) + (u1 + ins) =~= (spliced(s.take(last), em.take(k))
        + u1) + ins);
}

/// Lengths of a concatenation of runs.
proof fn lemma_len_concat(a: Seq<OpModel>, b: Seq<OpModel>)
    ensures
        len_in(a + b) == len_in(a) + len_in(b),
        len_out(a + b) == len_out(a) + len_out(b),
    decreases a.len(),
{
    if a.len() == 0 {
        assert(a + b =~= b);
    } else {
        assert((a + b)[0] == a[0]);
        assert((a + b).drop_first() =~= a.drop_first() + b);
        lemma_len_concat(a.drop_first(), b);
    }
}

impl Transaction {
    /// Build a transaction that replaces each of the given ranges of the
    /// state's text with its replacement text. Edits must be ordered and
    /// must not overlap. The result carries no selection.
    pub fn change(state: &State, edits: Vec<Change>) -> (r: Transaction)
        requires
            edits_wf(edits_m(edits@), state@.doc.len() as int),
            state@.doc.len() + inserted_len(edits_m(edits@)) <= usize::MAX,
        ensures
            r.wf(),
            r.changes.len == state@.doc.len(),
            r.selection is None,
            r.changes.m() == ops_of_edits(edits_m(edits@), 0, state@.doc.len() as int),
            apply_ops(r.changes.m(), state@.doc) == spliced(state@.doc, edits_m(edits@)),
    {
        let n: usize = state.doc.len();
        let ghost s = state@.doc;
        let ghost em = edits_m(edits@);
        let mut ops: Vec<Operation> = Vec::new();
        let mut last: usize = 0;
        let mut out_len: usize = 0;
        let mut k: usize = 0;
        proof {
            assert(ops_m(ops@) =~= Seq::<OpModel>::empty());
            assert(s.take(0) =~= Seq::<char>::empty());
            assert(em.take(0) =~= Seq::<(int, int, Seq<char>)>::empty());
            assert(apply_ops(ops_m(ops@), s.take(0)) =~= spliced(s.take(0), em.take(0)));
            lemma_inserted_nonneg(em);
            assert(em.skip(0) =~= em);
            assert(ops_of_edits(em, 0, n as int) =~= ops_m(ops@) + ops_of_edits(
                em.skip(0),
                0,
                n as int,
            ));
        }
        while k < edits.len()
            invariant
                k <= edits.len(),
                last <= n,
                n == s.len(),
                s == state@.doc,
                em == edits_m(edits@),
                edits_wf(em, n as int),
                n + inserted_len(em) <= usize::MAX,
                k > 0 ==> last == em[k - 1].1,
                k == 0 ==> last == 0,
                ops_wf(ops_m(ops@)),
                len_in(ops_m(ops@)) == last,
                len_out(ops_m(ops@)) == out_len,
                out_len <= last + inserted_len(em.take(k as int)),
                apply_ops(ops_m(ops@), s.take(last as int)) == spliced(
                    s.take(last as int),
                    em.take(k as int),
                ),
                ops_of_edits(em, 0, n as int) == ops_m(ops@) + ops_of_edits(
                    em.skip(k as int),
                    last as int,
                    n as int,
                ),
            decreases edits.len() - k,
        {
            let ghost ops0 = ops_m(ops@);
            let ghost last0 = last as int;
            let e = &edits[k];
            let f: usize = e.0;
            let t: usize = e.1;
            proof {
                assert(em[k as int] == edit_m(edits@[k as int]));
                assert(0 <= em[k as int].0 <= em[k as int].1 <= n as int);
                if k > 0 {
                    assert(em[k as int - 1].1 <= em[k as int].0);
                }
                lemma_inserted_take(em, k as int + 1);
                assert(em.take(k as int + 1).drop_last() =~= em.take(k as int));
                assert(em.take(k as int + 1).last() == em[k as int]);
                lemma_inserted_nonneg(em.take(k as int));
            }
            let mut delta: Vec<Operation> = Vec::new();
            if f > last {
                delta.push(Operation::Retain(f - last));
            }
            if t > f {
                delta.push(Operation::Delete(t - f));
            }
            let mut ins_len: usize = 0;
            match &e.2 {
                Some(tx) => {
                    if tx.len() > 0 {
                        ins_len = tx.len();
                        let tc = copy_chars(tx);
                        delta.push(Operation::Insert(tc));
                    }
                },
                None => {},
            }
            let ghost insm = em[k as int].2;
            proof {
                let ra = if f > last0 {
                    seq![OpModel::Retain(f - last0)]
                } else {
                    Seq::<OpModel>::empty()
                };
                let rb = if t > f {
                    seq![OpModel::Delete(t as int - f as int)]
                } else {
                    Seq::<OpModel>::empty()
                };
                let rc = if insm.len() > 0 {
                    seq![OpModel::Insert(insm)]
                } else {
                    Seq::<OpModel>::empty()
                };
                assert(ins_len == insm.len());
                assert(ops_m(delta@) =~= ra + rb + rc);
                lemma_change_step(
                    ops0,
                    ops_m(delta@),
                    s,
                    last0,
                    f as int,
                    t as int,
                    insm,
                    em,
                    k as int,
                    n as int,
                );
            }
            let ghost dm = ops_m(delta@);
            let ghost opsv0 = ops@;
            let ghost deltav = delta@;
            ops.append(&mut delta);
            proof {
                assert(ops@ == opsv0 + deltav);
                assert forall|x: int| 0 <= x < ops@.len() implies ops_m(ops@)[x] == (ops0 + dm)[x]
                    by {
                    if x < opsv0.len() {
                        assert(ops@[x] == opsv0[x]);
                    } else {
                        assert(ops@[x] == deltav[x - opsv0.len()]);
                    }
                }
                assert(ops_m(ops@) =~= ops0 + dm);
                assert(em.skip(k as int)[0] == em[k as int]);
                assert(em.skip(k as int).drop_first() =~= em.skip(k as int + 1));
                assert(dm == edit_delta(em[k as int], last0));
                assert(ops_of_edits(em.skip(k as int), last0, n as int) == dm + ops_of_edits(
                    em.skip(k as int + 1),
                    t as int,
                    n as int,
                ));
                assert(ops0 + (dm + ops_of_edits(em.skip(k as int + 1), t as int, n as int)) =~= (
                ops0 + dm) + ops_of_edits(em.skip(k as int + 1), t as int, n as int));
            }
            out_len = out_len + (f - last) + ins_len;
            last = t;
            k = k + 1;
        }
        proof {
            assert(em.take(k as int) =~= em);
            assert(em.skip(k as int) =~= Seq::<(int, int, Seq<char>)>::empty());
        }
        let ghost opsb = ops_m(ops@);
        if n > last {
            ops.push(Operation::Retain(n - last));
            proof {
                let rt = seq![OpModel::Retain(n - last)];
                assert(ops_m(ops@) =~= opsb + rt);
                lemma_cons(OpModel::Retain(n - last), Seq::<OpModel>::empty());
                crate::ops::lemma_apply_one(OpModel::Retain(n - last), s.skip(last as int));
                assert(apply_ops(rt, s.skip(last as int)) =~= s.skip(last as int));
                assert(len_in(rt) == n - last && len_out(rt) == n - last && ops_wf(rt));
                lemma_apply_concat(opsb, rt, s.take(last as int), s.skip(last as int));
                lemma_len_concat(opsb, rt);
                assert forall|i: int| 0 <= i < (opsb + rt).len() implies op_wf(
                    #[trigger] (opsb + rt)[i],
                ) by {
                    if i < opsb.len() {
                        assert((opsb + rt)[i] == opsb[i]);
                    } else {
                        assert((opsb + rt)[i] == rt[i - opsb.len()]);
                    }
                }
            }
        }
        proof {
            assert(s.take(last as int) + s.skip(last as int) =~= s);
            if n > last {
            } else {
                assert(last == n);
                assert(s.take(last as int) =~= s);
            }
            if em.len() > 0 {
                lemma_edits_chain_last(em, n as int);
                assert(em.last().1 == last);
            }
            lemma_spliced_extend(s.take(last as int), s.skip(last as int), em);
            assert(apply_ops(ops_m(ops@), s) == spliced(s.take(last as int), em) + s.skip(
                last as int,
            ));
            assert(spliced(s, em) == spliced(s.take(last as int), em) + s.skip(last as int));
            lemma_inserted_take(em, em.len() as int);
            let tail_spec = ops_of_edits(
                Seq::<(int, int, Seq<char>)>::empty(),
                last as int,
                n as int,
            );
            if n > last {
                assert(tail_spec == seq![OpModel::Retain(n - last)]);
                assert(ops_m(ops@) =~= opsb + tail_spec);
            } else {
                assert(tail_spec =~= Seq::<OpModel>::empty());
                assert(opsb + tail_spec =~= opsb);
            }
            assert(ops_m(ops@) == ops_of_edits(em, 0, n as int));
        }
        let changes = ChangeSet { ops, len: n, len_after: out_len + (n - last) };
        Transaction { changes, selection: None }
    }
}

/// The last edit in a well-formed list ends within the text.
proof fn lemma_edits_chain_last(em: Seq<(int, int, Seq<char>)>, n: int)
    requires
        edits_wf(em, n),
        em.len() > 0,
    ensures
        0 <= em.last().0 <= em.last().1 <= n,
{
}

/// The edits that put `text` at the head of every given range.
pub open spec fn insert_edits(ranges: Seq<crate::selection::Range>, text: Seq<char>) -> Seq<
    (int, int, Seq<char>),
> {
    Seq::new(ranges.len(), |i: int| (ranges[i].head as int, ranges[i].head as int, text))
}

impl Transaction {
    /// An independent copy of this transaction.
    pub fn snapshot(&self) -> (r: Transaction)
        ensures
            r.changes.m() == self.changes.m(),
            r.changes.len == self.changes.len,
            r.changes.len_after == self.changes.len_after,
            r.selection is Some <==> self.selection is Some,
            self.selection is Some ==> r.selection.unwrap().ranges@
                == self.selection.unwrap().ranges@ && r.selection.unwrap().primary_index
                == self.selection.unwrap().primary_index,
            self.wf() ==> r.wf(),
    {
        let selection = match &self.selection {
            Some(sel) => Some(sel.snapshot()),
            None => None,
        };
        Transaction { changes: self.changes.snapshot(), selection }
    }

    /// Build a transaction that puts `text` at the head of every selection
    /// range of the state. Heads must be ordered and lie within the text.
    pub fn insert(state: &State, text: &Vec<char>) -> (r: Transaction)
        requires
            state.wf(),
            forall|i: int|
                0 <= i < state@.ranges.len() ==> #[trigger] state@.ranges[i].head
                    <= state@.doc.len(),
            forall|i: int|
                0 <= i < state@.ranges.len() - 1 ==> #[trigger] state@.ranges[i].head
                    <= state@.ranges[i + 1].head,
            state@.doc.len() + inserted_len(insert_edits(state@.ranges, text@)) <= usize::MAX,
        ensures
            r.wf(),
            r.changes.len == state@.doc.len(),
            r.selection is None,
            r.changes.m() == ops_of_edits(
                insert_edits(state@.ranges, text@),
                0,
                state@.doc.len() as int,
            ),
            apply_ops(r.changes.m(), state@.doc) == spliced(
                state@.doc,
                insert_edits(state@.ranges, text@),
            ),
    {
        let ghost iem = insert_edits(state@.ranges, text@);
        let mut edits: Vec<Change> = Vec::new();
        let mut i: usize = 0;
        while i < state.selection.ranges.len()
            invariant
                i <= state@.ranges.len(),
                edits@.len() == i,
                iem == insert_edits(state@.ranges, text@),
                forall|k: int| 0 <= k < i ==> #[trigger] edit_m(edits@[k]) == iem[k],
            decreases state@.ranges.len() - i,
        {
            let h = state.selection.ranges[i].head;
            let tc = copy_chars(text);
            edits.push((h, h, Some(tc)));
            i += 1;
        }
        proof {
            assert forall|k: int| 0 <= k < edits@.len() implies edits_m(edits@)[k] == iem[k] by {
                assert(edit_m(edits@[k]) == iem[k]);
            }
            assert(edits_m(edits@) =~= iem);
            assert forall|k: int| 0 <= k < iem.len() implies 0 <= #[trigger] iem[k].0 <= iem[k].1
                <= state@.doc.len() by {
                assert(state@.ranges[k].head <= state@.doc.len());
            }
            assert forall|k: int| 0 <= k < iem.len() - 1 implies #[trigger] iem[k].1 <= iem[k
                + 1].0 by {
                assert(state@.ranges[k].head <= state@.ranges[k + 1].head);
            }
        }
        Transaction::change(state, edits)
    }
}

} // verus!
