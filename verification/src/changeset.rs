use vstd::prelude::*;

use crate::ops::{
    apply_ops, copy_chars, copy_ops, copy_range, len_in, len_out, lemma_apply_len, lemma_cons,
    lemma_len_nonneg, lemma_wf_drop_first, op_len_in, op_len_out, op_wf, ops_m,
    ops_cons, ops_tail, ops_tail_with, ops_wf, OpModel, Operation,
};

verus! {

/// A composable, invertible description of an edit: an ordered run of
/// operations that consumes a text of length `len` and produces one of
/// length `len_after`.
pub struct ChangeSet {
    pub ops: Vec<Operation>,
    /// Length of the text this change-set applies to.
    pub len: usize,
    /// Length of the text it produces.
    pub len_after: usize,
}

impl ChangeSet {
    /// The model of the operation run.
    pub open spec fn m(&self) -> Seq<OpModel> {
        ops_m(self.ops@)
    }

    pub open spec fn wf(&self) -> bool {
        &&& ops_wf(self.m())
        &&& len_in(self.m()) == self.len
        &&& len_out(self.m()) == self.len_after
    }

    /// What this change-set makes of the text `s`.
    pub open spec fn applied(&self, s: Seq<char>) -> Seq<char> {
        apply_ops(self.m(), s)
    }

    /// An identity change-set: it keeps its whole input.
    pub open spec fn is_identity(&self) -> bool {
        self.m().len() == 0 || (self.m().len() == 1 && self.m()[0] is Retain)
    }

    /// The identity change-set over `doc`.
    pub fn new(doc: &Vec<char>) -> (r: ChangeSet)
        ensures
            r.wf(),
            r.is_identity(),
            r.len == doc@.len(),
            r.len_after == doc@.len(),
    {
        let mut ops: Vec<Operation> = Vec::new();
        if doc.len() > 0 {
            ops.push(Operation::Retain(doc.len()));
            proof {
                assert(ops_m(ops@) =~= seq![OpModel::Retain(doc@.len() as int)]);
                lemma_cons(OpModel::Retain(doc@.len() as int), Seq::<OpModel>::empty());
                assert(ops_m(ops@) =~= seq![OpModel::Retain(doc@.len() as int)]
                    + Seq::<OpModel>::empty());
            }
        } else {
            proof {
                assert(ops_m(ops@) =~= Seq::<OpModel>::empty());
            }
        }
        ChangeSet { ops, len: doc.len(), len_after: doc.len() }
    }

    /// Whether this change-set is an identity.
    pub fn is_empty(&self) -> (r: bool)
        ensures
            r == self.is_identity(),
    {
        if self.ops.len() == 0 {
            true
        } else if self.ops.len() == 1 {
            let r = match &self.ops[0] {
                Operation::Retain(_) => true,
                _ => false,
            };
            proof {
                assert(self.m()[0] == self.ops@[0]@);
            }
            r
        } else {
            false
        }
    }

    /// An identity change-set consumes and produces the same length.
    pub proof fn lemma_identity_len(&self)
        requires
            self.wf(),
            self.is_identity(),
        ensures
            self.len == self.len_after,
    {
        if self.m().len() == 0 {
        } else {
            let n = self.m()[0]->Retain_0;
            assert(self.m().drop_first() =~= Seq::<OpModel>::empty());
            assert(len_in(Seq::<OpModel>::empty()) == 0);
            assert(len_out(Seq::<OpModel>::empty()) == 0);
            assert(len_in(self.m()) == op_len_in(self.m()[0]) + len_in(self.m().drop_first()));
            assert(len_out(self.m()) == op_len_out(self.m()[0]) + len_out(self.m().drop_first()));
        }
    }

    /// An identity change-set leaves its text unchanged.
    pub proof fn lemma_identity_applied(&self, s: Seq<char>)
        requires
            self.wf(),
            self.is_identity(),
            s.len() == self.len,
        ensures
            self.applied(s) == s,
    {
        if self.m().len() == 0 {
            assert(s.len() == 0);
            assert(self.applied(s) =~= s);
        } else {
            let n = self.m()[0]->Retain_0;
            assert(self.m().drop_first() =~= Seq::<OpModel>::empty());
            assert(len_in(Seq::<OpModel>::empty()) == 0);
            assert(len_in(self.m()) == op_len_in(self.m()[0]) + len_in(self.m().drop_first()));
            assert(len_in(self.m()) == n);
            assert(self.applied(s) == s.take(n) + apply_ops(Seq::<OpModel>::empty(), s.skip(n)));
            assert(self.applied(s) =~= s);
        }
    }

    /// Apply this change-set to a text. Returns the new text, or `None` when
    /// the change-set does not fit the text's length.
    pub fn apply(&self, doc: &Vec<char>) -> (r: Option<Vec<char>>)
        requires
            self.wf(),
        ensures
            r is Some <==> self.len == doc@.len(),
            r is Some ==> r.unwrap()@ == self.applied(doc@) && r.unwrap()@.len()
                == self.len_after,
    {
        let r = apply_from(&self.ops, 0, doc, 0);
        proof {
            assert(ops_m(self.ops@).skip(0) =~= self.m());
            assert(doc@.skip(0) =~= doc@);
            if r is Some {
                lemma_apply_len(self.m(), doc@);
            }
        }
        r
    }
}

/// Apply the run from operation `i` on to the text from position `pos` on.
fn apply_from(ops: &Vec<Operation>, i: usize, s: &Vec<char>, pos: usize) -> (r: Option<Vec<char>>)
    requires
        i <= ops.len(),
        pos <= s.len(),
        ops_wf(ops_m(ops@)),
    ensures
        r is Some <==> len_in(ops_m(ops@).skip(i as int)) == s@.len() - pos,
        r is Some ==> r.unwrap()@ == apply_ops(ops_m(ops@).skip(i as int), s@.skip(pos as int)),
    decreases ops.len() - i,
{
    let ghost tail_ops = ops_m(ops@).skip(i as int);
    let ghost tail = s@.skip(pos as int);
    proof {
        assert forall|k: int| 0 <= k < tail_ops.len() implies op_wf(#[trigger] tail_ops[k]) by {
            assert(tail_ops[k] == ops_m(ops@)[i + k]);
        }
    }
    if i == ops.len() {
        proof {
            assert(tail_ops =~= Seq::<OpModel>::empty());
        }
        if pos == s.len() {
            let out: Vec<char> = Vec::new();
            proof {
                assert(out@ =~= apply_ops(tail_ops, tail));
            }
            Some(out)
        } else {
            None
        }
    } else {
        proof {
            assert(tail_ops[0] == ops_m(ops@)[i as int]);
            assert(ops_m(ops@)[i as int] == ops@[i as int]@);
            assert(tail_ops.drop_first() =~= ops_m(ops@).skip(i as int + 1));
            lemma_wf_drop_first(tail_ops);
            lemma_len_nonneg(tail_ops.drop_first());
        }
        match &ops[i] {
            Operation::Retain(n0) => {
                let n: usize = *n0;
                if n > s.len() - pos {
                    None
                } else {
                    let mut out = copy_range(s, pos, pos + n);
                    match apply_from(ops, i + 1, s, pos + n) {
                        None => None,
                        Some(mut rest) => {
                            proof {
                                assert(tail.take(n as int) =~= s@.subrange(
                                    pos as int,
                                    pos as int + n as int,
                                ));
                                assert(tail.skip(n as int) =~= s@.skip(pos as int + n as int));
                            }
                            out.append(&mut rest);
                            Some(out)
                        },
                    }
                }
            },
            Operation::Delete(n0) => {
                let n: usize = *n0;
                if n > s.len() - pos {
                    None
                } else {
                    proof {
                        assert(tail.skip(n as int) =~= s@.skip(pos as int + n as int));
                    }
                    apply_from(ops, i + 1, s, pos + n)
                }
            },
            Operation::Insert(t) => {
                let mut out = copy_chars(t);
                match apply_from(ops, i + 1, s, pos) {
                    None => None,
                    Some(mut rest) => {
                        out.append(&mut rest);
                        Some(out)
                    },
                }
            },
        }
    }
}

impl ChangeSet {
    /// Compose two change-sets applied in sequence into one.
    ///
    /// This is the composition law: for any text `s` that `self` fits,
    /// the result applied to `s` equals `other` applied to `self` applied
    /// to `s`.
    pub fn compose(&self, other: &ChangeSet) -> (r: ChangeSet)
        requires
            self.wf(),
            other.wf(),
            self.len_after == other.len,
        ensures
            r.wf(),
            r.len == self.len,
            r.len_after == other.len_after,
            forall|s: Seq<char>|
                #![trigger apply_ops(r.m(), s)]
                s.len() == self.len ==> apply_ops(r.m(), s) == apply_ops(
                    other.m(),
                    apply_ops(self.m(), s),
                ),
            self.is_identity() ==> r.m() == other.m(),
            self.is_identity() ==> r.is_identity() == other.is_identity(),
    {
        if self.is_empty() {
            proof {
                self.lemma_identity_len();
            }
            let r = ChangeSet {
                ops: copy_ops(&other.ops),
                len: self.len,
                len_after: other.len_after,
            };
            proof {
                assert forall|s: Seq<char>| s.len() == self.len implies #[trigger] apply_ops(
                    r.m(),
                    s,
                ) == apply_ops(other.m(), apply_ops(self.m(), s)) by {
                    self.lemma_identity_applied(s);
                }
            }
            return r;
        }
        let ops = compose_ops(&self.ops, &other.ops);
        ChangeSet { ops, len: self.len, len_after: other.len_after }
    }
}

/// Merge two operation runs applied in sequence into one run.
#[verifier::rlimit(100)]
#[verifier::spinoff_prover]
fn compose_ops(a: &Vec<Operation>, b: &Vec<Operation>) -> (r: Vec<Operation>)
    requires
        ops_wf(ops_m(a@)),
        ops_wf(ops_m(b@)),
        len_out(ops_m(a@)) == len_in(ops_m(b@)),
    ensures
        ops_wf(ops_m(r@)),
        len_in(ops_m(r@)) == len_in(ops_m(a@)),
        len_out(ops_m(r@)) == len_out(ops_m(b@)),
        forall|s: Seq<char>|
            #![trigger apply_ops(ops_m(r@), s)]
            s.len() == len_in(ops_m(a@)) ==> apply_ops(ops_m(r@), s) == apply_ops(
                ops_m(b@),
                apply_ops(ops_m(a@), s),
            ),
    decreases a@.len() + b@.len(),
{
    let ghost am = ops_m(a@);
    let ghost bm = ops_m(b@);
    if a.len() == 0 {
        let r = copy_ops(b);
        proof {
            assert forall|s: Seq<char>| s.len() == len_in(am) implies #[trigger] apply_ops(
                ops_m(r@),
                s,
            ) == apply_ops(bm, apply_ops(am, s)) by {
                assert(s =~= Seq::<char>::empty());
                assert(apply_ops(am, s) =~= s);
            }
        }
        return r;
    }
    if b.len() == 0 {
        let r = copy_ops(a);
        proof {
            assert forall|s: Seq<char>| s.len() == len_in(am) implies #[trigger] apply_ops(
                ops_m(r@),
                s,
            ) == apply_ops(bm, apply_ops(am, s)) by {
                lemma_apply_len(am, s);
                assert(apply_ops(am, s) =~= Seq::<char>::empty());
                assert(apply_ops(bm, apply_ops(am, s)) =~= apply_ops(am, s));
            }
        }
        return r;
    }
    proof {
        assert(am[0] == a@[0]@);
        assert(bm[0] == b@[0]@);
        lemma_wf_drop_first(am);
        lemma_wf_drop_first(bm);
        lemma_len_nonneg(am.drop_first());
        lemma_len_nonneg(bm.drop_first());
        assert(op_wf(am[0]));
        assert(op_wf(bm[0]));
        assert(len_in(am) == op_len_in(am[0]) + len_in(am.drop_first()));
        assert(len_out(am) == op_len_out(am[0]) + len_out(am.drop_first()));
        assert(len_in(bm) == op_len_in(bm[0]) + len_in(bm.drop_first()));
        assert(len_out(bm) == op_len_out(bm[0]) + len_out(bm.drop_first()));
    }
    let ghost amd = am.drop_first();
    let ghost bmd = bm.drop_first();
    match (&a[0], &b[0]) {
        (Operation::Delete(d0), _) => {
            let d: usize = *d0;
            let at = ops_tail(a);
            let rest = compose_ops(&at, b);
            let ghost restm = ops_m(rest@);
            let r = ops_cons(Operation::Delete(d), rest);
            proof {
                let dm = OpModel::Delete(d as int);
                let rm = ops_m(r@);
                lemma_cons(dm, restm);
                assert forall|s: Seq<char>| s.len() == len_in(am) implies #[trigger] apply_ops(
                    rm,
                    s,
                ) == apply_ops(bm, apply_ops(am, s)) by {
                    let u = s.skip(d as int);
                    assert(apply_ops(restm, u) == apply_ops(bm, apply_ops(amd, u)));
                    assert(apply_ops(am, s) == apply_ops(amd, u));
                    assert(apply_ops(rm, s) == apply_ops(restm, u));
                }
            }
            r
        },
        (_, Operation::Insert(t0)) => {
            let tcopy = copy_chars(t0);
            let bt = ops_tail(b);
            let rest = compose_ops(a, &bt);
            let ghost restm = ops_m(rest@);
            let r = ops_cons(Operation::Insert(tcopy), rest);
            proof {
                let tm = OpModel::Insert(t0@);
                let rm = ops_m(r@);
                lemma_cons(tm, restm);
                assert forall|s: Seq<char>| s.len() == len_in(am) implies #[trigger] apply_ops(
                    rm,
                    s,
                ) == apply_ops(bm, apply_ops(am, s)) by {
                    let y = apply_ops(am, s);
                    assert(apply_ops(restm, s) == apply_ops(bmd, y));
                    assert(apply_ops(bm, y) == t0@ + apply_ops(bmd, y));
                    assert(apply_ops(rm, s) == t0@ + apply_ops(restm, s));
                }
            }
            r
        },
        (Operation::Retain(i0), Operation::Retain(j0)) => {
            let i: usize = *i0;
            let j: usize = *j0;
            if i == j {
                let at = ops_tail(a);
                let bt = ops_tail(b);
                let rest = compose_ops(&at, &bt);
                let ghost restm = ops_m(rest@);
                let r = ops_cons(Operation::Retain(i), rest);
                proof {
                    let rm = ops_m(r@);
                    lemma_cons(OpModel::Retain(i as int), restm);
                    assert forall|s: Seq<char>| s.len() == len_in(am) implies #[trigger] apply_ops(
                        rm,
                        s,
                    ) == apply_ops(bm, apply_ops(am, s)) by {
                        let u = s.skip(i as int);
                        let x = apply_ops(amd, u);
                        lemma_apply_len(amd, u);
                        assert(apply_ops(restm, u) == apply_ops(bmd, x));
                        assert(apply_ops(am, s) == s.take(i as int) + x);
                        assert((s.take(i as int) + x).take(j as int) =~= s.take(i as int));
                        assert((s.take(i as int) + x).skip(j as int) =~= x);
                        assert(apply_ops(bm, apply_ops(am, s)) == s.take(i as int) + apply_ops(
                            bmd,
                            x,
                        ));
                        assert(apply_ops(rm, s) == s.take(i as int) + apply_ops(restm, u));
                    }
                }
                r
            } else if i < j {
                let at = ops_tail(a);
                let bt = ops_tail_with(b, Operation::Retain(j - i));
                let ghost btm = ops_m(bt@);
                proof {
                    lemma_cons(OpModel::Retain(j - i), bmd);
                }
                let rest = compose_ops(&at, &bt);
                let ghost restm = ops_m(rest@);
                let r = ops_cons(Operation::Retain(i), rest);
                proof {
                    let rm = ops_m(r@);
                    lemma_cons(OpModel::Retain(i as int), restm);
                    assert forall|s: Seq<char>| s.len() == len_in(am) implies #[trigger] apply_ops(
                        rm,
                        s,
                    ) == apply_ops(bm, apply_ops(am, s)) by {
                        let u = s.skip(i as int);
                        let x = apply_ops(amd, u);
                        lemma_apply_len(amd, u);
                        assert(apply_ops(restm, u) == apply_ops(btm, x));
                        assert(apply_ops(am, s) == s.take(i as int) + x);
                        assert((s.take(i as int) + x).take(j as int) =~= s.take(i as int) + x.take(
                            j - i,
                        ));
                        assert((s.take(i as int) + x).skip(j as int) =~= x.skip(j - i));
                        assert(apply_ops(btm, x) == x.take(j - i) + apply_ops(bmd, x.skip(j - i)));
                        assert(apply_ops(bm, apply_ops(am, s)) == (s.take(i as int) + x.take(j - i))
                            + apply_ops(bmd, x.skip(j - i)));
                        assert((s.take(i as int) + x.take(j - i)) + apply_ops(bmd, x.skip(j - i))
                            =~= s.take(i as int) + (x.take(j - i) + apply_ops(bmd, x.skip(j - i))));
                        assert(apply_ops(rm, s) == s.take(i as int) + apply_ops(restm, u));
                    }
                }
                r
            } else {
                let at = ops_tail_with(a, Operation::Retain(i - j));
                let ghost atm = ops_m(at@);
                proof {
                    lemma_cons(OpModel::Retain(i - j), amd);
                }
                let bt = ops_tail(b);
                let rest = compose_ops(&at, &bt);
                let ghost restm = ops_m(rest@);
                let r = ops_cons(Operation::Retain(j), rest);
                proof {
                    let rm = ops_m(r@);
                    lemma_cons(OpModel::Retain(j as int), restm);
                    assert forall|s: Seq<char>| s.len() == len_in(am) implies #[trigger] apply_ops(
                        rm,
                        s,
                    ) == apply_ops(bm, apply_ops(am, s)) by {
                        let u = s.skip(j as int);
                        let x = apply_ops(amd, s.skip(i as int));
                        lemma_apply_len(amd, s.skip(i as int));
                        assert(u.take(i - j) =~= s.subrange(j as int, i as int));
                        assert(u.skip(i - j) =~= s.skip(i as int));
                        assert(apply_ops(atm, u) == s.subrange(j as int, i as int) + x);
                        assert(apply_ops(restm, u) == apply_ops(bmd, apply_ops(atm, u)));
                        assert(apply_ops(am, s) == s.take(i as int) + x);
                        assert((s.take(i as int) + x).take(j as int) =~= s.take(j as int));
                        assert((s.take(i as int) + x).skip(j as int) =~= s.subrange(
                            j as int,
                            i as int,
                        ) + x);
                        assert(apply_ops(bm, apply_ops(am, s)) == s.take(j as int) + apply_ops(
                            bmd,
                            s.subrange(j as int, i as int) + x,
                        ));
                        assert(apply_ops(rm, s) == s.take(j as int) + apply_ops(restm, u));
                    }
                }
                r
            }
        },
        (Operation::Retain(i0), Operation::Delete(j0)) => {
            let i: usize = *i0;
            let j: usize = *j0;
            if i < j {
                let at = ops_tail(a);
                let bt = ops_tail_with(b, Operation::Delete(j - i));
                let ghost btm = ops_m(bt@);
                proof {
                    lemma_cons(OpModel::Delete(j - i), bmd);
                }
                let rest = compose_ops(&at, &bt);
                let ghost restm = ops_m(rest@);
                let r = ops_cons(Operation::Delete(i), rest);
                proof {
                    let rm = ops_m(r@);
                    lemma_cons(OpModel::Delete(i as int), restm);
                    assert forall|s: Seq<char>| s.len() == len_in(am) implies #[trigger] apply_ops(
                        rm,
                        s,
                    ) == apply_ops(bm, apply_ops(am, s)) by {
                        let u = s.skip(i as int);
                        let x = apply_ops(amd, u);
                        lemma_apply_len(amd, u);
                        assert(apply_ops(restm, u) == apply_ops(btm, x));
                        assert(apply_ops(am, s) == s.take(i as int) + x);
                        assert((s.take(i as int) + x).skip(j as int) =~= x.skip(j - i));
                        assert(apply_ops(btm, x) == apply_ops(bmd, x.skip(j - i)));
                        assert(apply_ops(bm, apply_ops(am, s)) == apply_ops(bmd, x.skip(j - i)));
                        assert(apply_ops(rm, s) == apply_ops(restm, u));
                    }
                }
                r
            } else if i == j {
                let at = ops_tail(a);
                let bt = ops_tail(b);
                let rest = compose_ops(&at, &bt);
                let ghost restm = ops_m(rest@);
                let r = ops_cons(Operation::Delete(i), rest);
                proof {
                    let rm = ops_m(r@);
                    lemma_cons(OpModel::Delete(i as int), restm);
                    assert forall|s: Seq<char>| s.len() == len_in(am) implies #[trigger] apply_ops(
                        rm,
                        s,
                    ) == apply_ops(bm, apply_ops(am, s)) by {
                        let u = s.skip(i as int);
                        let x = apply_ops(amd, u);
                        lemma_apply_len(amd, u);
                        assert(apply_ops(restm, u) == apply_ops(bmd, x));
                        assert(apply_ops(am, s) == s.take(i as int) + x);
                        assert((s.take(i as int) + x).skip(j as int) =~= x);
                        assert(apply_ops(bm, apply_ops(am, s)) == apply_ops(bmd, x));
                        assert(apply_ops(rm, s) == apply_ops(restm, u));
                    }
                }
                r
            } else {
                let at = ops_tail_with(a, Operation::Retain(i - j));
                let ghost atm = ops_m(at@);
                proof {
                    lemma_cons(OpModel::Retain(i - j), amd);
                }
                let bt = ops_tail(b);
                let rest = compose_ops(&at, &bt);
                let ghost restm = ops_m(rest@);
                let r = ops_cons(Operation::Delete(j), rest);
                proof {
                    let rm = ops_m(r@);
                    lemma_cons(OpModel::Delete(j as int), restm);
                    assert forall|s: Seq<char>| s.len() == len_in(am) implies #[trigger] apply_ops(
                        rm,
                        s,
                    ) == apply_ops(bm, apply_ops(am, s)) by {
                        let u = s.skip(j as int);
                        let x = apply_ops(amd, s.skip(i as int));
                        lemma_apply_len(amd, s.skip(i as int));
                        assert(u.take(i - j) =~= s.subrange(j as int, i as int));
                        assert(u.skip(i - j) =~= s.skip(i as int));
                        assert(apply_ops(atm, u) == s.subrange(j as int, i as int) + x);
                        assert(apply_ops(restm, u) == apply_ops(bmd, apply_ops(atm, u)));
                        assert(apply_ops(am, s) == s.take(i as int) + x);
                        assert((s.take(i as int) + x).skip(j as int) =~= s.subrange(
                            j as int,
                            i as int,
                        ) + x);
                        assert(apply_ops(bm, apply_ops(am, s)) == apply_ops(
                            bmd,
                            s.subrange(j as int, i as int) + x,
                        ));
                        assert(apply_ops(rm, s) == apply_ops(restm, u));
                    }
                }
                r
            }
        },
        (Operation::Insert(t0), Operation::Retain(j0)) => {
            let j: usize = *j0;
            let tl: usize = t0.len();
            if j < tl {
                let front = copy_range(t0, 0, j);
                let back = copy_range(t0, j, tl);
                proof {
                    assert(front@ =~= t0@.take(j as int));
                    assert(back@ =~= t0@.skip(j as int));
                }
                let at = ops_tail_with(a, Operation::Insert(back));
                let ghost atm = ops_m(at@);
                proof {
                    lemma_cons(OpModel::Insert(t0@.skip(j as int)), amd);
                }
                let bt = ops_tail(b);
                let rest = compose_ops(&at, &bt);
                let ghost restm = ops_m(rest@);
                let r = ops_cons(Operation::Insert(front), rest);
                proof {
                    let rm = ops_m(r@);
                    lemma_cons(OpModel::Insert(t0@.take(j as int)), restm);
                    assert forall|s: Seq<char>| s.len() == len_in(am) implies #[trigger] apply_ops(
                        rm,
                        s,
                    ) == apply_ops(bm, apply_ops(am, s)) by {
                        let x = apply_ops(amd, s);
                        lemma_apply_len(amd, s);
                        assert(apply_ops(atm, s) == t0@.skip(j as int) + x);
                        assert(apply_ops(restm, s) == apply_ops(bmd, apply_ops(atm, s)));
                        assert(apply_ops(am, s) == t0@ + x);
                        assert((t0@ + x).take(j as int) =~= t0@.take(j as int));
                        assert((t0@ + x).skip(j as int) =~= t0@.skip(j as int) + x);
                        assert(apply_ops(bm, apply_ops(am, s)) == t0@.take(j as int) + apply_ops(
                            bmd,
                            t0@.skip(j as int) + x,
                        ));
                        assert(apply_ops(rm, s) == t0@.take(j as int) + apply_ops(restm, s));
                    }
                }
                r
            } else if j == tl {
                let tcopy = copy_chars(t0);
                let at = ops_tail(a);
                let bt = ops_tail(b);
                let rest = compose_ops(&at, &bt);
                let ghost restm = ops_m(rest@);
                let r = ops_cons(Operation::Insert(tcopy), rest);
                proof {
                    let rm = ops_m(r@);
                    lemma_cons(OpModel::Insert(t0@), restm);
                    assert forall|s: Seq<char>| s.len() == len_in(am) implies #[trigger] apply_ops(
                        rm,
                        s,
                    ) == apply_ops(bm, apply_ops(am, s)) by {
                        let x = apply_ops(amd, s);
                        lemma_apply_len(amd, s);
                        assert(apply_ops(restm, s) == apply_ops(bmd, x));
                        assert(apply_ops(am, s) == t0@ + x);
                        assert((t0@ + x).take(j as int) =~= t0@);
                        assert((t0@ + x).skip(j as int) =~= x);
                        assert(apply_ops(bm, apply_ops(am, s)) == t0@ + apply_ops(bmd, x));
                        assert(apply_ops(rm, s) == t0@ + apply_ops(restm, s));
                    }
                }
                r
            } else {
                let tcopy = copy_chars(t0);
                let at = ops_tail(a);
                let bt = ops_tail_with(b, Operation::Retain(j - tl));
                let ghost btm = ops_m(bt@);
                proof {
                    lemma_cons(OpModel::Retain(j - tl), bmd);
                }
                let rest = compose_ops(&at, &bt);
                let ghost restm = ops_m(rest@);
                let r = ops_cons(Operation::Insert(tcopy), rest);
                proof {
                    let rm = ops_m(r@);
                    lemma_cons(OpModel::Insert(t0@), restm);
                    assert forall|s: Seq<char>| s.len() == len_in(am) implies #[trigger] apply_ops(
                        rm,
                        s,
                    ) == apply_ops(bm, apply_ops(am, s)) by {
                        let x = apply_ops(amd, s);
                        lemma_apply_len(amd, s);
                        assert(apply_ops(restm, s) == apply_ops(btm, x));
                        assert(apply_ops(am, s) == t0@ + x);
                        assert((t0@ + x).take(j as int) =~= t0@ + x.take(j - tl));
                        assert((t0@ + x).skip(j as int) =~= x.skip(j - tl));
                        assert(apply_ops(btm, x) == x.take(j - tl) + apply_ops(
                            bmd,
                            x.skip(j - tl),
                        ));
                        assert(apply_ops(bm, apply_ops(am, s)) == (t0@ + x.take(j - tl))
                            + apply_ops(bmd, x.skip(j - tl)));
                        assert((t0@ + x.take(j - tl)) + apply_ops(bmd, x.skip(j - tl)) =~= t0@ + (
                        x.take(j - tl) + apply_ops(bmd, x.skip(j - tl))));
                        assert(apply_ops(rm, s) == t0@ + apply_ops(restm, s));
                    }
                }
                r
            }
        },
        (Operation::Insert(t0), Operation::Delete(j0)) => {
            let j: usize = *j0;
            let tl: usize = t0.len();
            if j < tl {
                let back = copy_range(t0, j, tl);
                proof {
                    assert(back@ =~= t0@.skip(j as int));
                }
                let at = ops_tail_with(a, Operation::Insert(back));
                let ghost atm = ops_m(at@);
                proof {
                    lemma_cons(OpModel::Insert(t0@.skip(j as int)), amd);
                }
                let bt = ops_tail(b);
                let r = compose_ops(&at, &bt);
                proof {
                    let rm = ops_m(r@);
                    assert forall|s: Seq<char>| s.len() == len_in(am) implies #[trigger] apply_ops(
                        rm,
                        s,
                    ) == apply_ops(bm, apply_ops(am, s)) by {
                        let x = apply_ops(amd, s);
                        lemma_apply_len(amd, s);
                        assert(apply_ops(atm, s) == t0@.skip(j as int) + x);
                        assert(apply_ops(rm, s) == apply_ops(bmd, apply_ops(atm, s)));
                        assert(apply_ops(am, s) == t0@ + x);
                        assert((t0@ + x).skip(j as int) =~= t0@.skip(j as int) + x);
                        assert(apply_ops(bm, apply_ops(am, s)) == apply_ops(
                            bmd,
                            t0@.skip(j as int) + x,
                        ));
                    }
                }
                r
            } else if j == tl {
                let at = ops_tail(a);
                let bt = ops_tail(b);
                let r = compose_ops(&at, &bt);
                proof {
                    let rm = ops_m(r@);
                    assert forall|s: Seq<char>| s.len() == len_in(am) implies #[trigger] apply_ops(
                        rm,
                        s,
                    ) == apply_ops(bm, apply_ops(am, s)) by {
                        let x = apply_ops(amd, s);
                        lemma_apply_len(amd, s);
                        assert(apply_ops(rm, s) == apply_ops(bmd, x));
                        assert(apply_ops(am, s) == t0@ + x);
                        assert((t0@ + x).skip(j as int) =~= x);
                        assert(apply_ops(bm, apply_ops(am, s)) == apply_ops(bmd, x));
                    }
                }
                r
            } else {
                let at = ops_tail(a);
                let bt = ops_tail_with(b, Operation::Delete(j - tl));
                let ghost btm = ops_m(bt@);
                proof {
                    lemma_cons(OpModel::Delete(j - tl), bmd);
                }
                let r = compose_ops(&at, &bt);
                proof {
                    let rm = ops_m(r@);
                    assert forall|s: Seq<char>| s.len() == len_in(am) implies #[trigger] apply_ops(
                        rm,
                        s,
                    ) == apply_ops(bm, apply_ops(am, s)) by {
                        let x = apply_ops(amd, s);
                        lemma_apply_len(amd, s);
                        assert(apply_ops(rm, s) == apply_ops(btm, x));
                        assert(apply_ops(btm, x) == apply_ops(bmd, x.skip(j - tl)));
                        assert(apply_ops(am, s) == t0@ + x);
                        assert((t0@ + x).skip(j as int) =~= x.skip(j - tl));
                        assert(apply_ops(bm, apply_ops(am, s)) == apply_ops(bmd, x.skip(j - tl)));
                    }
                }
                r
            }
        },
    }
}

impl ChangeSet {
    /// The inverse of this change-set with respect to the text it was
    /// applied to.
    ///
    /// This is the undo-exactness law: the inverse applied to what this
    /// change-set made of `original` gives back `original`, character for
    /// character.
    pub fn invert(&self, original: &Vec<char>) -> (r: ChangeSet)
        requires
            self.wf(),
            self.len == original@.len(),
        ensures
            r.wf(),
            r.len == self.len_after,
            r.len_after == self.len,
            apply_ops(r.m(), apply_ops(self.m(), original@)) == original@,
            r.m() == invert_ops(self.m(), original@),
            r.m().len() == self.m().len(),
            r.is_identity() == self.is_identity(),
    {
        proof {
            assert(ops_m(self.ops@).skip(0) =~= self.m());
            assert(original@.skip(0) =~= original@);
        }
        let ops = invert_from(&self.ops, 0, original, 0);
        ChangeSet { ops, len: self.len_after, len_after: self.len }
    }
}

/// The inverse of a run against the text it consumes: retains stay,
/// deletions bring the deleted text back, insertions are deleted.
pub open spec fn invert_ops(ops: Seq<OpModel>, s: Seq<char>) -> Seq<OpModel>
    decreases ops.len(),
{
    if ops.len() == 0 {
        Seq::<OpModel>::empty()
    } else {
        match ops[0] {
            OpModel::Retain(n) => seq![OpModel::Retain(n)] + invert_ops(
                ops.drop_first(),
                s.skip(n),
            ),
            OpModel::Delete(n) => seq![OpModel::Insert(s.take(n))] + invert_ops(
                ops.drop_first(),
                s.skip(n),
            ),
            OpModel::Insert(t) => seq![OpModel::Delete(t.len() as int)] + invert_ops(
                ops.drop_first(),
                s,
            ),
        }
    }
}

/// Invert the run from operation `i` on, against the original text from
/// position `pos` on.
fn invert_from(ops: &Vec<Operation>, i: usize, orig: &Vec<char>, pos: usize) -> (r: Vec<
    Operation,
>)
    requires
        i <= ops.len(),
        pos <= orig.len(),
        ops_wf(ops_m(ops@)),
        len_in(ops_m(ops@).skip(i as int)) == orig@.len() - pos,
    ensures
        ops_wf(ops_m(r@)),
        ops_m(r@) == invert_ops(ops_m(ops@).skip(i as int), orig@.skip(pos as int)),
        ops_m(r@).len() == ops_m(ops@).skip(i as int).len(),
        ops_m(ops@).skip(i as int).len() > 0 ==> ((ops_m(r@)[0] is Retain) <==> (ops_m(
            ops@,
        ).skip(i as int)[0] is Retain)),
        len_in(ops_m(r@)) == len_out(ops_m(ops@).skip(i as int)),
        len_out(ops_m(r@)) == len_in(ops_m(ops@).skip(i as int)),
        apply_ops(ops_m(r@), apply_ops(ops_m(ops@).skip(i as int), orig@.skip(pos as int)))
            == orig@.skip(pos as int),
    decreases ops.len() - i,
{
    let ghost tail_ops = ops_m(ops@).skip(i as int);
    let ghost tail = orig@.skip(pos as int);
    proof {
        assert forall|k: int| 0 <= k < tail_ops.len() implies op_wf(#[trigger] tail_ops[k]) by {
            assert(tail_ops[k] == ops_m(ops@)[i + k]);
        }
    }
    if i == ops.len() {
        let r: Vec<Operation> = Vec::new();
        proof {
            assert(tail_ops =~= Seq::<OpModel>::empty());
            assert(ops_m(r@) =~= Seq::<OpModel>::empty());
            assert(tail =~= Seq::<char>::empty());
            assert(apply_ops(ops_m(r@), apply_ops(tail_ops, tail)) =~= tail);
            assert(ops_m(r@) =~= invert_ops(tail_ops, tail));
        }
        r
    } else {
        proof {
            assert(tail_ops[0] == ops_m(ops@)[i as int]);
            assert(ops_m(ops@)[i as int] == ops@[i as int]@);
            assert(tail_ops.drop_first() =~= ops_m(ops@).skip(i as int + 1));
            lemma_wf_drop_first(tail_ops);
            lemma_len_nonneg(tail_ops.drop_first());
            assert(op_wf(tail_ops[0]));
            assert(len_in(tail_ops) == op_len_in(tail_ops[0]) + len_in(tail_ops.drop_first()));
            assert(len_out(tail_ops) == op_len_out(tail_ops[0]) + len_out(tail_ops.drop_first()));
        }
        let ghost tod = tail_ops.drop_first();
        match &ops[i] {
            Operation::Retain(n0) => {
                let n: usize = *n0;
                let rest = invert_from(ops, i + 1, orig, pos + n);
                let ghost restm = ops_m(rest@);
                let r = ops_cons(Operation::Retain(n), rest);
                proof {
                    let rm = ops_m(r@);
                    lemma_cons(OpModel::Retain(n as int), restm);
                    let u2 = orig@.skip(pos as int + n as int);
                    let x = apply_ops(tod, u2);
                    lemma_apply_len(tod, u2);
                    assert(tail.skip(n as int) =~= u2);
                    assert(apply_ops(tail_ops, tail) == tail.take(n as int) + x);
                    assert((tail.take(n as int) + x).take(n as int) =~= tail.take(n as int));
                    assert((tail.take(n as int) + x).skip(n as int) =~= x);
                    assert(apply_ops(rm, apply_ops(tail_ops, tail)) == tail.take(n as int)
                        + apply_ops(restm, x));
                    assert(apply_ops(restm, x) == u2);
                    assert(tail.take(n as int) + u2 =~= tail);
                    assert(rm == invert_ops(tail_ops, tail));
                }
                r
            },
            Operation::Delete(n0) => {
                let n: usize = *n0;
                let deleted = copy_range(orig, pos, pos + n);
                let rest = invert_from(ops, i + 1, orig, pos + n);
                let ghost restm = ops_m(rest@);
                let r = ops_cons(Operation::Insert(deleted), rest);
                proof {
                    let rm = ops_m(r@);
                    let dm = OpModel::Insert(
                        orig@.subrange(pos as int, pos as int + n as int),
                    );
                    lemma_cons(dm, restm);
                    let u2 = orig@.skip(pos as int + n as int);
                    let x = apply_ops(tod, u2);
                    lemma_apply_len(tod, u2);
                    assert(tail.skip(n as int) =~= u2);
                    assert(apply_ops(tail_ops, tail) == x);
                    assert(apply_ops(rm, x) == orig@.subrange(pos as int, pos as int + n as int)
                        + apply_ops(restm, x));
                    assert(apply_ops(restm, x) == u2);
                    assert(orig@.subrange(pos as int, pos as int + n as int) + u2 =~= tail);
                    assert(tail.take(n as int) =~= orig@.subrange(pos as int, pos as int + n as int));
                    assert(rm == invert_ops(tail_ops, tail));
                }
                r
            },
            Operation::Insert(t0) => {
                let tl: usize = t0.len();
                let rest = invert_from(ops, i + 1, orig, pos);
                let ghost restm = ops_m(rest@);
                let r = ops_cons(Operation::Delete(tl), rest);
                proof {
                    let rm = ops_m(r@);
                    lemma_cons(OpModel::Delete(tl as int), restm);
                    let x = apply_ops(tod, tail);
                    lemma_apply_len(tod, tail);
                    assert(apply_ops(tail_ops, tail) == t0@ + x);
                    assert((t0@ + x).skip(tl as int) =~= x);
                    assert(apply_ops(rm, t0@ + x) == apply_ops(restm, x));
                    assert(apply_ops(restm, x) == tail);
                    assert(rm == invert_ops(tail_ops, tail));
                }
                r
            },
        }
    }
}

impl ChangeSet {
    /// An independent copy of this change-set.
    pub fn snapshot(&self) -> (r: ChangeSet)
        ensures
            r.m() == self.m(),
            r.len == self.len,
            r.len_after == self.len_after,
            r.wf() == self.wf(),
            r.is_identity() == self.is_identity(),
    {
        ChangeSet { ops: copy_ops(&self.ops), len: self.len, len_after: self.len_after }
    }
}

/// Where a position in a run's input text lands in its output text,
/// relative to the start of the remaining run. A position inside a
/// deleted span lands at the point of the deletion.
pub open spec fn map_pos_spec(ops: Seq<OpModel>, pos: int) -> int
    decreases ops.len(),
{
    if ops.len() == 0 {
        pos
    } else {
        match ops[0] {
            OpModel::Retain(n) => if pos < n {
                pos
            } else {
                n + map_pos_spec(ops.drop_first(), pos - n)
            },
            OpModel::Delete(n) => if pos < n {
                0
            } else {
                map_pos_spec(ops.drop_first(), pos - n)
            },
            OpModel::Insert(t) => t.len() + map_pos_spec(ops.drop_first(), pos),
        }
    }
}

/// Map a position from index `i` of the run on, with `pos` relative to the
/// remaining input.
fn map_pos_from(ops: &Vec<Operation>, i: usize, pos: usize) -> (r: usize)
    requires
        i <= ops.len(),
        ops_wf(ops_m(ops@)),
        pos <= len_in(ops_m(ops@).skip(i as int)),
        len_out(ops_m(ops@).skip(i as int)) <= usize::MAX,
    ensures
        r == map_pos_spec(ops_m(ops@).skip(i as int), pos as int),
        r <= len_out(ops_m(ops@).skip(i as int)),
    decreases ops.len() - i,
{
    let ghost tail_ops = ops_m(ops@).skip(i as int);
    proof {
        assert forall|k: int| 0 <= k < tail_ops.len() implies op_wf(#[trigger] tail_ops[k]) by {
            assert(tail_ops[k] == ops_m(ops@)[i + k]);
        }
    }
    if i == ops.len() {
        proof {
            assert(tail_ops =~= Seq::<OpModel>::empty());
            assert(len_in(tail_ops) == 0);
            assert(len_out(tail_ops) == 0);
        }
        pos
    } else {
        proof {
            assert(tail_ops[0] == ops_m(ops@)[i as int]);
            assert(ops_m(ops@)[i as int] == ops@[i as int]@);
            assert(tail_ops.drop_first() =~= ops_m(ops@).skip(i as int + 1));
            lemma_wf_drop_first(tail_ops);
            lemma_len_nonneg(tail_ops.drop_first());
            assert(op_wf(tail_ops[0]));
            assert(len_in(tail_ops) == op_len_in(tail_ops[0]) + len_in(tail_ops.drop_first()));
            assert(len_out(tail_ops) == op_len_out(tail_ops[0]) + len_out(tail_ops.drop_first()));
        }
        match &ops[i] {
            Operation::Retain(n0) => {
                let n: usize = *n0;
                if pos < n {
                    pos
                } else {
                    let rest = map_pos_from(ops, i + 1, pos - n);
                    n + rest
                }
            },
            Operation::Delete(n0) => {
                let n: usize = *n0;
                if pos < n {
                    0
                } else {
                    map_pos_from(ops, i + 1, pos - n)
                }
            },
            Operation::Insert(t) => {
                let tl: usize = t.len();
                let rest = map_pos_from(ops, i + 1, pos);
                tl + rest
            },
        }
    }
}

impl ChangeSet {
    /// Where a position in this change-set's input text lands in its
    /// output text: retained text keeps its place, a position inside a
    /// deleted span lands at the deletion point, and insertions before a
    /// position push it right.
    pub fn map_pos(&self, pos: usize) -> (r: usize)
        requires
            self.wf(),
            pos <= self.len,
        ensures
            r == map_pos_spec(self.m(), pos as int),
            r <= self.len_after,
    {
        proof {
            assert(ops_m(self.ops@).skip(0) =~= self.m());
        }
        map_pos_from(&self.ops, 0, pos)
    }
}

} // verus!
