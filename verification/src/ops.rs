use vstd::prelude::*;

verus! {

/// One primitive edit instruction. A change-set is an ordered run of these,
/// consuming its input text left to right while emitting the output text.
pub enum Operation {
    /// Keep the next `n` characters of the input.
    Retain(usize),
    /// Drop the next `n` characters of the input.
    Delete(usize),
    /// Emit this text into the output without consuming input.
    Insert(Vec<char>),
}

/// Mathematical model of an `Operation`.
#[verifier::ext_equal]
pub enum OpModel {
    Retain(int),
    Delete(int),
    Insert(Seq<char>),
}

impl View for Operation {
    type V = OpModel;

    open spec fn view(&self) -> OpModel {
        match self {
            Operation::Retain(n) => OpModel::Retain(*n as int),
            Operation::Delete(n) => OpModel::Delete(*n as int),
            Operation::Insert(t) => OpModel::Insert(t@),
        }
    }
}

/// The models of a run of operations.
pub open spec fn ops_m(ops: Seq<Operation>) -> Seq<OpModel> {
    ops.map_values(|op: Operation| op@)
}

/// Characters of the input that one operation consumes.
pub open spec fn op_len_in(op: OpModel) -> int {
    match op {
        OpModel::Retain(n) => n,
        OpModel::Delete(n) => n,
        OpModel::Insert(_) => 0,
    }
}

/// Characters of the output that one operation produces.
pub open spec fn op_len_out(op: OpModel) -> int {
    match op {
        OpModel::Retain(n) => n,
        OpModel::Delete(_) => 0,
        OpModel::Insert(t) => t.len() as int,
    }
}

/// No operation may be a no-op; this keeps emptiness of a run structural.
pub open spec fn op_wf(op: OpModel) -> bool {
    match op {
        OpModel::Retain(n) => n > 0,
        OpModel::Delete(n) => n > 0,
        OpModel::Insert(t) => t.len() > 0,
    }
}

pub open spec fn ops_wf(ops: Seq<OpModel>) -> bool {
    forall|i: int| 0 <= i < ops.len() ==> op_wf(#[trigger] ops[i])
}

/// Length of the text that a run consumes.
pub open spec fn len_in(ops: Seq<OpModel>) -> int
    decreases ops.len(),
{
    if ops.len() == 0 {
        0
    } else {
        op_len_in(ops[0]) + len_in(ops.drop_first())
    }
}

/// Length of the text that a run produces.
pub open spec fn len_out(ops: Seq<OpModel>) -> int
    decreases ops.len(),
{
    if ops.len() == 0 {
        0
    } else {
        op_len_out(ops[0]) + len_out(ops.drop_first())
    }
}

/// The text that a run turns `s` into. Meaningful when the run consumes its
/// input exactly, that is when `len_in(ops) == s.len()`.
pub open spec fn apply_ops(ops: Seq<OpModel>, s: Seq<char>) -> Seq<char>
    decreases ops.len(),
{
    if ops.len() == 0 {
        Seq::<char>::empty()
    } else {
        match ops[0] {
            OpModel::Retain(n) => s.take(n) + apply_ops(ops.drop_first(), s.skip(n)),
            OpModel::Delete(n) => apply_ops(ops.drop_first(), s.skip(n)),
            OpModel::Insert(t) => t + apply_ops(ops.drop_first(), s),
        }
    }
}

pub proof fn lemma_wf_drop_first(ops: Seq<OpModel>)
    requires
        ops_wf(ops),
        ops.len() > 0,
    ensures
        ops_wf(ops.drop_first()),
{
    assert forall|i: int| 0 <= i < ops.drop_first().len() implies op_wf(
        #[trigger] ops.drop_first()[i],
    ) by {
        assert(ops.drop_first()[i] == ops[i + 1]);
    }
}

pub proof fn lemma_len_nonneg(ops: Seq<OpModel>)
    requires
        ops_wf(ops),
    ensures
        len_in(ops) >= 0,
        len_out(ops) >= 0,
    decreases ops.len(),
{
    if ops.len() > 0 {
        lemma_wf_drop_first(ops);
        lemma_len_nonneg(ops.drop_first());
        assert(op_wf(ops[0]));
    }
}

pub proof fn lemma_apply_len(ops: Seq<OpModel>, s: Seq<char>)
    requires
        ops_wf(ops),
        len_in(ops) == s.len(),
    ensures
        apply_ops(ops, s).len() == len_out(ops),
    decreases ops.len(),
{
    if ops.len() > 0 {
        lemma_wf_drop_first(ops);
        lemma_len_nonneg(ops.drop_first());
        assert(op_wf(ops[0]));
        match ops[0] {
            OpModel::Retain(n) => {
                lemma_apply_len(ops.drop_first(), s.skip(n));
            },
            OpModel::Delete(n) => {
                lemma_apply_len(ops.drop_first(), s.skip(n));
            },
            OpModel::Insert(t) => {
                lemma_apply_len(ops.drop_first(), s);
            },
        }
    }
}

/// Applying a run built from two parts to a text split the same way applies
/// each part to its own half.
pub proof fn lemma_apply_concat(a: Seq<OpModel>, b: Seq<OpModel>, p: Seq<char>, q: Seq<char>)
    requires
        ops_wf(a),
        len_in(a) == p.len(),
    ensures
        apply_ops(a + b, p + q) == apply_ops(a, p) + apply_ops(b, q),
    decreases a.len(),
{
    if a.len() == 0 {
        assert(p.len() == 0);
        assert(a + b =~= b);
        assert(p + q =~= q);
        assert(apply_ops(a, p) + apply_ops(b, q) =~= apply_ops(b, q));
    } else {
        lemma_wf_drop_first(a);
        lemma_len_nonneg(a.drop_first());
        assert(op_wf(a[0]));
        assert((a + b)[0] == a[0]);
        assert((a + b).drop_first() =~= a.drop_first() + b);
        match a[0] {
            OpModel::Retain(n) => {
                assert((p + q).take(n) =~= p.take(n));
                assert((p + q).skip(n) =~= p.skip(n) + q);
                lemma_apply_concat(a.drop_first(), b, p.skip(n), q);
                assert(apply_ops(a, p) + apply_ops(b, q) =~= p.take(n) + (apply_ops(
                    a.drop_first(),
                    p.skip(n),
                ) + apply_ops(b, q)));
            },
            OpModel::Delete(n) => {
                assert((p + q).skip(n) =~= p.skip(n) + q);
                lemma_apply_concat(a.drop_first(), b, p.skip(n), q);
            },
            OpModel::Insert(t) => {
                lemma_apply_concat(a.drop_first(), b, p, q);
                assert(apply_ops(a, p) + apply_ops(b, q) =~= t + (apply_ops(a.drop_first(), p)
                    + apply_ops(b, q)));
            },
        }
    }
}

/// Copy a text buffer.
pub fn copy_chars(s: &Vec<char>) -> (r: Vec<char>)
    ensures
        r@ == s@,
{
    let mut r: Vec<char> = Vec::new();
    let mut i: usize = 0;
    while i < s.len()
        invariant
            i <= s.len(),
            r@ == s@.take(i as int),
        decreases s.len() - i,
    {
        r.push(s[i]);
        i += 1;
        assert(r@ =~= s@.take(i as int));
    }
    assert(r@ =~= s@);
    r
}

/// Copy the characters of `s` between `from` and `to`.
pub fn copy_range(s: &Vec<char>, from: usize, to: usize) -> (r: Vec<char>)
    requires
        from <= to <= s.len(),
    ensures
        r@ == s@.subrange(from as int, to as int),
{
    let mut r: Vec<char> = Vec::new();
    let mut i: usize = from;
    while i < to
        invariant
            from <= i <= to <= s.len(),
            r@ == s@.subrange(from as int, i as int),
        decreases to - i,
    {
        r.push(s[i]);
        i += 1;
        assert(r@ =~= s@.subrange(from as int, i as int));
    }
    r
}

/// Copy one operation.
pub fn copy_op(op: &Operation) -> (r: Operation)
    ensures
        r@ == op@,
{
    match op {
        Operation::Retain(n) => Operation::Retain(*n),
        Operation::Delete(n) => Operation::Delete(*n),
        Operation::Insert(t) => Operation::Insert(copy_chars(t)),
    }
}

/// Copy a run of operations.
pub fn copy_ops(ops: &Vec<Operation>) -> (r: Vec<Operation>)
    ensures
        ops_m(r@) == ops_m(ops@),
{
    let mut r: Vec<Operation> = Vec::new();
    let mut i: usize = 0;
    while i < ops.len()
        invariant
            i <= ops.len(),
            r@.len() == i,
            forall|k: int| 0 <= k < i ==> #[trigger] r@[k]@ == ops@[k]@,
        decreases ops.len() - i,
    {
        let op = copy_op(&ops[i]);
        r.push(op);
        i += 1;
    }
    assert forall|k: int| 0 <= k < ops@.len() implies ops_m(r@)[k] == ops_m(ops@)[k] by {
        assert(r@[k]@ == ops@[k]@);
    }
    assert(ops_m(r@) =~= ops_m(ops@));
    r
}

/// Facts about a run with one operation put in front.
pub proof fn lemma_cons(x: OpModel, v: Seq<OpModel>)
    ensures
        (seq![x] + v).len() == v.len() + 1,
        (seq![x] + v)[0] == x,
        (seq![x] + v).drop_first() =~= v,
        ops_wf(seq![x] + v) <==> (op_wf(x) && ops_wf(v)),
        len_in(seq![x] + v) == op_len_in(x) + len_in(v),
        len_out(seq![x] + v) == op_len_out(x) + len_out(v),
{
    let c = seq![x] + v;
    assert(c[0] == x);
    assert(c.drop_first() =~= v);
    if ops_wf(c) {
        assert forall|i: int| 0 <= i < v.len() implies op_wf(#[trigger] v[i]) by {
            assert(v[i] == c[i + 1]);
        }
        assert(op_wf(c[0]));
    }
    if op_wf(x) && ops_wf(v) {
        assert forall|i: int| 0 <= i < c.len() implies op_wf(#[trigger] c[i]) by {
            if i > 0 {
                assert(c[i] == v[i - 1]);
            }
        }
    }
    assert(len_in(c) == op_len_in(x) + len_in(v));
    assert(len_out(c) == op_len_out(x) + len_out(v));
}

/// Inserting at the front of a run models as putting its model in front.
pub proof fn lemma_m_insert0(v: Seq<Operation>, x: Operation)
    ensures
        ops_m(v.insert(0, x)) =~= seq![x@] + ops_m(v),
{
    let w = v.insert(0, x);
    assert forall|k: int| 0 <= k < w.len() implies ops_m(w)[k] == (seq![x@] + ops_m(v))[k] by {
        if k == 0 {
            assert(w[0] == x);
        } else {
            assert(w[k] == v[k - 1]);
        }
    }
}

/// The run after its first operation, copied.
pub fn ops_tail(a: &Vec<Operation>) -> (r: Vec<Operation>)
    requires
        a.len() >= 1,
    ensures
        ops_m(r@) == ops_m(a@).drop_first(),
{
    let mut r: Vec<Operation> = Vec::new();
    let mut i: usize = 1;
    while i < a.len()
        invariant
            1 <= i <= a.len(),
            r@.len() == i - 1,
            forall|k: int| 0 <= k < i - 1 ==> #[trigger] r@[k]@ == a@[k + 1]@,
        decreases a.len() - i,
    {
        let op = copy_op(&a[i]);
        r.push(op);
        i += 1;
    }
    proof {
        assert forall|k: int| 0 <= k < r@.len() implies ops_m(r@)[k] == ops_m(a@).drop_first()[k] by {
            assert(r@[k]@ == a@[k + 1]@);
        }
        assert(ops_m(r@) =~= ops_m(a@).drop_first());
    }
    r
}

/// The run after its first operation, with a replacement put in front.
pub fn ops_tail_with(a: &Vec<Operation>, head: Operation) -> (r: Vec<Operation>)
    requires
        a.len() >= 1,
    ensures
        ops_m(r@) == seq![head@] + ops_m(a@).drop_first(),
{
    let mut r = ops_tail(a);
    let ghost rv = r@;
    let ghost hm = head@;
    r.insert(0, head);
    proof {
        lemma_m_insert0(rv, r@[0]);
        assert(r@ == rv.insert(0, r@[0]));
        assert(ops_m(r@) =~= seq![hm] + ops_m(a@).drop_first());
    }
    r
}

/// Put one operation in front of a run.
pub fn ops_cons(head: Operation, rest: Vec<Operation>) -> (r: Vec<Operation>)
    ensures
        ops_m(r@) == seq![head@] + ops_m(rest@),
{
    let ghost restv = rest@;
    let ghost hm = head@;
    let mut r = rest;
    r.insert(0, head);
    proof {
        lemma_m_insert0(restv, r@[0]);
        assert(r@ == restv.insert(0, r@[0]));
        assert(ops_m(r@) =~= seq![hm] + ops_m(restv));
    }
    r
}

/// What a single operation makes of a text it fits.
pub proof fn lemma_apply_one(x: OpModel, u: Seq<char>)
    requires
        op_len_in(x) == u.len(),
    ensures
        apply_ops(seq![x], u) == match x {
            OpModel::Retain(n) => u,
            OpModel::Delete(n) => Seq::<char>::empty(),
            OpModel::Insert(t) => t,
        },
{
    lemma_cons(x, Seq::<OpModel>::empty());
    assert(seq![x] =~= seq![x] + Seq::<OpModel>::empty());
    match x {
        OpModel::Retain(n) => {
            assert(apply_ops(Seq::<OpModel>::empty(), u.skip(n)) =~= Seq::<char>::empty());
            assert(u.take(n) =~= u);
            assert(apply_ops(seq![x], u) =~= u);
        },
        OpModel::Delete(n) => {
            assert(apply_ops(Seq::<OpModel>::empty(), u.skip(n)) =~= Seq::<char>::empty());
            assert(apply_ops(seq![x], u) =~= Seq::<char>::empty());
        },
        OpModel::Insert(t) => {
            assert(apply_ops(Seq::<OpModel>::empty(), u) =~= Seq::<char>::empty());
            assert(apply_ops(seq![x], u) =~= t);
        },
    }
}

} // verus!
