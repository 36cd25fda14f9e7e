use vstd::prelude::*;

use crate::changeset::ChangeSet;
use crate::ops::{
    copy_chars, len_in, len_out, lemma_len_nonneg, lemma_wf_drop_first, op_len_in, op_len_out,
    op_wf, ops_m, ops_wf, OpModel, Operation,
};

verus! {

/// A position as the protocol counts it: 0-based line, 0-based column in
/// characters within the line.
#[derive(Copy, Clone, PartialEq, Eq, Structural, Debug)]
pub struct Position {
    pub line: u128,
    pub character: u128,
}

impl Position {
    pub fn new(line: u128, character: u128) -> (r: Position)
        ensures
            r == (Position { line, character }),
    {
        Position { line, character }
    }
}

/// A half-open span between two positions, end exclusive.
#[derive(Copy, Clone, PartialEq, Eq, Structural, Debug)]
pub struct Range {
    pub start: Position,
    pub end: Position,
}

impl Range {
    pub fn new(start: Position, end: Position) -> (r: Range)
        ensures
            r == (Range { start, end }),
    {
        Range { start, end }
    }
}

/// One protocol edit event: replace the text in `range` with `text`. The
/// range refers to the document as left by the preceding events.
#[derive(Clone, PartialEq, Eq, Debug)]
pub struct ContentChangeEvent {
    pub range: Range,
    pub text: Vec<char>,
}

/// Model of an edit event.
#[verifier::ext_equal]
pub struct EventModel {
    pub range: Range,
    pub text: Seq<char>,
}

impl View for ContentChangeEvent {
    type V = EventModel;

    open spec fn view(&self) -> EventModel {
        EventModel { range: self.range, text: self.text@ }
    }
}

pub open spec fn events_m(evs: Seq<ContentChangeEvent>) -> Seq<EventModel> {
    evs.map_values(|e: ContentChangeEvent| e@)
}

/// `p` moved one character forward.
pub open spec fn pos_step(p: Position, c: char) -> Position {
    if c == '\n' {
        Position { line: (p.line + 1) as u128, character: 0 }
    } else {
        Position { line: p.line, character: (p.character + 1) as u128 }
    }
}

/// `p` moved forward over all of `s`.
pub open spec fn advance(p: Position, s: Seq<char>) -> Position
    decreases s.len(),
{
    if s.len() == 0 {
        p
    } else {
        advance(pos_step(p, s[0]), s.drop_first())
    }
}

proof fn lemma_advance_snoc(p: Position, s: Seq<char>, c: char)
    ensures
        advance(p, s.push(c)) == pos_step(advance(p, s), c),
    decreases s.len(),
{
    if s.len() == 0 {
        assert(s.push(c)[0] == c);
        assert(s.push(c).drop_first() =~= Seq::<char>::empty());
        assert(advance(p, s) == p);
        assert(advance(pos_step(p, c), Seq::<char>::empty()) == pos_step(p, c));
        assert(advance(p, s.push(c)) == advance(pos_step(p, c), s.push(c).drop_first()));
    } else {
        assert(s.push(c)[0] == s[0]);
        assert(s.push(c).drop_first() =~= s.drop_first().push(c));
        lemma_advance_snoc(pos_step(p, s[0]), s.drop_first(), c);
    }
}

/// Move `p` over the characters of `s` between `from` and `to`.
fn advance_range(s: &Vec<char>, from: usize, to: usize, p: Position) -> (r: Position)
    requires
        from <= to <= s@.len(),
        p.line + (to - from) <= u128::MAX,
        p.character + (to - from) <= u128::MAX,
    ensures
        r == advance(p, s@.subrange(from as int, to as int)),
        r.line <= p.line + (to - from),
        r.character <= p.character + (to - from),
{
    let mut cur = p;
    let mut i: usize = from;
    proof {
        assert(s@.subrange(from as int, from as int) =~= Seq::<char>::empty());
    }
    while i < to
        invariant
            from <= i <= to <= s@.len(),
            p.line + (to - from) <= u128::MAX,
            p.character + (to - from) <= u128::MAX,
            cur == advance(p, s@.subrange(from as int, i as int)),
            cur.line <= p.line + (i - from),
            cur.character <= p.character + (i - from),
        decreases to - i,
    {
        let c = s[i];
        proof {
            lemma_advance_snoc(p, s@.subrange(from as int, i as int), c);
            assert(s@.subrange(from as int, i as int + 1) =~= s@.subrange(
                from as int,
                i as int,
            ).push(c));
        }
        if c == '\n' {
            cur = Position { line: cur.line + 1, character: 0 };
        } else {
            cur = Position { line: cur.line, character: cur.character + 1 };
        }
        i += 1;
    }
    proof {
        assert(s@.subrange(from as int, to as int) == s@.subrange(from as int, i as int));
    }
    cur
}

/// The protocol events for one operation run against `old_text`, starting
/// at position `cur` in the edited document. A deletion directly followed
/// by an insertion becomes one replacement event.
pub open spec fn events_of(ops: Seq<OpModel>, old_text: Seq<char>, cur: Position) -> Seq<
    EventModel,
>
    decreases ops.len(),
{
    if ops.len() == 0 {
        Seq::<EventModel>::empty()
    } else {
        match ops[0] {
            OpModel::Retain(n) => events_of(
                ops.drop_first(),
                old_text.skip(n),
                advance(cur, old_text.take(n)),
            ),
            OpModel::Delete(n) => {
                let end = advance(cur, old_text.take(n));
                if ops.len() >= 2 && ops[1] is Insert {
                    let t = ops[1]->Insert_0;
                    seq![EventModel { range: Range { start: cur, end }, text: t }] + events_of(
                        ops.skip(2),
                        old_text.skip(n),
                        advance(cur, t),
                    )
                } else {
                    seq![
                        EventModel {
                            range: Range { start: cur, end },
                            text: Seq::<char>::empty(),
                        },
                    ] + events_of(ops.drop_first(), old_text.skip(n), cur)
                }
            },
            OpModel::Insert(t) => seq![EventModel { range: Range { start: cur, end: cur }, text: t }]
                + events_of(ops.drop_first(), old_text, advance(cur, t)),
        }
    }
}

proof fn lemma_ev_insert0(v: Seq<ContentChangeEvent>, x: ContentChangeEvent)
    ensures
        events_m(v.insert(0, x)) =~= seq![x@] + events_m(v),
{
    let w = v.insert(0, x);
    assert forall|k: int| 0 <= k < w.len() implies events_m(w)[k] == (seq![x@] + events_m(v))[k]
        by {
        if k == 0 {
            assert(w[0] == x);
        } else {
            assert(w[k] == v[k - 1]);
        }
    }
}

/// Translate the run from operation `i` on, at old-text position `pos` and
/// edited-document position `cur`, into protocol events.
fn events_from(
    ops: &Vec<Operation>,
    i: usize,
    old_text: &Vec<char>,
    pos: usize,
    cur: Position,
) -> (r: Vec<ContentChangeEvent>)
    requires
        i <= ops.len(),
        pos <= old_text@.len(),
        ops_wf(ops_m(ops@)),
        len_in(ops_m(ops@).skip(i as int)) == old_text@.len() - pos,
        cur.line + len_in(ops_m(ops@).skip(i as int)) + len_out(ops_m(ops@).skip(i as int))
            <= u128::MAX,
        cur.character + len_in(ops_m(ops@).skip(i as int)) + len_out(
            ops_m(ops@).skip(i as int),
        ) <= u128::MAX,
    ensures
        events_m(r@) == events_of(ops_m(ops@).skip(i as int), old_text@.skip(pos as int), cur),
    decreases ops.len() - i,
{
    let ghost tail_ops = ops_m(ops@).skip(i as int);
    let ghost tail = old_text@.skip(pos as int);
    let ol: usize = old_text.len();
    proof {
        assert(ol == old_text@.len());
        assert forall|k: int| 0 <= k < tail_ops.len() implies op_wf(#[trigger] tail_ops[k]) by {
            assert(tail_ops[k] == ops_m(ops@)[i + k]);
        }
    }
    if i == ops.len() {
        let r: Vec<ContentChangeEvent> = Vec::new();
        proof {
            assert(tail_ops =~= Seq::<OpModel>::empty());
            assert(events_m(r@) =~= events_of(tail_ops, tail, cur));
        }
        r
    } else {
        proof {
            assert(tail_ops[0] == ops_m(ops@)[i as int]);
            assert(ops_m(ops@)[i as int] == ops@[i as int]@);
            assert(tail_ops.drop_first() =~= ops_m(ops@).skip(i as int + 1));
            lemma_wf_drop_first(tail_ops);
            lemma_len_nonneg(tail_ops.drop_first());
            assert(op_wf(tail_ops[0]));
            assert(len_in(tail_ops) == op_len_in(tail_ops[0]) + len_in(tail_ops.drop_first()));
            assert(len_out(tail_ops) == op_len_out(tail_ops[0]) + len_out(tail_ops.drop_first()));
        }
        match &ops[i] {
            Operation::Retain(n0) => {
                let n: usize = *n0;
                proof {
                    assert(tail_ops[0] == OpModel::Retain(n as int));
                    assert(n + len_in(tail_ops.drop_first()) == old_text@.len() - pos);
                }
                let cur2 = advance_range(old_text, pos, pos + n, cur);
                proof {
                    assert(tail.take(n as int) =~= old_text@.subrange(
                        pos as int,
                        pos as int + n as int,
                    ));
                    assert(tail.skip(n as int) =~= old_text@.skip(pos as int + n as int));
                }
                events_from(ops, i + 1, old_text, pos + n, cur2)
            },
            Operation::Delete(n0) => {
                let n: usize = *n0;
                proof {
                    assert(tail_ops[0] == OpModel::Delete(n as int));
                    assert(n + len_in(tail_ops.drop_first()) == old_text@.len() - pos);
                }
                let end = advance_range(old_text, pos, pos + n, cur);
                proof {
                    assert(tail.take(n as int) =~= old_text@.subrange(
                        pos as int,
                        pos as int + n as int,
                    ));
                    assert(tail.skip(n as int) =~= old_text@.skip(pos as int + n as int));
                }
                let mut merged = false;
                if i + 1 < ops.len() {
                    let is_ins = match &ops[i + 1] {
                        Operation::Insert(_) => true,
                        _ => false,
                    };
                    merged = is_ins;
                }
                proof {
                    assert(i + 1 < ops.len() ==> tail_ops[1] == ops@[i as int + 1]@);
                    assert(merged <==> (tail_ops.len() >= 2 && tail_ops[1] is Insert));
                }
                if merged {
                    let t = match &ops[i + 1] {
                        Operation::Insert(t0) => copy_chars(t0),
                        _ => Vec::new(),
                    };
                    proof {
                        assert(t@ == tail_ops[1]->Insert_0);
                        assert(tail_ops.skip(2) =~= ops_m(ops@).skip(i as int + 2));
                        lemma_wf_drop_first(tail_ops.drop_first());
                        lemma_len_nonneg(tail_ops.skip(2));
                        assert(tail_ops.drop_first()[0] == tail_ops[1]);
                        assert(tail_ops.drop_first().drop_first() =~= tail_ops.skip(2));
                        assert(len_in(tail_ops.drop_first()) == op_len_in(tail_ops[1]) + len_in(
                            tail_ops.skip(2),
                        ));
                        assert(len_out(tail_ops.drop_first()) == op_len_out(tail_ops[1]) + len_out(
                            tail_ops.skip(2),
                        ));
                        assert(t@.subrange(0, t@.len() as int) =~= t@);
                    }
                    let cur2 = advance_range(&t, 0, t.len(), cur);
                    let rest = events_from(ops, i + 2, old_text, pos + n, cur2);
                    let ghost restm = events_m(rest@);
                    let ev = ContentChangeEvent { range: Range { start: cur, end }, text: t };
                    let ghost evm = ev@;
                    let ghost restv = rest@;
                    let mut r = rest;
                    r.insert(0, ev);
                    proof {
                        lemma_ev_insert0(restv, r@[0]);
                        assert(r@ == restv.insert(0, r@[0]));
                        assert(events_m(r@) =~= seq![evm] + restm);
                        assert(events_m(r@) =~= events_of(tail_ops, tail, cur));
                    }
                    r
                } else {
                    let rest = events_from(ops, i + 1, old_text, pos + n, cur);
                    let ghost restm = events_m(rest@);
                    let ev = ContentChangeEvent {
                        range: Range { start: cur, end },
                        text: Vec::new(),
                    };
                    let ghost evm = ev@;
                    let ghost restv = rest@;
                    let mut r = rest;
                    r.insert(0, ev);
                    proof {
                        lemma_ev_insert0(restv, r@[0]);
                        assert(r@ == restv.insert(0, r@[0]));
                        assert(events_m(r@) =~= seq![evm] + restm);
                        assert(events_m(r@) =~= events_of(tail_ops, tail, cur));
                    }
                    r
                }
            },
            Operation::Insert(t0) => {
                let t = copy_chars(t0);
                proof {
                    assert(t@.subrange(0, t@.len() as int) =~= t@);
                }
                let cur2 = advance_range(&t, 0, t.len(), cur);
                let rest = events_from(ops, i + 1, old_text, pos, cur2);
                let ghost restm = events_m(rest@);
                let tc = copy_chars(&t);
                let ev = ContentChangeEvent { range: Range { start: cur, end: cur }, text: tc };
                let ghost evm = ev@;
                let ghost restv = rest@;
                let mut r = rest;
                r.insert(0, ev);
                proof {
                    lemma_ev_insert0(restv, r@[0]);
                    assert(r@ == restv.insert(0, r@[0]));
                    assert(events_m(r@) =~= seq![evm] + restm);
                    assert(events_m(r@) =~= events_of(tail_ops, tail, cur));
                }
                r
            },
        }
    }
}

/// One queued notification to the external analysis service: the document
/// version after which its events apply, and the events themselves.
#[derive(Clone, PartialEq, Eq, Debug)]
pub struct DidChangeNotification {
    pub version: i32,
    pub events: Vec<ContentChangeEvent>,
}

/// The binding to the external language-analysis service for one document:
/// the stable locator it was bound with, and the first-in-first-out queue
/// of notifications not yet delivered. Keeping the queue ordered per
/// document is what preserves the order-of-delivery contract; delivery
/// itself is the caller's affair.
pub struct Client {
    pub uri: url::Url,
    pub pending: Vec<DidChangeNotification>,
}

impl Client {
    pub fn new(uri: url::Url) -> (r: Client)
        ensures
            r.pending@.len() == 0,
            r.uri == uri,
    {
        Client { uri, pending: Vec::new() }
    }

    /// The locator this binding was made with.
    pub fn uri(&self) -> (r: &url::Url)
        ensures
            r == self.uri,
    {
        &self.uri
    }

    /// Translate a change-set into the minimal ordered protocol events:
    /// ranges are 0-based line and column, each range counted in the
    /// document as the preceding events leave it.
    pub fn changeset_to_changes(
        old_text: &Vec<char>,
        _new_text: &Vec<char>,
        changes: &ChangeSet,
    ) -> (r: Vec<ContentChangeEvent>)
        requires
            changes.wf(),
            changes.len == old_text@.len(),
        ensures
            events_m(r@) == events_of(
                changes.m(),
                old_text@,
                Position { line: 0, character: 0 },
            ),
    {
        proof {
            assert(ops_m(changes.ops@).skip(0) =~= changes.m());
            assert(old_text@.skip(0) =~= old_text@);
            assert(len_in(changes.m()) <= usize::MAX);
            assert(len_out(changes.m()) <= usize::MAX);
        }
        events_from(&changes.ops, 0, old_text, 0, Position { line: 0, character: 0 })
    }

    /// Queue the events for one transaction, tagged with the document
    /// version, behind everything queued before them.
    pub fn text_document_did_change(
        &mut self,
        version: i32,
        old_text: &Vec<char>,
        new_text: &Vec<char>,
        changes: &ChangeSet,
    )
        requires
            changes.wf(),
            changes.len == old_text@.len(),
        ensures
            final(self).uri == old(self).uri,
            final(self).pending@.len() == old(self).pending@.len() + 1,
            forall|k: int|
                0 <= k < old(self).pending@.len() ==> #[trigger] final(self).pending@[k] == old(
                    self,
                ).pending@[k],
            final(self).pending@.last().version == version,
            events_m(final(self).pending@.last().events@) == events_of(
                changes.m(),
                old_text@,
                Position { line: 0, character: 0 },
            ),
    {
        let events = Client::changeset_to_changes(old_text, new_text, changes);
        self.pending.push(DidChangeNotification { version, events });
    }

    /// Hand out everything queued, oldest first, leaving the queue empty.
    pub fn take_pending(&mut self) -> (r: Vec<DidChangeNotification>)
        ensures
            final(self).uri == old(self).uri,
            r@ == old(self).pending@,
            final(self).pending@.len() == 0,
    {
        let ghost orig = self.pending@;
        let mut out: Vec<DidChangeNotification> = Vec::new();
        while self.pending.len() > 0
            invariant
                out@.len() + self.pending@.len() == orig.len(),
                out@ =~= orig.take(out@.len() as int),
                self.pending@ =~= orig.skip(out@.len() as int),
                self.uri == old(self).uri,
            decreases self.pending@.len(),
        {
            let n = self.pending.remove(0);
            out.push(n);
            proof {
                assert(out@ =~= orig.take(out@.len() as int));
                assert(self.pending@ =~= orig.skip(out@.len() as int));
            }
        }
        proof {
            assert(out@ =~= orig);
        }
        out
    }
}

/// The stable identity of a document for the external service.
pub struct TextDocumentIdentifier {
    pub uri: url::Url,
}

/// The document identity together with its version.
pub struct VersionedTextDocumentIdentifier {
    pub uri: url::Url,
    pub version: i32,
}

} // verus!
