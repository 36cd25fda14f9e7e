use vstd::prelude::*;

verus! {

/// A single selection range in a text: `anchor` is the stable end, `head`
/// the moving end (the cursor). With `anchor == head` it is a bare cursor.
#[derive(Copy, Clone, PartialEq, Eq, Structural, Debug)]
pub struct Range {
    pub anchor: usize,
    pub head: usize,
}

impl Range {
    pub fn new(anchor: usize, head: usize) -> (r: Range)
        ensures
            r == (Range { anchor, head }),
    {
        Range { anchor, head }
    }
}

/// One or more selection ranges, one of them primary.
pub struct Selection {
    pub ranges: Vec<Range>,
    pub primary_index: usize,
}

impl Selection {
    pub open spec fn wf(&self) -> bool {
        self.ranges@.len() > 0 && self.primary_index < self.ranges@.len()
    }

    /// A selection of one single range.
    pub fn single(anchor: usize, head: usize) -> (r: Selection)
        ensures
            r.wf(),
            r.ranges@ == seq![Range { anchor, head }],
            r.primary_index == 0,
    {
        let mut ranges: Vec<Range> = Vec::new();
        ranges.push(Range { anchor, head });
        proof {
            assert(ranges@ =~= seq![Range { anchor, head }]);
        }
        Selection { ranges, primary_index: 0 }
    }

    /// The primary range.
    pub fn primary(&self) -> (r: Range)
        requires
            self.wf(),
        ensures
            r == self.ranges@[self.primary_index as int],
    {
        self.ranges[self.primary_index]
    }

    /// An independent copy of this selection.
    pub fn snapshot(&self) -> (r: Selection)
        ensures
            r.ranges@ == self.ranges@,
            r.primary_index == self.primary_index,
    {
        let mut ranges: Vec<Range> = Vec::new();
        let mut i: usize = 0;
        while i < self.ranges.len()
            invariant
                i <= self.ranges.len(),
                ranges@ == self.ranges@.take(i as int),
            decreases self.ranges.len() - i,
        {
            ranges.push(self.ranges[i]);
            i += 1;
            assert(ranges@ =~= self.ranges@.take(i as int));
        }
        assert(ranges@ =~= self.ranges@);
        Selection { ranges, primary_index: self.primary_index }
    }
}

} // verus!
