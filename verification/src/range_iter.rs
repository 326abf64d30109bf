//! Iteration over an integer range that never overflows: a plain
//! `start..end + 1` would overflow when `end == i64::MAX`.

use vstd::prelude::*;

verus! {

/// The integers `lo, lo + 1, ..., hi`; empty when `hi < lo`.
pub open spec fn ints_between(lo: int, hi: int) -> Seq<int> {
    if hi < lo {
        Seq::empty()
    } else {
        Seq::new((hi - lo + 1) as nat, |i: int| lo + i)
    }
}

/// The last integer of a range: `end` itself when inclusive, `end - 1`
/// otherwise.
pub open spec fn last_of(end: i64, inclusive: bool) -> int {
    if inclusive {
        end as int
    } else {
        end - 1
    }
}

/// A `for` loop's walk over `start..end` or `start..=end`.
pub struct RangeIter {
    pub next: i64,
    pub end: i64,
    pub inclusive: bool,
    pub done: bool,
}

impl RangeIter {
    /// Whether the walk is consistent: while it is not done, the next
    /// integer has not passed the last one.
    pub open spec fn wf(&self) -> bool {
        !self.done ==> self.next <= last_of(self.end, self.inclusive)
    }

    /// The integers the walk has still to give, in order.
    pub open spec fn remaining(&self) -> Seq<int> {
        if self.done {
            Seq::empty()
        } else {
            ints_between(self.next as int, last_of(self.end, self.inclusive))
        }
    }

    /// The walk over `start..end` (or `start..=end` when `inclusive`),
    /// done at once when the range is empty.
    pub fn new(start: i64, end: i64, inclusive: bool) -> (it: Self)
        ensures
            it.wf(),
            it.remaining() == ints_between(start as int, last_of(end, inclusive)),
    {
        let done = if inclusive {
            start > end
        } else {
            start >= end
        };
        RangeIter { next: start, end, inclusive, done }
    }

    /// The next integer of the range, or `None` once all were given.
    pub fn next(&mut self) -> (r: Option<i64>)
        requires
            old(self).wf(),
        ensures
            final(self).wf(),
            match r {
                None => old(self).remaining().len() == 0 && final(self).remaining().len() == 0,
                Some(v) => old(self).remaining().len() > 0 && v as int == old(self).remaining()[0]
                    && final(self).remaining() == old(self).remaining().drop_first(),
            },
    {
        if self.done {
            return None;
        }
        let current = self.next;
        let last = if self.inclusive {
            self.end
        } else {
            self.end - 1
        };
        if current >= last {
            self.done = true;
        } else {
            self.next = current + 1;
        }
        proof {
            let before = ints_between(current as int, last as int);
            assert(self.remaining() =~= before.drop_first());
        }
        Some(current)
    }
}

} // verus!
