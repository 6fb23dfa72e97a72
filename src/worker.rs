//! The worker cursor: walks one work range with the odometer and renders it.
use vstd::prelude::*;

use crate::codec::{
    as_nats, index_to_digits, lemma_increment_steps, lemma_to_digits_shape, odometer_increment,
    to_digits,
};
use crate::partition::WorkRange;
use crate::space::{generate_combo_fast, line, Space};

verus! {

/// A position in a work range: the next index, how many indices are left,
/// and the digits of the next index, kept in step by the odometer.
pub struct Cursor {
    digits: Vec<usize>,
    next: u64,
    remaining: u64,
}

impl Cursor {
    /// The index the cursor renders next.
    pub closed spec fn spec_next(&self) -> nat {
        self.next as nat
    }

    /// How many indices of the range are left.
    pub closed spec fn spec_remaining(&self) -> nat {
        self.remaining as nat
    }

    /// The cursor belongs to `space`: its digits are those of its next
    /// index, and its range lies inside the space.
    pub closed spec fn wf(&self, space: &Space) -> bool {
        &&& space.wf()
        &&& self.next + self.remaining <= space.spec_total()
        &&& as_nats(self.digits@) == to_digits(
            self.next as nat,
            space.spec_base(),
            space.spec_length(),
        )
    }

    /// A cursor at the start of `range`; the only place where the digits
    /// are computed by division rather than by stepping.
    pub fn new(space: &Space, range: WorkRange) -> (c: Cursor)
        requires
            space.wf(),
            range.start + range.count <= space.spec_total(),
        ensures
            c.wf(space),
            c.spec_next() == range.start,
            c.spec_remaining() == range.count,
    {
        let digits = index_to_digits(range.start, space.base(), space.length());
        Cursor { digits, next: range.start, remaining: range.count }
    }

    /// The index the cursor renders next.
    pub fn next_index(&self) -> (r: u64)
        ensures
            r == self.spec_next(),
    {
        self.next
    }

    /// How many indices of the range are left.
    pub fn remaining(&self) -> (r: u64)
        ensures
            r == self.spec_remaining(),
    {
        self.remaining
    }

    /// Moves one index forward with the odometer.
    fn advance(&mut self, space: &Space)
        requires
            old(self).wf(space),
            old(self).spec_remaining() > 0,
        ensures
            final(self).wf(space),
            final(self).spec_next() == old(self).spec_next() + 1,
            final(self).spec_remaining() == old(self).spec_remaining() - 1,
    {
        proof {
            lemma_to_digits_shape(self.next as nat, space.spec_base(), space.spec_length());
            lemma_increment_steps(self.next as nat, space.spec_base(), space.spec_length());
        }
        let _ = odometer_increment(&mut self.digits, space.base());
        self.next = self.next + 1;
        self.remaining = self.remaining - 1;
    }

    /// Appends the lines of the next indices to `out`, one line per index in
    /// index order, until the range is done or `out` has reached `threshold`
    /// bytes; returns how many lines it appended.
    pub fn fill(&mut self, space: &Space, out: &mut Vec<u8>, threshold: usize) -> (n: u64)
        requires
            old(self).wf(space),
        ensures
            final(self).wf(space),
            n <= old(self).spec_remaining(),
            final(self).spec_next() == old(self).spec_next() + n,
            final(self).spec_remaining() == old(self).spec_remaining() - n,
            final(out)@ == old(out)@ + space.spec_lines(old(self).spec_next(), n as nat),
            n == old(self).spec_remaining() || final(out)@.len() >= threshold,
            n > 0 ==> (old(out)@ + space.spec_lines(old(self).spec_next(), (n - 1) as nat)).len()
                < threshold,
    {
        let ghost start = self.next as nat;
        let ghost out0 = out@;
        let ghost rem0 = self.remaining as nat;
        let mut n: u64 = 0;
        while self.remaining > 0 && out.len() < threshold
            invariant
                self.wf(space),
                self.spec_next() == start + n,
                self.spec_remaining() == rem0 - n,
                n <= rem0,
                out@ == out0 + space.spec_lines(start, n as nat),
                n > 0 ==> (out0 + space.spec_lines(start, (n - 1) as nat)).len() < threshold,
            decreases self.spec_remaining(),
        {
            let ghost before = out@;
            proof {
                lemma_to_digits_shape(self.next as nat, space.spec_base(), space.spec_length());
            }
            generate_combo_fast(&self.digits, space.charset(), out);
            self.advance(space);
            n = n + 1;
            proof {
                assert(space.spec_lines(start, n as nat) == space.spec_lines(start, (n - 1) as nat)
                    + line(space.spec_charset(), space.spec_length(), (start + n - 1) as nat));
                assert(out@ =~= out0 + space.spec_lines(start, n as nat));
            }
        }
        n
    }

    /// Renders the combinations of the next `max` indices, or of those
    /// left when fewer, each without its line feed, in index order.
    pub fn collect(&mut self, space: &Space, max: u64) -> (items: Vec<Vec<u8>>)
        requires
            old(self).wf(space),
        ensures
            final(self).wf(space),
            items@.len() == (if max < old(self).spec_remaining() {
                max as nat
            } else {
                old(self).spec_remaining()
            }),
            final(self).spec_next() == old(self).spec_next() + items@.len(),
            final(self).spec_remaining() == old(self).spec_remaining() - items@.len(),
            forall|i: int|
                0 <= i < items@.len() ==> (#[trigger] items@[i])@ == space.spec_combination(
                    (old(self).spec_next() + i) as nat,
                ),
    {
        let ghost start = self.next as nat;
        let ghost rem0 = self.remaining as nat;
        let mut items: Vec<Vec<u8>> = Vec::new();
        let mut n: u64 = 0;
        while n < max && self.remaining > 0
            invariant
                self.wf(space),
                self.spec_next() == start + n,
                self.spec_remaining() == rem0 - n,
                n <= rem0,
                n <= max,
                items@.len() == n,
                forall|i: int|
                    0 <= i < n ==> (#[trigger] items@[i])@ == space.spec_combination(
                        (start + i) as nat,
                    ),
            decreases self.spec_remaining(),
        {
            proof {
                lemma_to_digits_shape(self.next as nat, space.spec_base(), space.spec_length());
            }
            let mut item: Vec<u8> = Vec::with_capacity(space.length());
            generate_combo_fast(&self.digits, space.charset(), &mut item);
            let _ = item.pop();
            assert(item@ =~= space.spec_combination(self.next as nat));
            items.push(item);
            self.advance(space);
            n = n + 1;
        }
        items
    }

    /// Moves past the next `max` indices, or those left when fewer, without
    /// rendering them; returns how many it passed.
    pub fn skip(&mut self, space: &Space, max: u64) -> (n: u64)
        requires
            old(self).wf(space),
        ensures
            final(self).wf(space),
            n == (if max < old(self).spec_remaining() {
                max as nat
            } else {
                old(self).spec_remaining()
            }),
            final(self).spec_next() == old(self).spec_next() + n,
            final(self).spec_remaining() == old(self).spec_remaining() - n,
    {
        let ghost start = self.next as nat;
        let ghost rem0 = self.remaining as nat;
        let mut n: u64 = 0;
        while n < max && self.remaining > 0
            invariant
                self.wf(space),
                self.spec_next() == start + n,
                self.spec_remaining() == rem0 - n,
                n <= rem0,
                n <= max,
            decreases self.spec_remaining(),
        {
            self.advance(space);
            n = n + 1;
        }
        n
    }
}

} // verus!
