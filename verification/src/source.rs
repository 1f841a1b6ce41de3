//! A registered input sequence: a forward-only cursor over a fixed run of
//! elements. A merge combinator takes ownership of a `Source` when the
//! caller registers it and is the only holder that ever advances it.

use vstd::prelude::*;

verus! {

/// One input sequence, consumed front to back. The view `s@` is the run of
/// elements not yet pulled out of it.
pub struct Source {
    items: Vec<i64>,
    pos: usize,
}

impl View for Source {
    type V = Seq<i64>;

    closed spec fn view(&self) -> Seq<i64> {
        self.items@.skip(self.pos as int)
    }
}

impl Source {
    pub closed spec fn wf(self) -> bool {
        self.pos <= self.items.len()
    }

    /// Wrap a run of elements as a fresh, unconsumed source.
    pub fn new(items: Vec<i64>) -> (s: Source)
        ensures
            s.wf(),
            s@ == items@,
    {
        let s = Source { items, pos: 0 };
        proof {
            assert(s@ =~= s.items@);
        }
        s
    }

    /// Pull the next element, or report exhaustion.
    pub fn next(&mut self) -> (r: Option<i64>)
        requires
            old(self).wf(),
        ensures
            final(self).wf(),
            old(self)@.len() == 0 ==> r is None && final(self)@ == old(self)@,
            old(self)@.len() > 0 ==> r == Some(old(self)@[0]) && final(self)@ == old(self)@.drop_first(),
    {
        if self.pos < self.items.len() {
            let x = self.items[self.pos];
            self.pos = self.pos + 1;
            proof {
                assert(self@ =~= old(self)@.drop_first());
            }
            Some(x)
        } else {
            None
        }
    }
}

} // verus!
