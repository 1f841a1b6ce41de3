//! Sequential merge: registered sequences are consumed one after another in
//! registration order, so the combined output is their concatenation.

use vstd::prelude::*;

use crate::model::{concat_all, concat_from, views_of};
use crate::model::{lemma_concat_all_push, lemma_concat_from_agrees, lemma_concat_from_push};
use crate::source::Source;

verus! {

/// Concatenating combinator: exhausts each registered source in turn.
///
/// At every point `produced() + remaining() == concat_all(inputs())`: what
/// has come out so far, followed by what is still to come, is exactly the
/// concatenation of the registered sequences in registration order.
pub struct SeqIter {
    ptr: usize,
    iters: Vec<Source>,
    inputs: Ghost<Seq<Seq<i64>>>,
    emitted: Ghost<Seq<i64>>,
}

impl SeqIter {
    /// The registered input sequences, in registration order, as they were
    /// when registered.
    pub closed spec fn inputs(self) -> Seq<Seq<i64>> {
        self.inputs@
    }

    /// The elements emitted so far, in emission order.
    pub closed spec fn produced(self) -> Seq<i64> {
        self.emitted@
    }

    /// The elements still to be emitted, in emission order.
    pub closed spec fn remaining(self) -> Seq<i64> {
        concat_from(views_of(self.iters@), self.ptr as int)
    }

    pub closed spec fn wf(self) -> bool {
        &&& self.ptr <= self.iters@.len()
        &&& forall|i: int| 0 <= i < self.iters@.len() ==> (#[trigger] self.iters@[i]).wf()
        &&& forall|i: int| 0 <= i < self.ptr ==> (#[trigger] self.iters@[i])@.len() == 0
        &&& self.emitted@ + self.remaining() == concat_all(self.inputs@)
    }

    /// The output law: at every point, what has been emitted followed by
    /// what is still to come is the concatenation of the registered
    /// sequences in registration order. Once `next` reports exhaustion,
    /// `remaining()` is empty, so the full output was that concatenation.
    pub proof fn lemma_concatenation(self)
        requires
            self.wf(),
        ensures
            self.produced() + self.remaining() == concat_all(self.inputs()),
    {
    }

    /// Create a combinator with no registered sequences.
    pub fn new() -> (s: SeqIter)
        ensures
            s.wf(),
            s.inputs() == Seq::<Seq<i64>>::empty(),
            s.produced() == Seq::<i64>::empty(),
            s.remaining() == Seq::<i64>::empty(),
    {
        let s = SeqIter {
            ptr: 0,
            iters: Vec::new(),
            inputs: Ghost(Seq::empty()),
            emitted: Ghost(Seq::empty()),
        };
        proof {
            assert(views_of(s.iters@) =~= Seq::<Seq<i64>>::empty());
            assert(s.remaining() =~= Seq::<i64>::empty());
            assert(s.emitted@ + s.remaining() =~= concat_all(s.inputs@));
        }
        s
    }

    /// Register one more sequence. It is reached only after every earlier
    /// one is exhausted; nothing already emitted is affected.
    pub fn add(&mut self, s: Source)
        requires
            old(self).wf(),
            s.wf(),
        ensures
            final(self).wf(),
            final(self).inputs() == old(self).inputs().push(s@),
            final(self).produced() == old(self).produced(),
            final(self).remaining() == old(self).remaining() + s@,
    {
        let ghost old_views = views_of(self.iters@);
        let ghost sv = s@;
        self.iters.push(s);
        self.inputs = Ghost(self.inputs@.push(sv));
        proof {
            assert(views_of(self.iters@) =~= old_views.push(sv));
            lemma_concat_from_push(old_views, sv, self.ptr as int);
            lemma_concat_all_push(old(self).inputs@, sv);
            assert(self.emitted@ + (old(self).remaining() + sv) =~= (self.emitted@ + old(
                self,
            ).remaining()) + sv);
        }
    }

    /// Produce the next element: the head of the lowest-indexed source not
    /// yet exhausted. Reports exhaustion exactly when nothing remains.
    pub fn next(&mut self) -> (r: Option<i64>)
        requires
            old(self).wf(),
        ensures
            final(self).wf(),
            final(self).inputs() == old(self).inputs(),
            (r is None) <==> old(self).remaining().len() == 0,
            old(self).remaining().len() == 0 ==> final(self).produced() == old(self).produced()
                && final(self).remaining() == old(self).remaining(),
            old(self).remaining().len() > 0 ==> r == Some(old(self).remaining()[0])
                && final(self).remaining() == old(self).remaining().drop_first() && final(self).produced()
                == old(self).produced().push(old(self).remaining()[0]),
    {
        loop
            invariant
                old(self).wf(),
                self.ptr <= self.iters@.len(),
                self.iters@.len() == old(self).iters@.len(),
                forall|i: int| 0 <= i < self.iters@.len() ==> (#[trigger] self.iters@[i]).wf(),
                forall|i: int| 0 <= i < self.ptr ==> (#[trigger] self.iters@[i])@.len() == 0,
                self.emitted == old(self).emitted,
                self.inputs == old(self).inputs,
                self.remaining() == old(self).remaining(),
            decreases self.iters@.len() - self.ptr,
        {
            let ghost pre = *self;
            let ghost vs = views_of(self.iters@);
            if self.ptr >= self.iters.len() {
                proof {
                    assert(self.remaining() =~= Seq::<i64>::empty());
                }
                return None;
            }
            let ptr = self.ptr;
            let r = self.iters[ptr].next();
            proof {
                lemma_concat_from_agrees(
                    views_of(self.iters@),
                    vs,
                    self.ptr as int + 1,
                );
            }
            match r {
                Some(x) => {
                    proof {
                        assert(vs[pre.ptr as int].len() > 0);
                        assert(pre.remaining() == vs[pre.ptr as int] + concat_from(
                            vs,
                            pre.ptr as int + 1,
                        ));
                        assert(views_of(self.iters@)[pre.ptr as int] == vs[
                            pre.ptr as int
                        ].drop_first());
                        assert(self.remaining() == vs[pre.ptr as int].drop_first() + concat_from(
                            vs,
                            pre.ptr as int + 1,
                        ));
                        assert(pre.remaining()[0] == x);
                        assert(self.remaining() =~= pre.remaining().drop_first());
                    }
                    self.emitted = Ghost(self.emitted@.push(x));
                    proof {
                        assert(old(self).remaining().len() > 0);
                        assert(self.emitted@ + self.remaining() =~= concat_all(self.inputs@));
                    }
                    return Some(x);
                },
                None => {
                    proof {
                        assert(views_of(self.iters@)[pre.ptr as int] == vs[pre.ptr as int]);
                        assert(views_of(self.iters@) =~= vs);
                        assert(vs[pre.ptr as int].len() == 0);
                        assert(self.remaining() == Seq::<i64>::empty() + concat_from(
                            vs,
                            pre.ptr as int + 1,
                        ));
                        assert(self.remaining() =~= concat_from(vs, pre.ptr as int + 1));
                    }
                    self.ptr = self.ptr + 1;
                    proof {
                        assert(self.remaining() == concat_from(views_of(self.iters@), self.ptr as int));
                    }
                },
            }
        }
    }
}

} // verus!
