//! Predicate merge: a caller-supplied selection function looks at the
//! current head of every live sequence and picks which one to emit next.
//! Returning no index, or one outside the live range, ends the iteration at
//! once, even if data remains: the selection function has veto power.

use vstd::prelude::*;
use vstd::multiset::Multiset;

use crate::model::{dir_le, ms_all, sorted_dir, views_of};
use crate::model::{
    lemma_ms_all_push, lemma_ms_all_remove_empty, lemma_ms_all_update,
    lemma_sorted_dir_drop_first, lemma_sorted_dir_push, lemma_to_multiset_drop_first,
};
use crate::source::Source;

verus! {

broadcast use {vstd::multiset::group_multiset_axioms, vstd::seq_lib::group_to_multiset_ensures};

/// The selection function declined to choose: it returned no index, or an
/// index outside the current live range. Either ends the iteration.
pub open spec fn vetoes(heads: Seq<i64>, c: Option<usize>) -> bool {
    match c {
        Option::None => true,
        Option::Some(i) => i >= heads.len(),
    }
}

/// The selection function always picks an index of a minimal current head.
pub open spec fn picks_min(heads: Seq<i64>, c: Option<usize>) -> bool {
    heads.len() > 0 ==> match c {
        Option::None => false,
        Option::Some(i) => i < heads.len() && forall|j: int|
            0 <= j < heads.len() ==> heads[i as int] <= #[trigger] heads[j],
    }
}

/// Merging combinator steered by a selection function over the current
/// heads.
pub struct MultiIterator<F> where F: Fn(Vec<i64>) -> Option<usize> {
    head: Vec<i64>,
    iters: Vec<Source>,
    choose_function: F,
    inputs: Ghost<Seq<Seq<i64>>>,
    emitted: Ghost<Seq<i64>>,
}

impl<F> MultiIterator<F> where F: Fn(Vec<i64>) -> Option<usize> {
    /// The registered input sequences, in registration order, as they were
    /// when registered.
    pub closed spec fn inputs(self) -> Seq<Seq<i64>> {
        self.inputs@
    }

    /// The elements emitted so far, in emission order.
    pub closed spec fn produced(self) -> Seq<i64> {
        self.emitted@
    }

    /// The current head elements, one per live sequence, in live order.
    /// Indices compact when a sequence retires.
    pub closed spec fn heads(self) -> Seq<i64> {
        self.head@
    }

    /// What each live sequence still holds beyond its head, in live order.
    pub closed spec fn sources(self) -> Seq<Seq<i64>> {
        views_of(self.iters@)
    }

    /// The fixed selection function.
    pub closed spec fn selector(self) -> F {
        self.choose_function
    }

    /// The elements pulled in but not yet emitted.
    pub open spec fn unemitted(self) -> Multiset<i64> {
        self.heads().to_multiset().add(ms_all(self.sources()))
    }

    pub closed spec fn wf(self) -> bool {
        &&& self.head@.len() == self.iters@.len()
        &&& forall|i: int| 0 <= i < self.iters@.len() ==> (#[trigger] self.iters@[i]).wf()
        &&& self.emitted@.to_multiset().add(self.unemitted()) == ms_all(self.inputs@)
    }

    /// Every element of every registered sequence is emitted exactly once or
    /// still pending: nothing is lost, nothing is duplicated.
    pub open spec fn conserves(self) -> bool {
        self.produced().to_multiset().add(self.unemitted()) == ms_all(self.inputs())
    }

    /// Conservation holds in every well-formed state.
    pub proof fn lemma_conservation(self)
        requires
            self.wf(),
        ensures
            self.conserves(),
    {
    }

    /// Once no head slot is live, every registered element has been
    /// emitted: the output multiset is exactly the union multiset of all
    /// inputs.
    pub proof fn lemma_exhausted_output(self)
        requires
            self.wf(),
            self.heads().len() == 0,
        ensures
            self.produced().to_multiset() == ms_all(self.inputs()),
    {
        assert(self.sources() =~= Seq::<Seq<i64>>::empty());
        assert(self.heads().to_multiset() =~= Multiset::<i64>::empty());
        assert(self.produced().to_multiset() =~= self.produced().to_multiset().add(
            self.unemitted(),
        ));
    }

    /// The state in which a selection function that always picks a minimal
    /// head keeps the output sorted: everything emitted so far is
    /// non-decreasing, every current head bounds it, and every live sequence
    /// is itself non-decreasing beyond its head.
    pub open spec fn sorted_state(self) -> bool {
        &&& sorted_dir(true, self.produced())
        &&& forall|i: int|
            0 <= i < self.heads().len() && self.produced().len() > 0 ==> self.produced().last()
                <= #[trigger] self.heads()[i]
        &&& forall|i: int|
            0 <= i < self.sources().len() ==> sorted_dir(true, #[trigger] self.sources()[i])
        &&& forall|i: int|
            0 <= i < self.sources().len() && (#[trigger] self.sources()[i]).len() > 0
                ==> self.heads()[i] <= self.sources()[i][0]
    }

    /// The step relation of one emission: the head at live index `i` goes
    /// out; its sequence either hands over a replacement head or retires,
    /// compacting the live indices.
    pub open spec fn advances(pre: Self, post: Self, i: int) -> bool {
        &&& 0 <= i < pre.heads().len()
        &&& post.produced() == pre.produced().push(pre.heads()[i])
        &&& if pre.sources()[i].len() == 0 {
            post.heads() == pre.heads().remove(i) && post.sources() == pre.sources().remove(i)
        } else {
            post.heads() == pre.heads().update(i, pre.sources()[i][0]) && post.sources()
                == pre.sources().update(i, pre.sources()[i].drop_first())
        }
        &&& post.inputs() == pre.inputs()
    }

    /// Create a combinator with no registered sequences and the given
    /// selection function, fixed for the combinator's lifetime.
    pub fn new(choose_function: F) -> (m: Self)
        ensures
            m.wf(),
            m.inputs() == Seq::<Seq<i64>>::empty(),
            m.produced() == Seq::<i64>::empty(),
            m.heads() == Seq::<i64>::empty(),
            m.sources() == Seq::<Seq<i64>>::empty(),
            m.selector() == choose_function,
            m.sorted_state(),
    {
        let m = MultiIterator {
            head: Vec::new(),
            iters: Vec::new(),
            choose_function,
            inputs: Ghost(Seq::empty()),
            emitted: Ghost(Seq::empty()),
        };
        proof {
            assert(m.sources() =~= Seq::<Seq<i64>>::empty());
            assert(m.heads().to_multiset() =~= Multiset::<i64>::empty());
            assert(m.emitted@.to_multiset().add(m.unemitted()) =~= ms_all(m.inputs@));
        }
        m
    }

    /// Register one more sequence. Its first element is pulled at once to
    /// seed a head slot; a sequence that is already exhausted is never
    /// registered and contributes nothing.
    pub fn add(&mut self, s: Source)
        requires
            old(self).wf(),
            s.wf(),
        ensures
            final(self).wf(),
            final(self).inputs() == old(self).inputs().push(s@),
            final(self).produced() == old(self).produced(),
            final(self).selector() == old(self).selector(),
            s@.len() == 0 ==> final(self).heads() == old(self).heads() && final(self).sources()
                == old(self).sources(),
            s@.len() > 0 ==> final(self).heads() == old(self).heads().push(s@[0])
                && final(self).sources() == old(self).sources().push(s@.drop_first()),
            old(self).sorted_state() && sorted_dir(true, s@) && (old(self).produced().len() > 0
                && s@.len() > 0 ==> old(self).produced().last() <= s@[0])
                ==> final(self).sorted_state(),
    {
        let ghost sv = s@;
        let ghost pre = *self;
        let mut s = s;
        let h = s.next();
        match h {
            Some(x) => {
                self.head.push(x);
                self.iters.push(s);
                self.inputs = Ghost(self.inputs@.push(sv));
                proof {
                    assert(self.sources() =~= pre.sources().push(sv.drop_first()));
                    lemma_ms_all_push(pre.sources(), sv.drop_first());
                    lemma_ms_all_push(pre.inputs@, sv);
                    lemma_to_multiset_drop_first(sv);
                    assert(self.heads().to_multiset() =~= pre.heads().to_multiset().insert(x));
                    assert forall|y: i64|
                        self.emitted@.to_multiset().add(self.unemitted()).count(y) == ms_all(
                            self.inputs@,
                        ).count(y) by {
                        assert(sv.to_multiset().count(y) == sv.drop_first().to_multiset().insert(
                            sv[0],
                        ).count(y));
                    }
                    assert(self.emitted@.to_multiset().add(self.unemitted()) =~= ms_all(
                        self.inputs@,
                    ));
                    if pre.sorted_state() && sorted_dir(true, sv) && (pre.produced().len() > 0
                        ==> pre.produced().last() <= sv[0]) {
                        lemma_sorted_dir_drop_first(true, sv);
                        assert forall|i: int|
                            0 <= i < self.heads().len() && self.produced().len() > 0
                                implies self.produced().last() <= #[trigger] self.heads()[i] by {
                            if i < pre.heads().len() {
                                assert(self.heads()[i] == pre.heads()[i]);
                            } else {
                                assert(self.heads()[i] == sv[0]);
                            }
                        }
                        assert forall|i: int| 0 <= i < self.sources().len() implies sorted_dir(
                            true,
                            #[trigger] self.sources()[i],
                        ) by {
                            if i < pre.sources().len() {
                                assert(self.sources()[i] == pre.sources()[i]);
                            } else {
                                assert(self.sources()[i] == sv.drop_first());
                            }
                        }
                        assert forall|i: int|
                            0 <= i < self.sources().len() && (#[trigger] self.sources()[i]).len()
                                > 0 implies self.heads()[i] <= self.sources()[i][0] by {
                            if i < pre.sources().len() {
                                assert(self.sources()[i] == pre.sources()[i]);
                                assert(self.heads()[i] == pre.heads()[i]);
                            } else {
                                assert(self.sources()[i] == sv.drop_first());
                                assert(self.heads()[i] == sv[0]);
                                assert(dir_le(true, sv[0], sv.drop_first()[0]));
                            }
                        }
                        assert(self.sorted_state());
                    }
                }
            },
            None => {
                self.inputs = Ghost(self.inputs@.push(sv));
                proof {
                    lemma_ms_all_push(pre.inputs@, sv);
                    assert(sv.to_multiset() =~= Multiset::<i64>::empty());
                    assert(self.emitted@.to_multiset().add(self.unemitted()) =~= ms_all(
                        self.inputs@,
                    ));
                }
            },
        }
    }

    /// Produce the next element, or report exhaustion. The selection
    /// function is shown the current heads in live order; the head it picks
    /// is emitted and its sequence advances or retires. A veto (no index, or
    /// one out of range) ends the iteration with nothing changed.
    pub fn next(&mut self) -> (r: Option<i64>)
        requires
            old(self).wf(),
            forall|hv: Vec<i64>| call_requires(old(self).selector(), (hv,)),
        ensures
            final(self).wf(),
            final(self).inputs() == old(self).inputs(),
            final(self).selector() == old(self).selector(),
            old(self).heads().len() == 0 ==> r is None,
            r is None ==> final(self).produced() == old(self).produced() && final(self).heads()
                == old(self).heads() && final(self).sources() == old(self).sources(),
            r is None && old(self).heads().len() > 0 ==> exists|hv: Vec<i64>, c: Option<usize>|
                hv@ == old(self).heads() && #[trigger] call_ensures(
                    old(self).selector(),
                    (hv,),
                    c,
                ) && vetoes(old(self).heads(), c),
            r is Some ==> exists|hv: Vec<i64>, i: usize|
                hv@ == old(self).heads() && #[trigger] call_ensures(
                    old(self).selector(),
                    (hv,),
                    Some(i),
                ) && i < old(self).heads().len() && r == Some(old(self).heads()[i as int])
                    && Self::advances(*old(self), *final(self), i as int),
            old(self).sorted_state() && (forall|hv: Vec<i64>, c: Option<usize>|
                #[trigger] call_ensures(old(self).selector(), (hv,), c) ==> picks_min(hv@, c))
                ==> final(self).sorted_state(),
    {
        let ghost pre = *self;
        if self.head.len() == 0 {
            return None;
        }
        let hv = self.head.clone();
        proof {
            assert(hv@ =~= self.head@);
        }
        let ghost hvg = hv;
        proof {
            assert(self.choose_function == old(self).selector());
            assert(call_requires(old(self).selector(), (hv,)));
        }
        let chosen = (self.choose_function)(hv);
        let index = match chosen {
            None => {
                proof {
                    assert(call_ensures(pre.selector(), (hvg,), chosen) && vetoes(
                        pre.heads(),
                        chosen,
                    ));
                }
                return None;
            },
            Some(index) => index,
        };
        if index >= self.head.len() {
            proof {
                assert(call_ensures(pre.selector(), (hvg,), chosen) && vetoes(
                    pre.heads(),
                    chosen,
                ));
            }
            return None;
        }
        let ghost is_min = forall|j: int|
            0 <= j < pre.heads().len() ==> pre.heads()[index as int] <= #[trigger] pre.heads()[j];
        let nxt = self.iters[index].next();
        let ghost mid = *self;
        match nxt {
            None => {
                // The chosen sequence is exhausted: retire it, compacting
                // the live indices, and emit its head.
                let _ = self.iters.remove(index);
                let removed = self.head.remove(index);
                self.emitted = Ghost(self.emitted@.push(removed));
                proof {
                    assert(pre.sources()[index as int] == pre.iters@[index as int]@);
                    assert(mid.sources() =~= pre.sources());
                    Self::reestablish_retire(pre, mid, *self, index as int);
                    assert(call_ensures(pre.selector(), (hvg,), Some(index)));
                    if forall|hv2: Vec<i64>, c: Option<usize>|
                        #[trigger] call_ensures(pre.selector(), (hv2,), c) ==> picks_min(hv2@, c) {
                        assert(picks_min(hvg@, Some(index)));
                        assert(is_min);
                    }
                }
                return Some(removed);
            },
            Some(x) => {
                // Swap the fresh element into the head slot and emit the
                // old head.
                let prev = self.head[index];
                self.head[index] = x;
                self.emitted = Ghost(self.emitted@.push(prev));
                proof {
                    assert(pre.sources()[index as int] == pre.iters@[index as int]@);
                    assert(mid.sources() =~= pre.sources().update(
                        index as int,
                        pre.sources()[index as int].drop_first(),
                    ));
                    Self::reestablish_swap(pre, mid, *self, index as int, x);
                    assert(call_ensures(pre.selector(), (hvg,), Some(index)));
                    if forall|hv2: Vec<i64>, c: Option<usize>|
                        #[trigger] call_ensures(pre.selector(), (hv2,), c) ==> picks_min(hv2@, c) {
                        assert(picks_min(hvg@, Some(index)));
                        assert(is_min);
                    }
                }
                return Some(prev);
            },
        }
    }

    /// After retiring the chosen sequence: well-formedness and the step
    /// relation hold again, and a minimal choice preserves the sorted state.
    proof fn reestablish_retire(pre: Self, mid: Self, post: Self, i: int)
        requires
            pre.wf(),
            0 <= i < pre.heads().len(),
            mid.head == pre.head,
            mid.emitted == pre.emitted,
            mid.inputs == pre.inputs,
            mid.choose_function == pre.choose_function,
            mid.iters@.len() == pre.iters@.len(),
            forall|k: int| 0 <= k < mid.iters@.len() ==> (#[trigger] mid.iters@[k]).wf(),
            pre.sources()[i].len() == 0,
            mid.sources() == pre.sources(),
            post.head@ == mid.head@.remove(i),
            post.iters@ == mid.iters@.remove(i),
            post.emitted@ == mid.emitted@.push(pre.heads()[i]),
            post.inputs == mid.inputs,
            post.choose_function == mid.choose_function,
        ensures
            post.wf(),
            Self::advances(pre, post, i),
            pre.sorted_state() && (forall|j: int|
                0 <= j < pre.heads().len() ==> pre.heads()[i] <= #[trigger] pre.heads()[j])
                ==> post.sorted_state(),
    {
        let h = pre.head@[i];
        assert(post.sources() =~= pre.sources().remove(i));
        lemma_ms_all_remove_empty(pre.sources(), i);
        assert(post.head@.to_multiset() =~= pre.head@.to_multiset().remove(h));
        assert(post.emitted@.to_multiset() =~= pre.emitted@.to_multiset().insert(h));
        assert(pre.head@.to_multiset().count(h) > 0) by {
            assert(pre.head@.contains(h));
        }
        assert forall|y: i64|
            post.emitted@.to_multiset().add(post.unemitted()).count(y) == ms_all(
                post.inputs@,
            ).count(y) by {
            assert(pre.emitted@.to_multiset().add(pre.unemitted()).count(y) == ms_all(
                pre.inputs@,
            ).count(y));
        }
        assert(post.emitted@.to_multiset().add(post.unemitted()) =~= ms_all(post.inputs@));
        if pre.sorted_state() && (forall|j: int|
            0 <= j < pre.heads().len() ==> pre.heads()[i] <= #[trigger] pre.heads()[j]) {
            assert forall|k: int| 0 <= k < pre.produced().len() implies dir_le(
                true,
                pre.produced()[k],
                h,
            ) by {
                assert(dir_le(true, pre.produced()[k], pre.produced()[pre.produced().len() - 1]));
            }
            lemma_sorted_dir_push(true, pre.produced(), h);
            assert forall|k: int|
                0 <= k < post.heads().len() && post.produced().len() > 0
                    implies post.produced().last() <= #[trigger] post.heads()[k] by {
                if k < i {
                    assert(post.heads()[k] == pre.heads()[k]);
                } else {
                    assert(post.heads()[k] == pre.heads()[k + 1]);
                }
            }
            assert forall|k: int| 0 <= k < post.sources().len() implies sorted_dir(
                true,
                #[trigger] post.sources()[k],
            ) && (post.sources()[k].len() > 0 ==> post.heads()[k] <= post.sources()[k][0]) by {
                if k < i {
                    assert(post.sources()[k] == pre.sources()[k]);
                    assert(post.heads()[k] == pre.heads()[k]);
                } else {
                    assert(post.sources()[k] == pre.sources()[k + 1]);
                    assert(post.heads()[k] == pre.heads()[k + 1]);
                }
            }
            assert(post.sorted_state());
        }
    }

    /// After swapping the replacement head in: well-formedness and the step
    /// relation hold again, and a minimal choice preserves the sorted state.
    proof fn reestablish_swap(pre: Self, mid: Self, post: Self, i: int, x: i64)
        requires
            pre.wf(),
            0 <= i < pre.heads().len(),
            mid.head == pre.head,
            mid.emitted == pre.emitted,
            mid.inputs == pre.inputs,
            mid.choose_function == pre.choose_function,
            mid.iters@.len() == pre.iters@.len(),
            forall|k: int| 0 <= k < mid.iters@.len() ==> (#[trigger] mid.iters@[k]).wf(),
            pre.sources()[i].len() > 0,
            x == pre.sources()[i][0],
            mid.sources() == pre.sources().update(i, pre.sources()[i].drop_first()),
            post.head@ == mid.head@.update(i, x),
            post.iters@ == mid.iters@,
            post.emitted@ == mid.emitted@.push(pre.heads()[i]),
            post.inputs == mid.inputs,
            post.choose_function == mid.choose_function,
        ensures
            post.wf(),
            Self::advances(pre, post, i),
            pre.sorted_state() && (forall|j: int|
                0 <= j < pre.heads().len() ==> pre.heads()[i] <= #[trigger] pre.heads()[j])
                ==> post.sorted_state(),
    {
        let h = pre.head@[i];
        let tail = pre.sources()[i].drop_first();
        lemma_ms_all_update(pre.sources(), i, tail);
        lemma_to_multiset_drop_first(pre.sources()[i]);
        assert(post.sources() == pre.sources().update(i, tail));
        assert(post.head@.to_multiset() == pre.head@.to_multiset().insert(x).remove(h));
        assert(post.emitted@.to_multiset() =~= pre.emitted@.to_multiset().insert(h));
        assert(pre.head@.to_multiset().count(h) > 0) by {
            assert(pre.head@.contains(h));
        }
        assert forall|y: i64|
            post.emitted@.to_multiset().add(post.unemitted()).count(y) == ms_all(
                post.inputs@,
            ).count(y) by {
            assert(pre.emitted@.to_multiset().add(pre.unemitted()).count(y) == ms_all(
                pre.inputs@,
            ).count(y));
            assert(ms_all(post.sources()).add(pre.sources()[i].to_multiset()).count(y) == ms_all(
                pre.sources(),
            ).add(tail.to_multiset()).count(y));
            assert(pre.sources()[i].to_multiset().count(y) == tail.to_multiset().insert(x).count(
                y,
            ));
        }
        assert(post.emitted@.to_multiset().add(post.unemitted()) =~= ms_all(post.inputs@));
        if pre.sorted_state() && (forall|j: int|
            0 <= j < pre.heads().len() ==> pre.heads()[i] <= #[trigger] pre.heads()[j]) {
            assert forall|k: int| 0 <= k < pre.produced().len() implies dir_le(
                true,
                pre.produced()[k],
                h,
            ) by {
                assert(dir_le(true, pre.produced()[k], pre.produced()[pre.produced().len() - 1]));
            }
            lemma_sorted_dir_push(true, pre.produced(), h);
            lemma_sorted_dir_drop_first(true, pre.sources()[i]);
            assert forall|k: int|
                0 <= k < post.heads().len() && post.produced().len() > 0
                    implies post.produced().last() <= #[trigger] post.heads()[k] by {
                if k == i {
                    assert(post.heads()[k] == x);
                    assert(dir_le(true, pre.sources()[i][0], pre.sources()[i][0]));
                    assert(h <= x);
                } else {
                    assert(post.heads()[k] == pre.heads()[k]);
                }
            }
            assert forall|k: int| 0 <= k < post.sources().len() implies sorted_dir(
                true,
                #[trigger] post.sources()[k],
            ) && (post.sources()[k].len() > 0 ==> post.heads()[k] <= post.sources()[k][0]) by {
                if k == i {
                    assert(post.sources()[k] == tail);
                    assert(post.heads()[k] == x);
                    if tail.len() > 0 {
                        assert(dir_le(true, pre.sources()[i][0], pre.sources()[i][1]));
                        assert(tail[0] == pre.sources()[i][1]);
                    }
                } else {
                    assert(post.sources()[k] == pre.sources()[k]);
                    assert(post.heads()[k] == pre.heads()[k]);
                }
            }
            assert(post.sorted_state());
        }
    }
}

} // verus!
