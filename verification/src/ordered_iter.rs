//! Ordered merge: every registered sequence is assumed pre-sorted in the
//! combinator's fixed direction, and a priority structure over the current
//! heads picks the globally best element at each step. When the assumption
//! holds the combined output is globally sorted; when it does not, every
//! element still comes out exactly once, only not in sorted order.

use vstd::prelude::*;
use vstd::multiset::Multiset;

use crate::model::{dir_le, ms_all, sorted_dir, views_of};
use crate::model::{
    lemma_ms_all_all_empty, lemma_ms_all_push, lemma_ms_all_update, lemma_sorted_dir_drop_first,
    lemma_sorted_dir_push, lemma_to_multiset_drop_first,
};
use crate::source::Source;

verus! {

broadcast use {vstd::multiset::group_multiset_axioms, vstd::seq_lib::group_to_multiset_ensures};

/// One entry of the priority structure: a pulled-but-not-yet-emitted head
/// element, tagged with the slot index of the sequence it came from.
struct Entry {
    key: i64,
    idx: usize,
}

/// Merging combinator driven by a total order over the elements, ascending
/// ("min", smallest first) or descending ("max", largest first), fixed at
/// construction.
pub struct OrderedIterator {
    ascending: bool,
    pending: Vec<Entry>,
    iters: Vec<Source>,
    inputs: Ghost<Seq<Seq<i64>>>,
    emitted: Ghost<Seq<i64>>,
}

impl OrderedIterator {
    /// The registered input sequences, in registration order, as they were
    /// when registered.
    pub closed spec fn inputs(self) -> Seq<Seq<i64>> {
        self.inputs@
    }

    /// The elements emitted so far, in emission order.
    pub closed spec fn produced(self) -> Seq<i64> {
        self.emitted@
    }

    /// The direction tag: `true` for ascending (smallest first), `false`
    /// for descending (largest first).
    pub closed spec fn ascending(self) -> bool {
        self.ascending
    }

    /// The current head elements held in the priority structure, one per
    /// live sequence, in no significant order.
    pub closed spec fn heads(self) -> Seq<i64> {
        self.pending@.map_values(|e: Entry| e.key)
    }

    /// What each sequence slot still holds beyond its head, by slot index.
    /// Retired slots keep an empty run; slot indices are never reused.
    pub closed spec fn sources(self) -> Seq<Seq<i64>> {
        views_of(self.iters@)
    }

    /// The elements pulled in but not yet emitted.
    pub open spec fn unemitted(self) -> Multiset<i64> {
        self.heads().to_multiset().add(ms_all(self.sources()))
    }

    pub closed spec fn wf(self) -> bool {
        &&& forall|k: int|
            0 <= k < self.pending@.len() ==> (#[trigger] self.pending@[k]).idx
                < self.iters@.len()
        &&& forall|k1: int, k2: int|
            0 <= k1 < k2 < self.pending@.len() ==> (#[trigger] self.pending@[k1]).idx != (
            #[trigger] self.pending@[k2]).idx
        &&& forall|i: int| 0 <= i < self.iters@.len() ==> (#[trigger] self.iters@[i]).wf()
        &&& forall|j: int|
            0 <= j < self.iters@.len() && (#[trigger] self.iters@[j])@.len() > 0 ==> exists|k: int|
                0 <= k < self.pending@.len() && (#[trigger] self.pending@[k]).idx == j
        &&& self.emitted@.to_multiset().add(self.unemitted()) == ms_all(self.inputs@)
    }

    /// Every element of every registered sequence is emitted exactly once or
    /// still pending: nothing is lost, nothing is duplicated, sorted inputs
    /// or not.
    pub open spec fn conserves(self) -> bool {
        self.produced().to_multiset().add(self.unemitted()) == ms_all(self.inputs())
    }

    /// Conservation holds in every well-formed state.
    pub proof fn lemma_conservation(self)
        requires
            self.wf(),
        ensures
            self.conserves(),
    {
    }

    /// Once the priority structure is empty, every registered element has
    /// been emitted: the output multiset is exactly the union multiset of
    /// all inputs, so the number of elements emitted is the sum of the
    /// input lengths, whether or not the inputs were sorted.
    pub proof fn lemma_exhausted_output(self)
        requires
            self.wf(),
            self.heads().len() == 0,
        ensures
            self.produced().to_multiset() == ms_all(self.inputs()),
    {
        assert forall|j: int| 0 <= j < self.sources().len() implies (
        #[trigger] self.sources()[j]).len() == 0 by {
            assert(self.sources()[j] == self.iters@[j]@);
        }
        lemma_ms_all_all_empty(self.sources());
        assert(self.heads().to_multiset() =~= Multiset::<i64>::empty());
        assert(self.produced().to_multiset() =~= self.produced().to_multiset().add(
            self.unemitted(),
        ));
    }

    /// The state reached by feeding only sequences sorted in the fixed
    /// direction: everything emitted so far is sorted that way, every
    /// pending head bounds it, and every live sequence is itself sorted
    /// beyond its head.
    pub closed spec fn sorted_state(self) -> bool {
        &&& sorted_dir(self.ascending, self.emitted@)
        &&& forall|k: int|
            0 <= k < self.pending@.len() && self.emitted@.len() > 0 ==> dir_le(
                self.ascending,
                self.emitted@.last(),
                (#[trigger] self.pending@[k]).key,
            )
        &&& forall|k: int|
            0 <= k < self.pending@.len() ==> sorted_dir(
                self.ascending,
                self.sources()[(#[trigger] self.pending@[k]).idx as int],
            )
        &&& forall|k: int|
            0 <= k < self.pending@.len() && self.sources()[(#[trigger] self.pending@[k]).idx as int].len()
                > 0 ==> dir_le(
                self.ascending,
                self.pending@[k].key,
                self.sources()[self.pending@[k].idx as int][0],
            )
    }

    /// In a sorted state the output so far is globally sorted in the fixed
    /// direction: non-decreasing when ascending, non-increasing when
    /// descending.
    pub proof fn lemma_sorted_output(self)
        requires
            self.sorted_state(),
        ensures
            sorted_dir(self.ascending(), self.produced()),
    {
    }

    /// One emission happened: some slot `j` owned the emitted head `x`.
    pub open spec fn advanced(pre: Self, post: Self, x: i64) -> bool {
        exists|j: int| #[trigger] Self::advances(pre, post, x, j)
    }

    /// The step relation of one emission: the best head `x` goes out, and
    /// the sequence at slot `j` that owned it either hands over a
    /// replacement head or is retired for good.
    pub open spec fn advances(pre: Self, post: Self, x: i64, j: int) -> bool {
        &&& 0 <= j < pre.sources().len()
        &&& post.produced() == pre.produced().push(x)
        &&& post.inputs() == pre.inputs()
        &&& post.ascending() == pre.ascending()
        &&& if pre.sources()[j].len() == 0 {
            post.heads().to_multiset() == pre.heads().to_multiset().remove(x) && post.sources()
                == pre.sources()
        } else {
            post.heads().to_multiset() == pre.heads().to_multiset().remove(x).insert(
                pre.sources()[j][0],
            ) && post.sources() == pre.sources().update(j, pre.sources()[j].drop_first())
        }
    }

    /// Create an ascending combinator: elements come out smallest first, so
    /// every added sequence must already be non-decreasing.
    pub fn new_min() -> (o: Self)
        ensures
            o.wf(),
            o.ascending() == true,
            o.inputs() == Seq::<Seq<i64>>::empty(),
            o.produced() == Seq::<i64>::empty(),
            o.heads() == Seq::<i64>::empty(),
            o.sources() == Seq::<Seq<i64>>::empty(),
            o.sorted_state(),
    {
        let o = OrderedIterator {
            ascending: true,
            pending: Vec::new(),
            iters: Vec::new(),
            inputs: Ghost(Seq::empty()),
            emitted: Ghost(Seq::empty()),
        };
        proof {
            Self::empty_is_wf(o);
        }
        o
    }

    /// Create a descending combinator: elements come out largest first, so
    /// every added sequence must already be non-increasing.
    pub fn new_max() -> (o: Self)
        ensures
            o.wf(),
            o.ascending() == false,
            o.inputs() == Seq::<Seq<i64>>::empty(),
            o.produced() == Seq::<i64>::empty(),
            o.heads() == Seq::<i64>::empty(),
            o.sources() == Seq::<Seq<i64>>::empty(),
            o.sorted_state(),
    {
        let o = OrderedIterator {
            ascending: false,
            pending: Vec::new(),
            iters: Vec::new(),
            inputs: Ghost(Seq::empty()),
            emitted: Ghost(Seq::empty()),
        };
        proof {
            Self::empty_is_wf(o);
        }
        o
    }

    proof fn empty_is_wf(o: Self)
        requires
            o.pending@ == Seq::<Entry>::empty(),
            o.iters@ == Seq::<Source>::empty(),
            o.inputs@ == Seq::<Seq<i64>>::empty(),
            o.emitted@ == Seq::<i64>::empty(),
        ensures
            o.wf(),
            o.heads() == Seq::<i64>::empty(),
            o.sources() == Seq::<Seq<i64>>::empty(),
            o.sorted_state(),
    {
        assert(o.heads() =~= Seq::<i64>::empty());
        assert(o.sources() =~= Seq::<Seq<i64>>::empty());
        assert(o.heads().to_multiset() =~= Multiset::<i64>::empty());
        assert(o.emitted@.to_multiset().add(o.unemitted()) =~= ms_all(o.inputs@));
    }

    /// Register one more sequence, which must already be sorted in the
    /// combinator's direction for the sorted-output guarantee to hold. Its
    /// first element is pulled at once and enters the priority structure; a
    /// sequence that is already exhausted is never tracked.
    pub fn add(&mut self, s: Source)
        requires
            old(self).wf(),
            s.wf(),
        ensures
            final(self).wf(),
            final(self).inputs() == old(self).inputs().push(s@),
            final(self).produced() == old(self).produced(),
            final(self).ascending() == old(self).ascending(),
            s@.len() == 0 ==> final(self).heads() == old(self).heads() && final(self).sources()
                == old(self).sources(),
            s@.len() > 0 ==> final(self).heads() == old(self).heads().push(s@[0])
                && final(self).sources() == old(self).sources().push(s@.drop_first()),
            old(self).sorted_state() && sorted_dir(old(self).ascending(), s@) && (old(
                self,
            ).produced().len() > 0 && s@.len() > 0 ==> dir_le(
                old(self).ascending(),
                old(self).produced().last(),
                s@[0],
            )) ==> final(self).sorted_state(),
    {
        let ghost sv = s@;
        let ghost pre = *self;
        let mut s = s;
        let h = s.next();
        match h {
            Some(x) => {
                let e = Entry { key: x, idx: self.iters.len() };
                self.pending.push(e);
                self.iters.push(s);
                self.inputs = Ghost(self.inputs@.push(sv));
                proof {
                    assert(self.sources() =~= pre.sources().push(sv.drop_first()));
                    assert(self.heads() =~= pre.heads().push(x));
                    lemma_ms_all_push(pre.sources(), sv.drop_first());
                    lemma_ms_all_push(pre.inputs@, sv);
                    lemma_to_multiset_drop_first(sv);
                    assert(self.heads().to_multiset() =~= pre.heads().to_multiset().insert(x));
                    assert forall|y: i64|
                        self.emitted@.to_multiset().add(self.unemitted()).count(y) == ms_all(
                            self.inputs@,
                        ).count(y) by {
                        assert(sv.to_multiset().count(y) == sv.drop_first().to_multiset().insert(
                            sv[0],
                        ).count(y));
                    }
                    assert(self.emitted@.to_multiset().add(self.unemitted()) =~= ms_all(
                        self.inputs@,
                    ));
                    assert forall|j: int|
                        0 <= j < self.iters@.len() && (#[trigger] self.iters@[j])@.len() > 0
                            implies exists|k: int|
                            0 <= k < self.pending@.len() && (#[trigger] self.pending@[k]).idx
                                == j by {
                        if j < pre.iters@.len() {
                            let k0 = choose|k: int|
                                0 <= k < pre.pending@.len() && (#[trigger] pre.pending@[k]).idx
                                    == j;
                            assert(self.pending@[k0].idx == j);
                        } else {
                            assert(self.pending@[self.pending@.len() - 1].idx == j);
                        }
                    }
                    assert(self.wf());
                    if pre.sorted_state() && sorted_dir(pre.ascending, sv) && (pre.emitted@.len()
                        > 0 ==> dir_le(pre.ascending, pre.emitted@.last(), sv[0])) {
                        lemma_sorted_dir_drop_first(pre.ascending, sv);
                        assert forall|k: int|
                            0 <= k < self.pending@.len() implies sorted_dir(
                                self.ascending,
                                self.sources()[(#[trigger] self.pending@[k]).idx as int],
                            ) && (self.sources()[self.pending@[k].idx as int].len() > 0 ==> dir_le(
                                self.ascending,
                                self.pending@[k].key,
                                self.sources()[self.pending@[k].idx as int][0],
                            )) by {
                            if k < pre.pending@.len() {
                                assert(self.pending@[k] == pre.pending@[k]);
                                assert(self.sources()[pre.pending@[k].idx as int]
                                    == pre.sources()[pre.pending@[k].idx as int]);
                            } else {
                                assert(self.pending@[k] == e);
                                assert(self.sources()[e.idx as int] == sv.drop_first());
                                assert(dir_le(self.ascending, sv[0], sv.drop_first()[0]) || sv.drop_first().len() == 0);
                            }
                        }
                        assert(self.sorted_state());
                    }
                }
            },
            None => {
                self.inputs = Ghost(self.inputs@.push(sv));
                proof {
                    lemma_ms_all_push(pre.inputs@, sv);
                    assert(sv.to_multiset() =~= Multiset::<i64>::empty());
                    assert(self.emitted@.to_multiset().add(self.unemitted()) =~= ms_all(
                        self.inputs@,
                    ));
                    assert(self.wf());
                }
            },
        }
    }

    /// Produce the next element, or report exhaustion. The best pending
    /// head per the direction tag is emitted (ties broken arbitrarily), and
    /// its sequence hands over a replacement head or is retired.
    pub fn next(&mut self) -> (r: Option<i64>)
        requires
            old(self).wf(),
        ensures
            final(self).wf(),
            final(self).inputs() == old(self).inputs(),
            final(self).ascending() == old(self).ascending(),
            (r is None) <==> old(self).heads().len() == 0,
            old(self).heads().len() == 0 ==> old(self).unemitted() == Multiset::<i64>::empty(),
            r is None ==> final(self).produced() == old(self).produced() && final(self).heads()
                == old(self).heads() && final(self).sources() == old(self).sources(),
            r matches Some(x) ==> old(self).heads().contains(x),
            r matches Some(x) ==> forall|k: int|
                0 <= k < old(self).heads().len() ==> dir_le(
                    old(self).ascending(),
                    x,
                    #[trigger] old(self).heads()[k],
                ),
            r matches Some(x) ==> Self::advanced(*old(self), *final(self), x),
            old(self).sorted_state() ==> final(self).sorted_state(),
    {
        let ghost pre = *self;
        if self.pending.len() == 0 {
            proof {
                assert forall|j: int| 0 <= j < pre.sources().len() implies (
                #[trigger] pre.sources()[j]).len() == 0 by {
                    assert(pre.sources()[j] == pre.iters@[j]@);
                }
                lemma_ms_all_all_empty(pre.sources());
                assert(pre.heads() =~= Seq::<i64>::empty());
                assert(pre.heads().to_multiset() =~= Multiset::<i64>::empty());
                assert(pre.unemitted() =~= Multiset::<i64>::empty());
            }
            return None;
        }
        // Linear scan for the best entry per the direction tag.
        let mut best: usize = 0;
        let mut k: usize = 1;
        while k < self.pending.len()
            invariant
                *self == pre,
                0 < pre.pending@.len(),
                best < k,
                k <= pre.pending@.len(),
                forall|m: int|
                    0 <= m < k ==> dir_le(
                        pre.ascending,
                        pre.pending@[best as int].key,
                        (#[trigger] pre.pending@[m]).key,
                    ),
            decreases pre.pending@.len() - k,
        {
            let better = if self.ascending {
                self.pending[k].key < self.pending[best].key
            } else {
                self.pending[k].key > self.pending[best].key
            };
            if better {
                best = k;
            }
            k = k + 1;
        }
        let ghost bi = best as int;
        let ghost n = pre.pending@.len();
        let e = self.pending.swap_remove(best);
        let ghost cut = *self;
        proof {
            assert(e == pre.pending@[bi]);
            Self::keys_after_pop(pre.pending@, bi);
            assert(cut.heads() =~= pre.heads().update(bi, pre.heads().last()).drop_last());
        }
        let key = e.key;
        let idx = e.idx;
        let nxt = self.iters[idx].next();
        let ghost mid = *self;
        match nxt {
            Some(x) => {
                self.pending.push(Entry { key: x, idx });
                self.emitted = Ghost(self.emitted@.push(key));
                proof {
                    Self::reestablish(pre, cut, mid, *self, bi, Some(x));
                    assert(Self::advances(*old(self), *self, key, pre.pending@[bi].idx as int));
                    assert(Self::advanced(*old(self), *self, key));
                }
                return Some(key);
            },
            None => {
                self.emitted = Ghost(self.emitted@.push(key));
                proof {
                    Self::reestablish(pre, cut, mid, *self, bi, None);
                    assert(Self::advances(*old(self), *self, key, pre.pending@[bi].idx as int));
                    assert(Self::advanced(*old(self), *self, key));
                }
                return Some(key);
            },
        }
    }

    /// The keys of the priority structure after removing the entry at `b`
    /// by swapping the last entry in: one occurrence of the removed key is
    /// gone, nothing else changes.
    proof fn keys_after_pop(p: Seq<Entry>, b: int)
        requires
            0 <= b < p.len(),
        ensures
            p.update(b, p.last()).drop_last().map_values(|e: Entry| e.key).to_multiset()
                =~= p.map_values(|e: Entry| e.key).to_multiset().remove(p[b].key),
    {
        let keys = p.map_values(|e: Entry| e.key);
        let cut_keys = p.update(b, p.last()).drop_last().map_values(|e: Entry| e.key);
        assert(cut_keys =~= keys.update(b, keys.last()).drop_last());
        let upd = keys.update(b, keys.last());
        assert(upd.drop_last() =~= upd.remove(upd.len() - 1));
        assert(upd.remove(upd.len() - 1).to_multiset() =~= upd.to_multiset().remove(
            upd[upd.len() - 1],
        ));
        assert(upd.to_multiset() == keys.to_multiset().insert(keys.last()).remove(keys[b]));
        assert(keys.contains(keys[b]));
        assert(keys.to_multiset().count(keys[b]) > 0);
        assert(keys.contains(keys.last()));
        assert(keys.to_multiset().count(keys.last()) > 0);
        assert forall|y: i64|
            cut_keys.to_multiset().count(y) == keys.to_multiset().remove(keys[b]).count(y) by {
        }
        assert(cut_keys.to_multiset() =~= keys.to_multiset().remove(keys[b]));
        assert(keys[b] == p[b].key);
    }

    /// After one emission the combinator is well-formed again, the step
    /// relation holds, and a sorted state stays sorted.
    proof fn reestablish(pre: Self, cut: Self, mid: Self, post: Self, b: int, x: Option<i64>)
        requires
            pre.wf(),
            0 <= b < pre.pending@.len(),
            forall|m: int|
                0 <= m < pre.pending@.len() ==> dir_le(
                    pre.ascending,
                    pre.pending@[b].key,
                    (#[trigger] pre.pending@[m]).key,
                ),
            cut.pending@ == pre.pending@.update(b, pre.pending@.last()).drop_last(),
            cut.iters@ == pre.iters@,
            cut.emitted == pre.emitted,
            cut.inputs == pre.inputs,
            cut.ascending == pre.ascending,
            mid.pending@ == cut.pending@,
            mid.emitted == cut.emitted,
            mid.inputs == cut.inputs,
            mid.ascending == cut.ascending,
            mid.iters@.len() == pre.iters@.len(),
            forall|i: int| 0 <= i < mid.iters@.len() ==> (#[trigger] mid.iters@[i]).wf(),
            forall|i: int|
                0 <= i < mid.iters@.len() && i != pre.pending@[b].idx as int ==> (
                #[trigger] mid.iters@[i])@ == pre.iters@[i]@,
            x is Some ==> pre.sources()[pre.pending@[b].idx as int].len() > 0 && x
                == Some(pre.sources()[pre.pending@[b].idx as int][0])
                && mid.iters@[pre.pending@[b].idx as int]@ == pre.sources()[pre.pending@[b].idx as int].drop_first(),
            x is None ==> pre.sources()[pre.pending@[b].idx as int].len() == 0
                && mid.iters@[pre.pending@[b].idx as int]@ == pre.sources()[pre.pending@[b].idx as int],
            post.pending@ == if x is Some {
                mid.pending@.push(Entry { key: x.unwrap(), idx: pre.pending@[b].idx })
            } else {
                mid.pending@
            },
            post.iters@ == mid.iters@,
            post.emitted@ == mid.emitted@.push(pre.pending@[b].key),
            post.inputs == mid.inputs,
            post.ascending == mid.ascending,
        ensures
            post.wf(),
            pre.heads().contains(pre.pending@[b].key),
            Self::advances(pre, post, pre.pending@[b].key, pre.pending@[b].idx as int),
            pre.sorted_state() ==> post.sorted_state(),
    {
        let key = pre.pending@[b].key;
        let j = pre.pending@[b].idx as int;
        let keys = pre.heads();
        assert(keys[b] == key);
        assert(keys.contains(key));
        Self::keys_after_pop(pre.pending@, b);
        assert(cut.heads() =~= pre.pending@.update(b, pre.pending@.last()).drop_last().map_values(
            |e: Entry| e.key,
        ));
        assert(cut.heads().to_multiset() == pre.heads().to_multiset().remove(key));
        assert(post.emitted@.to_multiset() =~= pre.emitted@.to_multiset().insert(key));
        assert(pre.heads().to_multiset().count(key) > 0);

        // How each cut entry relates to a pre entry: position m came from
        // position m, except that the last pre entry may have moved into b.
        assert forall|m: int| 0 <= m < cut.pending@.len() implies exists|m0: int|
            0 <= m0 < pre.pending@.len() && m0 != b && #[trigger] cut.pending@[m]
                == pre.pending@[m0] by {
            if m == b {
                assert(cut.pending@[m] == pre.pending@[pre.pending@.len() - 1]);
                assert(b != pre.pending@.len() - 1);
            } else {
                assert(cut.pending@[m] == pre.pending@[m]);
            }
        }

        match x {
            Some(xv) => {
                assert(post.sources() =~= pre.sources().update(j, pre.sources()[j].drop_first()));
                lemma_ms_all_update(pre.sources(), j, pre.sources()[j].drop_first());
                lemma_to_multiset_drop_first(pre.sources()[j]);
                assert(post.heads() =~= cut.heads().push(xv));
                assert(post.heads().to_multiset() == cut.heads().to_multiset().insert(xv));
                assert forall|y: i64|
                    post.emitted@.to_multiset().add(post.unemitted()).count(y) == ms_all(
                        post.inputs@,
                    ).count(y) by {
                    assert(pre.emitted@.to_multiset().add(pre.unemitted()).count(y) == ms_all(
                        pre.inputs@,
                    ).count(y));
                    assert(ms_all(post.sources()).add(pre.sources()[j].to_multiset()).count(y)
                        == ms_all(pre.sources()).add(
                        pre.sources()[j].drop_first().to_multiset(),
                    ).count(y));
                    assert(pre.sources()[j].to_multiset().count(y)
                        == pre.sources()[j].drop_first().to_multiset().insert(
                        pre.sources()[j][0],
                    ).count(y));
                }
                assert(post.emitted@.to_multiset().add(post.unemitted()) =~= ms_all(post.inputs@));
            },
            None => {
                assert(post.sources() =~= pre.sources());
                assert(post.heads() == cut.heads());
                assert forall|y: i64|
                    post.emitted@.to_multiset().add(post.unemitted()).count(y) == ms_all(
                        post.inputs@,
                    ).count(y) by {
                    assert(pre.emitted@.to_multiset().add(pre.unemitted()).count(y) == ms_all(
                        pre.inputs@,
                    ).count(y));
                }
                assert(post.emitted@.to_multiset().add(post.unemitted()) =~= ms_all(post.inputs@));
            },
        }

        // Slot bounds and distinctness of the surviving entries.
        assert forall|k1: int, k2: int| 0 <= k1 < k2 < post.pending@.len() implies (
        #[trigger] post.pending@[k1]).idx != (#[trigger] post.pending@[k2]).idx by {
            if x is Some && k2 == post.pending@.len() - 1 {
                let m0 = choose|m0: int|
                    0 <= m0 < pre.pending@.len() && m0 != b && cut.pending@[k1]
                        == pre.pending@[m0];
                assert(post.pending@[k1].idx != pre.pending@[b].idx);
            } else {
                let m1 = choose|m0: int|
                    0 <= m0 < pre.pending@.len() && m0 != b && cut.pending@[k1]
                        == pre.pending@[m0];
                let m2 = choose|m0: int|
                    0 <= m0 < pre.pending@.len() && m0 != b && cut.pending@[k2]
                        == pre.pending@[m0];
                if k1 == b {
                    assert(cut.pending@[k1] == pre.pending@[pre.pending@.len() - 1]);
                }
                if k2 == b {
                    assert(cut.pending@[k2] == pre.pending@[pre.pending@.len() - 1]);
                }
                assert(cut.pending@[k1] == pre.pending@[if k1 == b {
                    pre.pending@.len() - 1
                } else {
                    k1
                }]);
                assert(cut.pending@[k2] == pre.pending@[if k2 == b {
                    pre.pending@.len() - 1
                } else {
                    k2
                }]);
            }
        }

        // Every still-live slot keeps an entry.
        assert forall|jj: int|
            0 <= jj < post.iters@.len() && (#[trigger] post.iters@[jj])@.len() > 0
                implies exists|k: int|
                0 <= k < post.pending@.len() && (#[trigger] post.pending@[k]).idx == jj by {
            if jj == j {
                assert(x is Some);
                assert(post.pending@[post.pending@.len() - 1].idx == jj);
            } else {
                assert(pre.iters@[jj]@.len() > 0);
                let k0 = choose|k: int|
                    0 <= k < pre.pending@.len() && (#[trigger] pre.pending@[k]).idx == jj;
                assert(k0 != b);
                let k1: int = if k0 == pre.pending@.len() - 1 {
                    b
                } else {
                    k0
                };
                assert(cut.pending@[k1] == pre.pending@[k0]);
                assert(post.pending@[k1].idx == jj);
            }
        }
        assert(post.wf());

        // The step relation.
        assert(Self::advances(pre, post, key, j));

        // A sorted state stays sorted: the emitted key was a best pending
        // head, so it bounds everything that can still come out.
        if pre.sorted_state() {
            assert forall|m: int| 0 <= m < pre.emitted@.len() implies dir_le(
                pre.ascending,
                pre.emitted@[m],
                key,
            ) by {
                assert(dir_le(pre.ascending, pre.emitted@[m], pre.emitted@[pre.emitted@.len() - 1]));
                assert(dir_le(pre.ascending, pre.emitted@.last(), pre.pending@[b].key));
            }
            lemma_sorted_dir_push(pre.ascending, pre.emitted@, key);
            assert(sorted_dir(post.ascending, post.emitted@));
            assert(post.emitted@.last() == key);
            assert forall|k: int|
                0 <= k < post.pending@.len() && post.emitted@.len() > 0 implies dir_le(
                post.ascending,
                post.emitted@.last(),
                (#[trigger] post.pending@[k]).key,
            ) by {
                if x is Some && k == post.pending@.len() - 1 {
                    assert(post.pending@[k].key == x.unwrap());
                    assert(dir_le(pre.ascending, key, pre.sources()[j][0]));
                } else {
                    let m0 = choose|m0: int|
                        0 <= m0 < pre.pending@.len() && m0 != b && cut.pending@[k]
                            == pre.pending@[m0];
                    assert(dir_le(pre.ascending, key, pre.pending@[m0].key));
                }
            }
            assert forall|k: int| 0 <= k < post.pending@.len() implies sorted_dir(
                post.ascending,
                post.sources()[(#[trigger] post.pending@[k]).idx as int],
            ) && (post.sources()[post.pending@[k].idx as int].len() > 0 ==> dir_le(
                post.ascending,
                post.pending@[k].key,
                post.sources()[post.pending@[k].idx as int][0],
            )) by {
                if x is Some && k == post.pending@.len() - 1 {
                    assert(post.pending@[k].idx as int == j);
                    assert(post.sources()[j] == pre.sources()[j].drop_first());
                    lemma_sorted_dir_drop_first(pre.ascending, pre.sources()[j]);
                    if pre.sources()[j].drop_first().len() > 0 {
                        assert(dir_le(
                            pre.ascending,
                            pre.sources()[j][0],
                            pre.sources()[j].drop_first()[0],
                        ));
                    }
                } else {
                    let m0 = choose|m0: int|
                        0 <= m0 < pre.pending@.len() && m0 != b && cut.pending@[k]
                            == pre.pending@[m0];
                    assert(pre.pending@[m0].idx != pre.pending@[b].idx);
                    assert(post.sources()[pre.pending@[m0].idx as int]
                        == pre.sources()[pre.pending@[m0].idx as int]);
                }
            }
            assert(post.sorted_state());
        }
    }
}

} // verus!
