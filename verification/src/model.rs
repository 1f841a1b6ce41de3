//! The mathematical model shared by the combinators: concatenation of a
//! family of runs, the multiset of elements a family holds, and order
//! predicates parameterised by the merge direction.

use vstd::prelude::*;
use vstd::multiset::Multiset;

use crate::source::Source;

verus! {

broadcast use vstd::multiset::group_multiset_axioms;

/// The runs still held by a family of sources.
pub open spec fn views_of(srcs: Seq<Source>) -> Seq<Seq<i64>> {
    srcs.map_values(|s: Source| s@)
}

/// The concatenation of a family of runs, in order.
pub open spec fn concat_all(ss: Seq<Seq<i64>>) -> Seq<i64>
    decreases ss.len(),
{
    if ss.len() == 0 {
        Seq::empty()
    } else {
        concat_all(ss.drop_last()) + ss.last()
    }
}

/// The multiset of all elements held by a family of runs.
pub open spec fn ms_all(ss: Seq<Seq<i64>>) -> Multiset<i64>
    decreases ss.len(),
{
    if ss.len() == 0 {
        Multiset::empty()
    } else {
        ms_all(ss.drop_last()).add(ss.last().to_multiset())
    }
}

/// The concatenation of the runs of a family from position `i` on.
pub open spec fn concat_from(ss: Seq<Seq<i64>>, i: int) -> Seq<i64>
    decreases ss.len() - i,
    when 0 <= i <= ss.len()
{
    if i >= ss.len() {
        Seq::empty()
    } else {
        ss[i] + concat_from(ss, i + 1)
    }
}

pub proof fn lemma_concat_from_push(ss: Seq<Seq<i64>>, v: Seq<i64>, i: int)
    requires
        0 <= i <= ss.len(),
    ensures
        concat_from(ss.push(v), i) == concat_from(ss, i) + v,
    decreases ss.len() - i,
{
    if i == ss.len() {
        assert(concat_from(ss.push(v), i + 1) =~= Seq::empty());
        assert(ss.push(v)[i] == v);
        assert(concat_from(ss.push(v), i) =~= v + Seq::empty());
        assert(concat_from(ss, i) + v =~= v + Seq::empty());
    } else {
        lemma_concat_from_push(ss, v, i + 1);
        assert(ss.push(v)[i] == ss[i]);
        assert(ss[i] + (concat_from(ss, i + 1) + v) =~= (ss[i] + concat_from(ss, i + 1)) + v);
    }
}

/// Two families that agree from position `i` on concatenate to the same run
/// from `i` on.
pub proof fn lemma_concat_from_agrees(ss: Seq<Seq<i64>>, tt: Seq<Seq<i64>>, i: int)
    requires
        ss.len() == tt.len(),
        0 <= i <= ss.len(),
        forall|j: int| i <= j < ss.len() ==> ss[j] == tt[j],
    ensures
        concat_from(ss, i) == concat_from(tt, i),
    decreases ss.len() - i,
{
    if i < ss.len() {
        lemma_concat_from_agrees(ss, tt, i + 1);
    }
}

/// `a` comes no later than `b` under the chosen direction: `<=` when
/// ascending, `>=` when descending.
pub open spec fn dir_le(ascending: bool, a: i64, b: i64) -> bool {
    if ascending {
        a <= b
    } else {
        a >= b
    }
}

/// The run is sorted consistently with the direction: non-decreasing when
/// ascending, non-increasing when descending.
pub open spec fn sorted_dir(ascending: bool, s: Seq<i64>) -> bool {
    forall|i: int, j: int| #![trigger s[i], s[j]]
        0 <= i <= j < s.len() ==> dir_le(ascending, s[i], s[j])
}

pub proof fn lemma_concat_all_push(ss: Seq<Seq<i64>>, v: Seq<i64>)
    ensures
        concat_all(ss.push(v)) == concat_all(ss) + v,
{
    assert(ss.push(v).drop_last() =~= ss);
    assert(ss.push(v).last() == v);
}

pub proof fn lemma_ms_all_push(ss: Seq<Seq<i64>>, v: Seq<i64>)
    ensures
        ms_all(ss.push(v)) == ms_all(ss).add(v.to_multiset()),
{
    assert(ss.push(v).drop_last() =~= ss);
    assert(ss.push(v).last() == v);
}

/// Replacing the run at position `i` exchanges exactly its elements in the
/// family's multiset.
pub proof fn lemma_ms_all_update(ss: Seq<Seq<i64>>, i: int, v: Seq<i64>)
    requires
        0 <= i < ss.len(),
    ensures
        ms_all(ss.update(i, v)).add(ss[i].to_multiset()) =~= ms_all(ss).add(v.to_multiset()),
    decreases ss.len(),
{
    let upd = ss.update(i, v);
    if i == ss.len() - 1 {
        assert(upd.drop_last() =~= ss.drop_last());
        assert(upd.last() == v);
        assert(ms_all(upd) == ms_all(ss.drop_last()).add(v.to_multiset()));
        assert(ms_all(ss) == ms_all(ss.drop_last()).add(ss.last().to_multiset()));
    } else {
        assert(upd.drop_last() =~= ss.drop_last().update(i, v));
        assert(upd.last() == ss.last());
        lemma_ms_all_update(ss.drop_last(), i, v);
        assert(ms_all(upd) == ms_all(ss.drop_last().update(i, v)).add(ss.last().to_multiset()));
        assert(ms_all(ss) == ms_all(ss.drop_last()).add(ss.last().to_multiset()));
        assert(ss.drop_last()[i] == ss[i]);
        assert(ms_all(ss.drop_last().update(i, v)).add(ss.drop_last()[i].to_multiset()) =~= ms_all(
            ss.drop_last(),
        ).add(v.to_multiset()));
    }
    assert forall|x: i64|
        ms_all(upd).add(ss[i].to_multiset()).count(x) == ms_all(ss).add(
            v.to_multiset(),
        ).count(x) by {
        assert(ms_all(upd).add(ss[i].to_multiset()).count(x) == ms_all(upd).count(x) + ss[
            i
        ].to_multiset().count(x));
        assert(ms_all(ss).add(v.to_multiset()).count(x) == ms_all(ss).count(x)
            + v.to_multiset().count(x));
        if i == ss.len() - 1 {
            assert(ms_all(upd).count(x) == ms_all(ss.drop_last()).count(x) + v.to_multiset().count(
                x,
            ));
            assert(ms_all(ss).count(x) == ms_all(ss.drop_last()).count(x) + ss[
                i
            ].to_multiset().count(x));
        } else {
            let a = ms_all(ss.drop_last().update(i, v));
            assert(ms_all(upd).count(x) == a.count(x) + ss.last().to_multiset().count(x));
            assert(ms_all(ss).count(x) == ms_all(ss.drop_last()).count(x)
                + ss.last().to_multiset().count(x));
            assert(a.add(ss[i].to_multiset()).count(x) == ms_all(ss.drop_last()).add(
                v.to_multiset(),
            ).count(x));
            assert(a.count(x) + ss[i].to_multiset().count(x) == ms_all(ss.drop_last()).count(x)
                + v.to_multiset().count(x));
        }
    }
    assert(ms_all(upd).add(ss[i].to_multiset()) =~= ms_all(ss).add(v.to_multiset()));
}

/// Removing an empty run leaves the family's multiset unchanged.
pub proof fn lemma_ms_all_remove_empty(ss: Seq<Seq<i64>>, i: int)
    requires
        0 <= i < ss.len(),
        ss[i].len() == 0,
    ensures
        ms_all(ss.remove(i)) =~= ms_all(ss),
    decreases ss.len(),
{
    let rem = ss.remove(i);
    if i == ss.len() - 1 {
        assert(rem =~= ss.drop_last());
        assert(ss[i].to_multiset() =~= Multiset::<i64>::empty()) by {
            ss[i].to_multiset_ensures();
        }
        assert(ms_all(ss) =~= ms_all(ss.drop_last()));
    } else {
        assert(rem.drop_last() =~= ss.drop_last().remove(i));
        assert(rem.last() == ss.last());
        lemma_ms_all_remove_empty(ss.drop_last(), i);
    }
}

/// A family of exhausted runs holds no elements.
pub proof fn lemma_ms_all_all_empty(ss: Seq<Seq<i64>>)
    requires
        forall|j: int| 0 <= j < ss.len() ==> (#[trigger] ss[j]).len() == 0,
    ensures
        ms_all(ss) =~= Multiset::<i64>::empty(),
    decreases ss.len(),
{
    broadcast use vstd::seq_lib::group_to_multiset_ensures;

    if ss.len() > 0 {
        lemma_ms_all_all_empty(ss.drop_last());
        assert(ss.last().to_multiset() =~= Multiset::<i64>::empty());
    }
}

/// A non-empty run holds its first element once, beside the elements of its
/// tail.
pub proof fn lemma_to_multiset_drop_first(s: Seq<i64>)
    requires
        s.len() > 0,
    ensures
        s.to_multiset() =~= s.drop_first().to_multiset().insert(s[0]),
{
    broadcast use vstd::seq_lib::group_to_multiset_ensures;

    assert(s.remove(0) =~= s.drop_first());
    assert(s.remove(0).to_multiset() =~= s.to_multiset().remove(s[0]));
    assert(s.contains(s[0]));
    assert(s.to_multiset().count(s[0]) > 0);
    assert forall|x: i64|
        s.to_multiset().count(x) == s.drop_first().to_multiset().insert(s[0]).count(x) by {
    }
}

/// A sorted run stays sorted after its first element is dropped, and that
/// element bounds everything that remains.
pub proof fn lemma_sorted_dir_drop_first(ascending: bool, s: Seq<i64>)
    requires
        sorted_dir(ascending, s),
        s.len() > 0,
    ensures
        sorted_dir(ascending, s.drop_first()),
        forall|j: int| 0 <= j < s.len() ==> dir_le(ascending, s[0], s[j]),
{
    assert forall|i: int, j: int| 0 <= i <= j < s.drop_first().len() implies dir_le(
        ascending,
        s.drop_first()[i],
        s.drop_first()[j],
    ) by {
        assert(s.drop_first()[i] == s[i + 1]);
        assert(s.drop_first()[j] == s[j + 1]);
    }
}

/// Appending an element that every present element precedes keeps a run
/// sorted.
pub proof fn lemma_sorted_dir_push(ascending: bool, s: Seq<i64>, x: i64)
    requires
        sorted_dir(ascending, s),
        forall|i: int| 0 <= i < s.len() ==> dir_le(ascending, s[i], x),
    ensures
        sorted_dir(ascending, s.push(x)),
{
    assert forall|i: int, j: int| 0 <= i <= j < s.push(x).len() implies dir_le(
        ascending,
        s.push(x)[i],
        s.push(x)[j],
    ) by {
        if j < s.len() {
            assert(s.push(x)[i] == s[i]);
            assert(s.push(x)[j] == s[j]);
        } else {
            assert(s.push(x)[j] == x);
            if i < s.len() {
                assert(s.push(x)[i] == s[i]);
            }
        }
    }
}

} // verus!
