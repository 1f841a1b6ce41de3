use iterutils::{MultiIterator, OrderedIterator, SeqIter, Source};

#[test]
fn seq_test() {
    let v1 = vec![1, 2, 3, 4, 5];
    let v2 = vec![6, 7, 8];
    let v3 = vec![9, 10];
    let v4 = vec![1, 2, 4, 5, 6, 7, 8];
    let mut seq_iter = SeqIter::new();
    seq_iter.add(Source::new(v1));
    seq_iter.add(Source::new(v2));
    seq_iter.add(Source::new(v3));
    seq_iter.add(Source::new(v4));

    let mut out: Vec<i64> = Vec::new();
    while let Some(i) = seq_iter.next() {
        println!("{i}");
        out.push(i);
    }
    assert_eq!(out, vec![1, 2, 3, 4, 5, 6, 7, 8, 9, 10, 1, 2, 4, 5, 6, 7, 8]);
}

#[test]
fn test_multi_1() {
    let v1: Vec<i64> = vec![1, 2, 3, 4, 5, 11, 19];
    let v2: Vec<i64> = vec![1, 7, 8, 12, 44, 231];
    let v3: Vec<i64> = vec![3, 5, 7, 9, 10, 1000];
    let v4: Vec<i64> = vec![1, 2, 4, 5, 6, 7, 8];

    let mut expected: Vec<i64> = Vec::new();
    expected.extend(&v1);
    expected.extend(&v2);
    expected.extend(&v3);
    expected.extend(&v4);
    expected.sort();

    let choose_fn = |x: Vec<i64>| -> Option<usize> {
        let result = x.iter().enumerate().min_by(|a, b| a.1.cmp(&b.1)).map(|a| a.0);
        println!("Choosing from {:?} -> {:?}", x, result);
        result
    };

    let mut min_iter = MultiIterator::new(choose_fn);
    min_iter.add(Source::new(v1));
    min_iter.add(Source::new(v2));
    min_iter.add(Source::new(v3));
    min_iter.add(Source::new(v4));

    let mut out: Vec<i64> = Vec::new();
    while let Some(i) = min_iter.next() {
        println!("{i}");
        out.push(i);
    }
    assert_eq!(out, expected);
}

#[test]
fn test_ordered() {
    let v1 = vec![1, 2, 3, 4, 5, 11, 19];
    let v2 = vec![1, 7, 8, 12, 44, 231];
    let v3 = vec![3, 5, 7, 9, 10, 1000];
    let v4 = vec![1, 2, 4, 5, 6, 7, 8];

    let mut expected: Vec<i64> = Vec::new();
    expected.extend(&v1);
    expected.extend(&v2);
    expected.extend(&v3);
    expected.extend(&v4);
    expected.sort();

    let mut o_iter = OrderedIterator::new_min();
    o_iter.add(Source::new(v1));
    o_iter.add(Source::new(v2));
    o_iter.add(Source::new(v3));
    o_iter.add(Source::new(v4));

    let mut out: Vec<i64> = Vec::new();
    while let Some(i) = o_iter.next() {
        println!("{i}");
        out.push(i);
    }
    assert_eq!(out, expected);

    let v1 = vec![9, 4, 2];
    let v2: Vec<i64> = vec![];
    let v3 = vec![999, 22, 3, 1];
    let v4 = vec![992, 222, 211, 20, 19, 2, 1];

    let mut expected: Vec<i64> = Vec::new();
    expected.extend(&v1);
    expected.extend(&v2);
    expected.extend(&v3);
    expected.extend(&v4);
    expected.sort();
    expected.reverse();

    let mut o_iter = OrderedIterator::new_max();
    o_iter.add(Source::new(v1));
    o_iter.add(Source::new(v2));
    o_iter.add(Source::new(v3));
    o_iter.add(Source::new(v4));
    let mut out: Vec<i64> = Vec::new();
    while let Some(i) = o_iter.next() {
        println!("{i}");
        out.push(i);
    }
    assert_eq!(out, expected);
}

#[test]
fn seq_zero_sequences_is_exhausted() {
    let mut s = SeqIter::new();
    assert_eq!(s.next(), None);
    assert_eq!(s.next(), None);
}

#[test]
fn seq_only_empty_sequences_is_exhausted() {
    let mut s = SeqIter::new();
    s.add(Source::new(vec![]));
    s.add(Source::new(vec![]));
    assert_eq!(s.next(), None);
}

#[test]
fn seq_add_after_partial_consumption() {
    let mut s = SeqIter::new();
    s.add(Source::new(vec![1, 2, 3]));
    assert_eq!(s.next(), Some(1));
    assert_eq!(s.next(), Some(2));
    // The new sequence is visible only once the cursor reaches it; what was
    // already emitted is unaffected.
    s.add(Source::new(vec![7, 8]));
    assert_eq!(s.next(), Some(3));
    assert_eq!(s.next(), Some(7));
    assert_eq!(s.next(), Some(8));
    assert_eq!(s.next(), None);
}

#[test]
fn multi_zero_sequences_is_exhausted() {
    let mut m = MultiIterator::new(|x: Vec<i64>| if x.is_empty() { None } else { Some(0) });
    assert_eq!(m.next(), None);
}

#[test]
fn multi_only_empty_sequences_is_exhausted() {
    let mut m = MultiIterator::new(|_x: Vec<i64>| Some(0));
    m.add(Source::new(vec![]));
    m.add(Source::new(vec![]));
    assert_eq!(m.next(), None);
}

#[test]
fn multi_selector_none_stops_immediately() {
    let mut m = MultiIterator::new(|_x: Vec<i64>| None);
    m.add(Source::new(vec![1, 2, 3]));
    m.add(Source::new(vec![4, 5]));
    assert_eq!(m.next(), None);
    assert_eq!(m.next(), None);
}

#[test]
fn multi_selector_out_of_range_stops_immediately() {
    let mut m = MultiIterator::new(|x: Vec<i64>| Some(x.len()));
    m.add(Source::new(vec![1, 2, 3]));
    m.add(Source::new(vec![4, 5]));
    assert_eq!(m.next(), None);
    assert_eq!(m.next(), None);
}

#[test]
fn multi_early_termination_emits_exactly_prior_picks() {
    // The selector picks the minimal head while it is small enough, then
    // gives up: exactly the elements chosen before the veto come out.
    let selector = |x: Vec<i64>| -> Option<usize> {
        let (i, &m) = x.iter().enumerate().min_by(|a, b| a.1.cmp(b.1))?;
        if m <= 3 {
            Some(i)
        } else {
            None
        }
    };
    let mut m = MultiIterator::new(selector);
    m.add(Source::new(vec![1, 2, 3, 10]));
    m.add(Source::new(vec![4, 5, 6]));
    let mut out: Vec<i64> = Vec::new();
    while let Some(i) = m.next() {
        out.push(i);
    }
    assert_eq!(out, vec![1, 2, 3]);
    assert_eq!(m.next(), None);
}

#[test]
fn ordered_zero_sequences_is_exhausted() {
    let mut o = OrderedIterator::new_min();
    assert_eq!(o.next(), None);
    let mut o = OrderedIterator::new_max();
    assert_eq!(o.next(), None);
}

#[test]
fn ordered_only_empty_sequences_is_exhausted() {
    let mut o = OrderedIterator::new_min();
    o.add(Source::new(vec![]));
    o.add(Source::new(vec![]));
    assert_eq!(o.next(), None);
}

#[test]
fn ordered_unsorted_inputs_emit_every_element_once() {
    // Inputs that break the sortedness precondition: the output is not
    // sorted, but every element still comes out exactly once.
    let mut o = OrderedIterator::new_min();
    o.add(Source::new(vec![5, 1]));
    o.add(Source::new(vec![3, 2]));
    let mut out: Vec<i64> = Vec::new();
    while let Some(i) = o.next() {
        out.push(i);
    }
    assert_eq!(out.len(), 4);
    out.sort();
    assert_eq!(out, vec![1, 2, 3, 5]);
}

#[test]
fn ordered_add_during_consumption() {
    let mut o = OrderedIterator::new_min();
    o.add(Source::new(vec![1, 3]));
    assert_eq!(o.next(), Some(1));
    o.add(Source::new(vec![2, 4]));
    assert_eq!(o.next(), Some(2));
    assert_eq!(o.next(), Some(3));
    assert_eq!(o.next(), Some(4));
    assert_eq!(o.next(), None);
}

#[test]
fn multi_max_selector_emits_every_element_once() {
    // A selector other than the minimum: conservation still holds.
    let selector = |x: Vec<i64>| -> Option<usize> {
        x.iter().enumerate().max_by(|a, b| a.1.cmp(b.1)).map(|a| a.0)
    };
    let mut m = MultiIterator::new(selector);
    m.add(Source::new(vec![1, 9]));
    m.add(Source::new(vec![5]));
    let mut out: Vec<i64> = Vec::new();
    while let Some(i) = m.next() {
        out.push(i);
    }
    assert_eq!(out.len(), 3);
    out.sort();
    assert_eq!(out, vec![1, 5, 9]);
}
