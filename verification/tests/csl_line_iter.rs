use ndsparse::csl::csl_error::CslError;
use ndsparse::csl::{Csl, CslRef};
use ndsparse::error::Error;

fn four_axes() -> Csl<i32, 4> {
    Csl::new(
        [2, 3, 4, 5],
        vec![1, 2, 3, 4, 5, 6, 7, 8, 9],
        vec![0, 3, 1, 3, 4, 2, 2, 4, 2],
        vec![0, 2, 3, 3, 5, 6, 6, 6, 6, 7, 8, 8, 8, 8, 8, 9, 9, 9, 9, 9, 9, 9, 9, 9, 9],
    )
    .unwrap()
}

#[test]
fn outermost_line_iter_of_a_sub_dimension() {
    let csl = four_axes();
    let sub_csl = csl.sub_dim::<3>(0..3).unwrap();
    let mut iter = sub_csl.outermost_line_iter().unwrap();
    assert_eq!(iter.len(), 3);
    assert_eq!(
        iter.next(),
        CslRef::new([1, 4, 5], &[1, 2, 3, 4, 5][..], &[0, 3, 1, 3, 4][..], &[0, 2, 3, 3, 5][..])
            .ok()
    );
    assert_eq!(iter.next(), CslRef::new([1, 4, 5], &[6][..], &[2][..], &[5, 6, 6, 6, 6][..]).ok());
    assert_eq!(iter.len(), 1);
    assert_eq!(
        iter.next(),
        CslRef::new([1, 4, 5], &[7, 8][..], &[2, 4][..], &[6, 7, 8, 8, 8][..]).ok()
    );
    assert_eq!(iter.next(), None);
    assert_eq!(iter.next(), None);
    assert_eq!(iter.len(), 0);
}

#[test]
fn iterator_needs_two_axes() {
    let none: Csl<i32, 0> = Csl::default();
    assert_eq!(none.outermost_line_iter().err(), Some(Error::Csl(CslError::InvalidIterDim)));
    let one: Csl<i32, 1> = Csl::new([10], vec![8, 9], vec![0, 5], vec![0, 2]).unwrap();
    assert_eq!(one.outermost_line_iter().err(), Some(Error::Csl(CslError::InvalidIterDim)));
    assert!(one.outermost_line_rayon_iter().is_err());
    let mut one = one;
    assert!(one.outermost_line_iter_mut().is_err());
    assert!(one.outermost_line_rayon_iter_mut().is_err());
    assert_eq!(one.data(), &[8, 9]);
}

#[test]
fn nth_is_the_sub_dimension_of_one_position() {
    let csl = four_axes();
    for i in 0..2 {
        let mut iter = csl.outermost_line_iter().unwrap();
        assert_eq!(iter.nth(i), csl.sub_dim::<4>(i..i + 1));
    }
    let mut iter = csl.outermost_line_iter().unwrap();
    assert_eq!(iter.nth(2), None);
    let sub = csl.sub_dim::<3>(0..3).unwrap();
    for i in 0..3 {
        let mut iter = sub.outermost_line_iter().unwrap();
        assert_eq!(iter.nth(i), sub.sub_dim::<3>(i..i + 1));
    }
}

#[test]
fn two_axes_iterate_line_by_line() {
    let csl: Csl<i32, 2> =
        Csl::new([3, 4], vec![1, 2, 3, 4], vec![0, 1, 0, 3], vec![0, 2, 2, 4]).unwrap();
    let mut iter = csl.outermost_line_iter().unwrap();
    let mut seen = 0;
    while let Some(view) = iter.next() {
        assert_eq!(view.dims(), &[1, 4]);
        assert_eq!(view.sub_dim::<1>(0..4), csl.line([seen, 0]));
        seen += 1;
    }
    assert_eq!(seen, 3);
}

#[test]
fn next_back_walks_from_the_tail() {
    let csl = four_axes();
    let sub = csl.sub_dim::<3>(0..3).unwrap();
    let mut iter = sub.outermost_line_iter().unwrap();
    assert_eq!(iter.next_back(), sub.sub_dim::<3>(2..3));
    assert_eq!(iter.next(), sub.sub_dim::<3>(0..1));
    assert_eq!(iter.next_back(), sub.sub_dim::<3>(1..2));
    assert_eq!(iter.next_back(), None);
    assert_eq!(iter.next(), None);
}

#[test]
fn split_parts_give_what_the_whole_gives() {
    let csl = four_axes();
    let sub = csl.sub_dim::<3>(0..3).unwrap();
    for k in 0..=3 {
        let mut whole = Vec::new();
        let mut iter = sub.outermost_line_iter().unwrap();
        while let Some(v) = iter.next() {
            whole.push(v);
        }
        let iter = sub.outermost_line_iter().unwrap();
        assert!(iter.can_split_at(k));
        let [mut head, mut tail] = iter.split_at(k);
        assert_eq!(head.len(), k);
        assert_eq!(tail.len(), 3 - k);
        let mut parts = Vec::new();
        while let Some(v) = head.next() {
            parts.push(v);
        }
        while let Some(v) = tail.next() {
            parts.push(v);
        }
        assert_eq!(parts, whole);
    }
    let iter = sub.outermost_line_iter().unwrap();
    assert!(!iter.can_split_at(4));
    assert!(!iter.can_split_at(usize::MAX));
}

#[test]
fn split_of_a_split() {
    let csl = four_axes();
    let sub = csl.sub_dim::<3>(0..3).unwrap();
    let [head, mut tail] = sub.outermost_line_iter().unwrap().split_at(2);
    let [mut a, mut b] = head.split_at(1);
    assert_eq!(a.next(), sub.sub_dim::<3>(0..1));
    assert_eq!(a.next(), None);
    assert_eq!(b.next(), sub.sub_dim::<3>(1..2));
    assert_eq!(b.next(), None);
    assert_eq!(tail.next(), sub.sub_dim::<3>(2..3));
    assert_eq!(tail.next(), None);
}

#[test]
fn mutable_iterator_writes_through() {
    let mut csl = four_axes();
    {
        let mut iter = csl.outermost_line_iter_mut().unwrap();
        assert_eq!(iter.len(), 2);
        let first = iter.next().unwrap();
        assert_eq!(first.dims, [1, 3, 4, 5]);
        assert_eq!(first.indcs, &[0, 3, 1, 3, 4, 2, 2, 4]);
        assert_eq!(first.offs, &[0, 2, 3, 3, 5, 6, 6, 6, 6, 7, 8, 8, 8]);
        for x in first.data.iter_mut() {
            *x = -*x;
        }
        let second = iter.next().unwrap();
        second.data[0] = 90;
        assert!(iter.next().is_none());
    }
    assert_eq!(csl.data(), &[-1, -2, -3, -4, -5, -6, -7, -8, 90]);
}

#[test]
fn mutable_iterator_splits_and_walks_back() {
    let mut csl: Csl<i32, 2> =
        Csl::new([3, 4], vec![1, 2, 3, 4], vec![0, 1, 0, 3], vec![0, 2, 2, 4]).unwrap();
    {
        let iter = csl.outermost_line_iter_mut().unwrap();
        assert!(iter.can_split_at(1));
        assert!(!iter.can_split_at(4));
        let [mut head, mut tail] = iter.split_at(1);
        let h = head.next().unwrap();
        h.data[1] = 20;
        assert!(head.next().is_none());
        let last = tail.next_back().unwrap();
        assert_eq!(last.indcs, &[0, 3]);
        last.data[0] = 30;
        let middle = tail.next_back().unwrap();
        assert_eq!(middle.data.len(), 0);
        assert!(tail.next_back().is_none());
    }
    assert_eq!(csl.data(), &[1, 20, 30, 4]);
}

#[test]
fn iterator_over_too_few_offsets_gives_none() {
    let mut csl: Csl<i32, 2> = Csl::default();
    let c = csl.constructor().unwrap();
    let c = c.next_outermost_dim(4).unwrap();
    let c = c.push_line(vec![(0, 1)]).unwrap();
    let _ = c.next_outermost_dim(3).unwrap();
    assert_eq!(csl.offs(), &[0, 1]);
    let mut iter = csl.outermost_line_iter().unwrap();
    assert_eq!(iter.len(), 3);
    assert!(iter.next().is_some());
    assert_eq!(iter.next(), None);
    assert_eq!(iter.len(), 1);
}

#[test]
fn parallel_wrapper_holds_the_iterator() {
    let csl = four_axes();
    let wrapper = csl.outermost_line_rayon_iter().unwrap();
    let mut iter = wrapper.0;
    assert_eq!(iter.next(), csl.sub_dim::<4>(0..1));
    let mut csl = four_axes();
    let wrapper = csl.outermost_line_rayon_iter_mut().unwrap();
    assert_eq!(wrapper.0.len(), 2);
}

#[test]
fn iterator_and_sub_dim_agree_whatever_the_first_offset() {
    let csl: Csl<i32, 3> =
        Csl::new([2, 4, 5], vec![6, 7, 8], vec![2, 2, 4], vec![5, 6, 6, 6, 6, 7, 8, 8, 8])
            .unwrap();
    for i in 0..2 {
        let mut iter = csl.outermost_line_iter().unwrap();
        let view = iter.nth(i);
        assert!(view.is_some());
        assert_eq!(view, csl.sub_dim::<3>(i..i + 1));
    }
    let mut iter = csl.outermost_line_iter().unwrap();
    assert_eq!(iter.next_back(), csl.sub_dim::<3>(1..2));
    assert_eq!(iter.next_back(), csl.sub_dim::<3>(0..1));
    assert_eq!(iter.next_back(), None);
}

#[test]
fn nth_gives_a_view_where_enough_positions_are_left() {
    let csl = four_axes();
    let sub = csl.sub_dim::<3>(0..3).unwrap();
    for taken in 0..=3 {
        for n in 0..5 {
            let mut iter = sub.outermost_line_iter().unwrap();
            for _ in 0..taken {
                iter.next();
            }
            let left = iter.len();
            let view = iter.nth(n);
            assert_eq!(view.is_some(), n < left);
            if n < left {
                assert_eq!(view, sub.sub_dim::<3>(taken + n..taken + n + 1));
                assert_eq!(iter.len(), left - n - 1);
            } else {
                assert_eq!(iter.len(), 0);
            }
        }
    }
}
