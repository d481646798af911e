use ndsparse::csl::csl_line_constructor::CslLineConstructorError;
use ndsparse::csl::{Csl, CslRef};
use ndsparse::error::Error;

#[test]
fn line_constructor_matches_hand_assembled() {
    let mut csl: Csl<i32, 3> = Csl::default();
    let c = csl.constructor().unwrap();
    let c = c.next_outermost_dim(3).unwrap();
    let c = c.push_line(vec![(0, 1), (3, 2)]).unwrap();
    let c = c.next_outermost_dim(4).unwrap();
    let c = c.push_line(vec![(1, 2)]).unwrap();
    let c = c.push_empty_line();
    let _ = c.push_line(vec![(0, 3), (1, 4)]).unwrap();
    let by_hand: Csl<i32, 3> = Csl::new(
        [0, 4, 4],
        vec![1, 2, 2, 3, 4],
        vec![0, 3, 1, 0, 1],
        vec![0, 2, 3, 3, 5],
    )
    .unwrap();
    assert_eq!(csl.offs(), by_hand.offs());
    assert_eq!(csl.indcs(), by_hand.indcs());
    assert_eq!(csl.data(), by_hand.data());
    assert_eq!(csl.offs(), &[0, 2, 3, 3, 5]);
    assert_eq!(csl.indcs(), &[0, 3, 1, 0, 1]);
    assert_eq!(csl.dims(), &[0, 4, 3]);
}

#[test]
fn next_outermost_dim_goes_outwards() {
    let mut csl: Csl<i32, 3> = Csl::default();
    let c = csl.constructor().unwrap();
    let c = c.next_outermost_dim(3).unwrap();
    let c = c.push_line(vec![(0, 1)]).unwrap();
    let c = c.next_outermost_dim(4).unwrap();
    let c = c.push_line(vec![(1, 2)]).unwrap();
    let c = c.push_empty_line();
    let _ = c.push_line(vec![(0, 3), (1, 4)]).unwrap();
    assert_eq!(
        csl.sub_dim(0..4),
        CslRef::new([4, 3], &[1, 2, 3, 4][..], &[0, 1, 0, 1][..], &[0, 1, 2, 2, 4][..]).ok()
    );
}

#[test]
fn push_empty_line_repeats_the_last_offset() {
    let mut csl: Csl<i32, 3> = Csl::default();
    let c = csl.constructor().unwrap().next_outermost_dim(3).unwrap();
    let _ = c.push_empty_line().next_outermost_dim(2).unwrap().push_empty_line();
    assert_eq!(csl.line([0, 0, 0]), CslRef::new([3], &[][..], &[][..], &[0, 0][..]).ok());
    assert_eq!(csl.offs(), &[0, 0, 0]);
    assert_eq!(csl.dims(), &[0, 2, 3]);
}

#[test]
fn push_line_of_two_values() {
    let mut csl: Csl<i32, 3> = Csl::default();
    let _ = csl
        .constructor()
        .unwrap()
        .next_outermost_dim(50)
        .unwrap()
        .push_line(vec![(1, 1), (40, 2)])
        .unwrap();
    let line = csl.line([0, 0, 0]);
    assert_eq!(line, CslRef::new([50], &[1, 2][..], &[1, 40][..], &[0, 2][..]).ok());
}

#[test]
fn push_line_without_pairs_is_an_empty_line() {
    let mut a: Csl<i32, 2> = Csl::default();
    let _ = a.constructor().unwrap().next_outermost_dim(5).unwrap().push_line(vec![]).unwrap();
    let mut b: Csl<i32, 2> = Csl::default();
    let _ = b.constructor().unwrap().next_outermost_dim(5).unwrap().push_empty_line();
    assert_eq!(a, b);
    assert_eq!(a.offs(), &[0, 0]);
}

#[test]
fn push_line_takes_no_more_than_the_innermost_length() {
    let mut csl: Csl<i32, 2> = Csl::default();
    let _ = csl
        .constructor()
        .unwrap()
        .next_outermost_dim(2)
        .unwrap()
        .push_line(vec![(0, 1), (1, 2), (0, 3)])
        .unwrap();
    assert_eq!(csl.data(), &[1, 2]);
    assert_eq!(csl.indcs(), &[0, 1]);
    assert_eq!(csl.offs(), &[0, 2]);
    let mut none: Csl<i32, 2> = Csl::default();
    let _ = none.constructor().unwrap().push_line(vec![(0, 1)]).unwrap();
    assert_eq!(none.nnz(), 0);
    assert_eq!(none.offs(), &[0, 0]);
}

#[test]
fn unsorted_pairs_are_refused_and_nothing_is_pushed() {
    let mut csl: Csl<i32, 2> = Csl::default();
    let c = csl.constructor().unwrap().next_outermost_dim(9).unwrap();
    let c = c.push_line(vec![(2, 1)]).unwrap();
    let r = c.push_line(vec![(1, 1), (3, 2), (3, 3)]);
    assert_eq!(
        r.err(),
        Some(Error::CslLineConstructor(CslLineConstructorError::UnsortedIndices))
    );
    assert_eq!(csl.data(), &[1]);
    assert_eq!(csl.indcs(), &[2]);
    assert_eq!(csl.offs(), &[0, 1]);
    let mut csl: Csl<i32, 1> = Csl::default();
    let c = csl.constructor().unwrap().next_outermost_dim(9).unwrap();
    let r = c.push_line(vec![(4, 1), (2, 2)]);
    assert!(r.is_err());
    assert_eq!(csl.nnz(), 0);
}

#[test]
fn no_axis_is_left() {
    let mut csl: Csl<i32, 2> = Csl::default();
    let c = csl.constructor().unwrap();
    let c = c.next_outermost_dim(3).unwrap().next_outermost_dim(2).unwrap();
    let r = c.next_outermost_dim(1);
    assert_eq!(r.err(), Some(Error::CslLineConstructor(CslLineConstructorError::DimsOverflow)));
    assert_eq!(csl.dims(), &[2, 3]);
}

#[test]
fn no_axis_at_all() {
    let mut csl: Csl<i32, 0> = Csl::default();
    assert_eq!(
        csl.constructor().err(),
        Some(Error::CslLineConstructor(CslLineConstructorError::EmptyDimension))
    );
}

#[test]
fn constructor_goes_on_where_the_structure_stands() {
    let mut csl: Csl<i32, 2> =
        Csl::new([0, 4], vec![1, 2], vec![0, 3], vec![0, 2]).unwrap();
    let c = csl.constructor().unwrap();
    assert_eq!(c.curr_dim_idx(), 1);
    assert_eq!(c.last_off(), 2);
    let c = c.next_outermost_dim(2).unwrap();
    let _ = c.push_line(vec![(1, 3)]).unwrap();
    assert_eq!(
        Ok(csl),
        Csl::new([2, 4], vec![1, 2, 3], vec![0, 3, 1], vec![0, 2, 3])
    );
}

#[test]
fn constructor_gives_a_first_offset_where_there_is_none() {
    let mut csl: Csl<i32, 2> = Csl::with_capacity(4, 3);
    let c = csl.constructor().unwrap();
    assert_eq!(c.last_off(), 0);
    assert_eq!(c.curr_dim_idx(), 2);
    let _ = c.next_outermost_dim(3).unwrap().push_line(vec![(2, 7)]).unwrap();
    assert_eq!(csl.offs(), &[0, 1]);
    assert_eq!(csl.value([0, 2]), Some(&7));
}

#[test]
fn constructor_error_names() {
    assert_eq!(CslLineConstructorError::DimsOverflow.to_string(), "DimsOverflow");
    assert_eq!(CslLineConstructorError::UnsortedIndices.to_string(), "UnsortedIndices");
    assert_eq!(CslLineConstructorError::EmptyDimension.to_string(), "EmptyDimension");
    assert_eq!(CslLineConstructorError::MaxNumOfLines.to_string(), "MaxNumOfLines");
    assert_eq!(
        Error::from(CslLineConstructorError::DimsOverflow).to_string(),
        "CslLineConstructor(DimsOverflow)"
    );
}
