use ndsparse::csl::csl_error::CslError;
use ndsparse::csl::{Csl, CslRef};
use ndsparse::error::Error;

fn csl_vec_4() -> Csl<i32, 4> {
    Csl::new(
        [2, 3, 4, 5],
        vec![1, 2, 3, 4, 5, 6, 7, 8, 9],
        vec![0, 3, 1, 3, 4, 2, 2, 4, 2],
        vec![0, 2, 3, 3, 5, 6, 6, 6, 6, 7, 8, 8, 8, 8, 8, 9, 9, 9, 9, 9, 9, 9, 9, 9, 9],
    )
    .unwrap()
}

fn err<const D: usize>(r: Result<Csl<i32, D>, Error>) -> CslError {
    match r {
        Err(Error::Csl(e)) => e,
        _ => panic!("a structure error was expected"),
    }
}

#[test]
fn one_axis_array_values() {
    let csl: Csl<i32, 1> = Csl::new([10], vec![8, 9], vec![0, 5], vec![0, 2]).unwrap();
    assert_eq!(csl.value([0]), Some(&8));
    assert_eq!(csl.value([5]), Some(&9));
    assert_eq!(csl.value([1]), None);
    for i in [2usize, 3, 4, 6, 7, 8, 9] {
        assert_eq!(csl.value([i]), None);
    }
}

#[test]
fn accessors_give_back_what_new_took() {
    let csl: Csl<i32, 1> = Csl::new([10], vec![8, 9], vec![0, 5], vec![0, 2]).unwrap();
    assert_eq!(csl.data(), &[8, 9]);
    assert_eq!(csl.indcs(), &[0, 5]);
    assert_eq!(csl.offs(), &[0, 2]);
    assert_eq!(csl.dims(), &[10]);
    assert_eq!(csl.nnz(), 2);
    let big = csl_vec_4();
    assert_eq!(big.dims(), &[2, 3, 4, 5]);
    assert_eq!(big.data(), &[1, 2, 3, 4, 5, 6, 7, 8, 9]);
    assert_eq!(big.indcs(), &[0, 3, 1, 3, 4, 2, 2, 4, 2]);
    assert_eq!(
        big.offs(),
        &[0, 2, 3, 3, 5, 6, 6, 6, 6, 7, 8, 8, 8, 8, 8, 9, 9, 9, 9, 9, 9, 9, 9, 9, 9]
    );
    assert_eq!(big.nnz(), 9);
}

#[test]
fn repeated_index_in_a_line_is_refused() {
    let csl: Result<Csl<i32, 2>, Error> = Csl::new([2, 2], vec![8, 9], vec![1, 1], vec![0, 2]);
    assert_eq!(csl, Err(Error::Csl(CslError::DuplicatedIndices)));
}

#[test]
fn descending_line_is_refused() {
    let csl: Result<Csl<i32, 1>, Error> = Csl::new([10], vec![8, 9], vec![5, 0], vec![0, 2]);
    assert_eq!(err(csl), CslError::DuplicatedIndices);
}

#[test]
fn too_many_values_for_the_shape() {
    let csl: Result<Csl<i32, 1>, Error> =
        Csl::new([3], vec![8, 9, 9, 9, 9], vec![0, 5, 5, 5, 5], vec![0, 2]);
    assert_eq!(err(csl), CslError::DataIndcsLengthGreaterThanDimsLength);
}

#[test]
fn data_and_indices_of_different_length() {
    let csl: Result<Csl<i32, 1>, Error> = Csl::new([10], vec![8, 9], vec![0], vec![0, 2]);
    assert_eq!(err(csl), CslError::DiffDataIndcsLength);
}

#[test]
fn repeated_index_in_one_axis() {
    let csl: Result<Csl<i32, 1>, Error> = Csl::new([10], vec![8, 9], vec![0, 0], vec![0, 2]);
    assert_eq!(err(csl), CslError::DuplicatedIndices);
}

#[test]
fn index_not_below_innermost_length() {
    let csl: Result<Csl<i32, 1>, Error> = Csl::new([10], vec![8, 9], vec![0, 10], vec![0, 2]);
    assert_eq!(err(csl), CslError::IndcsGreaterThanEqualDimLength);
}

#[test]
fn zero_length_after_nonzero_length() {
    let csl: Result<Csl<i32, 5>, Error> = Csl::new([1, 2, 3, 0, 5], vec![], vec![], vec![]);
    assert_eq!(err(csl), CslError::InnermostDimsZero);
}

#[test]
fn wrong_number_of_offsets() {
    let csl: Result<Csl<i32, 1>, Error> = Csl::new([10], vec![8, 9], vec![0, 5], vec![0, 2, 4]);
    assert_eq!(err(csl), CslError::InvalidOffsetsLength);
}

#[test]
fn descending_offsets() {
    let csl: Result<Csl<i32, 1>, Error> = Csl::new([10], vec![8, 9], vec![0, 5], vec![2, 0]);
    assert_eq!(err(csl), CslError::InvalidOffsetsOrder);
}

#[test]
fn last_offset_is_not_the_number_of_values() {
    let csl: Result<Csl<i32, 1>, Error> = Csl::new([10], vec![8, 9], vec![0, 5], vec![0, 4]);
    assert_eq!(err(csl), CslError::LastOffsetDifferentNnz);
}

#[test]
fn more_lines_than_can_be_counted() {
    let csl: Result<Csl<i32, 3>, Error> = Csl::new(
        [usize::MAX - 320, 255, 3026418949592973312 % usize::MAX],
        vec![0],
        vec![0],
        vec![0, 1],
    );
    assert_eq!(err(csl), CslError::OffsLengthOverflow);
}

#[test]
fn leading_zero_lengths_are_accepted() {
    let csl: Result<Csl<i32, 4>, Error> =
        Csl::new([0, 0, 4, 5], vec![1, 2, 3, 4], vec![0, 3, 1, 3], vec![0, 2, 3, 3, 4]);
    assert!(csl.is_ok());
    let empty: Result<Csl<i32, 3>, Error> = Csl::new([0, 0, 0], vec![], vec![], vec![0]);
    assert!(empty.is_ok());
    let none: Result<Csl<i32, 0>, Error> = Csl::new([], vec![], vec![], vec![]);
    assert!(none.is_ok());
}

#[test]
fn first_offset_need_not_be_zero() {
    let csl: Csl<i32, 1> = Csl::new([10], vec![8, 9], vec![0, 5], vec![7, 9]).unwrap();
    assert_eq!(csl.value([5]), Some(&9));
    assert_eq!(csl.value([4]), None);
}

#[test]
fn value_of_four_axes() {
    let csl = csl_vec_4();
    assert_eq!(csl.value([1, 0, 2, 2]), Some(&9));
    assert_eq!(csl.value([0, 0, 0, 0]), Some(&1));
    assert_eq!(csl.value([0, 0, 0, 3]), Some(&2));
    assert_eq!(csl.value([0, 0, 0, 1]), None);
    assert_eq!(csl.value([0, 2, 1, 4]), Some(&8));
    assert_eq!(csl.value([1, 2, 3, 4]), None);
    let line = csl.line([0, 0, 3, 0]).unwrap();
    assert_eq!(line.value([3]), Some(&4));
    assert_eq!(line.value([4]), Some(&5));
    assert_eq!(line.value([0]), None);
}

#[test]
fn value_beyond_the_lines_is_none() {
    let csl = csl_vec_4();
    assert_eq!(csl.value([2, 0, 0, 0]), None);
    assert_eq!(csl.value([usize::MAX, usize::MAX, usize::MAX, 0]), None);
    let none: Csl<i32, 0> = Csl::new([], vec![], vec![], vec![]).unwrap();
    assert_eq!(none.value([]), None);
}

#[test]
fn value_is_some_exactly_where_the_line_holds_the_index() {
    let csl = csl_vec_4();
    let dims = *csl.dims();
    for a in 0..dims[0] {
        for b in 0..dims[1] {
            for c in 0..dims[2] {
                let line = a * 12 + b * 4 + c;
                let lo = csl.offs()[line];
                let hi = csl.offs()[line + 1];
                for d in 0..dims[3] {
                    let place = (lo..hi).find(|p| csl.indcs()[*p] == d);
                    assert_eq!(csl.value([a, b, c, d]), place.map(|p| &csl.data()[p]));
                }
            }
        }
    }
}

#[test]
fn lines_of_four_axes() {
    let csl = csl_vec_4();
    assert_eq!(csl.line([0, 0, 2, 0]), CslRef::new([5], &[][..], &[][..], &[3, 3][..]).ok());
    assert_eq!(csl.line([0, 1, 0, 0]), CslRef::new([5], &[6][..], &[2][..], &[5, 6][..]).ok());
    assert_eq!(
        csl.line([0, 0, 3, 2]),
        CslRef::new([5], &[4, 5][..], &[3, 4][..], &[3, 5][..]).ok()
    );
    assert_eq!(csl.line([2, 0, 0, 0]), None);
    let none: Csl<i32, 0> = Csl::new([], vec![], vec![], vec![]).unwrap();
    assert_eq!(none.line([]), None);
}

#[test]
fn sub_dim_of_four_axes() {
    let csl = csl_vec_4();
    assert_eq!(
        csl.sub_dim(1..2),
        CslRef::new([1, 3, 4, 5], &[9][..], &[2][..], &[8, 8, 8, 9, 9, 9, 9, 9, 9, 9, 9, 9, 9][..])
            .ok()
    );
    assert_eq!(
        csl.sub_dim(1..3),
        CslRef::new([2, 4, 5], &[6, 7, 8][..], &[2, 2, 4][..], &[5, 6, 6, 6, 6, 7, 8, 8, 8][..])
            .ok()
    );
    assert_eq!(
        csl.sub_dim(0..2),
        CslRef::new([2, 5], &[1, 2, 3][..], &[0, 3, 1][..], &[0, 2, 3][..]).ok()
    );
}

#[test]
fn sub_dim_refuses_bad_ranges_and_too_many_axes() {
    let csl = csl_vec_4();
    let (start, end) = (2, 1);
    assert_eq!(csl.sub_dim::<4>(start..end), None);
    assert_eq!(csl.sub_dim::<5>(0..1), None);
    assert_eq!(csl.sub_dim::<4>(0..3), None);
}

#[test]
fn sub_dim_of_no_axis_is_empty() {
    let csl = csl_vec_4();
    let view = csl.sub_dim::<0>(0..1).unwrap();
    assert_eq!(view.data(), &[] as &[i32]);
    assert_eq!(view.indcs(), &[] as &[usize]);
    assert_eq!(view.offs(), &[] as &[usize]);
    assert_eq!(view.dims(), &[] as &[usize; 0]);
}

#[test]
fn sub_dim_of_one_axis_trims_the_first_line() {
    let csl: Csl<i32, 2> =
        Csl::new([2, 9], vec![1, 2, 3, 4, 5], vec![1, 3, 4, 7, 0], vec![0, 4, 5]).unwrap();
    let whole = csl.sub_dim::<1>(0..9).unwrap();
    assert_eq!(Some(whole), csl.line([0, 0]));
    let part = csl.sub_dim::<1>(3..7).unwrap();
    assert_eq!(part.data(), &[2, 3]);
    assert_eq!(part.indcs(), &[3, 4]);
    assert_eq!(part.offs(), &[0, 4]);
    assert_eq!(part.dims(), &[9]);
    let none = csl.sub_dim::<1>(5..7).unwrap();
    assert_eq!(none.nnz(), 0);
}

#[test]
fn truncate_four_axes() {
    let mut csl = csl_vec_4();
    csl.truncate([0, 0, 3, 4]);
    assert_eq!(
        Ok(csl),
        Csl::new([0, 0, 4, 5], vec![1, 2, 3, 4], vec![0, 3, 1, 3], vec![0, 2, 3, 3, 4])
    );
}

#[test]
fn truncate_keeps_what_comes_before_and_drops_the_rest() {
    let full = csl_vec_4();
    let at = [1, 1, 1, 3];
    let mut cut = csl_vec_4();
    cut.truncate(at);
    assert_eq!(cut.dims(), &[2, 3, 4, 5]);
    assert_eq!(cut.data(), &[1, 2, 3, 4, 5, 6, 7, 8, 9]);
    assert_eq!(cut.offs().len(), 12 + 4 + 1 + 2);
    assert_eq!(cut.offs().last(), Some(&9));
    let mut cut = csl_vec_4();
    let at = [1, 1, 1, 2];
    cut.truncate(at);
    for a in 0..2 {
        for b in 0..3 {
            for c in 0..4 {
                for d in 0..5 {
                    let idx = [a, b, c, d];
                    if idx < at {
                        assert_eq!(cut.value(idx), full.value(idx));
                    } else {
                        assert_eq!(cut.value(idx), None);
                    }
                }
            }
        }
    }
    let mut cut = csl_vec_4();
    let at = [0, 2, 1, 3];
    cut.truncate(at);
    assert_eq!(cut.data(), &[1, 2, 3, 4, 5, 6, 7]);
    assert_eq!(cut.indcs(), &[0, 3, 1, 3, 4, 2, 2]);
    assert_eq!(cut.offs(), &[0, 2, 3, 3, 5, 6, 6, 6, 6, 7, 7]);
    assert_eq!(cut.dims(), &[0, 3, 4, 5]);
    for b in 0..3 {
        for c in 0..4 {
            for d in 0..5 {
                let idx = [0, b, c, d];
                if idx < at {
                    assert_eq!(cut.value(idx), full.value(idx));
                } else {
                    assert_eq!(cut.value(idx), None);
                }
            }
        }
    }
}

#[test]
fn truncate_at_a_line_that_is_not_there_changes_nothing() {
    let mut csl = csl_vec_4();
    csl.truncate([2, 0, 0, 0]);
    assert_eq!(csl, csl_vec_4());
    let mut none: Csl<i32, 0> = Csl::new([], vec![], vec![], vec![]).unwrap();
    none.truncate([]);
    assert_eq!(none.offs(), &[] as &[usize]);
}

#[test]
fn truncate_with_a_first_offset_that_is_not_zero() {
    let mut csl: Csl<i32, 2> =
        Csl::new([2, 9], vec![1, 2, 3, 4, 5], vec![1, 3, 4, 7, 0], vec![10, 14, 15]).unwrap();
    csl.truncate([0, 4]);
    assert_eq!(csl.data(), &[1, 2]);
    assert_eq!(csl.indcs(), &[1, 3]);
    assert_eq!(csl.offs(), &[10, 12]);
    assert_eq!(csl.dims(), &[0, 9]);
}

#[test]
fn swap_value_exchanges_two_values() {
    let mut csl = csl_vec_4();
    assert!(csl.swap_value([0, 0, 0, 0], [1, 0, 2, 2]));
    assert_eq!(csl.data(), &[9, 2, 3, 4, 5, 6, 7, 8, 1]);
    assert_eq!(csl.indcs(), csl_vec_4().indcs());
    assert_eq!(csl.offs(), csl_vec_4().offs());
    assert!(csl.swap_value([0, 0, 0, 3], [0, 0, 0, 3]));
    assert_eq!(csl.data(), &[9, 2, 3, 4, 5, 6, 7, 8, 1]);
}

#[test]
fn swap_value_without_a_value_changes_nothing() {
    let mut csl = csl_vec_4();
    assert!(!csl.swap_value([0, 0, 0, 1], [1, 0, 2, 2]));
    assert!(!csl.swap_value([1, 0, 2, 2], [0, 0, 0, 1]));
    assert!(!csl.swap_value([0, 0, 0, 1], [0, 0, 0, 2]));
    assert_eq!(csl, csl_vec_4());
}

#[test]
fn clear_leaves_the_default() {
    let mut csl = csl_vec_4();
    csl.clear();
    assert_eq!(csl, Csl::default());
    assert_eq!(csl.dims(), &[0, 0, 0, 0]);
    assert_eq!(csl.offs(), &[0]);
    assert_eq!(csl.nnz(), 0);
}

#[test]
fn with_capacity_is_empty() {
    let csl: Csl<i32, 3> = Csl::with_capacity(2, 111);
    assert_eq!(csl.dims(), &[0, 0, 0]);
    assert_eq!(csl.nnz(), 0);
    assert_eq!(csl.indcs().len(), 0);
    assert_eq!(csl.offs().len(), 0);
}

#[test]
fn value_mut_writes_one_value() {
    let mut csl = csl_vec_4();
    *csl.value_mut([0, 1, 0, 2]).unwrap() = 60;
    assert_eq!(csl.data(), &[1, 2, 3, 4, 5, 60, 7, 8, 9]);
    assert!(csl.value_mut([0, 1, 0, 3]).is_none());
    assert_eq!(csl.value([0, 1, 0, 2]), Some(&60));
}

#[test]
fn data_mut_writes_values_only() {
    let mut csl = csl_vec_4();
    for x in csl.data_mut().iter_mut() {
        *x *= 2;
    }
    assert_eq!(csl.data(), &[2, 4, 6, 8, 10, 12, 14, 16, 18]);
    assert_eq!(csl.indcs(), csl_vec_4().indcs());
}

#[test]
fn line_mut_writes_the_line() {
    let mut csl = csl_vec_4();
    {
        let line = csl.line_mut([0, 0, 3, 0]).unwrap();
        assert_eq!(line.indcs, &[3, 4]);
        assert_eq!(line.offs, &[3, 5]);
        assert_eq!(line.dims, [5]);
        line.data[0] = 40;
        line.data[1] = 50;
    }
    assert_eq!(csl.data(), &[1, 2, 3, 40, 50, 6, 7, 8, 9]);
    assert!(csl.line_mut([2, 0, 0, 0]).is_none());
}

#[test]
fn sub_dim_mut_writes_the_sub_dimension() {
    let mut csl = csl_vec_4();
    {
        let sub = csl.sub_dim_mut::<3>(1..3).unwrap();
        assert_eq!(sub.dims, [2, 4, 5]);
        assert_eq!(sub.indcs, &[2, 2, 4]);
        assert_eq!(sub.offs, &[5, 6, 6, 6, 6, 7, 8, 8, 8]);
        for x in sub.data.iter_mut() {
            *x += 100;
        }
    }
    assert_eq!(csl.data(), &[1, 2, 3, 4, 5, 106, 107, 108, 9]);
    assert!(csl.sub_dim_mut::<5>(0..1).is_none());
}

#[test]
fn borrowed_structure_is_checked_like_the_owned_one() {
    let data = [8, 9];
    let r = CslRef::new([10], &data[..], &[0, 10][..], &[0, 2][..]);
    assert_eq!(r, Err(Error::Csl(CslError::IndcsGreaterThanEqualDimLength)));
    let ok = CslRef::new([10], &data[..], &[0, 5][..], &[0, 2][..]).unwrap();
    assert_eq!(ok.value([5]), Some(&9));
    assert_eq!(ok.nnz(), 2);
    let csl: Csl<i32, 1> = Csl::new([10], vec![8, 9], vec![0, 5], vec![0, 2]).unwrap();
    assert_eq!(csl.as_ref(), ok);
}

#[test]
fn error_names() {
    assert_eq!(CslError::DuplicatedIndices.to_string(), "DuplicatedIndices");
    assert_eq!(CslError::OffsLengthOverflow.to_string(), "OffsLengthOverflow");
    assert_eq!(CslError::InvalidIterDim.to_string(), "InvalidIterDim");
    assert_eq!(Error::Csl(CslError::InvalidOffsetsOrder).to_string(), "Csl(InvalidOffsetsOrder)");
    assert_eq!(Error::UnknownError.to_string(), "UnknownError");
    assert_eq!(Error::InsufficientCapacity.to_string(), "Inefficient Capacity");
    assert_eq!(
        Error::from(CslError::DiffDataIndcsLength),
        Error::Csl(CslError::DiffDataIndcsLength)
    );
}

fn offsets_from_five() -> Csl<i32, 3> {
    Csl::new([2, 4, 5], vec![6, 7, 8], vec![2, 2, 4], vec![5, 6, 6, 6, 6, 7, 8, 8, 8]).unwrap()
}

#[test]
fn sub_dim_counts_from_the_first_offset() {
    let csl = offsets_from_five();
    assert_eq!(
        csl.sub_dim(0..1),
        CslRef::new([1, 4, 5], &[6][..], &[2][..], &[5, 6, 6, 6, 6][..]).ok()
    );
    assert_eq!(
        csl.sub_dim(1..2),
        CslRef::new([1, 4, 5], &[7, 8][..], &[2, 4][..], &[6, 7, 8, 8, 8][..]).ok()
    );
    assert_eq!(Some(csl.as_ref()), csl.sub_dim::<3>(0..2));
    assert_eq!(
        csl.sub_dim(1..3),
        CslRef::new([2, 5], &[][..], &[][..], &[6, 6, 6][..]).ok()
    );
    let empty = csl.sub_dim::<3>(1..1).unwrap();
    assert_eq!(empty.nnz(), 0);
    assert_eq!(empty.offs(), &[6]);
    assert_eq!(empty.dims(), &[0, 4, 5]);
}

#[test]
fn sub_dim_of_a_sub_dim() {
    let csl = csl_vec_4();
    let outer = csl.sub_dim::<3>(1..3).unwrap();
    assert_eq!(outer.offs()[0], 5);
    assert_eq!(
        outer.sub_dim(0..1),
        CslRef::new([1, 4, 5], &[6][..], &[2][..], &[5, 6, 6, 6, 6][..]).ok()
    );
    assert_eq!(outer.sub_dim::<3>(0..1), csl.sub_dim::<3>(1..2));
    assert_eq!(outer.sub_dim::<3>(1..2), csl.sub_dim::<3>(2..3));
    assert_eq!(outer.sub_dim::<3>(0..2), Some(outer));
    let inner = outer.sub_dim::<2>(1..3).unwrap();
    assert_eq!(inner.dims(), &[2, 5]);
    assert_eq!(inner.data(), &[] as &[i32]);
    assert_eq!(inner.offs(), &[6, 6, 6]);
    assert_eq!(outer.value([1, 0, 2]), Some(&7));
    assert_eq!(outer.value([1, 1, 4]), Some(&8));
}

#[test]
fn sub_dim_mut_counts_from_the_first_offset() {
    let mut csl = offsets_from_five();
    {
        let sub = csl.sub_dim_mut::<3>(1..2).unwrap();
        assert_eq!(sub.indcs, &[2, 4]);
        assert_eq!(sub.offs, &[6, 7, 8, 8, 8]);
        sub.data[0] = 70;
        sub.data[1] = 80;
    }
    assert_eq!(csl.data(), &[6, 70, 80]);
    {
        let sub = csl.sub_dim_mut::<3>(0..1).unwrap();
        sub.data[0] = 60;
    }
    assert_eq!(csl.data(), &[60, 70, 80]);
}

#[test]
fn sub_dim_of_positions_that_are_there_is_some() {
    let csl = csl_vec_4();
    for start in 0..=2 {
        for end in start..=2 {
            let sub = csl.sub_dim::<4>(start..end).unwrap();
            assert_eq!(sub.dims(), &[end - start, 3, 4, 5]);
            assert_eq!(sub.offs().len(), 12 * (end - start) + 1);
            assert_eq!(sub.nnz(), csl.offs()[12 * end] - csl.offs()[12 * start]);
        }
    }
    let csl = offsets_from_five();
    for start in 0..=2 {
        for end in start..=2 {
            assert!(csl.sub_dim::<3>(start..end).is_some());
        }
    }
}
