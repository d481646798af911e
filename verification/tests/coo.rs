use ndsparse::coo::coo_error::CooError;
use ndsparse::coo::coo_utils::{does_not_have_duplicates_sorted, lex_order, Order};
use ndsparse::coo::{check_parts, locate, Coo};
use ndsparse::error::Error;

fn coo_5() -> Coo<i32, 5> {
    Coo::new(
        [2, 3, 4, 3, 3],
        vec![
            ([0, 0, 1, 1, 2], 1),
            ([0, 1, 0, 1, 1], 2),
            ([0, 1, 3, 0, 0], 3),
            ([0, 2, 2, 0, 1], 4),
            ([1, 0, 0, 0, 0], 5),
            ([1, 2, 3, 2, 2], 6),
        ],
    )
    .unwrap()
}

#[test]
fn coo_accessors() {
    let coo = coo_5();
    assert_eq!(coo.dims(), &[2, 3, 4, 3, 3]);
    assert_eq!(coo.data().first(), Some(&([0, 0, 1, 1, 2], 1)));
    assert_eq!(coo.data().len(), 6);
}

#[test]
fn coo_values() {
    let coo = coo_5();
    assert_eq!(coo.value([0, 0, 0, 0, 0]), None);
    assert_eq!(coo.value([0, 2, 2, 0, 1]), Some(&4));
    assert_eq!(coo.value([0, 0, 1, 1, 2]), Some(&1));
    assert_eq!(coo.value([1, 2, 3, 2, 2]), Some(&6));
    assert_eq!(coo.value([1, 2, 3, 2, 1]), None);
    assert_eq!(coo.value([9, 9, 9, 9, 9]), None);
}

#[test]
fn coo_value_mut_writes_one_value() {
    let mut coo = coo_5();
    *coo.value_mut([0, 1, 3, 0, 0]).unwrap() = 30;
    assert_eq!(coo.value([0, 1, 3, 0, 0]), Some(&30));
    assert!(coo.value_mut([0, 1, 3, 0, 1]).is_none());
    assert_eq!(coo.data()[2], ([0, 1, 3, 0, 0], 30));
    assert_eq!(coo.data()[1], ([0, 1, 0, 1, 1], 2));
}

#[test]
fn coo_sparse_array() {
    let coo: Coo<i32, 1> = Coo::new([10], vec![([0], 8), ([5], 9)]).unwrap();
    assert_eq!(coo.value([0]), Some(&8));
    assert_eq!(coo.value([5]), Some(&9));
    assert_eq!(coo.value([4]), None);
}

#[test]
fn coo_refuses_descending_indices() {
    let coo: Result<Coo<i32, 2>, Error> = Coo::new([2, 2], vec![([1, 1], 8), ([0, 0], 9)]);
    assert_eq!(coo, Err(Error::Coo(CooError::InvalidIndcsOrder)));
}

#[test]
fn coo_refuses_indices_outside_the_shape() {
    let coo: Result<Coo<i32, 2>, Error> = Coo::new([2, 2], vec![([0, 1], 8), ([9, 9], 9)]);
    assert_eq!(coo, Err(Error::Coo(CooError::InvalidIndcs)));
    let free: Result<Coo<i32, 2>, Error> = Coo::new([0, 2], vec![([0, 1], 8), ([9, 1], 9)]);
    assert!(free.is_ok());
}

#[test]
fn coo_refuses_repeated_indices() {
    let coo: Result<Coo<i32, 2>, Error> = Coo::new([2, 2], vec![([0, 0], 8), ([0, 0], 9)]);
    assert_eq!(coo, Err(Error::Coo(CooError::DuplicatedIndices)));
}

#[test]
fn coo_order_comes_before_shape_and_repeats() {
    let data = [([1usize, 9usize], 1), ([1, 9], 2), ([0, 0], 3)];
    assert_eq!(check_parts(&[2, 2], &data), Some(CooError::InvalidIndcsOrder));
    let data = [([1usize, 1usize], 1), ([1, 1], 2), ([1, 9], 3)];
    assert_eq!(check_parts(&[2, 2], &data), Some(CooError::InvalidIndcs));
    let none: [([usize; 2], i32); 0] = [];
    assert_eq!(check_parts(&[2, 2], &none), None);
}

#[test]
fn coo_default_is_empty() {
    let coo: Coo<i32, 3> = Coo::default();
    assert_eq!(coo.dims(), &[0, 0, 0]);
    assert_eq!(coo.data().len(), 0);
    assert_eq!(coo.value([0, 0, 0]), None);
}

#[test]
fn lexicographic_order() {
    assert_eq!(lex_order(&[0, 5, 9], &[1, 0, 0]), Order::Before);
    assert_eq!(lex_order(&[1, 0, 0], &[0, 5, 9]), Order::After);
    assert_eq!(lex_order(&[1, 2, 3], &[1, 2, 3]), Order::Same);
    assert_eq!(lex_order(&[1, 2, 3], &[1, 2, 4]), Order::Before);
    assert_eq!(lex_order(&[], &[]), Order::Same);
}

#[test]
fn locate_gives_the_place_of_an_index() {
    let data = [([0usize, 1usize], 'a'), ([0, 3], 'b'), ([2, 0], 'c')];
    assert_eq!(locate(&data, &[0, 3]), (true, 1));
    assert_eq!(locate(&data, &[0, 0]), (false, 0));
    assert_eq!(locate(&data, &[0, 2]), (false, 1));
    assert_eq!(locate(&data, &[1, 9]), (false, 2));
    assert_eq!(locate(&data, &[2, 1]), (false, 3));
}

#[test]
fn neighbours_are_told_apart() {
    let differ = |a: &i32, b: &i32| a != b;
    assert!(does_not_have_duplicates_sorted(&[1, 2, 3, 5], differ));
    assert!(!does_not_have_duplicates_sorted(&[1, 2, 2, 5], differ));
    assert!(does_not_have_duplicates_sorted(&[1, 2, 1], differ));
    assert!(does_not_have_duplicates_sorted(&[], differ));
    assert!(does_not_have_duplicates_sorted(&[4], differ));
}

#[test]
fn coo_error_names() {
    assert_eq!(CooError::InvalidIndcsOrder.to_string(), "InvalidIndcsOrder");
    assert_eq!(CooError::InvalidIndcs.to_string(), "InvalidIndcs");
    assert_eq!(CooError::DuplicatedIndices.to_string(), "DuplicatedIndices");
    assert_eq!(CooError::NnzGreaterThanMaximumNnz.to_string(), "NnzGreaterThanMaximumNnz");
    assert_eq!(Error::from(CooError::InvalidIndcs).to_string(), "Coo(InvalidIndcs)");
}
