use ndsparse::csl::csl_line_iter::CslLineIterRef;
use ndsparse::csl::{Csl, CslRef};
use rand::rngs::StdRng;
use rand::{Rng, SeedableRng};

fn random_csl<const D: usize>(seed: u64) -> Csl<i32, D> {
    let mut rng = StdRng::seed_from_u64(seed);
    Csl::new_random_rand(&mut rng, 6).unwrap()
}

fn collect<'a, const D: usize>(mut iter: CslLineIterRef<'a, i32, D>) -> Vec<CslRef<'a, i32, D>> {
    let mut all = Vec::new();
    while let Some(view) = iter.next() {
        all.push(view);
    }
    all
}

fn split_in_parallel<'a, const D: usize>(
    iter: CslLineIterRef<'a, i32, D>,
) -> Vec<CslRef<'a, i32, D>> {
    let len = iter.len();
    if len < 2 {
        return collect(iter);
    }
    let [head, tail] = iter.split_at(len / 2);
    let (mut a, mut b) = rayon::join(|| split_in_parallel(head), || split_in_parallel(tail));
    a.append(&mut b);
    a
}

#[test]
fn csl_outermost_sub_dim_2() {
    for seed in 0..60 {
        let csl: Csl<i32, 2> = random_csl(seed);
        let views = collect(csl.outermost_line_iter().unwrap());
        assert_eq!(views.len(), csl.dims()[0]);
        for (idx, csl_ref) in views.into_iter().enumerate() {
            assert_eq!(Some(csl_ref), csl.sub_dim(idx..idx + 1));
        }
    }
}

#[test]
fn csl_outermost_sub_dim_3() {
    for seed in 0..60 {
        let csl: Csl<i32, 3> = random_csl(seed);
        let views = collect(csl.outermost_line_iter().unwrap());
        assert_eq!(views.len(), csl.dims()[0]);
        for (idx, csl_ref) in views.into_iter().enumerate() {
            assert_eq!(Some(csl_ref), csl.sub_dim(idx..idx + 1));
        }
    }
}

#[test]
fn csl_outermost_rayon_iter() {
    for seed in 0..60 {
        let csl: Csl<i32, 3> = random_csl(seed);
        let one_by_one = collect(csl.outermost_line_iter().unwrap());
        let forked = split_in_parallel(csl.outermost_line_rayon_iter().unwrap().0);
        assert_eq!(forked, one_by_one);
        for k in 0..=csl.dims()[0] {
            let [head, tail] = csl.outermost_line_iter().unwrap().split_at(k);
            let mut parts = collect(head);
            parts.extend(collect(tail));
            assert_eq!(parts, one_by_one);
        }
    }
}

#[test]
fn csl_line() {
    for seed in 0..60 {
        let csl: Csl<i32, 2> = random_csl(seed);
        for (idx, csl_ref) in collect(csl.outermost_line_iter().unwrap()).into_iter().enumerate() {
            assert_eq!(csl_ref.sub_dim(0..csl.dims()[1]), csl.line([idx, 0]));
        }
    }
}

#[test]
fn csl_value() {
    for seed in 0..60 {
        let csl: Csl<i32, 1> = random_csl(seed);
        for (idx, data) in csl.indcs().iter().copied().zip(csl.data()) {
            assert_eq!(Some(data), csl.value([idx]));
        }
    }
}

#[test]
fn truncate_at_the_end_of_a_block_stays_valid() {
    let mut rng = StdRng::seed_from_u64(9);
    let dims = [3, 2, 4];
    for _ in 0..20 {
        let nnz = rng.gen_range(0, 25);
        let full: Csl<i32, 3> =
            Csl::new_controlled_random_rand(dims, nnz, &mut rng, |r, _| r.gen()).unwrap();
        for at in [[2, 1, 1], [2, 1, 3], [0, 1, 2], [0, 0, 1], [0, 0, 3]] {
            let mut cut = full.clone();
            cut.truncate(at);
            let again = Csl::new(
                *cut.dims(),
                cut.data().to_vec(),
                cut.indcs().to_vec(),
                cut.offs().to_vec(),
            );
            assert_eq!(again, Ok(cut));
        }
    }
}

#[test]
fn truncate_keeps_earlier_values_of_random_structures() {
    let mut rng = StdRng::seed_from_u64(10);
    let dims = [3, 2, 4];
    for _ in 0..20 {
        let nnz = rng.gen_range(0, 25);
        let full: Csl<i32, 3> =
            Csl::new_controlled_random_rand(dims, nnz, &mut rng, |r, _| r.gen()).unwrap();
        for at in [[2, 1, 1], [1, 1, 0], [0, 1, 2], [1, 1, 3]] {
            let mut cut = full.clone();
            cut.truncate(at);
            let mut kept = 0;
            for a in 0..3 {
                for b in 0..2 {
                    for c in 0..4 {
                        let idx = [a, b, c];
                        if idx < at {
                            assert_eq!(cut.value(idx), full.value(idx));
                            kept += cut.value(idx).iter().count();
                        } else {
                            assert_eq!(cut.value(idx), None);
                        }
                    }
                }
            }
            assert_eq!(cut.nnz(), kept);
        }
    }
}

#[test]
fn swap_exchanges_two_lookups_and_leaves_the_others() {
    let mut rng = StdRng::seed_from_u64(12);
    let full: Csl<i32, 3> =
        Csl::new_controlled_random_rand([3, 2, 4], 24, &mut rng, |r, _| r.gen()).unwrap();
    let (a, b) = ([0, 1, 2], [2, 0, 3]);
    let mut swapped = full.clone();
    assert!(swapped.swap_value(a, b));
    for x in 0..3 {
        for y in 0..2 {
            for z in 0..4 {
                let idx = [x, y, z];
                let expected = if idx == a {
                    full.value(b)
                } else if idx == b {
                    full.value(a)
                } else {
                    full.value(idx)
                };
                assert_eq!(swapped.value(idx), expected);
            }
        }
    }
}

#[test]
fn views_of_views_walk_like_the_structure() {
    for seed in 0..60 {
        let csl: Csl<i32, 3> = random_csl(seed);
        let n = csl.dims()[0];
        for start in 0..n {
            let sub = csl.sub_dim::<3>(start..n).unwrap();
            let views = collect(sub.outermost_line_iter().unwrap());
            assert_eq!(views.len(), n - start);
            for (idx, view) in views.into_iter().enumerate() {
                assert_eq!(Some(view), sub.sub_dim(idx..idx + 1));
                assert_eq!(Some(view), csl.sub_dim(start + idx..start + idx + 1));
            }
        }
    }
}
