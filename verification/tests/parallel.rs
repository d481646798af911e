use ndsparse::csl::csl_line_iter::{CslLineIterMut, CslLineIterRef};
use ndsparse::csl::{Csl, CslMut, CslRef};
use rand::rngs::StdRng;
use rand::SeedableRng;
use rayon::iter::plumbing::{bridge, Consumer, Producer, ProducerCallback, UnindexedConsumer};
use rayon::iter::{IndexedParallelIterator, ParallelIterator};

struct Lines<'a, const D: usize>(CslLineIterRef<'a, i32, D>);

impl<'a, const D: usize> Iterator for Lines<'a, D> {
    type Item = CslRef<'a, i32, D>;

    fn next(&mut self) -> Option<Self::Item> {
        self.0.next()
    }

    fn size_hint(&self) -> (usize, Option<usize>) {
        (self.0.len(), Some(self.0.len()))
    }
}

impl<'a, const D: usize> DoubleEndedIterator for Lines<'a, D> {
    fn next_back(&mut self) -> Option<Self::Item> {
        self.0.next_back()
    }
}

impl<'a, const D: usize> ExactSizeIterator for Lines<'a, D> {}

struct ParLines<'a, const D: usize>(CslLineIterRef<'a, i32, D>);

impl<'a, const D: usize> ParallelIterator for ParLines<'a, D> {
    type Item = CslRef<'a, i32, D>;

    fn drive_unindexed<C>(self, consumer: C) -> C::Result
    where
        C: UnindexedConsumer<Self::Item>,
    {
        bridge(self, consumer)
    }

    fn opt_len(&self) -> Option<usize> {
        Some(self.0.len())
    }
}

impl<'a, const D: usize> IndexedParallelIterator for ParLines<'a, D> {
    fn with_producer<Cb>(self, callback: Cb) -> Cb::Output
    where
        Cb: ProducerCallback<Self::Item>,
    {
        callback.callback(LinesProducer(self.0))
    }

    fn len(&self) -> usize {
        self.0.len()
    }

    fn drive<C>(self, consumer: C) -> C::Result
    where
        C: Consumer<Self::Item>,
    {
        bridge(self, consumer)
    }
}

struct LinesProducer<'a, const D: usize>(CslLineIterRef<'a, i32, D>);

impl<'a, const D: usize> Producer for LinesProducer<'a, D> {
    type IntoIter = Lines<'a, D>;
    type Item = CslRef<'a, i32, D>;

    fn into_iter(self) -> Self::IntoIter {
        Lines(self.0)
    }

    fn split_at(self, i: usize) -> (Self, Self) {
        assert!(self.0.can_split_at(i));
        let [a, b] = self.0.split_at(i);
        (Self(a), Self(b))
    }
}

struct LinesMut<'a, const D: usize>(CslLineIterMut<'a, i32, D>);

impl<'a, const D: usize> Iterator for LinesMut<'a, D> {
    type Item = CslMut<'a, i32, D>;

    fn next(&mut self) -> Option<Self::Item> {
        self.0.next()
    }

    fn size_hint(&self) -> (usize, Option<usize>) {
        (self.0.len(), Some(self.0.len()))
    }
}

impl<'a, const D: usize> DoubleEndedIterator for LinesMut<'a, D> {
    fn next_back(&mut self) -> Option<Self::Item> {
        self.0.next_back()
    }
}

impl<'a, const D: usize> ExactSizeIterator for LinesMut<'a, D> {}

struct ParLinesMut<'a, const D: usize>(CslLineIterMut<'a, i32, D>);

impl<'a, const D: usize> ParallelIterator for ParLinesMut<'a, D> {
    type Item = CslMut<'a, i32, D>;

    fn drive_unindexed<C>(self, consumer: C) -> C::Result
    where
        C: UnindexedConsumer<Self::Item>,
    {
        bridge(self, consumer)
    }

    fn opt_len(&self) -> Option<usize> {
        Some(self.0.len())
    }
}

impl<'a, const D: usize> IndexedParallelIterator for ParLinesMut<'a, D> {
    fn with_producer<Cb>(self, callback: Cb) -> Cb::Output
    where
        Cb: ProducerCallback<Self::Item>,
    {
        callback.callback(LinesMutProducer(self.0))
    }

    fn len(&self) -> usize {
        self.0.len()
    }

    fn drive<C>(self, consumer: C) -> C::Result
    where
        C: Consumer<Self::Item>,
    {
        bridge(self, consumer)
    }
}

struct LinesMutProducer<'a, const D: usize>(CslLineIterMut<'a, i32, D>);

impl<'a, const D: usize> Producer for LinesMutProducer<'a, D> {
    type IntoIter = LinesMut<'a, D>;
    type Item = CslMut<'a, i32, D>;

    fn into_iter(self) -> Self::IntoIter {
        LinesMut(self.0)
    }

    fn split_at(self, i: usize) -> (Self, Self) {
        assert!(self.0.can_split_at(i));
        let [a, b] = self.0.split_at(i);
        (Self(a), Self(b))
    }
}

fn random_csl<const D: usize>(seed: u64) -> Csl<i32, D> {
    let mut rng = StdRng::seed_from_u64(seed);
    Csl::new_random_rand(&mut rng, 9).unwrap()
}

#[test]
fn parallel_walk_gives_each_position_its_sub_dimension() {
    for seed in 0..40 {
        let csl: Csl<i32, 3> = random_csl(seed);
        let par = ParLines(csl.outermost_line_rayon_iter().unwrap().0);
        assert_eq!(IndexedParallelIterator::len(&par), csl.dims()[0]);
        par.enumerate().for_each(|(idx, csl_ref)| {
            assert_eq!(Some(csl_ref), csl.sub_dim(idx..idx + 1));
        });
    }
}

#[test]
fn parallel_walk_collects_in_order() {
    for seed in 0..40 {
        let csl: Csl<i32, 2> = random_csl(seed);
        let forked: Vec<CslRef<'_, i32, 2>> =
            ParLines(csl.outermost_line_iter().unwrap()).collect();
        let one_by_one: Vec<CslRef<'_, i32, 2>> =
            Lines(csl.outermost_line_iter().unwrap()).collect();
        assert_eq!(forked, one_by_one);
        let backwards: Vec<CslRef<'_, i32, 2>> =
            Lines(csl.outermost_line_iter().unwrap()).rev().collect();
        let mut reversed = one_by_one.clone();
        reversed.reverse();
        assert_eq!(backwards, reversed);
    }
}

#[test]
fn parallel_walk_writes_every_value_once() {
    for seed in 0..40 {
        let mut csl: Csl<i32, 3> = random_csl(seed);
        let before = csl.data().to_vec();
        ParLinesMut(csl.outermost_line_rayon_iter_mut().unwrap().0).for_each(|view| {
            for x in view.data.iter_mut() {
                *x = x.wrapping_add(1);
            }
        });
        let expected: Vec<i32> = if csl.dims()[0] == 0 {
            before
        } else {
            before.iter().map(|x| x.wrapping_add(1)).collect()
        };
        assert_eq!(csl.data(), &expected[..]);
    }
}
