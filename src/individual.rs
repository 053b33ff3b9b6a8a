//! The capabilities that a candidate solution offers to the engine.
use crate::fitness::Fitness;
use rand::rngs::StdRng;
use vstd::prelude::*;

verus! {

/// A candidate solution: a genotype (its view) and a cached fitness.
///
/// Every operator returns a new individual; none changes its receiver but
/// `evaluate`, which only fills the cache.
pub trait Individual: View + Sized + Send {
    /// The cached fitness: `None` until the individual is evaluated.
    spec fn cached_fitness(&self) -> Option<Fitness>;

    /// The fitness that the genotype earns.
    spec fn earned_fitness(&self) -> Fitness;

    /// `self` is a point of the search space that `generate` draws from.
    spec fn in_search_space(&self) -> bool;

    /// `self` may come from `parent` by mutation.
    spec fn is_mutant_of(&self, parent: Self::V) -> bool;

    /// `self` may come from crossing `first` with `second`.
    spec fn is_offspring_of(&self, first: Self::V, second: Self::V) -> bool;

    /// Fills the fitness cache from the genotype; a filled cache is kept.
    fn evaluate(&mut self)
        ensures
            final(self)@ == old(self)@,
            final(self).earned_fitness() == old(self).earned_fitness(),
            final(self).cached_fitness() == (match old(self).cached_fitness() {
                Some(f) => Some(f),
                None => Some(old(self).earned_fitness()),
            }),
    ;

    /// The cached fitness.
    fn fitness(&self) -> (r: Option<Fitness>)
        ensures
            r == self.cached_fitness(),
    ;

    /// A copy with the same genotype and the same cache.
    fn duplicate(&self) -> (r: Self)
        ensures
            r@ == self@,
            r.cached_fitness() == self.cached_fitness(),
            r.earned_fitness() == self.earned_fitness(),
    ;

    /// A new, unevaluated individual derived from `self` by perturbing sites.
    fn mutate(&self, rng: &mut StdRng) -> (r: Self)
        ensures
            r.is_mutant_of(self@),
            self.in_search_space() ==> r.in_search_space(),
            r.cached_fitness() is None,
    ;

    /// A new, unevaluated individual that combines `self` with `other`.
    fn crossover(&self, other: Self, rng: &mut StdRng) -> (r: Self)
        ensures
            r.is_offspring_of(self@, other@),
            r.cached_fitness() is None,
    ;

    /// A new, unevaluated individual at a random point of the search space.
    fn generate(rng: &mut StdRng) -> (r: Self)
        ensures
            r.in_search_space(),
            r.cached_fitness() is None,
    ;
}

/// `a` is a copy of `b`: the same genotype and the same cached fitness.
pub open spec fn copy_of<T: Individual>(a: T, b: T) -> bool {
    a@ == b@ && a.cached_fitness() == b.cached_fitness() && a.earned_fitness()
        == b.earned_fitness()
}

/// `x` holds a fitness.
pub open spec fn is_evaluated<T: Individual>(x: T) -> bool {
    x.cached_fitness() is Some
}

/// The fitness of an evaluated individual.
pub open spec fn fitness_of<T: Individual>(x: T) -> Fitness {
    x.cached_fitness().unwrap()
}

} // verus!
