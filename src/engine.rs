//! The population engine: seeding, evaluation, ranked selection and
//! generational replacement.
use crate::fitness::{lemma_le_reflexive, lemma_le_transitive, Fitness};
use crate::individual::{copy_of, fitness_of, is_evaluated, Individual};
use crate::random::draw_below;
use rand::rngs::StdRng;
use rayon::iter::{IntoParallelRefMutIterator, ParallelIterator};
use vstd::prelude::*;

verus! {

/// `after` is `before` once evaluated: the same genotype, and the cached
/// fitness kept, or filled with the earned one.
pub open spec fn after_evaluation<T: Individual>(before: T, after: T) -> bool {
    &&& after@ == before@
    &&& after.earned_fitness() == before.earned_fitness()
    &&& after.cached_fitness() == match before.cached_fitness() {
        Some(f) => Some(f),
        None => Some(before.earned_fitness()),
    }
}

/// Every member of `pop` holds a fitness.
pub open spec fn all_evaluated<T: Individual>(pop: Seq<T>) -> bool {
    forall|i: int| 0 <= i < pop.len() ==> is_evaluated(#[trigger] pop[i])
}

/// `x` is a copy of some member of `pop`.
pub open spec fn drawn_from<T: Individual>(x: T, pop: Seq<T>) -> bool {
    exists|i: int| 0 <= i < pop.len() && copy_of(x, #[trigger] pop[i])
}

/// `picked` holds copies of the members of `pop` at the distinct positions
/// `at`, best first, and no member left out is fitter than any one picked.
pub open spec fn is_ranked_selection<T: Individual>(pop: Seq<T>, picked: Seq<T>, at: Seq<int>) -> bool {
    &&& at.len() == picked.len()
    &&& forall|i: int|
        0 <= i < at.len() ==> 0 <= #[trigger] at[i] < pop.len() && copy_of(picked[i], pop[at[i]])
    &&& forall|i: int, j: int| 0 <= i < j < at.len() ==> at[i] != at[j]
    &&& forall|i: int, j: int|
        0 <= i < j < picked.len() ==> fitness_of(#[trigger] picked[j]).le(
            fitness_of(#[trigger] picked[i]),
        )
    &&& forall|i: int, k: int|
        0 <= i < picked.len() && 0 <= k < pop.len() && !at.contains(k) ==> fitness_of(
            #[trigger] pop[k],
        ).le(fitness_of(#[trigger] picked[i]))
}

/// `picked` is the `top` fittest members of `pop`, best first.
pub open spec fn is_top_selection<T: Individual>(pop: Seq<T>, picked: Seq<T>, top: int) -> bool {
    &&& picked.len() == top
    &&& exists|at: Seq<int>| is_ranked_selection(pop, picked, at)
}

/// `next` is a generation that `evolve` may make from `prev`, where `n` is
/// the size of `prev`: the `n / 4` fittest members of `prev` unchanged and best
/// first, then `n / 4` copies of members drawn from `prev`, then unevaluated
/// offspring of two members of `prev` up to size `n`.
pub open spec fn is_next_generation<T: Individual>(prev: Seq<T>, next: Seq<T>) -> bool {
    let n = prev.len() as int;
    let q = n / 4;
    &&& next.len() == n
    &&& is_top_selection(prev, next.subrange(0, q), q)
    &&& forall|k: int| q <= k < 2 * q ==> drawn_from(#[trigger] next[k], prev)
    &&& forall|k: int|
        2 * q <= k < n ==> (#[trigger] next[k]).cached_fitness() is None && exists|i: int, j: int|
            0 <= i < n && 0 <= j < n && next[k].is_offspring_of(prev[i]@, prev[j]@)
}

/// Relies on rayon's `par_iter_mut` and `for_each`: the closure runs exactly
/// once on each element, in place, and the call returns when all have run.
#[verifier::external_body]
fn evaluate_in_parallel<T: Individual>(members: &mut Vec<T>)
    ensures
        final(members)@.len() == old(members)@.len(),
        forall|i: int|
            0 <= i < old(members)@.len() ==> after_evaluation(
                old(members)@[i],
                #[trigger] final(members)@[i],
            ),
{
    members.par_iter_mut().for_each(|m| m.evaluate());
}

/// A population of individuals and the random source that every stochastic
/// step draws from.
pub struct GeneticAlgorithm<T> {
    population: Vec<T>,
    rng: StdRng,
}

impl<T: Individual> GeneticAlgorithm<T> {
    /// The current population.
    pub closed spec fn members(&self) -> Seq<T> {
        self.population@
    }

    /// The random source, in its current state.
    pub closed spec fn source(&self) -> StdRng {
        self.rng
    }

    /// An engine over `population_size` freshly generated individuals.
    pub fn new(population_size: usize, rng: StdRng) -> (r: Self)
        requires
            population_size > 0,
        ensures
            r.members().len() == population_size,
            forall|i: int| 0 <= i < population_size ==> (#[trigger] r.members()[i]).cached_fitness() is None,
            forall|i: int| 0 <= i < population_size ==> (#[trigger] r.members()[i]).in_search_space(),
    {
        let mut rng = rng;
        let population = Self::seed(population_size, &mut rng);
        GeneticAlgorithm { population, rng }
    }

    /// An engine over the given population.
    pub fn with_population(population: Vec<T>, rng: StdRng) -> (r: Self)
        ensures
            r.members() == population@,
    {
        GeneticAlgorithm { population, rng }
    }

    /// The current population.
    pub fn population(&self) -> (r: &Vec<T>)
        ensures
            r@ == self.members(),
    {
        &self.population
    }

    /// `population_size` freshly generated, unevaluated individuals.
    pub fn seed(population_size: usize, rng: &mut StdRng) -> (r: Vec<T>)
        ensures
            r@.len() == population_size,
            forall|i: int| 0 <= i < population_size ==> (#[trigger] r@[i]).cached_fitness() is None,
            forall|i: int| 0 <= i < population_size ==> (#[trigger] r@[i]).in_search_space(),
    {
        let mut population: Vec<T> = Vec::new();
        let mut i: usize = 0;
        while i < population_size
            invariant
                i <= population_size,
                population@.len() == i,
                forall|j: int| 0 <= j < i ==> (#[trigger] population@[j]).cached_fitness() is None,
                forall|j: int| 0 <= j < i ==> (#[trigger] population@[j]).in_search_space(),
            decreases population_size - i,
        {
            population.push(T::generate(rng));
            i = i + 1;
        }
        population
    }

    /// Evaluates every member, in parallel; members already evaluated keep
    /// their fitness, and the random source is not drawn from.
    pub fn evaluate(&mut self)
        ensures
            final(self).source() == old(self).source(),
            final(self).members().len() == old(self).members().len(),
            forall|i: int|
                0 <= i < old(self).members().len() ==> after_evaluation(
                    old(self).members()[i],
                    #[trigger] final(self).members()[i],
                ),
    {
        evaluate_in_parallel(&mut self.population);
    }

    /// Copies of the `top` fittest members, best first.
    pub fn select(&self, top: usize) -> (r: Vec<T>)
        requires
            top <= self.members().len(),
            all_evaluated(self.members()),
        ensures
            is_top_selection(self.members(), r@, top as int),
    {
        let pop = &self.population;
        let n = pop.len();
        let mut rest: Vec<T> = Vec::new();
        let ghost mut idx: Seq<int> = Seq::empty();
        let mut i: usize = 0;
        while i < n
            invariant
                n == pop@.len(),
                i <= n,
                rest@.len() == i,
                idx.len() == i,
                forall|r: int| 0 <= r < i ==> #[trigger] idx[r] == r,
                forall|r: int| 0 <= r < i ==> copy_of(#[trigger] rest@[r], pop@[r]),
            decreases n - i,
        {
            rest.push(pop[i].duplicate());
            proof {
                idx = idx.push(i as int);
            }
            i = i + 1;
        }
        let mut picked: Vec<T> = Vec::new();
        let ghost mut at: Seq<int> = Seq::empty();
        proof {
            assert forall|k: int| 0 <= k < n implies at.contains(k) || idx.contains(k) by {
                assert(idx[k] == k);
            }
        }
        while picked.len() < top
            invariant
                n == pop@.len(),
                top <= n,
                all_evaluated(pop@),
                rest@.len() == idx.len(),
                rest@.len() + picked@.len() == n,
                picked@.len() <= top,
                forall|r: int|
                    0 <= r < idx.len() ==> 0 <= #[trigger] idx[r] < n && copy_of(
                        rest@[r],
                        pop@[idx[r]],
                    ),
                forall|r: int, q: int| 0 <= r < q < idx.len() ==> idx[r] != idx[q],
                forall|p: int, r: int| 0 <= p < at.len() && 0 <= r < idx.len() ==> at[p] != idx[r],
                forall|k: int| 0 <= k < n ==> at.contains(k) || idx.contains(k),
                is_ranked_selection(pop@, picked@, at),
                forall|p: int, r: int|
                    0 <= p < picked@.len() && 0 <= r < rest@.len() ==> fitness_of(
                        #[trigger] rest@[r],
                    ).le(fitness_of(#[trigger] picked@[p])),
            decreases top - picked@.len(),
        {
            proof {
                assert forall|r: int| 0 <= r < rest@.len() implies is_evaluated(#[trigger] rest@[r]) by {
                    assert(copy_of(rest@[r], pop@[idx[r]]));
                    assert(is_evaluated(pop@[idx[r]]));
                }
            }
            let mut b: usize = 0;
            let mut k: usize = 1;
            while k < rest.len()
                invariant
                    b < k <= rest@.len(),
                    forall|r: int| 0 <= r < rest@.len() ==> is_evaluated(#[trigger] rest@[r]),
                    forall|r: int|
                        0 <= r < k ==> fitness_of(#[trigger] rest@[r]).le(fitness_of(rest@[b as int])),
                decreases rest@.len() - k,
            {
                let candidate = fitness_value(&rest[k]);
                let current = fitness_value(&rest[b]);
                if !candidate.is_at_most(&current) {
                    proof {
                        let s = rest@;
                        assert forall|r: int| 0 <= r < k implies fitness_of(#[trigger] s[r]).le(
                            fitness_of(s[k as int]),
                        ) by {
                            lemma_le_transitive(fitness_of(s[r]), current, candidate);
                        }
                    }
                    b = k;
                }
                k = k + 1;
            }
            let ghost old_rest = rest@;
            let ghost old_idx = idx;
            let ghost old_at = at;
            let ghost old_picked = picked@;
            let chosen = rest.remove(b);
            picked.push(chosen);
            proof {
                at = at.push(old_idx[b as int]);
                idx = old_idx.remove(b as int);
                let bi = b as int;
                assert forall|k: int| 0 <= k < n implies at.contains(k) || idx.contains(k) by {
                    if old_at.contains(k) {
                        let p = choose|p: int| 0 <= p < old_at.len() && old_at[p] == k;
                        assert(at[p] == k);
                    } else {
                        let r = choose|r: int| 0 <= r < old_idx.len() && old_idx[r] == k;
                        if r == bi {
                            assert(at[old_at.len() as int] == k);
                        } else if r < bi {
                            assert(idx[r] == k);
                        } else {
                            assert(idx[r - 1] == k);
                        }
                    }
                }
                assert forall|p: int, k: int|
                    0 <= p < picked@.len() && 0 <= k < n && !at.contains(k) implies fitness_of(
                        #[trigger] pop@[k],
                    ).le(fitness_of(#[trigger] picked@[p])) by {
                    assert(idx.contains(k));
                    let r = choose|r: int| 0 <= r < idx.len() && idx[r] == k;
                    if r < bi {
                        assert(idx[r] == old_idx[r]);
                        assert(copy_of(old_rest[r], pop@[k]));
                        assert(fitness_of(old_rest[r]) == fitness_of(pop@[k]));
                    } else {
                        assert(idx[r] == old_idx[r + 1]);
                        assert(copy_of(old_rest[r + 1], pop@[k]));
                        assert(fitness_of(old_rest[r + 1]) == fitness_of(pop@[k]));
                    }
                    if p < old_picked.len() {
                        assert(picked@[p] == old_picked[p]);
                    }
                }
                assert(is_ranked_selection(pop@, picked@, at));
            }
        }
        assert(is_ranked_selection(pop@, picked@, at));
        picked
    }

    /// Replaces the population by the next generation: the fittest quarter
    /// carried forward as it is, a quarter of random immigrants, and the rest
    /// offspring of random pairs. The size stays the same.
    ///
    /// The elites are not mutated: they keep their genotype and their
    /// fitness, so the best fitness found so far is never lost.
    pub fn evolve(&mut self)
        requires
            all_evaluated(old(self).members()),
        ensures
            final(self).members().len() == old(self).members().len(),
            is_next_generation(old(self).members(), final(self).members()),
    {
        let ghost prev = self.population@;
        let n = self.population.len();
        let quarter = n / 4;
        let mut next = self.select(quarter);
        let ghost elite = next@;
        let mut i: usize = 0;
        while i < quarter
            invariant
                self.population@ == prev,
                n == prev.len(),
                quarter == n / 4,
                i <= quarter,
                next@.len() == quarter + i,
                next@.subrange(0, quarter as int) == elite,
                forall|k: int| quarter <= k < quarter + i ==> drawn_from(#[trigger] next@[k], prev),
            decreases quarter - i,
        {
            let x = self.random_individual();
            let ghost before = next@;
            next.push(x);
            assert(next@.subrange(0, quarter as int) == before.subrange(0, quarter as int));
            i = i + 1;
        }
        let crossed = n - 2 * quarter;
        let mut j: usize = 0;
        while j < crossed
            invariant
                self.population@ == prev,
                n == prev.len(),
                quarter == n / 4,
                crossed == n - 2 * quarter,
                j <= crossed,
                next@.len() == 2 * quarter + j,
                next@.subrange(0, quarter as int) == elite,
                forall|k: int| quarter <= k < 2 * quarter ==> drawn_from(#[trigger] next@[k], prev),
                forall|k: int|
                    2 * quarter <= k < 2 * quarter + j ==> (#[trigger] next@[k]).cached_fitness() is None
                        && exists|a: int, b: int|
                        0 <= a < n && 0 <= b < n && next@[k].is_offspring_of(prev[a]@, prev[b]@),
            decreases crossed - j,
        {
            let first = self.random_individual();
            let second = self.random_individual();
            let child = first.crossover(second, &mut self.rng);
            proof {
                let a = choose|a: int| 0 <= a < n && copy_of(first, prev[a]);
                let b = choose|b: int| 0 <= b < n && copy_of(second, prev[b]);
                assert(child.is_offspring_of(prev[a]@, prev[b]@));
            }
            let ghost before = next@;
            next.push(child);
            assert(next@.subrange(0, quarter as int) == before.subrange(0, quarter as int));
            j = j + 1;
        }
        self.population = next;
    }

    /// A copy of a member drawn uniformly at random.
    pub fn random_individual(&mut self) -> (r: T)
        requires
            old(self).members().len() > 0,
        ensures
            final(self).members() == old(self).members(),
            drawn_from(r, old(self).members()),
    {
        let idx = draw_below(&mut self.rng, 0, self.population.len());
        let r = self.population[idx].duplicate();
        assert(copy_of(r, self.population@[idx as int]));
        r
    }

    /// A copy of a member of the highest fitness.
    pub fn best_individual(&self) -> (r: T)
        requires
            self.members().len() > 0,
            all_evaluated(self.members()),
        ensures
            drawn_from(r, self.members()),
            forall|i: int|
                0 <= i < self.members().len() ==> fitness_of(#[trigger] self.members()[i]).le(
                    fitness_of(r),
                ),
    {
        let n = self.population.len();
        let mut best: usize = 0;
        let mut k: usize = 1;
        while k < n
            invariant
                n == self.population@.len(),
                all_evaluated(self.population@),
                best < k <= n,
                forall|j: int|
                    0 <= j < k ==> fitness_of(#[trigger] self.population@[j]).le(
                        fitness_of(self.population@[best as int]),
                    ),
            decreases n - k,
        {
            let candidate = fitness_value(&self.population[k]);
            let current = fitness_value(&self.population[best]);
            if !candidate.is_at_most(&current) {
                proof {
                    let pop = self.population@;
                    assert forall|j: int| 0 <= j < k implies fitness_of(#[trigger] pop[j]).le(
                        fitness_of(pop[k as int]),
                    ) by {
                        lemma_le_transitive(fitness_of(pop[j]), current, candidate);
                    }
                }
                best = k;
            }
            k = k + 1;
        }
        let r = self.population[best].duplicate();
        assert(copy_of(r, self.population@[best as int]));
        r
    }
}

/// The fitness of an evaluated individual.
fn fitness_value<T: Individual>(x: &T) -> (r: Fitness)
    requires
        is_evaluated(*x),
    ensures
        r == fitness_of(*x),
{
    x.fitness().unwrap()
}


/// Evaluating an individual a second time changes nothing: the genotype and
/// the cached fitness stay as the first evaluation left them.
pub proof fn lemma_evaluate_idempotent<T: Individual>(first: T, once: T, twice: T)
    requires
        after_evaluation(first, once),
        after_evaluation(once, twice),
    ensures
        twice@ == once@,
        twice.cached_fitness() == once.cached_fitness(),
        is_evaluated(twice),
{
}

/// Where the population holds at least four members, the first member of the
/// next generation is a copy of a member of the previous one and is at least
/// as fit as every one of them: the best fitness is carried forward.
pub proof fn lemma_elite_keeps_best<T: Individual>(prev: Seq<T>, next: Seq<T>)
    requires
        prev.len() >= 4,
        all_evaluated(prev),
        is_next_generation(prev, next),
    ensures
        is_evaluated(next[0]),
        drawn_from(next[0], prev),
        forall|i: int| 0 <= i < prev.len() ==> fitness_of(#[trigger] prev[i]).le(fitness_of(next[0])),
{
    let q = prev.len() / 4;
    let elite = next.subrange(0, q as int);
    let at = choose|at: Seq<int>| is_ranked_selection(prev, elite, at);
    assert(elite[0] == next[0]);
    assert(copy_of(elite[0], prev[at[0]]));
    assert forall|i: int| 0 <= i < prev.len() implies fitness_of(#[trigger] prev[i]).le(
        fitness_of(next[0]),
    ) by {
        if at.contains(i) {
            let p = choose|p: int| 0 <= p < at.len() && at[p] == i;
            assert(copy_of(elite[p], prev[i]));
            if p == 0 {
                lemma_le_reflexive(fitness_of(prev[i]));
            } else {
                assert(fitness_of(elite[p]).le(fitness_of(elite[0])));
            }
        } else {
            assert(fitness_of(prev[i]).le(fitness_of(elite[0])));
        }
    }
}

} // verus!
