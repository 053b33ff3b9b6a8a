use ga::{Fitness, Individual, Sentence};
use rand::rngs::StdRng;
use rand::SeedableRng;

const LETTERS: &str = "ABCDEFGHIJKLMNOPQRSTUVWXYZabcdefghijklmnopqrstuvwxyz ";

fn ratio(f: Fitness) -> f64 {
    f.score as f64 / f.scale as f64
}

#[test]
fn crossover_with_pivot() {
    let i1 = Sentence::new(String::from("abcd"));
    let i2 = Sentence::new(String::from("efgh"));
    let crossed_individual = i1.crossover_with_pivot(i2, 1);
    assert_eq!(crossed_individual.genotype, "afgh");
}

#[test]
fn evaluate() {
    let mut excellent = Sentence::new(Sentence::ideal().genotype);
    let mut terrible = Sentence::new(String::from("1234"));

    excellent.evaluate();
    terrible.evaluate();

    assert_eq!(ratio(excellent.fitness.unwrap()), 1.0);
    assert_eq!(ratio(terrible.fitness.unwrap()), 0.0);
}

#[test]
fn crossover_with_pivot_at_the_ends() {
    let a = Sentence::new(String::from("abcd"));
    let b = Sentence::new(String::from("efgh"));
    assert_eq!(a.crossover_with_pivot(b.clone(), 0).genotype, "efgh");
    assert_eq!(a.crossover_with_pivot(b.clone(), 4).genotype, "abcd");
    assert_eq!(a.crossover_with_pivot(b, 3).genotype, "abch");
}

#[test]
fn crossover_with_pivot_is_unevaluated() {
    let a = Sentence::ideal();
    let b = Sentence::ideal();
    assert!(a.crossover_with_pivot(b, 10).fitness().is_none());
}

#[test]
fn evaluate_counts_positional_matches() {
    let mut s = Sentence::new(String::from("The quick XXXXX"));
    s.evaluate();
    assert_eq!(s.fitness(), Some(Fitness { score: 10, scale: 44 }));
}

#[test]
fn evaluate_target_abcd_candidates() {
    let mut half = Sentence::new(String::from("Thxx"));
    half.evaluate();
    assert_eq!(half.fitness(), Some(Fitness { score: 2, scale: 44 }));
    let mut none = Sentence::new(String::from("1234"));
    none.evaluate();
    assert_eq!(none.fitness().unwrap().score, 0);
}

#[test]
fn evaluate_twice_keeps_fitness() {
    let mut s = Sentence::new(String::from("The quick brown cat"));
    s.evaluate();
    let first = s.fitness();
    s.evaluate();
    assert_eq!(s.fitness(), first);
    assert_eq!(s.genotype, "The quick brown cat");
}

#[test]
fn evaluate_keeps_a_cached_fitness() {
    let mut s = Sentence::new(String::from("zzzz"));
    s.fitness = Some(Fitness { score: 7, scale: 9 });
    s.evaluate();
    assert_eq!(s.fitness(), Some(Fitness { score: 7, scale: 9 }));
}

#[test]
fn ideal_is_evaluated_at_full_fitness() {
    let ideal = Sentence::ideal();
    assert_eq!(ideal.genotype, "The quick brown fox jumped over the lazy dog");
    assert_eq!(ideal.fitness(), Some(Fitness { score: 44, scale: 44 }));
}

#[test]
fn new_is_unevaluated() {
    let s = Sentence::new(String::from("abc"));
    assert_eq!(s.genotype, "abc");
    assert!(s.fitness().is_none());
}

#[test]
fn duplicate_keeps_genotype_and_fitness() {
    let s = Sentence::ideal();
    let d = s.duplicate();
    assert_eq!(d.genotype, s.genotype);
    assert_eq!(d.fitness(), s.fitness());
}

#[test]
fn generate_draws_from_the_letters() {
    let mut rng = StdRng::seed_from_u64(7);
    let a = Sentence::generate(&mut rng);
    let b = Sentence::generate(&mut rng);
    assert_eq!(a.genotype.chars().count(), 44);
    assert!(a.genotype.chars().all(|c| LETTERS.contains(c)));
    assert!(a.fitness().is_none());
    // a source that always gave its lowest value would give only 'A'
    assert!(a.genotype.chars().any(|c| c != 'A'));
    assert_ne!(a.genotype, b.genotype);
}

#[test]
fn mutate_keeps_length_and_perturbs_few_sites() {
    let mut rng = StdRng::seed_from_u64(11);
    let parent = Sentence::ideal();
    let mut changed = 0;
    for _ in 0..200 {
        let child = parent.mutate(&mut rng);
        assert!(child.fitness().is_none());
        assert_eq!(child.genotype.chars().count(), 44);
        for (c, p) in child.genotype.chars().zip(parent.genotype.chars()) {
            assert!(c == p || LETTERS.contains(c));
            if c != p {
                changed += 1;
            }
        }
    }
    // one site in 44 is redrawn on average: about 200 sites over 200 mutants
    assert!(changed > 50 && changed < 400);
}

#[test]
fn crossover_splices_at_a_pivot_below_the_length() {
    let mut rng = StdRng::seed_from_u64(3);
    let a = Sentence::new(String::from("aaaaaaaa"));
    let b = Sentence::new(String::from("bbbbbbbb"));
    let mut pivots = std::collections::BTreeSet::new();
    for _ in 0..100 {
        let child = a.crossover(b.clone(), &mut rng);
        let g = child.genotype.clone();
        let pivot = g.chars().take_while(|c| *c == 'a').count();
        assert!(pivot < 8);
        assert!(g.chars().skip(pivot).all(|c| c == 'b'));
        assert_eq!(g.len(), 8);
        assert!(child.fitness().is_none());
        pivots.insert(pivot);
    }
    assert!(pivots.len() > 1);
}

#[test]
fn crossover_of_empty_genotypes_is_empty() {
    let mut rng = StdRng::seed_from_u64(3);
    let a = Sentence::new(String::new());
    let b = Sentence::new(String::new());
    assert_eq!(a.crossover(b, &mut rng).genotype, "");
}

#[test]
fn from_letters_maps_indices_to_letters() {
    let s = Sentence::from_letters(&vec![0, 26, 52, 1, 25]);
    assert_eq!(s.genotype, "Aa BZ");
    assert!(s.fitness().is_none());
    assert_eq!(Sentence::from_letters(&vec![]).genotype, "");
}

#[test]
fn perturbed_redraws_sites_whose_roll_is_zero() {
    let parent = Sentence::ideal();
    let small = Sentence::new(String::from("abcd"));
    let child = small.perturbed(&vec![0, 1, 0, 43], &vec![0, 0, 52, 0]);
    assert_eq!(child.genotype, "Ab d");
    assert!(child.fitness().is_none());
    let rolls = vec![1; 44];
    let letters = vec![0; 44];
    let same = parent.perturbed(&rolls, &letters);
    assert_eq!(same.genotype, parent.genotype);
    assert!(same.fitness().is_none());
}

#[test]
fn sentences_are_equal_by_genotype() {
    let mut a = Sentence::new(String::from("ab"));
    let b = Sentence::new(String::from("ab"));
    a.evaluate();
    assert!(a == b);
    assert!(a != Sentence::new(String::from("ac")));
}
