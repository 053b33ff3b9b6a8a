//! An individual whose genotype is a string, scored by how many positions
//! match a fixed target sentence.
use crate::fitness::Fitness;
use crate::individual::Individual;
use crate::random::draw_below;
use rand::rngs::StdRng;
use vstd::prelude::*;
use vstd::string::*;

verus! {

/// The sentence that the search converges toward.
pub open spec fn target() -> Seq<char> {
    "The quick brown fox jumped over the lazy dog"@
}

/// The characters that generation and mutation draw from.
pub open spec fn charset() -> Seq<char> {
    "ABCDEFGHIJKLMNOPQRSTUVWXYZabcdefghijklmnopqrstuvwxyz "@
}

fn target_str() -> (r: &'static str)
    ensures
        r@ == target(),
{
    "The quick brown fox jumped over the lazy dog"
}

fn charset_str() -> (r: &'static str)
    ensures
        r@ == charset(),
{
    "ABCDEFGHIJKLMNOPQRSTUVWXYZabcdefghijklmnopqrstuvwxyz "
}

proof fn lemma_literal_lengths()
    ensures
        target().len() == 44,
        charset().len() == 53,
{
    reveal_strlit("The quick brown fox jumped over the lazy dog");
    reveal_strlit("ABCDEFGHIJKLMNOPQRSTUVWXYZabcdefghijklmnopqrstuvwxyz ");
}

/// How many of the first `n` positions hold the same character in `a` and `b`.
pub open spec fn matches_up_to(a: Seq<char>, b: Seq<char>, n: int) -> nat
    decreases n,
{
    if n <= 0 {
        0
    } else {
        matches_up_to(a, b, n - 1) + if a[n - 1] == b[n - 1] {
            1nat
        } else {
            0nat
        }
    }
}

/// How many positions hold the same character in `a` and `b`, over the
/// shorter of the two.
pub open spec fn positional_matches(a: Seq<char>, b: Seq<char>) -> nat {
    matches_up_to(a, b, if a.len() <= b.len() { a.len() as int } else { b.len() as int })
}

/// `a` up to `pivot`, then `b` from `pivot` on.
pub open spec fn spliced(a: Seq<char>, b: Seq<char>, pivot: int) -> Seq<char> {
    a.subrange(0, pivot) + b.subrange(pivot, b.len() as int)
}

/// A pivot that crossover may draw for parents `a` and `b`.
pub open spec fn is_crossover_pivot(a: Seq<char>, b: Seq<char>, pivot: int) -> bool {
    let n = if a.len() <= b.len() { a.len() as int } else { b.len() as int };
    &&& 0 <= pivot <= n
    &&& (n > 0 ==> pivot < n)
}

/// A candidate sentence and its cached fitness.
#[derive(Clone, Debug)]
pub struct Sentence {
    pub genotype: String,
    pub fitness: Option<Fitness>,
}

impl PartialEq for Sentence {
    /// Two sentences are equal where their genotypes are.
    fn eq(&self, other: &Sentence) -> (r: bool) {
        self.genotype == other.genotype
    }
}

impl vstd::std_specs::cmp::PartialEqSpecImpl for Sentence {
    open spec fn obeys_eq_spec() -> bool {
        true
    }

    open spec fn eq_spec(&self, other: &Sentence) -> bool {
        self.genotype@ == other.genotype@
    }
}

impl Eq for Sentence {

}

impl View for Sentence {
    type V = Seq<char>;

    open spec fn view(&self) -> Seq<char> {
        self.genotype@
    }
}

impl Sentence {
    /// An unevaluated sentence with the given genotype.
    pub fn new(genotype: String) -> (r: Self)
        ensures
            r.genotype@ == genotype@,
            r.cached_fitness() is None,
    {
        Sentence { genotype, fitness: None }
    }

    /// The target sentence, with its fitness already filled in.
    pub fn ideal() -> (r: Self)
        ensures
            r.genotype@ == target(),
            r.cached_fitness() == Some(r.earned_fitness()),
            r.earned_fitness() == (Fitness { score: 44, scale: 44 }),
    {
        proof {
            lemma_literal_lengths();
            lemma_matches_self(target(), 44);
        }
        Sentence {
            genotype: String::from_str(target_str()),
            fitness: Some(Fitness { score: 44, scale: 44 }),
        }
    }

    /// The first `pivot` characters of `self`, then `other` from `pivot` on.
    pub fn crossover_with_pivot(&self, other: Self, pivot: usize) -> (r: Self)
        requires
            pivot <= self.genotype@.len(),
            pivot <= other.genotype@.len(),
        ensures
            r.genotype@ == spliced(self.genotype@, other.genotype@, pivot as int),
            r.cached_fitness() is None,
    {
        let first = self.genotype.as_str().substring_char(0, pivot);
        let other_len = other.genotype.as_str().unicode_len();
        let second = other.genotype.as_str().substring_char(pivot, other_len);
        let mut genotype = String::from_str(first);
        genotype.append(second);
        Sentence::new(genotype)
    }

    /// An unevaluated sentence whose `i`-th character is the letter at
    /// `indices[i]`.
    pub fn from_letters(indices: &Vec<usize>) -> (r: Sentence)
        requires
            forall|i: int| 0 <= i < indices@.len() ==> indices@[i] < 53,
        ensures
            r.genotype@ == Seq::new(indices@.len(), |i: int| charset()[indices@[i] as int]),
            r.cached_fitness() is None,
    {
        let letters = charset_str();
        let mut genotype = String::new();
        let mut i: usize = 0;
        proof {
            lemma_literal_lengths();
        }
        while i < indices.len()
            invariant
                letters@ == charset(),
                charset().len() == 53,
                forall|j: int| 0 <= j < indices@.len() ==> indices@[j] < 53,
                i <= indices@.len(),
                genotype@ == Seq::new(i as nat, |j: int| charset()[indices@[j] as int]),
            decreases indices@.len() - i,
        {
            let k = indices[i];
            genotype.append(letters.substring_char(k, k + 1));
            i = i + 1;
            assert(genotype@ =~= Seq::new(i as nat, |j: int| charset()[indices@[j] as int]));
        }
        Sentence::new(genotype)
    }

    /// An unevaluated copy of `self` in which each site whose roll is zero
    /// holds the letter at the site's index in `letters`, and every other
    /// site is kept.
    pub fn perturbed(&self, rolls: &Vec<usize>, letters: &Vec<usize>) -> (r: Sentence)
        requires
            rolls@.len() == self.genotype@.len(),
            letters@.len() == rolls@.len(),
            forall|i: int| 0 <= i < letters@.len() ==> letters@[i] < 53,
        ensures
            r.genotype@.len() == self.genotype@.len(),
            forall|i: int|
                0 <= i < r.genotype@.len() ==> r.genotype@[i] == if rolls@[i] == 0 {
                    charset()[letters@[i] as int]
                } else {
                    self.genotype@[i]
                },
            r.cached_fitness() is None,
    {
        let alphabet = charset_str();
        let len = rolls.len();
        let mut genotype = String::new();
        let mut i: usize = 0;
        proof {
            lemma_literal_lengths();
        }
        while i < len
            invariant
                alphabet@ == charset(),
                charset().len() == 53,
                len == rolls@.len(),
                len == self.genotype@.len(),
                letters@.len() == len,
                forall|j: int| 0 <= j < len ==> letters@[j] < 53,
                i <= len,
                genotype@.len() == i,
                forall|j: int|
                    0 <= j < i ==> genotype@[j] == if rolls@[j] == 0 {
                        charset()[letters@[j] as int]
                    } else {
                        self.genotype@[j]
                    },
            decreases len - i,
        {
            let ghost before = genotype@;
            if rolls[i] == 0 {
                let k = letters[i];
                genotype.append(alphabet.substring_char(k, k + 1));
            } else {
                genotype.append(self.genotype.as_str().substring_char(i, i + 1));
            }
            assert(forall|j: int| 0 <= j < i ==> genotype@[j] == before[j]);
            i = i + 1;
        }
        Sentence::new(genotype)
    }
}

proof fn lemma_matches_self(a: Seq<char>, n: int)
    requires
        0 <= n <= a.len(),
    ensures
        matches_up_to(a, a, n) == n,
    decreases n,
{
    if n > 0 {
        lemma_matches_self(a, n - 1);
    }
}

proof fn lemma_matches_none(a: Seq<char>, b: Seq<char>, n: int)
    requires
        0 <= n <= a.len(),
        n <= b.len(),
        forall|i: int| 0 <= i < n ==> a[i] != b[i],
    ensures
        matches_up_to(a, b, n) == 0,
    decreases n,
{
    if n > 0 {
        lemma_matches_none(a, b, n - 1);
    }
}

proof fn lemma_matches_bound(a: Seq<char>, b: Seq<char>, n: int)
    requires
        0 <= n,
    ensures
        matches_up_to(a, b, n) <= n,
    decreases n,
{
    if n > 0 {
        lemma_matches_bound(a, b, n - 1);
    }
}

/// A sentence equal to the target earns the full fitness, `44 / 44`; one that
/// matches the target at no position earns none.
pub proof fn lemma_fitness_extremes(s: Sentence)
    ensures
        s.genotype@ == target() ==> s.earned_fitness() == (Fitness { score: 44, scale: 44 }),
        (forall|i: int| 0 <= i < s.genotype@.len() && 0 <= i < target().len()
            ==> s.genotype@[i] != target()[i]) ==> s.earned_fitness().score == 0,
{
    lemma_literal_lengths();
    if s.genotype@ == target() {
        lemma_matches_self(target(), 44);
    }
    let n = if s.genotype@.len() <= target().len() { s.genotype@.len() as int } else { 44 };
    if forall|i: int| 0 <= i < s.genotype@.len() && 0 <= i < target().len()
        ==> s.genotype@[i] != target()[i] {
        lemma_matches_none(s.genotype@, target(), n);
    }
}

impl Individual for Sentence {
    open spec fn cached_fitness(&self) -> Option<Fitness> {
        self.fitness
    }

    open spec fn earned_fitness(&self) -> Fitness {
        Fitness {
            score: positional_matches(self.genotype@, target()) as u64,
            scale: target().len() as u64,
        }
    }

    open spec fn in_search_space(&self) -> bool {
        &&& self.genotype@.len() == target().len()
        &&& forall|i: int| 0 <= i < self.genotype@.len() ==> charset().contains(self.genotype@[i])
    }

    open spec fn is_mutant_of(&self, parent: Seq<char>) -> bool {
        &&& self.genotype@.len() == parent.len()
        &&& forall|i: int|
            0 <= i < self.genotype@.len() ==> self.genotype@[i] == parent[i]
                || charset().contains(self.genotype@[i])
    }

    open spec fn is_offspring_of(&self, first: Seq<char>, second: Seq<char>) -> bool {
        exists|pivot: int|
            is_crossover_pivot(first, second, pivot) && self.genotype@ == spliced(
                first,
                second,
                pivot,
            )
    }

    fn evaluate(&mut self) {
        if self.fitness.is_none() {
            let ideal = target_str();
            let ideal_len = ideal.unicode_len();
            let own_len = self.genotype.as_str().unicode_len();
            let n = if own_len <= ideal_len { own_len } else { ideal_len };
            let mut count: u64 = 0;
            let mut i: usize = 0;
            proof {
                lemma_literal_lengths();
            }
            while i < n
                invariant
                    n <= own_len,
                    n <= ideal_len,
                    own_len == self.genotype@.len(),
                    ideal_len == 44,
                    target().len() == 44,
                    ideal@ == target(),
                    n == if self.genotype@.len() <= target().len() {
                        self.genotype@.len() as int
                    } else {
                        target().len() as int
                    },
                    i <= n,
                    count == matches_up_to(self.genotype@, target(), i as int),
                decreases n - i,
            {
                proof {
                    lemma_matches_bound(self.genotype@, target(), i as int);
                }
                if self.genotype.as_str().get_char(i) == ideal.get_char(i) {
                    count = count + 1;
                }
                i = i + 1;
            }
            self.fitness = Some(Fitness { score: count, scale: ideal_len as u64 });
        }
    }

    fn fitness(&self) -> (r: Option<Fitness>) {
        self.fitness
    }

    fn duplicate(&self) -> (r: Self) {
        Sentence { genotype: self.genotype.clone(), fitness: self.fitness }
    }

    /// Rolls a number below the target's length at each site, and redraws
    /// the site from the letters where the roll is zero: one site in 44 on
    /// average.
    fn mutate(&self, rng: &mut StdRng) -> (r: Self) {
        let len = self.genotype.as_str().unicode_len();
        let mut rolls: Vec<usize> = Vec::new();
        let mut letters: Vec<usize> = Vec::new();
        let mut i: usize = 0;
        while i < len
            invariant
                i <= len,
                rolls@.len() == i,
                letters@.len() == i,
                forall|j: int| 0 <= j < i ==> letters@[j] < 53,
            decreases len - i,
        {
            let roll = draw_below(rng, 0, 44);
            let letter = if roll == 0 { draw_below(rng, 0, 53) } else { 0 };
            rolls.push(roll);
            letters.push(letter);
            i = i + 1;
        }
        let r = self.perturbed(&rolls, &letters);
        proof {
            lemma_literal_lengths();
            assert forall|j: int| 0 <= j < r.genotype@.len() implies r.genotype@[j]
                == self.genotype@[j] || charset().contains(r.genotype@[j]) by {
                if rolls@[j] == 0 {
                    assert(charset().contains(charset()[letters@[j] as int]));
                }
            }
        }
        r
    }

    /// Splices at a pivot drawn below the shorter length; where a parent is
    /// empty the pivot is zero.
    fn crossover(&self, other: Self, rng: &mut StdRng) -> (r: Self) {
        let own_len = self.genotype.as_str().unicode_len();
        let other_len = other.genotype.as_str().unicode_len();
        let n = if own_len <= other_len { own_len } else { other_len };
        let pivot = if n == 0 { 0 } else { draw_below(rng, 0, n) };
        let r = self.crossover_with_pivot(other, pivot);
        assert(is_crossover_pivot(self.genotype@, other.genotype@, pivot as int));
        r
    }

    /// Draws each of the 44 sites from the letters.
    fn generate(rng: &mut StdRng) -> (r: Self) {
        let mut indices: Vec<usize> = Vec::new();
        let mut i: usize = 0;
        while i < 44
            invariant
                i <= 44,
                indices@.len() == i,
                forall|j: int| 0 <= j < i ==> indices@[j] < 53,
            decreases 44 - i,
        {
            indices.push(draw_below(rng, 0, 53));
            i = i + 1;
        }
        let r = Sentence::from_letters(&indices);
        proof {
            lemma_literal_lengths();
            assert forall|j: int| 0 <= j < r.genotype@.len() implies charset().contains(
                r.genotype@[j],
            ) by {
                assert(r.genotype@[j] == charset()[indices@[j] as int]);
            }
        }
        r
    }
}

} // verus!
