//! A genetic algorithm over selections: tournament selection, one-point
//! crossover with repair, swap mutation, elitism, and a best-improvement
//! polish of the best individual every tenth generation.

use crate::evaluator::{calculate_diversity, diversity, in_range};
use crate::model::{MdpData, SolveError};
use crate::neighborhood::{is_descent_result, locally_optimal, run_descent, MoveRule};
use crate::neighborhood::GAIN_TOLERANCE;
use crate::random::{random_below, random_ratio, shuffle, try_entropy_rng};
use crate::ratio::Ratio;
use crate::selection::{complement, identity_order, is_complement, is_selection};
use crate::selection::{lemma_complement_is_partition, lemma_covering_len, lemma_distinct_len};
use crate::selection::{lemma_rearranged_identity, random_partition};
use rand::rngs::StdRng;
use vstd::prelude::*;

verus! {

/// The parameters of the genetic algorithm.
pub struct GeneticConfig {
    pub population_size: usize,
    pub generations: usize,
    pub crossover_rate: Ratio,
    pub mutation_rate: Ratio,
    /// How many of the best individuals pass unchanged into the next
    /// generation.
    pub elite_size: usize,
}

impl Default for GeneticConfig {
    /// Fifty individuals, a hundred generations, crossover four times in
    /// five, mutation once in ten, an elite of five.
    fn default() -> (config: Self)
        ensures
            config.population_size == 50,
            config.generations == 100,
            config.crossover_rate.num == 4 && config.crossover_rate.den == 5,
            config.mutation_rate.num == 1 && config.mutation_rate.den == 10,
            config.elite_size == 5,
    {
        GeneticConfig {
            population_size: 50,
            generations: 100,
            crossover_rate: Ratio { num: 4, den: 5 },
            mutation_rate: Ratio { num: 1, den: 10 },
            elite_size: 5,
        }
    }
}

impl GeneticConfig {
    /// The population is not empty, the elite fits into it, and both rates
    /// are fractions between 0 and 1.
    pub open spec fn wf(&self) -> bool {
        &&& self.rates_wf()
        &&& self.sizes_wf()
    }

    /// Both rates are fractions between 0 and 1.
    pub open spec fn rates_wf(&self) -> bool {
        self.crossover_rate.wf() && self.mutation_rate.wf()
    }

    /// The population is not empty and the elite fits into it.
    pub open spec fn sizes_wf(&self) -> bool {
        1 <= self.population_size && self.elite_size <= self.population_size
    }
}

/// A selection with its fitness.
pub struct Individual {
    pub selected: Vec<usize>,
    pub fitness: u128,
}

impl Individual {
    /// The selection is valid for the instance and the fitness is its
    /// diversity.
    pub open spec fn wf(&self, data: &MdpData) -> bool {
        &&& is_selection(self.selected@, data.n, data.k)
        &&& self.fitness == diversity(data, self.selected@)
    }

    /// A copy with the same selection and fitness.
    pub fn duplicate(&self) -> (copy: Individual)
        ensures
            copy.selected@ == self.selected@,
            copy.fitness == self.fitness,
    {
        Individual { selected: self.selected.clone(), fitness: self.fitness }
    }
}

/// Every individual of the population is well formed.
pub open spec fn population_wf(data: &MdpData, population: Seq<Individual>) -> bool {
    forall|t: int| 0 <= t < population.len() ==> (#[trigger] population[t]).wf(data)
}

/// `base` followed by the elements of `src` that it lacks, taken in order
/// for as long as the result is shorter than `limit`.
pub open spec fn extend_distinct(base: Seq<usize>, src: Seq<usize>, limit: nat) -> Seq<usize>
    decreases src.len(),
{
    if src.len() == 0 {
        base
    } else {
        let grown = extend_distinct(base, src.drop_last(), limit);
        if grown.len() < limit && !grown.contains(src.last()) {
            grown.push(src.last())
        } else {
            grown
        }
    }
}

/// The offspring of `left` and `right` cut at `cut`: the first `cut` elements
/// of `left`, then the elements of `right` that are still missing, then those of
/// `fill`, until the offspring has `k` elements.
pub open spec fn crossover_result(
    left: Seq<usize>,
    right: Seq<usize>,
    cut: int,
    fill: Seq<usize>,
    k: nat,
) -> Seq<usize> {
    extend_distinct(extend_distinct(left.take(cut), right, k), fill, k)
}

/// `child` is an offspring of `left` and `right` for some cut point in `[1, k)`
/// and some fill that lists every element of the instance once.
pub open spec fn is_crossover(
    left: Seq<usize>,
    right: Seq<usize>,
    n: usize,
    k: usize,
    child: Seq<usize>,
) -> bool {
    exists|cut: int, fill: Seq<usize>|
        {
            &&& 1 <= cut < k
            &&& is_selection(fill, n, n)
            &&& child == crossover_result(left, right, cut, fill, k as nat)
        }
}

/// `after` is `before` with one element taken out and one appended: an
/// element of the instance that the rest lacks, or the one taken out when
/// the rest lacks none.
pub open spec fn is_mutation(before: Seq<usize>, n: usize, after: Seq<usize>) -> bool {
    exists|idx: int, replacement: usize|
        {
            &&& 0 <= idx < before.len()
            &&& after == mutation_result(before, idx, replacement)
            &&& if exists|e: usize| e < n && !before.remove(idx).contains(e) {
                replacement < n && !before.remove(idx).contains(replacement)
            } else {
                replacement == before[idx]
            }
        }
}

/// The selection with the element at `remove_idx` taken out and
/// `replacement` added at the end.
pub open spec fn mutation_result(sel: Seq<usize>, remove_idx: int, replacement: usize) -> Seq<usize> {
    sel.remove(remove_idx).push(replacement)
}

/// Extending keeps what is there, adds no duplicate and nothing out of
/// range, and stops at the limit; whatever of `src` is missing from the
/// result was left out because the limit was reached.
pub proof fn lemma_extend_distinct(base: Seq<usize>, src: Seq<usize>, limit: nat, n: usize)
    requires
        base.no_duplicates(),
        in_range(base, n),
        in_range(src, n),
    ensures
        extend_distinct(base, src, limit).no_duplicates(),
        in_range(extend_distinct(base, src, limit), n),
        base.len() <= extend_distinct(base, src, limit).len(),
        base.len() <= limit ==> extend_distinct(base, src, limit).len() <= limit,
        extend_distinct(base, src, limit).len() < limit ==> forall|t: int|
            0 <= t < src.len() ==> extend_distinct(base, src, limit).contains(#[trigger] src[t]),
    decreases src.len(),
{
    if src.len() > 0 {
        let front = src.drop_last();
        let grown = extend_distinct(base, front, limit);
        let out = extend_distinct(base, src, limit);
        assert(in_range(front, n));
        lemma_extend_distinct(base, front, limit, n);
        if out.len() < limit {
            assert forall|t: int| 0 <= t < src.len() implies out.contains(#[trigger] src[t]) by {
                if t < front.len() {
                    assert(front[t] == src[t]);
                    assert(grown.contains(src[t]));
                    let w = choose|w: int| 0 <= w < grown.len() && grown[w] == src[t];
                    assert(out[w] == src[t]);
                } else {
                    if grown.contains(src.last()) {
                        let w = choose|w: int| 0 <= w < grown.len() && grown[w] == src.last();
                        assert(out[w] == src[t]);
                    } else {
                        assert(out[grown.len() as int] == src.last());
                    }
                }
            }
        }
    }
}

/// Crossover of two valid selections gives a valid selection: exactly `k`
/// distinct elements, whatever the cut point, as long as the fill holds
/// every element of the instance.
pub proof fn lemma_crossover_is_selection(
    left: Seq<usize>,
    right: Seq<usize>,
    cut: int,
    fill: Seq<usize>,
    n: usize,
    k: usize,
)
    requires
        is_selection(left, n, k),
        is_selection(right, n, k),
        1 <= cut < k <= n,
        in_range(fill, n),
        forall|e: usize| e < n ==> fill.contains(e),
    ensures
        is_selection(crossover_result(left, right, cut, fill, k as nat), n, k),
{
    let head = left.take(cut);
    let mid = extend_distinct(head, right, k as nat);
    let out = extend_distinct(mid, fill, k as nat);
    assert(head.no_duplicates());
    assert(in_range(head, n));
    lemma_extend_distinct(head, right, k as nat, n);
    lemma_extend_distinct(mid, fill, k as nat, n);
    if out.len() < k {
        assert forall|e: usize| e < n implies out.contains(e) by {
            assert(fill.contains(e));
            let t = choose|t: int| 0 <= t < fill.len() && fill[t] == e;
            assert(out.contains(fill[t]));
        }
        lemma_covering_len(out, n);
    }
}

/// Mutation of a valid selection gives a valid selection of the same
/// size, as long as the replacement is an element that the rest lacks.
pub proof fn lemma_mutation_is_selection(
    sel: Seq<usize>,
    remove_idx: int,
    replacement: usize,
    n: usize,
    k: usize,
)
    requires
        is_selection(sel, n, k),
        0 <= remove_idx < sel.len(),
        replacement < n,
        !sel.remove(remove_idx).contains(replacement),
    ensures
        is_selection(mutation_result(sel, remove_idx, replacement), n, k),
{
    let rest = sel.remove(remove_idx);
    let out = rest.push(replacement);
    assert forall|t: int| 0 <= t < rest.len() implies #[trigger] rest[t] == sel[if t
        < remove_idx {
        t
    } else {
        t + 1
    }] by {}
    assert(rest.no_duplicates());
    assert(in_range(rest, n));
    assert(out.no_duplicates()) by {
        assert forall|a: int, b: int| 0 <= a < out.len() && 0 <= b < out.len() && a != b implies out[a]
            != out[b] by {
            if a < rest.len() && b < rest.len() {
                assert(rest[a] != rest[b]);
            } else if a < rest.len() {
                assert(rest.contains(rest[a]));
            } else {
                assert(rest.contains(rest[b]));
            }
        }
    }
}

/// Appends to `child` the elements of `src` that it lacks, in order, for
/// as long as it has fewer than `limit` elements.
pub fn extend_with_missing(child: &mut Vec<usize>, src: &[usize], limit: usize)
    ensures
        final(child)@ == extend_distinct(old(child)@, src@, limit as nat),
{
    let ghost base = child@;
    let mut t: usize = 0;
    proof {
        assert(src@.take(0) =~= Seq::<usize>::empty());
    }
    while t < src.len()
        invariant
            t <= src@.len(),
            child@ == extend_distinct(base, src@.take(t as int), limit as nat),
        decreases src@.len() - t,
    {
        proof {
            assert(src@.take(t + 1).drop_last() =~= src@.take(t as int));
        }
        let elem = src[t];
        if child.len() < limit && !crate::selection::contains(child.as_slice(), elem) {
            child.push(elem);
        }
        t = t + 1;
    }
    proof {
        assert(src@.take(t as int) =~= src@);
    }
}

/// One-point crossover at a given cut with a given fill order.
pub fn crossover_at(
    parent1: &[usize],
    parent2: &[usize],
    cut: usize,
    fill: &[usize],
    k: usize,
) -> (child: Vec<usize>)
    requires
        cut <= parent1@.len(),
    ensures
        child@ == crossover_result(parent1@, parent2@, cut as int, fill@, k as nat),
{
    let mut child: Vec<usize> = Vec::new();
    let mut t: usize = 0;
    while t < cut
        invariant
            t <= cut <= parent1@.len(),
            child@ == parent1@.take(t as int),
        decreases cut - t,
    {
        child.push(parent1[t]);
        proof {
            assert(child@ =~= parent1@.take(t + 1));
        }
        t = t + 1;
    }
    extend_with_missing(&mut child, parent2, k);
    extend_with_missing(&mut child, fill, k);
    child
}

/// One-point crossover: the cut point is drawn uniformly from `[1, k)`
/// and the fill order is a uniform shuffle of the instance's elements.
/// Whatever is drawn, the offspring has exactly `k` distinct elements.
pub fn crossover(parent1: &[usize], parent2: &[usize], data: &MdpData, rng: &mut StdRng) -> (child:
    Vec<usize>)
    requires
        2 <= data.k <= data.n,
        is_selection(parent1@, data.n, data.k),
        is_selection(parent2@, data.n, data.k),
    ensures
        is_selection(child@, data.n, data.k),
        is_crossover(parent1@, parent2@, data.n, data.k, child@),
{
    let cut = 1 + random_below(rng, data.k - 1);
    let mut fill = identity_order(data.n);
    let ghost base = fill@;
    shuffle(&mut fill, rng);
    proof {
        lemma_rearranged_identity(fill@, base, data.n);
        lemma_crossover_is_selection(parent1@, parent2@, cut as int, fill@, data.n, data.k);
    }
    let child = crossover_at(parent1, parent2, cut, fill.as_slice(), data.k);
    proof {
        assert(1 <= cut < data.k && is_selection(fill@, data.n, data.n) && child@
            == crossover_result(parent1@, parent2@, cut as int, fill@, data.k as nat));
    }
    child
}

/// Takes out the element at `remove_idx` and appends `replacement`.
pub fn mutate_at(solution: &mut Vec<usize>, remove_idx: usize, replacement: usize)
    requires
        remove_idx < old(solution)@.len(),
    ensures
        final(solution)@ == mutation_result(old(solution)@, remove_idx as int, replacement),
{
    solution.remove(remove_idx);
    solution.push(replacement);
}

/// Swap mutation: takes out one element drawn uniformly and appends one
/// drawn uniformly among the elements of the instance that the rest lacks.
/// When the rest lacks none, the element taken out is appended again.
pub fn mutate(solution: &mut Vec<usize>, data: &MdpData, rng: &mut StdRng)
    requires
        old(solution)@.len() > 0,
    ensures
        is_mutation(old(solution)@, data.n, final(solution)@),
        is_selection(old(solution)@, data.n, data.k) ==> is_selection(
            final(solution)@,
            data.n,
            data.k,
        ),
{
    let ghost before = solution@;
    let remove_idx = random_below(rng, solution.len());
    let removed = solution[remove_idx];
    let ghost rest = before.remove(remove_idx as int);
    let mut rest_vec = solution.clone();
    rest_vec.remove(remove_idx);
    let mut candidates = complement(rest_vec.as_slice(), data.n);
    proof {
        assert(rest_vec@ == rest);
    }
    if candidates.len() == 0 {
        proof {
            assert forall|e: usize| e < data.n implies rest.contains(e) by {
                assert(!candidates@.contains(e));
            }
            if is_selection(before, data.n, data.k) {
                assert forall|t: int| 0 <= t < rest.len() implies #[trigger] rest[t] == before[if t
                    < remove_idx {
                    t
                } else {
                    t + 1
                }] by {}
                if rest.contains(removed) {
                    let t = choose|t: int| 0 <= t < rest.len() && rest[t] == removed;
                    assert(false);
                }
                assert(false);
            }
        }
        mutate_at(solution, remove_idx, removed);
    } else {
        let ghost pool = candidates@;
        shuffle(&mut candidates, rng);
        proof {
            broadcast use vstd::seq_lib::group_to_multiset_ensures;

            candidates@.to_multiset_ensures();
            pool.to_multiset_ensures();
            assert(candidates@.len() == pool.len());
            assert(candidates@.contains(candidates@[0]));
            assert(pool.to_multiset().count(candidates@[0]) > 0);
            assert(pool.contains(candidates@[0]));
        }
        let replacement = candidates[0];
        proof {
            if is_selection(before, data.n, data.k) {
                lemma_mutation_is_selection(before, remove_idx as int, replacement, data.n, data.k);
            }
        }
        mutate_at(solution, remove_idx, replacement);
    }
}

/// `size` individuals, each a uniformly random selection of `k` elements,
/// with their fitness still unset at zero.
pub fn initialize_population(data: &MdpData, size: usize, rng: &mut StdRng) -> (population: Vec<
    Individual,
>)
    requires
        data.k <= data.n,
    ensures
        population@.len() == size,
        forall|t: int|
            0 <= t < size ==> is_selection((#[trigger] population@[t]).selected@, data.n, data.k)
                && population@[t].fitness == 0,
{
    let mut population: Vec<Individual> = Vec::new();
    let mut made: usize = 0;
    while made < size
        invariant
            data.k <= data.n,
            made <= size,
            population@.len() == made,
            forall|t: int|
                0 <= t < made ==> is_selection(
                    (#[trigger] population@[t]).selected@,
                    data.n,
                    data.k,
                ) && population@[t].fitness == 0,
        decreases size - made,
    {
        let parts = random_partition(data.n, data.k, rng);
        population.push(Individual { selected: parts.0, fitness: 0 });
        made = made + 1;
    }
    population
}

/// Sets the fitness of every individual to the diversity of its selection.
pub fn evaluate_population(population: &mut Vec<Individual>, data: &MdpData)
    requires
        data.wf(),
        forall|t: int|
            0 <= t < old(population)@.len() ==> is_selection(
                (#[trigger] old(population)@[t]).selected@,
                data.n,
                data.k,
            ),
    ensures
        final(population)@.len() == old(population)@.len(),
        forall|t: int|
            0 <= t < old(population)@.len() ==> (#[trigger] final(population)@[t]).selected@
                == old(population)@[t].selected@,
        population_wf(data, final(population)@),
{
    let ghost before = population@;
    let mut t: usize = 0;
    while t < population.len()
        invariant
            data.wf(),
            t <= population@.len(),
            population@.len() == before.len(),
            forall|u: int|
                0 <= u < before.len() ==> (#[trigger] population@[u]).selected@
                    == before[u].selected@,
            forall|u: int|
                0 <= u < before.len() ==> is_selection(
                    (#[trigger] before[u]).selected@,
                    data.n,
                    data.k,
                ),
            forall|u: int| 0 <= u < t ==> (#[trigger] population@[u]).wf(data),
        decreases population@.len() - t,
    {
        proof {
            assert(is_selection(before[t as int].selected@, data.n, data.k));
            lemma_distinct_len(population@[t as int].selected@, data.n);
        }
        let fitness = calculate_diversity(population[t].selected.as_slice(), data);
        population[t].fitness = fitness;
        t = t + 1;
    }
}

/// `winner` is the first of the drawn contestants among those of largest
/// fitness.
pub open spec fn is_tournament_winner(
    population: Seq<Individual>,
    draws: Seq<usize>,
    winner: usize,
) -> bool {
    exists|w: int|
        {
            &&& 0 <= w < draws.len()
            &&& draws[w] == winner
            &&& forall|t: int|
                0 <= t < draws.len() ==> population[#[trigger] draws[t] as int].fitness
                    <= population[winner as int].fitness
            &&& forall|t: int|
                0 <= t < w ==> population[#[trigger] draws[t] as int].fitness
                    < population[winner as int].fitness
        }
}

/// The winner of a tournament among the drawn contestants: the one of
/// largest fitness, the first drawn among equals.
pub fn tournament_winner(population: &Vec<Individual>, draws: &Vec<usize>) -> (winner: usize)
    requires
        draws@.len() > 0,
        forall|t: int| 0 <= t < draws@.len() ==> #[trigger] draws@[t] < population@.len(),
    ensures
        winner < population@.len(),
        is_tournament_winner(population@, draws@, winner),
{
    let mut best = draws[0];
    let ghost mut at: int = 0;
    let mut t: usize = 1;
    while t < draws.len()
        invariant
            1 <= t <= draws@.len(),
            forall|u: int| 0 <= u < draws@.len() ==> #[trigger] draws@[u] < population@.len(),
            0 <= at < t,
            draws@[at] == best,
            forall|u: int|
                0 <= u < t ==> population@[#[trigger] draws@[u] as int].fitness
                    <= population@[best as int].fitness,
            forall|u: int|
                0 <= u < at ==> population@[#[trigger] draws@[u] as int].fitness
                    < population@[best as int].fitness,
        decreases draws@.len() - t,
    {
        let contestant = draws[t];
        if population[contestant].fitness > population[best].fitness {
            best = contestant;
            proof {
                at = t as int;
            }
        }
        t = t + 1;
    }
    best
}

/// A tournament: `tournament_size` contestants, at least one, are drawn
/// uniformly with replacement, and the position of the winner is
/// returned.
pub fn tournament_selection(
    population: &Vec<Individual>,
    tournament_size: usize,
    rng: &mut StdRng,
) -> (winner: usize)
    requires
        population@.len() > 0,
    ensures
        winner < population@.len(),
        exists|draws: Seq<usize>|
            draws.len() == (if tournament_size == 0 {
                1
            } else {
                tournament_size as int
            }) && is_tournament_winner(population@, draws, winner),
{
    let mut draws: Vec<usize> = Vec::new();
    let first = random_below(rng, population.len());
    draws.push(first);
    let mut t: usize = 1;
    while t < tournament_size
        invariant
            population@.len() > 0,
            1 <= t,
            tournament_size >= 1 ==> t <= tournament_size,
            tournament_size == 0 ==> t == 1,
            draws@.len() == t,
            forall|u: int| 0 <= u < draws@.len() ==> #[trigger] draws@[u] < population@.len(),
        decreases tournament_size - t,
    {
        let next = random_below(rng, population.len());
        draws.push(next);
        t = t + 1;
    }
    let winner = tournament_winner(population, &draws);
    proof {
        assert(is_tournament_winner(population@, draws@, winner));
    }
    winner
}

/// The fitness never rises from one position to the next.
pub open spec fn is_sorted_by_fitness(population: Seq<Individual>) -> bool {
    forall|a: int, b: int|
        0 <= a < b < population.len() ==> population[a].fitness >= population[b].fitness
}

/// Sorts the population by fitness, largest first.
pub fn sort_by_fitness(population: &mut Vec<Individual>)
    ensures
        is_sorted_by_fitness(final(population)@),
        final(population)@.to_multiset() == old(population)@.to_multiset(),
{
    let ghost before = population@;
    let mut j: usize = 1;
    while j < population.len()
        invariant
            1 <= j,
            j <= population@.len() || population@.len() == 0,
            population@.to_multiset() == before.to_multiset(),
            is_sorted_by_fitness(population@.take(j as int)) || population@.len() == 0,
        decreases population@.len() - j,
    {
        let ghost stage = population@;
        let moved = population.remove(j);
        let mut pos: usize = 0;
        while pos < j && population[pos].fitness >= moved.fitness
            invariant
                pos <= j < stage.len(),
                population@ == stage.remove(j as int),
                forall|u: int| 0 <= u < pos ==> population@[u].fitness >= moved.fitness,
            decreases j - pos,
        {
            pos = pos + 1;
        }
        population.insert(pos, moved);
        proof {
            broadcast use vstd::seq_lib::group_to_multiset_ensures;

            let removed = stage.remove(j as int);
            assert(stage.to_multiset().count(moved) > 0) by {
                assert(stage.contains(stage[j as int]));
            }
            assert(population@.to_multiset() =~= stage.to_multiset());
            let now = population@.take(j + 1);
            let was = stage.take(j as int);
            assert(is_sorted_by_fitness(was));
            assert forall|a: int, b: int| 0 <= a < b < now.len() implies now[a].fitness
                >= now[b].fitness by {
                let a0 = if a < pos { a } else { a - 1 };
                let b0 = if b < pos { b } else { b - 1 };
                if a != pos {
                    assert(now[a] == was[a0]);
                }
                if b != pos {
                    assert(now[b] == was[b0]);
                }
                if a == pos {
                    assert(now[a] == moved);
                    assert(removed[pos as int] == was[pos as int]);
                    assert(was[pos as int].fitness >= was[b0].fitness);
                } else if b == pos {
                    assert(now[b] == moved);
                } else {
                    assert(was[a0].fitness >= was[b0].fitness);
                }
            }
        }
        j = j + 1;
    }
    proof {
        if population@.len() > 0 {
            assert(population@.take(j as int) =~= population@);
        }
    }
}

/// `best` is the position of the first individual of largest fitness.
pub open spec fn is_best_index(population: Seq<Individual>, best: int) -> bool {
    &&& 0 <= best < population.len()
    &&& forall|t: int| 0 <= t < population.len() ==> population[t].fitness <= population[best].fitness
    &&& forall|t: int| 0 <= t < best ==> population[t].fitness < population[best].fitness
}

/// The position of the first individual of largest fitness.
pub fn best_index(population: &Vec<Individual>) -> (best: usize)
    requires
        population@.len() > 0,
    ensures
        is_best_index(population@, best as int),
{
    let mut best: usize = 0;
    let mut t: usize = 1;
    while t < population.len()
        invariant
            1 <= t <= population@.len(),
            best < t,
            forall|u: int| 0 <= u < t ==> population@[u].fitness <= population@[best as int].fitness,
            forall|u: int| 0 <= u < best ==> population@[u].fitness < population@[best as int].fitness,
        decreases population@.len() - t,
    {
        if population[t].fitness > population[best].fitness {
            best = t;
        }
        t = t + 1;
    }
    best
}

/// `polished` is where best improvement from `start` converges, with the
/// unselected elements scanned in increasing order.
pub open spec fn is_polished(data: &MdpData, start: Seq<usize>, polished: Seq<usize>) -> bool {
    exists|unsel: Seq<usize>|
        is_complement(unsel, start, data.n) && is_descent_result(
            data,
            MoveRule::BestImprovement,
            start,
            unsel,
            None,
            crate::neighborhood::Descent { selected: polished, converged: true },
        )
}

/// Polishes a selection by best improvement until no swap improves it.
pub fn local_improvement(solution: &[usize], data: &MdpData) -> (polished: (Vec<usize>, u128))
    requires
        data.wf(),
        is_selection(solution@, data.n, solution@.len() as usize),
    ensures
        is_polished(data, solution@, polished.0@),
        is_selection(polished.0@, data.n, solution@.len() as usize),
        polished.1 == diversity(data, polished.0@),
        polished.1 >= diversity(data, solution@),
        locally_optimal(data, polished.0@, GAIN_TOLERANCE as int),
{
    let selected = vstd::slice::slice_to_vec(solution);
    let unselected = complement(solution, data.n);
    proof {
        lemma_complement_is_partition(solution@, unselected@, data.n);
    }
    let out = run_descent(data, selected, unselected, MoveRule::BestImprovement, None);
    (out.selected, out.diversity)
}

/// The fitter of two parents; the first when they are equally fit.
pub fn fitter_parent(population: &Vec<Individual>, first: usize, second: usize) -> (fitter: usize)
    requires
        first < population@.len(),
        second < population@.len(),
    ensures
        fitter == if population@[second as int].fitness > population@[first as int].fitness {
            second
        } else {
            first
        },
{
    if population[second].fitness > population[first].fitness {
        second
    } else {
        first
    }
}

/// `child` is bred from the parents at positions `first` and `second` by
/// way of `base`: the base is the parents' crossover or, where there is no
/// crossover, a copy of the fitter of the two (of the first when they are
/// equally fit); and the child is that base or a mutation of it. With a
/// crossover rate of zero there is no crossover, and with a rate of one
/// there is always one, unless the selection has a single element and so
/// no cut point. With a mutation rate of zero there is no mutation, and
/// with a rate of one there is always one.
pub open spec fn is_bred_from(
    data: &MdpData,
    config: &GeneticConfig,
    population: Seq<Individual>,
    first: int,
    second: int,
    base: Seq<usize>,
    child: Seq<usize>,
) -> bool {
    &&& 0 <= first < population.len()
    &&& 0 <= second < population.len()
    &&& {
        ||| (data.k < 2 || config.crossover_rate.num < config.crossover_rate.den) && base
            == population[if population[second].fitness > population[first].fitness {
            second
        } else {
            first
        }].selected@
        ||| data.k >= 2 && config.crossover_rate.num > 0 && is_crossover(
            population[first].selected@,
            population[second].selected@,
            data.n,
            data.k,
            base,
        )
    }
    &&& {
        ||| config.mutation_rate.num < config.mutation_rate.den && child == base
        ||| config.mutation_rate.num > 0 && is_mutation(base, data.n, child)
    }
}

/// `child` is bred from two members of the population.
pub open spec fn is_bred(
    data: &MdpData,
    config: &GeneticConfig,
    population: Seq<Individual>,
    child: Seq<usize>,
) -> bool {
    exists|first: int, second: int, base: Seq<usize>| #[trigger]
        is_bred_from(data, config, population, first, second, base, child)
}

/// Breeds one individual: two parents are chosen by tournaments of three;
/// with the crossover rate they are crossed, otherwise the fitter is
/// copied; with the mutation rate the offspring is mutated. A selection of
/// a single element has no cut point and is never crossed.
pub fn make_offspring(
    data: &MdpData,
    config: &GeneticConfig,
    population: &Vec<Individual>,
    rng: &mut StdRng,
) -> (child: Individual)
    requires
        data.wf(),
        data.feasible(),
        config.rates_wf(),
        population@.len() > 0,
        population_wf(data, population@),
    ensures
        child.wf(data),
        is_bred(data, config, population@, child.selected@),
{
    let first = tournament_selection(population, 3, rng);
    let second = tournament_selection(population, 3, rng);
    proof {
        assert(population@[first as int].wf(data));
        assert(population@[second as int].wf(data));
    }
    let crossing = data.k >= 2 && random_ratio(
        rng,
        config.crossover_rate.num,
        config.crossover_rate.den,
    );
    let mut offspring = if crossing {
        crossover(
            population[first].selected.as_slice(),
            population[second].selected.as_slice(),
            data,
            rng,
        )
    } else {
        let fitter = fitter_parent(population, first, second);
        population[fitter].selected.clone()
    };
    let ghost base = offspring@;
    if random_ratio(rng, config.mutation_rate.num, config.mutation_rate.den) {
        mutate(&mut offspring, data, rng);
    }
    proof {
        lemma_distinct_len(offspring@, data.n);
        assert(is_bred_from(
            data,
            config,
            population@,
            first as int,
            second as int,
            base,
            offspring@,
        ));
    }
    let fitness = calculate_diversity(offspring.as_slice(), data);
    Individual { selected: offspring, fitness }
}

/// `next` follows from the population `ranked`, which is sorted by
/// fitness: its first `elite_size` members are copies of the first members
/// of `ranked`, and the others are bred from `ranked` and carry the
/// diversity of their selection as their fitness.
pub open spec fn is_successor(
    data: &MdpData,
    config: &GeneticConfig,
    ranked: Seq<Individual>,
    next: Seq<Individual>,
) -> bool {
    &&& is_sorted_by_fitness(ranked)
    &&& next.len() == ranked.len()
    &&& forall|e: int|
        0 <= e < config.elite_size && e < next.len() ==> (#[trigger] next[e]).selected@
            == ranked[e].selected@ && next[e].fitness == ranked[e].fitness
    &&& forall|t: int|
        config.elite_size <= t < next.len() ==> is_bred(
            data,
            config,
            ranked,
            (#[trigger] next[t]).selected@,
        ) && next[t].fitness == diversity(data, next[t].selected@)
}

/// `next` follows from `population` by one generation: from some ranking
/// of the population by fitness.
pub open spec fn is_next_generation(
    data: &MdpData,
    config: &GeneticConfig,
    population: Seq<Individual>,
    next: Seq<Individual>,
) -> bool {
    exists|ranked: Seq<Individual>|
        ranked.to_multiset() == population.to_multiset() && #[trigger] is_successor(
            data,
            config,
            ranked,
            next,
        )
}

/// One generation: the population is sorted by fitness, the `elite_size`
/// best pass unchanged, and the rest of the new population is bred from
/// the old one.
pub fn next_generation(
    data: &MdpData,
    config: &GeneticConfig,
    population: Vec<Individual>,
    rng: &mut StdRng,
) -> (next: Vec<Individual>)
    requires
        data.wf(),
        data.feasible(),
        config.wf(),
        population@.len() == config.population_size,
        population_wf(data, population@),
    ensures
        next@.len() == config.population_size,
        population_wf(data, next@),
        config.elite_size >= 1 ==> forall|t: int|
            0 <= t < population@.len() ==> population@[t].fitness <= next@[0].fitness,
        is_next_generation(data, config, population@, next@),
{
    let ghost before = population@;
    let mut population = population;
    sort_by_fitness(&mut population);
    proof {
        broadcast use vstd::seq_lib::group_to_multiset_ensures;

        population@.to_multiset_ensures();
        before.to_multiset_ensures();
        assert forall|t: int| 0 <= t < population@.len() implies (#[trigger] population@[t]).wf(
            data,
        ) by {
            assert(population@.contains(population@[t]));
            assert(before.to_multiset().count(population@[t]) > 0);
            assert(before.contains(population@[t]));
        }
        assert forall|t: int| 0 <= t < before.len() implies before[t].fitness
            <= population@[0].fitness by {
            assert(before.contains(before[t]));
            assert(population@.to_multiset().count(before[t]) > 0);
            assert(population@.contains(before[t]));
            let u = choose|u: int| 0 <= u < population@.len() && population@[u] == before[t];
            if u > 0 {
                assert(population@[0].fitness >= population@[u].fitness);
            }
        }
    }
    let mut next: Vec<Individual> = Vec::new();
    let mut e: usize = 0;
    while e < config.elite_size
        invariant
            e <= config.elite_size <= population@.len(),
            next@.len() == e,
            population_wf(data, population@),
            population_wf(data, next@),
            forall|u: int|
                0 <= u < e ==> (#[trigger] next@[u]).selected@ == population@[u].selected@
                    && next@[u].fitness == population@[u].fitness,
        decreases config.elite_size - e,
    {
        let copy = population[e].duplicate();
        proof {
            assert(population@[e as int].wf(data));
        }
        next.push(copy);
        e = e + 1;
    }
    while next.len() < config.population_size
        invariant
            data.wf(),
            data.feasible(),
            config.wf(),
            population@.len() == config.population_size,
            next@.len() <= config.population_size,
            next@.len() >= config.elite_size,
            population_wf(data, population@),
            population_wf(data, next@),
            forall|u: int|
                0 <= u < config.elite_size ==> (#[trigger] next@[u]).selected@
                    == population@[u].selected@ && next@[u].fitness == population@[u].fitness,
            forall|t: int|
                config.elite_size <= t < next@.len() ==> is_bred(
                    data,
                    config,
                    population@,
                    (#[trigger] next@[t]).selected@,
                ),
        decreases config.population_size - next@.len(),
    {
        let child = make_offspring(data, config, &population, rng);
        next.push(child);
    }
    proof {
        assert(is_successor(data, config, population@, next@));
    }
    next
}

/// `after` is `before` with its best individual polished: the first
/// individual of largest fitness is replaced by where best improvement
/// converges from it, when that has a strictly larger diversity, and
/// nothing else changes.
pub open spec fn is_polish_step(
    data: &MdpData,
    before: Seq<Individual>,
    after: Seq<Individual>,
) -> bool {
    exists|best: int, polished: Seq<usize>|
        {
            &&& after.len() == before.len()
            &&& is_best_index(before, best)
            &&& #[trigger] is_polished(data, before[best].selected@, polished)
            &&& forall|t: int| 0 <= t < before.len() && t != best ==> after[t] == before[t]
            &&& if diversity(data, polished) > before[best].fitness {
                after[best].selected@ == polished && after[best].fitness == diversity(
                    data,
                    polished,
                )
            } else {
                after[best] == before[best]
            }
        }
}

/// `after` follows from `before` by the generation numbered `generation`:
/// one round of breeding, and a polish when the number is a multiple of
/// ten.
pub open spec fn is_generation_step(
    data: &MdpData,
    config: &GeneticConfig,
    generation: int,
    before: Seq<Individual>,
    after: Seq<Individual>,
) -> bool {
    exists|bred: Seq<Individual>| #[trigger]
        is_next_generation(data, config, before, bred) && if generation % 10 == 0 {
            is_polish_step(data, bred, after)
        } else {
            after == bred
        }
}

/// `history` lists the populations of a run: a well-formed population of
/// the configured size, and after it one population for each generation.
pub open spec fn is_evolution(
    data: &MdpData,
    config: &GeneticConfig,
    history: Seq<Seq<Individual>>,
) -> bool {
    &&& history.len() == config.generations + 1
    &&& history[0].len() == config.population_size
    &&& population_wf(data, history[0])
    &&& forall|g: int|
        0 <= g < config.generations ==> #[trigger] is_generation_step(
            data,
            config,
            g,
            history[g],
            history[g + 1],
        )
}

/// `sol` is the first individual of largest fitness in the last
/// population of some run.
pub open spec fn is_fittest_of_a_run(
    data: &MdpData,
    config: &GeneticConfig,
    sol: (Vec<usize>, u128),
) -> bool {
    exists|history: Seq<Seq<Individual>>, best: int|
        {
            &&& #[trigger] is_evolution(data, config, history)
            &&& #[trigger] is_best_index(history.last(), best)
            &&& sol.0@ == history.last()[best].selected@
            &&& sol.1 == history.last()[best].fitness
        }
}

/// Polishes the best individual by best improvement to convergence, and
/// puts the result in its place when its diversity is strictly larger.
pub fn polish_best(data: &MdpData, population: &mut Vec<Individual>)
    requires
        data.wf(),
        old(population)@.len() > 0,
        population_wf(data, old(population)@),
    ensures
        final(population)@.len() == old(population)@.len(),
        population_wf(data, final(population)@),
        is_polish_step(data, old(population)@, final(population)@),
{
    let ghost before = population@;
    let best = best_index(population);
    proof {
        assert(before[best as int].wf(data));
    }
    let polished = local_improvement(population[best].selected.as_slice(), data);
    if polished.1 > population[best].fitness {
        population[best] = Individual { selected: polished.0, fitness: polished.1 };
        proof {
            assert forall|t: int| 0 <= t < population@.len() implies (#[trigger] population@[t]).wf(
                data,
            ) by {
                if t != best {
                    assert(before[t].wf(data));
                }
            }
        }
    }
}

/// What every run of `solve_genetic` guarantees. It refuses, in this
/// order, a `k` that is zero or exceeds `n`, a rate that is no fraction
/// between 0 and 1, and a population that is empty or smaller than its
/// elite, and nothing else. A solution is a selection of `k` elements with
/// its exact diversity, and it is the fittest individual of the last
/// population of a run of the configured number of generations.
pub open spec fn is_genetic_outcome(
    data: &MdpData,
    config: &GeneticConfig,
    res: Result<(Vec<usize>, u128), SolveError>,
) -> bool {
    &&& res is Err <==> (!data.feasible() || !config.wf())
    &&& res matches Err(e) ==> if !data.feasible() {
        e is InvalidSelectionSize
    } else if !config.rates_wf() {
        e is InvalidRatio
    } else {
        e is InvalidPopulation
    }
    &&& res matches Ok(sol) ==> {
        &&& is_selection(sol.0@, data.n, data.k)
        &&& sol.1 == diversity(data, sol.0@)
        &&& is_fittest_of_a_run(data, config, sol)
    }
}

/// Refuses, in this order, a `k` that is zero or exceeds `n`, a rate that
/// is no fraction between 0 and 1, and a population that is empty or
/// smaller than its elite.
pub fn check_genetic(data: &MdpData, config: &GeneticConfig) -> (checked: Result<(), SolveError>)
    ensures
        checked is Ok <==> (data.feasible() && config.wf()),
        checked matches Err(e) ==> if !data.feasible() {
            e is InvalidSelectionSize
        } else if !config.rates_wf() {
            e is InvalidRatio
        } else {
            e is InvalidPopulation
        },
{
    if data.k == 0 || data.k > data.n {
        Err(SolveError::InvalidSelectionSize)
    } else if !config.crossover_rate.is_valid() || !config.mutation_rate.is_valid() {
        Err(SolveError::InvalidRatio)
    } else if config.population_size == 0 || config.elite_size > config.population_size {
        Err(SolveError::InvalidPopulation)
    } else {
        Ok(())
    }
}

/// Runs the genetic algorithm with a generator that the system seeds. An
/// invalid instance or configuration is refused first; after that the run
/// can also fail because the system supplies no seed.
pub fn solve_genetic(data: &MdpData, config: &GeneticConfig) -> (res: Result<
    (Vec<usize>, u128),
    SolveError,
>)
    requires
        data.wf(),
    ensures
        is_genetic_outcome(data, config, res) || (data.feasible() && config.wf() && (
        res matches Err(e) && e is NoEntropy)),
{
    match check_genetic(data, config) {
        Err(e) => {
            return Err(e);
        },
        Ok(_) => {},
    }
    match try_entropy_rng() {
        Some(seeded) => {
            let mut rng = seeded;
            solve_genetic_with(data, config, &mut rng)
        },
        None => Err(SolveError::NoEntropy),
    }
}

/// Runs the genetic algorithm for `config.generations` generations from a
/// random population and returns the fittest individual of the last one.
/// Every tenth generation, starting with the first, the best individual
/// is polished. Refuses, in this order, a `k` that is zero or exceeds `n`,
/// a rate that is no fraction between 0 and 1, and a population that is
/// empty or smaller than its elite.
pub fn solve_genetic_with(data: &MdpData, config: &GeneticConfig, rng: &mut StdRng) -> (res: Result<
    (Vec<usize>, u128),
    SolveError,
>)
    requires
        data.wf(),
    ensures
        is_genetic_outcome(data, config, res),
{
    match check_genetic(data, config) {
        Err(e) => {
            return Err(e);
        },
        Ok(_) => {},
    }
    let mut population = initialize_population(data, config.population_size, rng);
    evaluate_population(&mut population, data);
    let ghost mut history: Seq<Seq<Individual>> = seq![population@];
    let mut generation: usize = 0;
    while generation < config.generations
        invariant
            data.wf(),
            data.feasible(),
            config.wf(),
            generation <= config.generations,
            population@.len() == config.population_size,
            population_wf(data, population@),
            history.len() == generation + 1,
            history.last() == population@,
            history[0].len() == config.population_size,
            population_wf(data, history[0]),
            forall|g: int|
                0 <= g < generation ==> #[trigger] is_generation_step(
                    data,
                    config,
                    g,
                    history[g],
                    history[g + 1],
                ),
        decreases config.generations - generation,
    {
        let ghost before = population@;
        population = next_generation(data, config, population, rng);
        let ghost bred = population@;
        if generation % 10 == 0 {
            polish_best(data, &mut population);
        }
        proof {
            assert(is_next_generation(data, config, before, bred));
            assert(is_generation_step(data, config, generation as int, before, population@));
            let grown = history.push(population@);
            assert forall|g: int| 0 <= g < generation + 1 implies #[trigger] is_generation_step(
                data,
                config,
                g,
                grown[g],
                grown[g + 1],
            ) by {
                if g < generation {
                    assert(is_generation_step(data, config, g, history[g], history[g + 1]));
                }
            }
            history = grown;
        }
        generation = generation + 1;
    }
    let best = best_index(&population);
    proof {
        assert(population@[best as int].wf(data));
    }
    let fittest = population[best].duplicate();
    proof {
        assert(is_evolution(data, config, history));
        assert(is_best_index(history.last(), best as int));
    }
    Ok((fittest.selected, fittest.fitness))
}

} // verus!
