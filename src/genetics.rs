use crate::chromosome::{dataset_fitness, series_fit, Chromosome, GENE_COUNT};
use crate::random::{draw_below, draw_gene};
use rand::rngs::StdRng;
use vstd::arithmetic::div_mod::*;
use vstd::multiset::Multiset;
use vstd::prelude::*;
use vstd::std_specs::iter::IteratorSpec;

verus! {

/// Why a generation step was refused.
#[derive(Clone, Copy, Debug, PartialEq, Eq, Structural)]
pub enum GeneticsError {
    /// The selection rates are not three non-negative percentages summing to 100.
    InvalidRates,
    /// The tournament window is larger than what remains of the population
    /// at the last tournament.
    TournamentTooLarge,
    /// A crossover needs two distinct chromosomes.
    PopulationTooSmall,
}

/// The population of candidate predictors.
#[derive(Debug)]
pub struct Genetics {
    pub population: Vec<Chromosome>,
}

/// Every chromosome of `pop` has `GENE_COUNT` genes.
pub open spec fn uniform_genes(pop: Seq<Chromosome>) -> bool {
    forall|i: int| 0 <= i < pop.len() ==> #[trigger] pop[i].genes.len() == GENE_COUNT
}

/// `w` is the first chromosome of minimum fitness in the window
/// `[start, start + size)` of `pop`.
pub open spec fn is_fittest_in(pop: Seq<Chromosome>, start: int, size: int, w: int) -> bool {
    &&& start <= w < start + size
    &&& forall|j: int| start <= j < start + size ==> pop[w].fitness <= #[trigger] pop[j].fitness
    &&& forall|j: int| start <= j < w ==> pop[w].fitness < #[trigger] pop[j].fitness
}

/// Index of the first chromosome of minimum fitness among the `size`
/// chromosomes of `population` that start at `start`.
pub fn fittest_in(population: &Vec<Chromosome>, start: usize, size: usize) -> (w: usize)
    requires
        size > 0,
        start + size <= population.len(),
    ensures
        is_fittest_in(population@, start as int, size as int, w as int),
{
    let mut w: usize = start;
    let mut j: usize = start + 1;
    while j < start + size
        invariant
            start < j <= start + size,
            start + size <= population.len(),
            is_fittest_in(population@, start as int, (j - start) as int, w as int),
        decreases start + size - j,
    {
        if population[j].fitness < population[w].fitness {
            w = j;
        }
        j = j + 1;
    }
    w
}

/// The selection rates are three non-negative percentages summing to 100.
pub open spec fn rates_valid(rates: (i8, i8, i8)) -> bool {
    rates.0 >= 0 && rates.1 >= 0 && rates.2 >= 0 && rates.0 + rates.1 + rates.2 == 100
}

/// Number of tournament winners kept from a population of `n`.
pub open spec fn tournament_count(rates: (i8, i8, i8), n: int) -> int {
    rates.1 * n / 100
}

/// Number of fresh chromosomes injected into a population of `n`.
pub open spec fn fresh_count(rates: (i8, i8, i8), n: int) -> int {
    rates.2 * n / 100
}

/// Number of chromosomes kept by random choice: whatever the other two
/// counts leave of `n`, so that the three sum to `n`.
pub open spec fn random_count(rates: (i8, i8, i8), n: int) -> int {
    n - tournament_count(rates, n) - fresh_count(rates, n)
}

/// Size of the tournament window over a pool of `pool` chromosomes.
pub open spec fn tournament_size(pool: int) -> int {
    if pool / 10 > 2 {
        pool / 10
    } else {
        2
    }
}

/// The tournament window fits into what remains of the population at every
/// tournament: at the last one, `fresh + 1` chromosomes remain.
pub open spec fn tournaments_fit(rates: (i8, i8, i8), n: int) -> bool {
    let t = tournament_count(rates, n);
    let f = fresh_count(rates, n);
    t == 0 || f + 1 >= tournament_size(t + f)
}

/// `c` is a member of `before`, or a fresh chromosome.
pub open spec fn kept_or_fresh(before: Seq<Chromosome>, c: Chromosome) -> bool {
    before.contains(c) || (c.genes.len() == GENE_COUNT && c.fitness == 0)
}

/// Number of events for a percentage `rate` of `n`, rounded to nearest
/// (none for a rate below 1).
pub open spec fn event_count(rate: i8, n: int) -> int {
    if rate <= 0 {
        0
    } else {
        (rate * n + 50) / 100
    }
}

/// `g` with its `len` genes from `start` replaced by the `len` genes of
/// `other` from `other_start`.
pub open spec fn segment_swapped(
    g: Seq<u32>,
    start: int,
    other: Seq<u32>,
    other_start: int,
    len: int,
) -> Seq<u32> {
    Seq::new(
        g.len(),
        |j: int|
            if start <= j < start + len {
                other[other_start + j - start]
            } else {
                g[j]
            },
    )
}

/// A crossover event: chromosome `a`, its segment start, chromosome `b`,
/// its segment start, and the segment length.
pub type CrossoverEvent = (usize, usize, usize, usize, usize);

/// `e` swaps segments of two distinct chromosomes of a population of `n`
/// with `GENE_COUNT` genes each, with a length from 1 to half that count.
pub open spec fn event_fits(e: CrossoverEvent, n: int) -> bool {
    &&& e.0 < n
    &&& e.2 < n
    &&& e.0 != e.2
    &&& 1 <= e.4 <= GENE_COUNT / 2
    &&& e.1 + e.4 <= GENE_COUNT
    &&& e.3 + e.4 <= GENE_COUNT
}

/// `q` is `p` after the segments named by `e` have been swapped.
pub open spec fn swapped_by(p: Seq<Chromosome>, q: Seq<Chromosome>, e: CrossoverEvent) -> bool {
    let a = e.0 as int;
    let b = e.2 as int;
    &&& q.len() == p.len()
    &&& q[a].genes@ == segment_swapped(p[a].genes@, e.1 as int, p[b].genes@, e.3 as int, e.4 as int)
    &&& q[b].genes@ == segment_swapped(p[b].genes@, e.3 as int, p[a].genes@, e.1 as int, e.4 as int)
    &&& q[a].fitness == p[a].fitness
    &&& q[b].fitness == p[b].fitness
    &&& forall|i: int| 0 <= i < q.len() && i != a && i != b ==> #[trigger] q[i] == p[i]
}

/// A mutation site: chromosome index, gene index, new gene value.
pub type MutationSite = (usize, usize, u32);

/// Value of gene `k` of chromosome `c`, which was `g`, after the sites of
/// `sites` have been written in order: the value of the last site at
/// `(c, k)`, or `g` where there is none.
pub open spec fn gene_after(g: u32, sites: Seq<MutationSite>, c: int, k: int) -> u32
    decreases sites.len(),
{
    if sites.len() == 0 {
        g
    } else {
        let s = sites.last();
        if s.0 == c && s.1 == k {
            s.2
        } else {
            gene_after(g, sites.drop_last(), c, k)
        }
    }
}

/// The sites come in blocks of `g` consecutive sites on one chromosome.
pub open spec fn grouped_by_chromosome(sites: Seq<MutationSite>, g: int) -> bool {
    forall|m: int| 0 <= m < sites.len() ==> (#[trigger] sites[m]).0 == sites[(m / g) * g].0
}

/// Every site of `sites` names a gene that exists in `pop`.
pub open spec fn sites_in(pop: Seq<Chromosome>, sites: Seq<MutationSite>) -> bool {
    forall|m: int|
        0 <= m < sites.len() ==> {
            &&& (#[trigger] sites[m]).0 < pop.len()
            &&& sites[m].1 < pop[sites[m].0 as int].genes.len()
        }
}

proof fn lemma_swap_remove_multiset(s: Seq<Chromosome>, k: int)
    requires
        0 <= k < s.len(),
    ensures
        s.update(k, s.last()).drop_last().to_multiset() == s.to_multiset().remove(s[k]),
{
    broadcast use vstd::multiset::group_multiset_axioms;
    broadcast use vstd::seq_lib::to_multiset_update;
    broadcast use vstd::seq_lib::to_multiset_remove;

    let t = s.update(k, s.last());
    assert(t.remove(t.len() - 1) =~= t.drop_last());
    assert(t.last() == s.last());
    assert(t.drop_last().to_multiset() =~= s.to_multiset().remove(s[k]));
}

/// Every chromosome of `taken` and of `rest` is one of `before`, and
/// together they hold exactly the chromosomes of `before`.
pub open spec fn drawn_from(
    before: Seq<Chromosome>,
    taken: Seq<Chromosome>,
    rest: Seq<Chromosome>,
) -> bool {
    &&& forall|k: int| 0 <= k < rest.len() ==> before.contains(#[trigger] rest[k])
    &&& forall|k: int| 0 <= k < taken.len() ==> before.contains(#[trigger] taken[k])
    &&& taken.to_multiset().add(rest.to_multiset()) == before.to_multiset()
}

/// One tournament: the window of `size` chromosomes of `pool` from `start`
/// fits in `pool`, its first chromosome of least fitness is at `w`, and
/// `next` is `pool` with `w` removed (the last chromosome takes its place).
pub open spec fn tournament_step(
    pool: Seq<Chromosome>,
    next: Seq<Chromosome>,
    start: int,
    size: int,
    w: int,
) -> bool {
    &&& 0 <= start
    &&& start + size <= pool.len()
    &&& is_fittest_in(pool, start, size, w)
    &&& next == pool.update(w, pool.last()).drop_last()
}

/// `count` tournaments in a row: tournament `m` runs on `pools[m]` over the
/// window from `starts[m]`, and its winner `pools[m][winners[m]]` is
/// `kept[offset + m]`.
pub open spec fn tournament_trace(
    kept: Seq<Chromosome>,
    offset: int,
    count: int,
    size: int,
    pools: Seq<Seq<Chromosome>>,
    starts: Seq<int>,
    winners: Seq<int>,
) -> bool {
    &&& pools.len() == count + 1
    &&& starts.len() == count
    &&& winners.len() == count
    &&& offset + count <= kept.len()
    &&& forall|m: int|
        0 <= m < count ==> {
            &&& tournament_step(pools[m], pools[m + 1], #[trigger] starts[m], size, winners[m])
            &&& kept[offset + m] == pools[m][winners[m]]
        }
}

/// What a successful selection produced from `before`: `after` holds the
/// chromosomes of `kept` and the fresh chromosomes of `fresh`.  The first
/// `random_count` of `kept` were drawn from `before`, leaving `pools[0]`;
/// the next `tournament_count` are the winners of tournaments over windows
/// of `tournament_size` on what remained each time.
pub open spec fn selection_outcome(
    before: Seq<Chromosome>,
    after: Seq<Chromosome>,
    rates: (i8, i8, i8),
    kept: Seq<Chromosome>,
    fresh: Seq<Chromosome>,
    pools: Seq<Seq<Chromosome>>,
    starts: Seq<int>,
    winners: Seq<int>,
) -> bool {
    let n = before.len() as int;
    let random = random_count(rates, n);
    let tournaments = tournament_count(rates, n);
    &&& kept.len() == random + tournaments
    &&& fresh.len() == fresh_count(rates, n)
    &&& kept.to_multiset().subset_of(before.to_multiset())
    &&& kept.subrange(0, random).to_multiset().add(pools[0].to_multiset()) == before.to_multiset()
    &&& tournament_trace(
        kept,
        random,
        tournaments,
        tournament_size(tournaments + fresh_count(rates, n)),
        pools,
        starts,
        winners,
    )
    &&& forall|j: int|
        0 <= j < fresh.len() ==> (#[trigger] fresh[j]).genes.len() == GENE_COUNT
            && fresh[j].fitness == 0
    &&& after.to_multiset() == kept.to_multiset().add(fresh.to_multiset())
}

/// Moving `rest[k]` from `rest` (swap-removed) to the end of `taken` keeps
/// both drawn from `before`.
proof fn lemma_take_one(
    before: Seq<Chromosome>,
    taken: Seq<Chromosome>,
    rest: Seq<Chromosome>,
    k: int,
)
    requires
        0 <= k < rest.len(),
        drawn_from(before, taken, rest),
    ensures
        drawn_from(before, taken.push(rest[k]), rest.update(k, rest.last()).drop_last()),
{
    broadcast use vstd::multiset::group_multiset_axioms;

    let c = rest[k];
    let rest2 = rest.update(k, rest.last()).drop_last();
    let taken2 = taken.push(c);
    assert(before.contains(rest[rest.len() - 1]));
    assert forall|j: int| 0 <= j < rest2.len() implies before.contains(#[trigger] rest2[j]) by {
        if j == k {
            assert(rest2[j] == rest[rest.len() - 1]);
        } else {
            assert(rest2[j] == rest[j]);
        }
    }
    assert forall|j: int| 0 <= j < taken2.len() implies before.contains(#[trigger] taken2[j]) by {
        if j < taken.len() {
            assert(taken2[j] == taken[j]);
        }
    }
    lemma_swap_remove_multiset(rest, k);
    assert(rest.contains(c));
    vstd::seq_lib::to_multiset_contains(rest, c);
    vstd::seq_lib::to_multiset_build(taken, c);
    assert(taken2.to_multiset().add(rest2.to_multiset()) =~= taken.to_multiset().add(
        rest.to_multiset(),
    ));
}

proof fn lemma_counts(rates: (i8, i8, i8), n: int)
    requires
        rates_valid(rates),
        n >= 0,
    ensures
        0 <= tournament_count(rates, n),
        0 <= fresh_count(rates, n),
        0 <= random_count(rates, n),
{
    let a = rates.1 * n;
    let b = rates.2 * n;
    assert(0 <= a && 0 <= b && a + b <= 100 * n) by (nonlinear_arith)
        requires
            rates.1 >= 0,
            rates.2 >= 0,
            rates.1 + rates.2 <= 100,
            n >= 0,
            a == rates.1 * n,
            b == rates.2 * n,
    ;
    lemma_fundamental_div_mod(a, 100);
    lemma_fundamental_div_mod(b, 100);
    lemma_mod_bound(a, 100);
    lemma_mod_bound(b, 100);
    lemma_div_pos_is_pos(a, 100);
    lemma_div_pos_is_pos(b, 100);
}

/// Whether a training run ends: the best fitness is below the target, or
/// the time spent exceeds the budget.
pub fn should_stop(best_fitness: u64, target: u64, elapsed_secs: u64, budget_secs: u64) -> (r:
    bool)
    ensures
        r == (best_fitness < target || elapsed_secs > budget_secs),
{
    best_fitness < target || elapsed_secs > budget_secs
}

impl Genetics {
    /// Population well-formedness: every chromosome has `GENE_COUNT` genes.
    pub open spec fn wf(&self) -> bool {
        uniform_genes(self.population@)
    }

    /// A population of `size` random chromosomes (none for a size below 1).
    pub fn new(size: i8, rng: &mut StdRng) -> (g: Genetics)
        ensures
            g.wf(),
            g.population.len() == if size > 0 { size as int } else { 0 },
            forall|i: int| 0 <= i < g.population.len() ==> #[trigger] g.population[i].fitness == 0,
    {
        let mut population: Vec<Chromosome> = Vec::new();
        let mut i: i8 = 0;
        while i < size
            invariant
                0 <= i,
                i <= size || i == 0,
                population.len() == i,
                uniform_genes(population@),
                forall|j: int| 0 <= j < population.len() ==> #[trigger] population[j].fitness == 0,
            decreases size - i,
        {
            population.push(Chromosome::new(rng));
            i = i + 1;
        }
        Genetics { population }
    }

    /// Iterator over the chromosomes, in order.
    pub fn iter(&self) -> (r: std::slice::Iter<'_, Chromosome>)
        ensures
            r.remaining() == self.population@.as_ref(),
    {
        self.population.as_slice().iter()
    }

    /// Index of the first chromosome of minimum fitness; `None` for an
    /// empty population.
    pub fn best_index(&self) -> (r: Option<usize>)
        ensures
            self.population.len() == 0 <==> r is None,
            r matches Some(w) ==> is_fittest_in(
                self.population@,
                0,
                self.population.len() as int,
                w as int,
            ),
    {
        if self.population.len() == 0 {
            None
        } else {
            Some(fittest_in(&self.population, 0, self.population.len()))
        }
    }

    /// Sets the fitness of every chromosome to its fitness on `data`.
    pub fn set_fitness_for_dataset(&mut self, data: &Vec<Vec<i32>>)
        requires
            forall|i: int|
                0 <= i < old(self).population.len() ==> series_fit(
                    data@,
                    #[trigger] old(self).population[i].genes.len() as nat,
                ),
        ensures
            final(self).population.len() == old(self).population.len(),
            forall|i: int|
                0 <= i < final(self).population.len() ==> {
                    &&& #[trigger] final(self).population[i].genes == old(self).population[i].genes
                    &&& final(self).population[i].fitness as int == dataset_fitness(
                        old(self).population[i].genes@,
                        data@,
                    )
                },
    {
        let ghost before = self.population@;
        let mut i: usize = 0;
        while i < self.population.len()
            invariant
                i <= self.population.len(),
                self.population.len() == before.len(),
                forall|k: int|
                    0 <= k < before.len() ==> series_fit(data@, #[trigger] before[k].genes.len() as nat),
                forall|k: int|
                    0 <= k < self.population.len() ==> #[trigger] self.population[k].genes
                        == before[k].genes,
                forall|k: int|
                    i <= k < self.population.len() ==> #[trigger] self.population[k]
                        == before[k],
                forall|k: int|
                    0 <= k < i ==> #[trigger] self.population[k].fitness as int == dataset_fitness(
                        before[k].genes@,
                        data@,
                    ),
            decreases self.population.len() - i,
        {
            assert(series_fit(data@, before[i as int].genes.len() as nat));
            let f = self.population[i].calculate_dataset_fitness(data);
            self.population[i].fitness = f;
            i = i + 1;
        }
    }

    /// Builds the next generation: `random_count` chromosomes moved over by
    /// uniform choice, then `tournament_count` winners of tournaments over
    /// random windows of what remains, then `fresh_count` new random
    /// chromosomes inserted at random places; what remains after the
    /// tournaments is dropped.  Fails, leaving the population as it was,
    /// where the rates are invalid or the tournament window cannot be formed.
    pub fn selection(&mut self, selection_rates: &(i8, i8, i8), rng: &mut StdRng) -> (r: Result<
        (),
        GeneticsError,
    >)
        requires
            old(self).wf(),
        ensures
            !rates_valid(*selection_rates) ==> r == Err::<(), GeneticsError>(
                GeneticsError::InvalidRates,
            ),
            rates_valid(*selection_rates) && !tournaments_fit(
                *selection_rates,
                old(self).population.len() as int,
            ) ==> r == Err::<(), GeneticsError>(GeneticsError::TournamentTooLarge),
            r is Err ==> *final(self) == *old(self),
            rates_valid(*selection_rates) && tournaments_fit(
                *selection_rates,
                old(self).population.len() as int,
            ) ==> r is Ok,
            r is Ok ==> {
                &&& final(self).population.len() == old(self).population.len()
                &&& final(self).wf()
                &&& forall|i: int|
                    0 <= i < final(self).population.len() ==> kept_or_fresh(
                        old(self).population@,
                        #[trigger] final(self).population[i],
                    )
                &&& exists|
                    kept: Seq<Chromosome>,
                    fresh: Seq<Chromosome>,
                    pools: Seq<Seq<Chromosome>>,
                    starts: Seq<int>,
                    winners: Seq<int>,
                |
                    selection_outcome(
                        old(self).population@,
                        final(self).population@,
                        *selection_rates,
                        kept,
                        fresh,
                        pools,
                        starts,
                        winners,
                    )
            },
    {
        broadcast use {
            vstd::multiset::group_multiset_axioms,
            vstd::seq_lib::to_multiset_build,
            vstd::seq_lib::to_multiset_insert,
            vstd::seq_lib::to_multiset_contains,
            vstd::seq_lib::to_multiset_len,
            vstd::multiset::lemma_multiset_empty_len,
        };

        let ghost before = self.population@;
        let n = self.population.len();
        let rates = *selection_rates;
        if rates.0 < 0 || rates.1 < 0 || rates.2 < 0 || rates.0 as i16 + rates.1 as i16
            + rates.2 as i16 != 100 {
            return Err(GeneticsError::InvalidRates);
        }
        proof {
            lemma_counts(rates, n as int);
            assert(rates.1 * n <= 100 * n) by (nonlinear_arith)
                requires
                    0 <= rates.1 <= 100,
                    n >= 0,
            ;
            assert(rates.2 * n <= 100 * n) by (nonlinear_arith)
                requires
                    0 <= rates.2 <= 100,
                    n >= 0,
            ;
            assert(100 * n == n * 100);
            lemma_div_is_ordered(rates.1 * n, 100 * n, 100);
            lemma_div_is_ordered(rates.2 * n, 100 * n, 100);
            lemma_div_by_multiple(n as int, 100);
        }
        let tournament: usize = ((rates.1 as u128 * n as u128) / 100) as usize;
        let fresh: usize = ((rates.2 as u128 * n as u128) / 100) as usize;
        let random: usize = n - tournament - fresh;
        let pool: usize = tournament + fresh;
        let size: usize = if pool / 10 > 2 {
            pool / 10
        } else {
            2
        };
        if tournament > 0 && fresh + 1 < size {
            return Err(GeneticsError::TournamentTooLarge);
        }
        let mut next: Vec<Chromosome> = Vec::with_capacity(n);
        assert(next@.to_multiset() =~= Multiset::empty());
        assert(next@.to_multiset().add(self.population@.to_multiset()) =~= before.to_multiset());
        let mut i: usize = 0;
        while i < random
            invariant
                i <= random,
                random + pool == n,
                self.population.len() == n - i,
                next.len() == i,
                uniform_genes(before),
                drawn_from(before, next@, self.population@),
            decreases random - i,
        {
            let ghost rest = self.population@;
            let ghost taken = next@;
            let k = draw_below(rng, self.population.len());
            let c = self.population.swap_remove(k);
            next.push(c);
            proof {
                lemma_take_one(before, taken, rest, k as int);
            }
            i = i + 1;
        }
        let ghost randomly = next@;
        let ghost mut pools: Seq<Seq<Chromosome>> = seq![self.population@];
        let ghost mut starts: Seq<int> = Seq::empty();
        let ghost mut winners: Seq<int> = Seq::empty();
        i = 0;
        while i < tournament
            invariant
                i <= tournament,
                random + pool == n,
                pool == tournament + fresh,
                size as int == tournament_size(pool as int),
                tournament > 0 ==> fresh + 1 >= size,
                self.population.len() == pool - i,
                next.len() == random + i,
                uniform_genes(before),
                drawn_from(before, next@, self.population@),
                randomly.len() == random,
                randomly.to_multiset().add(pools[0].to_multiset()) == before.to_multiset(),
                next@.subrange(0, random as int) == randomly,
                pools.last() == self.population@,
                tournament_trace(next@, random as int, i as int, size as int, pools, starts, winners),
            decreases tournament - i,
        {
            let ghost rest = self.population@;
            let ghost taken = next@;
            let start = draw_below(rng, self.population.len() - size + 1);
            let k = fittest_in(&self.population, start, size);
            let c = self.population.swap_remove(k);
            next.push(c);
            proof {
                lemma_take_one(before, taken, rest, k as int);
                let old_pools = pools;
                let old_starts = starts;
                let old_winners = winners;
                pools = pools.push(self.population@);
                starts = starts.push(start as int);
                winners = winners.push(k as int);
                assert(next@.subrange(0, random as int) =~= randomly);
                assert forall|m: int| 0 <= m < i + 1 implies {
                    &&& tournament_step(
                        pools[m],
                        pools[m + 1],
                        #[trigger] starts[m],
                        size as int,
                        winners[m],
                    )
                    &&& next@[random + m] == pools[m][winners[m]]
                } by {
                    if m < i {
                        assert(pools[m] == old_pools[m]);
                        assert(pools[m + 1] == old_pools[m + 1]);
                        assert(starts[m] == old_starts[m]);
                        assert(winners[m] == old_winners[m]);
                        assert(next@[random + m] == taken[random + m]);
                    } else {
                        assert(pools[m] == rest);
                        assert(pools[m + 1] == self.population@);
                        assert(starts[m] == start);
                        assert(winners[m] == k);
                        assert(is_fittest_in(rest, start as int, size as int, k as int));
                        assert(self.population@ == rest.update(k as int, rest.last()).drop_last());
                        assert(tournament_step(rest, self.population@, start as int, size as int, k as int));
                        assert(next@[random + m] == c);
                    }
                }
                assert(pools.len() == i + 2);
                assert(random + i + 1 <= next@.len());
                assert(tournament_trace(next@, random as int, i + 1, size as int, pools, starts, winners));
            }
            i = i + 1;
        }
        let ghost kept = next@;
        assert(kept.to_multiset().subset_of(before.to_multiset()));
        assert(Seq::<Chromosome>::empty().to_multiset() =~= Multiset::empty());
        assert(next@.to_multiset() =~= kept.to_multiset().add(
            Seq::<Chromosome>::empty().to_multiset(),
        ));
        let ghost added: Seq<Chromosome> = Seq::empty();
        i = 0;
        while i < fresh
            invariant
                kept.len() == random + tournament,
                kept.to_multiset().subset_of(before.to_multiset()),
                added.len() == i,
                forall|j: int|
                    0 <= j < added.len() ==> (#[trigger] added[j]).genes.len() == GENE_COUNT
                        && added[j].fitness == 0,
                next@.to_multiset() == kept.to_multiset().add(added.to_multiset()),
                i <= fresh,
                random + pool == n,
                pool == tournament + fresh,
                next.len() == random + tournament + i,
                uniform_genes(before),
                forall|k: int| 0 <= k < next.len() ==> kept_or_fresh(before, #[trigger] next[k]),
            decreases fresh - i,
        {
            let ghost prev = next@;
            let pos = draw_below(rng, next.len() + 1);
            let c = Chromosome::new(rng);
            next.insert(pos, c);
            proof {
                vstd::seq_lib::to_multiset_insert(prev, pos as int, c);
                vstd::seq_lib::to_multiset_build(added, c);
                added = added.push(c);
                assert(next@.to_multiset() =~= kept.to_multiset().add(added.to_multiset()));
                assert forall|j: int| 0 <= j < next.len() implies kept_or_fresh(
                    before,
                    #[trigger] next[j],
                ) by {
                    if j < pos {
                        assert(next[j] == prev[j]);
                    } else if j > pos {
                        assert(next[j] == prev[j - 1]);
                    }
                }
            }
            i = i + 1;
        }
        self.population = next;
        proof {
            assert forall|j: int| 0 <= j < self.population.len() implies #[trigger] self.population[j].genes.len()
                == GENE_COUNT by {
                let c = self.population[j];
                assert(kept_or_fresh(before, c));
                if before.contains(c) {
                    let m = choose|m: int| 0 <= m < before.len() && before[m] == c;
                    assert(before[m].genes.len() == GENE_COUNT);
                }
            }
            assert(kept.subrange(0, random as int) == randomly);
            assert(selection_outcome(
                before,
                self.population@,
                rates,
                kept,
                added,
                pools,
                starts,
                winners,
            ));
        }
        Ok(())
    }

    /// Swaps, by value, the `len` genes of chromosome `a` from `start_a`
    /// with the `len` genes of chromosome `b` from `start_b`.
    pub fn swap_segments(
        &mut self,
        a: usize,
        start_a: usize,
        b: usize,
        start_b: usize,
        len: usize,
    )
        requires
            a != b,
            a < old(self).population.len(),
            b < old(self).population.len(),
            start_a + len <= old(self).population[a as int].genes.len(),
            start_b + len <= old(self).population[b as int].genes.len(),
        ensures
            final(self).population.len() == old(self).population.len(),
            final(self).population[a as int].genes@ == segment_swapped(
                old(self).population[a as int].genes@,
                start_a as int,
                old(self).population[b as int].genes@,
                start_b as int,
                len as int,
            ),
            final(self).population[b as int].genes@ == segment_swapped(
                old(self).population[b as int].genes@,
                start_b as int,
                old(self).population[a as int].genes@,
                start_a as int,
                len as int,
            ),
            final(self).population[a as int].fitness == old(self).population[a as int].fitness,
            final(self).population[b as int].fitness == old(self).population[b as int].fitness,
            forall|i: int|
                0 <= i < final(self).population.len() && i != a && i != b
                    ==> #[trigger] final(self).population[i] == old(self).population[i],
    {
        let ghost before = self.population@;
        let ghost ga = before[a as int].genes@;
        let ghost gb = before[b as int].genes@;
        let mut k: usize = 0;
        while k < len
            invariant
                k <= len,
                a != b,
                a < before.len(),
                b < before.len(),
                start_a + len <= ga.len(),
                start_b + len <= gb.len(),
                ga == before[a as int].genes@,
                gb == before[b as int].genes@,
                ga.len() == before[a as int].genes.len(),
                gb.len() == before[b as int].genes.len(),
                self.population.len() == before.len(),
                self.population[a as int].genes@ == segment_swapped(
                    ga,
                    start_a as int,
                    gb,
                    start_b as int,
                    k as int,
                ),
                self.population[b as int].genes@ == segment_swapped(
                    gb,
                    start_b as int,
                    ga,
                    start_a as int,
                    k as int,
                ),
                self.population[a as int].fitness == before[a as int].fitness,
                self.population[b as int].fitness == before[b as int].fitness,
                forall|i: int|
                    0 <= i < self.population.len() && i != a && i != b
                        ==> #[trigger] self.population[i] == before[i],
            decreases len - k,
        {
            let x: u32 = self.population[a].genes[start_a + k];
            let y: u32 = self.population[b].genes[start_b + k];
            self.population[a].genes[start_a + k] = y;
            self.population[b].genes[start_b + k] = x;
            k = k + 1;
            assert(self.population[a as int].genes@ =~= segment_swapped(
                ga,
                start_a as int,
                gb,
                start_b as int,
                k as int,
            ));
            assert(self.population[b as int].genes@ =~= segment_swapped(
                gb,
                start_b as int,
                ga,
                start_a as int,
                k as int,
            ));
        }
    }

    /// Performs `event_count(crossover_rate, n)` crossover events: each
    /// picks two distinct chromosomes, a segment length from 1 to half the
    /// gene count and a start in each, and swaps the two segments.  Fails,
    /// leaving the population as it was, where events are due but fewer
    /// than two chromosomes exist.
    pub fn crossover(&mut self, crossover_rate: &i8, rng: &mut StdRng) -> (r: Result<
        (),
        GeneticsError,
    >)
        requires
            old(self).wf(),
        ensures
            r == Err::<(), GeneticsError>(GeneticsError::PopulationTooSmall) <==> (event_count(
                *crossover_rate,
                old(self).population.len() as int,
            ) > 0 && old(self).population.len() < 2),
            r is Err ==> r == Err::<(), GeneticsError>(GeneticsError::PopulationTooSmall),
            r is Err ==> *final(self) == *old(self),
            r is Ok ==> {
                &&& final(self).population.len() == old(self).population.len()
                &&& final(self).wf()
                &&& forall|i: int|
                    0 <= i < final(self).population.len() ==> (#[trigger] final(self).population[i]).fitness == old(self).population[i].fitness
                &&& exists|events: Seq<CrossoverEvent>, states: Seq<Seq<Chromosome>>|
                    {
                        &&& events.len() == event_count(
                            *crossover_rate,
                            old(self).population.len() as int,
                        )
                        &&& states.len() == events.len() + 1
                        &&& states[0] == old(self).population@
                        &&& states.last() == final(self).population@
                        &&& forall|m: int|
                            0 <= m < events.len() ==> {
                                &&& event_fits(
                                    #[trigger] events[m],
                                    old(self).population.len() as int,
                                )
                                &&& swapped_by(states[m], states[m + 1], events[m])
                            }
                    }
            },
    {
        let ghost before = self.population@;
        let ghost mut evs: Seq<CrossoverEvent> = Seq::empty();
        let ghost mut sts: Seq<Seq<Chromosome>> = seq![before];
        let n = self.population.len();
        let rate = *crossover_rate;
        let events: u128 = if rate <= 0 {
            0
        } else {
            assert(rate * n <= 127 * 0xffff_ffff_ffff_ffff) by (nonlinear_arith)
                requires
                    0 < rate <= 127,
                    0 <= n <= 0xffff_ffff_ffff_ffff,
            ;
            (rate as u128 * n as u128 + 50) / 100
        };
        if events > 0 && n < 2 {
            return Err(GeneticsError::PopulationTooSmall);
        }
        let mut e: u128 = 0;
        while e < events
            invariant
                e <= events,
                events > 0 ==> n >= 2,
                self.population.len() == n,
                before.len() == n,
                self.wf(),
                forall|i: int|
                    0 <= i < n ==> (#[trigger] self.population[i]).fitness == before[i].fitness,
                evs.len() == e,
                sts.len() == e + 1,
                sts[0] == before,
                sts.last() == self.population@,
                forall|m: int|
                    0 <= m < evs.len() ==> {
                        &&& event_fits(#[trigger] evs[m], n as int)
                        &&& swapped_by(sts[m], sts[m + 1], evs[m])
                    },
            decreases events - e,
        {
            let a = draw_below(rng, n);
            let b0 = draw_below(rng, n - 1);
            let b = if b0 >= a {
                b0 + 1
            } else {
                b0
            };
            let len = draw_below(rng, GENE_COUNT / 2) + 1;
            let start_a = draw_below(rng, GENE_COUNT - len + 1);
            let start_b = draw_below(rng, GENE_COUNT - len + 1);
            let ghost mid = self.population@;
            assert(mid[a as int].genes.len() == GENE_COUNT);
            assert(mid[b as int].genes.len() == GENE_COUNT);
            self.swap_segments(a, start_a, b, start_b, len);
            proof {
                let ev: CrossoverEvent = (a, start_a, b, start_b, len);
                assert(swapped_by(mid, self.population@, ev));
                assert(event_fits(ev, n as int));
                let old_sts = sts;
                let old_evs = evs;
                evs = evs.push(ev);
                sts = sts.push(self.population@);
                assert forall|m: int| 0 <= m < evs.len() implies {
                    &&& event_fits(#[trigger] evs[m], n as int)
                    &&& swapped_by(sts[m], sts[m + 1], evs[m])
                } by {
                    if m < old_evs.len() {
                        assert(evs[m] == old_evs[m]);
                        assert(sts[m] == old_sts[m]);
                        assert(sts[m + 1] == old_sts[m + 1]);
                    } else {
                        assert(sts[m] == mid);
                    }
                }
            }
            assert forall|i: int| 0 <= i < n implies #[trigger] self.population[i].genes.len()
                == GENE_COUNT by {
                if i != a && i != b {
                    assert(self.population[i] == mid[i]);
                }
            }
            e = e + 1;
        }
        Ok(())
    }

    /// Writes the sites of `sites` in order: gene `s.1` of chromosome `s.0`
    /// becomes `s.2`.  Nothing else changes.
    pub fn apply_mutations(&mut self, sites: &Vec<MutationSite>)
        requires
            sites_in(old(self).population@, sites@),
        ensures
            final(self).population.len() == old(self).population.len(),
            forall|c: int|
                0 <= c < final(self).population.len() ==> {
                    &&& (#[trigger] final(self).population[c]).fitness == old(self).population[c].fitness
                    &&& final(self).population[c].genes.len() == old(self).population[c].genes.len()
                    &&& forall|k: int|
                        0 <= k < final(self).population[c].genes.len()
                            ==> #[trigger] final(self).population[c].genes[k] == gene_after(
                            old(self).population[c].genes[k],
                            sites@,
                            c,
                            k,
                        )
                },
    {
        let ghost before = self.population@;
        let mut m: usize = 0;
        while m < sites.len()
            invariant
                m <= sites.len(),
                sites_in(before, sites@),
                self.population.len() == before.len(),
                forall|c: int|
                    0 <= c < self.population.len() ==> {
                        &&& (#[trigger] self.population[c]).fitness == before[c].fitness
                        &&& self.population[c].genes.len() == before[c].genes.len()
                        &&& forall|k: int|
                            0 <= k < self.population[c].genes.len()
                                ==> #[trigger] self.population[c].genes[k] == gene_after(
                                before[c].genes[k],
                                sites@.take(m as int),
                                c,
                                k,
                            )
                    },
            decreases sites.len() - m,
        {
            let site = sites[m];
            assert(sites_in(before, sites@) ==> site.0 < before.len());
            let ghost prev = self.population@;
            self.population[site.0].genes[site.1] = site.2;
            proof {
                let done = sites@.take(m + 1);
                assert(done.drop_last() =~= sites@.take(m as int));
                assert(done.last() == site);
                assert forall|c: int|
                    0 <= c < self.population.len() implies {
                    &&& (#[trigger] self.population[c]).fitness == before[c].fitness
                    &&& self.population[c].genes.len() == before[c].genes.len()
                    &&& forall|k: int|
                        0 <= k < self.population[c].genes.len()
                            ==> #[trigger] self.population[c].genes[k] == gene_after(
                            before[c].genes[k],
                            done,
                            c,
                            k,
                        )
                } by {
                    if c != site.0 {
                        assert(self.population[c] == prev[c]);
                    }
                    assert forall|k: int|
                        0 <= k < self.population[c].genes.len()
                            implies #[trigger] self.population[c].genes[k] == gene_after(
                            before[c].genes[k],
                            done,
                            c,
                            k,
                        ) by {
                        if c != site.0 || k != site.1 {
                            assert(self.population[c].genes[k] == prev[c].genes[k]);
                        }
                    }
                }
            }
            m = m + 1;
        }
        assert(sites@.take(sites.len() as int) =~= sites@);
    }

    /// Mutates `event_count(mutation_rate.0, n)` chromosomes picked at
    /// random (repeats allowed); in each, `event_count(mutation_rate.1,
    /// GENE_COUNT)` genes picked at random (repeats allowed) are overwritten
    /// with fresh random values.  Fitness is left as it was.
    pub fn mutation(&mut self, mutation_rate: &(i8, i8), rng: &mut StdRng)
        requires
            old(self).wf(),
        ensures
            final(self).population.len() == old(self).population.len(),
            final(self).wf(),
            exists|sites: Seq<MutationSite>|
                {
                    &&& sites.len() == event_count(
                        mutation_rate.0,
                        old(self).population.len() as int,
                    ) * event_count(mutation_rate.1, GENE_COUNT as int)
                    &&& sites_in(old(self).population@, sites)
                    &&& grouped_by_chromosome(sites, event_count(mutation_rate.1, GENE_COUNT as int))
                    &&& forall|c: int|
                        0 <= c < final(self).population.len() ==> {
                            &&& (#[trigger] final(self).population[c]).fitness == old(self).population[c].fitness
                            &&& forall|k: int|
                                0 <= k < GENE_COUNT ==> #[trigger] final(self).population[c].genes[k]
                                    == gene_after(old(self).population[c].genes[k], sites, c, k)
                        }
                },
    {
        let n = self.population.len();
        let (individual_rate, gene_rate) = *mutation_rate;
        let individuals: u128 = if individual_rate <= 0 || n == 0 {
            0
        } else {
            assert(individual_rate * n <= 127 * 0xffff_ffff_ffff_ffff) by (nonlinear_arith)
                requires
                    0 < individual_rate <= 127,
                    0 <= n <= 0xffff_ffff_ffff_ffff,
            ;
            (individual_rate as u128 * n as u128 + 50) / 100
        };
        let genes: usize = if gene_rate <= 0 {
            0
        } else {
            ((gene_rate as usize * GENE_COUNT + 50) / 100) as usize
        };
        let mut sites: Vec<MutationSite> = Vec::new();
        let mut i: u128 = 0;
        while i < individuals
            invariant
                i <= individuals,
                individuals > 0 ==> n > 0,
                self.population.len() == n,
                self.wf(),
                sites.len() == i * genes,
                sites_in(self.population@, sites@),
                grouped_by_chromosome(sites@, genes as int),
            decreases individuals - i,
        {
            let c = draw_below(rng, n);
            let mut j: usize = 0;
            while j < genes
                invariant
                    j <= genes,
                    i < individuals,
                    c < n,
                    self.population.len() == n,
                    self.wf(),
                    sites.len() == i * genes + j,
                    sites_in(self.population@, sites@),
                    grouped_by_chromosome(sites@, genes as int),
                    j > 0 ==> sites[i * genes].0 == c,
                decreases genes - j,
            {
                let k = draw_below(rng, GENE_COUNT);
                let v = draw_gene(rng);
                assert(self.population[c as int].genes.len() == GENE_COUNT);
                let ghost prev = sites@;
                sites.push((c, k, v));
                proof {
                    let g = genes as int;
                    let m0 = i * g + j;
                    lemma_fundamental_div_mod_converse(m0, g, i as int, j as int);
                    assert forall|m: int| 0 <= m < sites@.len() implies (#[trigger] sites@[m]).0
                        == sites@[(m / g) * g].0 by {
                        if m < m0 {
                            lemma_fundamental_div_mod(m, g);
                            lemma_mod_bound(m, g);
                            assert(0 <= (m / g) * g) by {
                                lemma_div_pos_is_pos(m, g);
                                assert(0 <= (m / g) * g) by (nonlinear_arith)
                                    requires
                                        0 <= m / g,
                                        g > 0,
                                ;
                            }
                            assert((m / g) * g == g * (m / g)) by (nonlinear_arith);
                            assert(sites@[m] == prev[m]);
                            assert(sites@[(m / g) * g] == prev[(m / g) * g]);
                        }
                    }
                }
                j = j + 1;
            }
            assert((i + 1) * genes == i * genes + genes) by (nonlinear_arith);
            i = i + 1;
        }
        let ghost before = self.population@;
        self.apply_mutations(&sites);
        proof {
            if n == 0 {
                assert(individual_rate * n == 0) by (nonlinear_arith)
                    requires
                        n == 0,
                ;
            }
            assert(individuals as int == event_count(individual_rate, n as int));
            assert(genes as int == event_count(gene_rate, GENE_COUNT as int));
            assert forall|c: int| 0 <= c < self.population.len() implies #[trigger] self.population[c].genes.len()
                == GENE_COUNT by {
                assert(before[c].genes.len() == GENE_COUNT);
            }
            assert(self.wf());
        }
    }
}

/// A crossover swap keeps the length of each gene vector, and only moves
/// gene values between the two chromosomes: the multiset of the genes of
/// the pair is the same before and after.
pub proof fn lemma_segment_swap_keeps_genes(
    ga: Seq<u32>,
    start_a: int,
    gb: Seq<u32>,
    start_b: int,
    len: int,
)
    requires
        0 <= start_a,
        0 <= start_b,
        0 <= len,
        start_a + len <= ga.len(),
        start_b + len <= gb.len(),
    ensures
        segment_swapped(ga, start_a, gb, start_b, len).len() == ga.len(),
        segment_swapped(gb, start_b, ga, start_a, len).len() == gb.len(),
        (segment_swapped(ga, start_a, gb, start_b, len) + segment_swapped(
            gb,
            start_b,
            ga,
            start_a,
            len,
        )).to_multiset() == (ga + gb).to_multiset(),
{
    broadcast use vstd::seq_lib::lemma_multiset_commutative;

    let na = segment_swapped(ga, start_a, gb, start_b, len);
    let nb = segment_swapped(gb, start_b, ga, start_a, len);
    let a1 = ga.subrange(0, start_a);
    let a2 = ga.subrange(start_a, start_a + len);
    let a3 = ga.subrange(start_a + len, ga.len() as int);
    let b1 = gb.subrange(0, start_b);
    let b2 = gb.subrange(start_b, start_b + len);
    let b3 = gb.subrange(start_b + len, gb.len() as int);
    assert(ga =~= a1 + a2 + a3);
    assert(gb =~= b1 + b2 + b3);
    assert(na =~= a1 + b2 + a3);
    assert(nb =~= b1 + a2 + b3);
    assert((na + nb).to_multiset() =~= (ga + gb).to_multiset());
}

/// A gene that no mutation site names keeps its value.
pub proof fn lemma_unselected_gene_kept(g: u32, sites: Seq<MutationSite>, c: int, k: int)
    requires
        forall|m: int|
            0 <= m < sites.len() ==> !((#[trigger] sites[m]).0 == c && sites[m].1 == k),
    ensures
        gene_after(g, sites, c, k) == g,
    decreases sites.len(),
{
    if sites.len() > 0 {
        let rest = sites.drop_last();
        assert forall|m: int| 0 <= m < rest.len() implies !((#[trigger] rest[m]).0 == c
            && rest[m].1 == k) by {
            assert(rest[m] == sites[m]);
        }
        assert(sites.last() == sites[sites.len() - 1]);
        lemma_unselected_gene_kept(g, rest, c, k);
    }
}

} // verus!
