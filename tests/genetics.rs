use genetic_anomaly::chromosome::{Chromosome, GENE_COUNT};
use genetic_anomaly::genetics::{fittest_in, should_stop, Genetics, GeneticsError};
use rand::rngs::StdRng;
use rand::SeedableRng;

fn population(size: usize) -> Genetics {
    let mut population = Vec::new();
    for i in 0..size {
        let genes: Vec<u32> = (0..GENE_COUNT).map(|k| (i * 1000 + k) as u32).collect();
        population.push(Chromosome { genes, fitness: 100 + i as u64 });
    }
    Genetics { population }
}

fn sorted_genes(g: &Genetics) -> Vec<u32> {
    let mut all: Vec<u32> = g.population.iter().flat_map(|c| c.genes.clone()).collect();
    all.sort();
    all
}

#[test]
fn new_population_has_requested_size() {
    let mut rng = StdRng::seed_from_u64(1);
    let g = Genetics::new(12, &mut rng);
    assert_eq!(g.population.len(), 12);
    assert!(g.iter().all(|c| c.genes.len() == GENE_COUNT && c.fitness == 0));
    assert_eq!(Genetics::new(-4, &mut rng).population.len(), 0);
}

#[test]
fn fittest_in_takes_first_minimum() {
    let mut g = population(6);
    g.population[2].fitness = 5;
    g.population[4].fitness = 5;
    assert_eq!(fittest_in(&g.population, 1, 5), 2);
    assert_eq!(fittest_in(&g.population, 3, 3), 4);
    assert_eq!(fittest_in(&g.population, 0, 2), 0);
    assert_eq!(g.best_index(), Some(2));
    assert_eq!(Genetics { population: Vec::new() }.best_index(), None);
}

#[test]
fn selection_preserves_population_size() {
    let mut rng = StdRng::seed_from_u64(7);
    for size in [10usize, 20, 37, 60] {
        for rates in [(50i8, 25i8, 25i8), (100, 0, 0), (0, 0, 100), (34, 33, 33), (60, 20, 20)] {
            let mut g = population(size);
            let before = g.population.clone();
            assert_eq!(g.selection(&rates, &mut rng), Ok(()));
            assert_eq!(g.population.len(), size);
            let fresh = g
                .population
                .iter()
                .filter(|c| !before.iter().any(|b| b.genes == c.genes && b.fitness == c.fitness))
                .count();
            assert_eq!(fresh, rates.2 as usize * size / 100);
            for c in g.iter() {
                assert_eq!(c.genes.len(), GENE_COUNT);
            }
        }
    }
}

#[test]
fn selection_keeps_each_survivor_once() {
    let mut rng = StdRng::seed_from_u64(11);
    let mut g = population(20);
    assert_eq!(g.selection(&(50, 40, 10), &mut rng), Ok(()));
    let mut ids: Vec<u64> = g.population.iter().map(|c| c.fitness).filter(|f| *f != 0).collect();
    ids.sort();
    ids.dedup();
    assert_eq!(ids.len(), 18);
    assert!(ids.iter().all(|f| (100..120).contains(f)));
    // all by tournament: the window of 2 does not fit the last remaining one
    assert_eq!(g.selection(&(50, 50, 0), &mut rng), Err(GeneticsError::TournamentTooLarge));
}

#[test]
fn selection_rejects_invalid_rates() {
    let mut rng = StdRng::seed_from_u64(2);
    let mut g = population(10);
    let before = g.population.clone();
    assert_eq!(g.selection(&(50, 25, 20), &mut rng), Err(GeneticsError::InvalidRates));
    assert_eq!(g.selection(&(110, -5, -5), &mut rng), Err(GeneticsError::InvalidRates));
    assert_eq!(g.population.len(), before.len());
    assert!(g.population.iter().zip(before.iter()).all(|(a, b)| a.genes == b.genes));
}

#[test]
fn selection_rejects_oversized_tournament() {
    let mut rng = StdRng::seed_from_u64(2);
    // 100 chromosomes, all by tournament: the window of 10 does not fit
    // into the last remaining chromosome
    let mut g = population(100);
    assert_eq!(g.selection(&(0, 100, 0), &mut rng), Err(GeneticsError::TournamentTooLarge));
    assert_eq!(g.population.len(), 100);
    // with enough fresh chromosomes left over, it does
    assert_eq!(g.selection(&(0, 90, 10), &mut rng), Ok(()));
    assert_eq!(g.population.len(), 100);
}

#[test]
fn swap_segments_exchanges_values() {
    let mut g = population(3);
    let a_before = g.population[0].genes.clone();
    let b_before = g.population[2].genes.clone();
    g.swap_segments(0, 5, 2, 40, 3);
    assert_eq!(g.population[0].genes[5..8], b_before[40..43]);
    assert_eq!(g.population[2].genes[40..43], a_before[5..8]);
    assert_eq!(g.population[0].genes[..5], a_before[..5]);
    assert_eq!(g.population[0].genes[8..], a_before[8..]);
    assert_eq!(g.population[1].genes, population(3).population[1].genes);
}

#[test]
fn crossover_preserves_lengths_and_genes() {
    let mut rng = StdRng::seed_from_u64(5);
    let mut g = population(10);
    let before = sorted_genes(&g);
    assert_eq!(g.crossover(&50, &mut rng), Ok(()));
    assert_eq!(g.population.len(), 10);
    assert!(g.iter().all(|c| c.genes.len() == GENE_COUNT));
    assert_eq!(sorted_genes(&g), before);
    let fitness: Vec<u64> = g.iter().map(|c| c.fitness).collect();
    assert_eq!(fitness, (100..110).collect::<Vec<u64>>());
}

#[test]
fn one_crossover_event_swaps_one_segment_pair() {
    let mut rng = StdRng::seed_from_u64(21);
    let mut g = population(10);
    let before = population(10);
    // 10% of 10 chromosomes: one event
    assert_eq!(g.crossover(&10, &mut rng), Ok(()));
    let changed: Vec<usize> = (0..10)
        .filter(|&i| g.population[i].genes != before.population[i].genes)
        .collect();
    assert_eq!(changed.len(), 2);
    let (a, b) = (changed[0], changed[1]);
    let moved_in_a: Vec<u32> = (0..GENE_COUNT)
        .filter(|&k| g.population[a].genes[k] != before.population[a].genes[k])
        .map(|k| g.population[a].genes[k])
        .collect();
    assert!(!moved_in_a.is_empty() && moved_in_a.len() <= GENE_COUNT / 2);
    assert!(moved_in_a.iter().all(|v| before.population[b].genes.contains(v)));
    assert_eq!(sorted_genes(&g), sorted_genes(&before));
}

#[test]
fn crossover_moves_genes_between_chromosomes() {
    let mut rng = StdRng::seed_from_u64(9);
    let mut g = population(4);
    assert_eq!(g.crossover(&100, &mut rng), Ok(()));
    let moved = g
        .iter()
        .enumerate()
        .any(|(i, c)| c.genes.iter().any(|v| (*v as usize) / 1000 != i));
    assert!(moved);
}

#[test]
fn crossover_needs_two_chromosomes() {
    let mut rng = StdRng::seed_from_u64(5);
    let mut g = population(1);
    assert_eq!(g.crossover(&60, &mut rng), Err(GeneticsError::PopulationTooSmall));
    // a rate of 40% of one chromosome rounds to no event at all
    assert_eq!(g.crossover(&40, &mut rng), Ok(()));
    assert_eq!(g.population[0].genes, population(1).population[0].genes);
}

#[test]
fn apply_mutations_writes_only_the_sites() {
    let mut g = population(3);
    let before = population(3);
    g.apply_mutations(&vec![(1, 4, 7), (2, 0, 9), (1, 4, 8)]);
    assert_eq!(g.population[1].genes[4], 8);
    assert_eq!(g.population[2].genes[0], 9);
    for c in 0..3 {
        for k in 0..GENE_COUNT {
            if (c, k) != (1, 4) && (c, k) != (2, 0) {
                assert_eq!(g.population[c].genes[k], before.population[c].genes[k]);
            }
        }
        assert_eq!(g.population[c].fitness, before.population[c].fitness);
    }
}

#[test]
fn mutation_changes_few_genes() {
    let mut rng = StdRng::seed_from_u64(4);
    let mut g = population(10);
    let before = population(10);
    // one chromosome (10% of 10), three genes (5% of 60)
    g.mutation(&(10, 5), &mut rng);
    let mut changed = 0;
    let mut changed_chromosomes = 0;
    for c in 0..10 {
        assert_eq!(g.population[c].fitness, before.population[c].fitness);
        assert_eq!(g.population[c].genes.len(), GENE_COUNT);
        let mut here = 0;
        for k in 0..GENE_COUNT {
            if g.population[c].genes[k] != before.population[c].genes[k] {
                here += 1;
            }
        }
        changed += here;
        if here > 0 {
            changed_chromosomes += 1;
        }
    }
    assert!(changed >= 1 && changed <= 3);
    assert_eq!(changed_chromosomes, 1);
    let mut h = population(10);
    h.mutation(&(0, 50), &mut rng);
    assert_eq!(sorted_genes(&h), sorted_genes(&population(10)));
}

#[test]
fn set_fitness_uses_dataset_mean() {
    let mut g = Genetics {
        population: vec![
            Chromosome { genes: vec![1, 1], fitness: 0 },
            Chromosome { genes: vec![0, 0], fitness: 0 },
        ],
    };
    let data = vec![vec![2, 4, 3, 9], vec![1, 1, 1], vec![0, 0, 3]];
    g.set_fitness_for_dataset(&data);
    assert_eq!(g.population[0].fitness, 2);
    assert_eq!(g.population[1].fitness, u64::MAX);
    assert_eq!(g.population[0].genes, vec![1, 1]);
}

#[test]
fn stop_rule() {
    assert!(should_stop(3, 4, 0, 3600));
    assert!(!should_stop(4, 4, 3600, 3600));
    assert!(should_stop(9, 4, 3601, 3600));
}

fn periodic_series(len: usize) -> Vec<i32> {
    let cycle = [0, 3_000, 5_000, 3_000, 0, -3_000, -5_000, -3_000];
    (0..len).map(|i| cycle[i % cycle.len()] + 10_000).collect()
}

#[test]
fn seeded_run_records_best_of_each_generation() {
    let mut rng = StdRng::seed_from_u64(2024);
    let data = vec![periodic_series(200), periodic_series(150)];
    let mut g = Genetics::new(10, &mut rng);
    let mut history: Vec<u64> = Vec::new();
    for _ in 0..15 {
        g.set_fitness_for_dataset(&data);
        let best = g.best_index().unwrap();
        let best_fitness = g.population[best].fitness;
        assert!(g.iter().all(|c| c.fitness >= best_fitness));
        history.push(best_fitness);
        assert_eq!(g.selection(&(50, 25, 25), &mut rng), Ok(()));
        assert_eq!(g.crossover(&10, &mut rng), Ok(()));
        g.mutation(&(10, 5), &mut rng);
        assert_eq!(g.population.len(), 10);
    }
    assert_eq!(history.len(), 15);
    // the same seed gives the same initial population
    let h = Genetics::new(10, &mut StdRng::seed_from_u64(2024));
    let first = Genetics::new(10, &mut StdRng::seed_from_u64(2024));
    assert!(h.iter().zip(first.iter()).all(|(a, b)| a.genes == b.genes));
}
