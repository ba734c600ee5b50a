use genetic_anomaly::chromosome::{rmse, Chromosome, GENE_COUNT, WORST_FITNESS};
use rand::rngs::StdRng;
use rand::SeedableRng;

const MICRO: i32 = 1_000_000;

fn micro(values: &[i32]) -> Vec<i32> {
    values.iter().map(|v| v * MICRO).collect()
}

#[test]
fn test_rmse() {
    let one_a = micro(&[34, 37, 44, 47, 48, 48, 46, 43, 32, 27, 26, 24]);
    let one_b = micro(&[37, 40, 46, 44, 46, 50, 45, 44, 34, 30, 22, 23]);
    assert_eq!(rmse(&one_a, &one_b), 2_432_419);

    let two_a = micro(&[15, 18, 32, 1, 11]);
    let two_b = micro(&[24, 16, 32, 55, 12]);
    assert_eq!(rmse(&two_a, &two_b), 24_503_061);

    let three_a = micro(&[1, 2, 3]);
    let three_b = micro(&[1, 2, 3]);
    assert_eq!(rmse(&three_a, &three_b), 0);
}

#[test]
fn rmse_of_identical_series_is_zero() {
    let x = vec![-7, 0, 5, i32::MAX, i32::MIN, 12];
    assert_eq!(rmse(&x, &x), 0);
    assert_eq!(rmse(&Vec::new(), &Vec::new()), 0);
}

#[test]
fn rmse_scales_with_affine_map() {
    let x = vec![1, 4, 9, 2];
    let y = vec![3, 1, 9, 7];
    let base = rmse(&x, &y);
    // squared differences 4, 9, 0, 25: mean 9, root 3
    assert_eq!(base, 3);
    let u: Vec<i32> = x.iter().map(|v| -5 * v + 11).collect();
    let w: Vec<i32> = y.iter().map(|v| -5 * v + 11).collect();
    assert_eq!(rmse(&u, &w), 15);
}

#[test]
fn rmse_of_extreme_values() {
    let a = vec![i32::MIN, i32::MIN];
    let p = vec![i32::MAX, i32::MAX];
    assert_eq!(rmse(&a, &p), u32::MAX as u64);
}

#[test]
fn rmse_rounds_down() {
    // squared differences 1 and 4: mean 2 (rounded down from 2.5), root 1
    assert_eq!(rmse(&vec![0, 0], &vec![1, 2]), 1);
}

fn chromosome(genes: Vec<u32>) -> Chromosome {
    Chromosome { genes, fitness: 0 }
}

#[test]
fn equal_genes_predict_window_mean() {
    let c = chromosome(vec![1; 4]);
    let data: Vec<i32> = (0..10).map(|i| 3 + 4 * i).collect();
    let p = c.predictions(&data);
    assert_eq!(p.len(), 6);
    for i in 0..6 {
        let window: i32 = data[i..i + 4].iter().sum();
        assert_eq!(p[i], window / 4);
        // the mean of a window of an arithmetic series is its middle value
        assert_eq!(p[i], 3 + 4 * i as i32 + 6);
    }
}

#[test]
fn equal_genes_fitness_on_arithmetic_series() {
    let c = chromosome(vec![1; 4]);
    let rising: Vec<i32> = (0..10).map(|i| 3 + 4 * i).collect();
    // every window mean misses the next sample by 4 * (4 + 1) / 2 = 10
    assert_eq!(c.calculate_sample_fitness(&rising), 10);
    let odd_step: Vec<i32> = (0..12).map(|i| -20 + 3 * i).collect();
    // 3 * (4 + 1) / 2 = 7.5: the window mean rounds down, the miss rounds up
    assert_eq!(c.calculate_sample_fitness(&odd_step), 8);
    let heavy = chromosome(vec![7; 4]);
    assert_eq!(heavy.calculate_sample_fitness(&rising), 10);
}

#[test]
fn weighted_predictions_round_down() {
    let c = chromosome(vec![1, 3]);
    let data = vec![10, 20, -5, 7];
    // (10 + 60) / 4 = 17, (20 - 15) / 4 = 1; the last window has no successor
    assert_eq!(c.predictions(&data), vec![17, 1]);
    let d = vec![-3, -3, 0];
    // (-3 - 9) / 4 = -3; below, (-3 + 0) / 2 rounds down to -2
    assert_eq!(c.predictions(&d), vec![-3]);
    assert_eq!(chromosome(vec![1, 1]).predictions(&vec![-3, 0, 0]), vec![-2]);
}

#[test]
fn sample_fitness_is_rmse_of_predictions() {
    let c = chromosome(vec![1, 1]);
    let data = vec![2, 4, 3, 9];
    // predictions 3, 3 against 3, 9: squared differences 0, 36, mean 18, root 4
    assert_eq!(c.calculate_sample_fitness(&data), 4);
}

#[test]
fn zero_genes_give_worst_fitness() {
    let c = chromosome(vec![0, 0, 0]);
    assert_eq!(c.calculate_sample_fitness(&vec![1, 2, 3, 4]), WORST_FITNESS);
}

#[test]
fn dataset_fitness_is_mean_of_series() {
    let c = chromosome(vec![1, 1]);
    let data = vec![vec![2, 4, 3, 9], vec![1, 1, 1], vec![0, 0, 3]];
    // series fitness 4, 0 and 3: mean 7 / 3 rounded down
    assert_eq!(c.calculate_dataset_fitness(&data), 2);
    assert_eq!(c.calculate_dataset_fitness(&Vec::new()), WORST_FITNESS);
}

#[test]
fn new_chromosome_has_random_genes() {
    let mut rng = StdRng::seed_from_u64(3);
    let c = Chromosome::new(&mut rng);
    assert_eq!(c.genes.len(), GENE_COUNT);
    assert_eq!(c.fitness, 0);
    assert!(c.genes.iter().any(|g| *g != c.genes[0]));
    let d = Chromosome::new(&mut rng);
    assert_ne!(c.genes, d.genes);
}
