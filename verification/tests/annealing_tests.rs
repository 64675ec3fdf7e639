use rand::seq::SliceRandom;
use rand::SeedableRng;
use rand_chacha::ChaCha20Rng;
use rand_distr::{Distribution, Normal};

use solver::eval_func::individual;
use solver::rng::SeededRng;
use solver::simulated_annealing::execute;
use solver::structs::{Gender, Student};
use solver::{LOOP_CNT, T1_MILLI, T2_MILLI};

fn mean(values: &[f64]) -> f64 {
    values.iter().sum::<f64>() / values.len() as f64
}

fn standard_deviation(values: &[f64]) -> f64 {
    let n = values.len() as f64;
    let m = mean(values);
    let variance = values.iter().map(|&x| (x - m).powf(2.0)).sum::<f64>() / n;
    variance.sqrt()
}

fn test_case(rng: &mut ChaCha20Rng) -> (Vec<Vec<usize>>, Vec<Student>) {
    let normal = Normal::<f64>::new(3.0, 1.0).unwrap();

    let students = (0..30)
        .map(|i| Student {
            id: i,
            name: format!("Student {}", i),
            academic_ability: (normal.sample(rng).round() as usize).max(1).min(5),
            exercise_ability: (normal.sample(rng).round() as usize).max(1).min(5),
            leadership_ability: (normal.sample(rng).round() as usize).max(1).min(5),
            needs_assistance: i < 3,
            gender: if i < 15 { Gender::Male } else { Gender::Female },
        })
        .collect::<Vec<Student>>();

    let mut seat_assignment = vec![vec![!0; 6]; 5];
    let mut student_ids = (0..30).collect::<Vec<usize>>();
    student_ids.shuffle(rng);
    for i in 0..30 {
        let (x, y) = (i % 6, i / 6);
        seat_assignment[y][x] = student_ids[i];
    }

    (seat_assignment, students)
}

#[test]
fn score_test_simulated_annealing() {
    let mut rng = ChaCha20Rng::seed_from_u64(123);
    let mut solver_rng = SeededRng::new(123);

    let mut scores = vec![];
    let mut individual_scores = vec![];
    for _ in 0..100 {
        let (seat_assignment, students) = test_case(&mut rng);

        let res = execute(
            &seat_assignment,
            &students,
            LOOP_CNT,
            &mut solver_rng,
            T1_MILLI,
            T2_MILLI,
        );
        assert!(res.is_ok());
        let individual_score_sum =
            individual(&seat_assignment, &res.as_ref().unwrap().0, &students)
                .unwrap()
                .iter()
                .sum::<i64>() as f64;
        scores.push(res.unwrap().1 as f64);
        individual_scores.push(individual_score_sum as f64 / students.len() as f64);
    }

    let (score_mean, score_sigma) = (mean(&scores), standard_deviation(&scores));

    println!("Mean: {}", score_mean);
    println!("Sigma: {}", score_sigma);
    println!("Mean(only individual): {}", mean(&individual_scores));
}
