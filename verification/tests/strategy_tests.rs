use solver::beam_search::beam_search;
use solver::eval_func::evaluate;
use solver::execute;
use solver::rng::SeededRng;
use solver::solve;
use solver::structs::{Gender, SolveError, Student};
use solver::{simulated_annealing, tabu_search, T1_MILLI, T2_MILLI};

fn student(id: usize, gender: Gender) -> Student {
    Student {
        id,
        name: format!("Student {}", id),
        academic_ability: 3,
        exercise_ability: 3,
        leadership_ability: 3,
        needs_assistance: false,
        gender,
    }
}

fn occupied_cells(grid: &Vec<Vec<usize>>) -> Vec<(usize, usize)> {
    let mut cells = vec![];
    for (y, row) in grid.iter().enumerate() {
        for (x, &v) in row.iter().enumerate() {
            if v != !0 {
                cells.push((y, x));
            }
        }
    }
    cells
}

#[test]
fn two_seat_scenario_all_strategies() {
    // A 1x2 grid, two students, identical abilities, opposite genders: every
    // strategy returns a grid occupying both seats, with a finite score.
    let prev = vec![vec![0usize, 1]];
    let students = vec![student(0, Gender::Male), student(1, Gender::Female)];

    let (g1, s1) = solve(&prev, &students).unwrap();
    assert_eq!(occupied_cells(&g1), occupied_cells(&prev));
    assert_eq!(evaluate(&prev, &g1, &students).unwrap(), s1);

    let (g2, s2) = beam_search(&prev, &students, 3).unwrap();
    assert_eq!(occupied_cells(&g2), occupied_cells(&prev));
    assert_eq!(evaluate(&prev, &g2, &students).unwrap(), s2);

    let mut rng = SeededRng::new(7);
    let (g3, s3) = tabu_search::execute(&prev, &students, 5, 4, 3, &mut rng).unwrap();
    assert_eq!(occupied_cells(&g3), occupied_cells(&prev));
    assert_eq!(evaluate(&prev, &g3, &students).unwrap(), s3);
    assert!(s3 >= evaluate(&prev, &prev, &students).unwrap());
}

#[test]
fn annealing_zero_iterations_returns_reference_score() {
    let prev = vec![vec![0usize, 1, !0], vec![2, !0, 3]];
    let students: Vec<Student> = (0..4).map(|i| student(i, Gender::Male)).collect();
    let mut rng = SeededRng::new(123);
    let (grid, score) =
        simulated_annealing::execute(&prev, &students, 0, &mut rng, T1_MILLI, T2_MILLI).unwrap();
    assert_eq!(grid, prev);
    assert_eq!(score, evaluate(&prev, &prev, &students).unwrap());
}

#[test]
fn solve_is_deterministic_for_identical_inputs() {
    let prev = vec![vec![0usize, 1], vec![2, !0]];
    let students: Vec<Student> = vec![
        student(0, Gender::Male),
        student(1, Gender::Female),
        student(2, Gender::Male),
    ];
    let (g1, s1) = solve(&prev, &students).unwrap();
    let (g2, s2) = solve(&prev, &students).unwrap();
    assert_eq!(g1, g2);
    assert_eq!(s1, s2);
}

#[test]
fn beam_widths_agree_on_a_two_seat_grid() {
    // On a 1x2 grid every beam width explores the same two layouts, so the
    // best score can only stay the same as the beam widens.
    let prev = vec![vec![0usize, 1]];
    let students = vec![student(0, Gender::Male), student(1, Gender::Female)];
    let s1 = beam_search(&prev, &students, 1).unwrap().1;
    let s2 = beam_search(&prev, &students, 2).unwrap().1;
    let s3 = beam_search(&prev, &students, 3).unwrap().1;
    assert!(s1 <= s2);
    assert!(s2 <= s3);
}

#[test]
fn beam_search_is_deterministic() {
    let prev = vec![vec![0usize, 1, !0], vec![2, 3, 4]];
    let students: Vec<Student> = (0..5)
        .map(|i| student(i, if i % 2 == 0 { Gender::Male } else { Gender::Female }))
        .collect();
    let (g1, s1) = beam_search(&prev, &students, 2).unwrap();
    let (g2, s2) = beam_search(&prev, &students, 2).unwrap();
    assert_eq!(g1, g2);
    assert_eq!(s1, s2);
    assert_eq!(occupied_cells(&g1), occupied_cells(&prev));
}

#[test]
fn beam_search_rejects_empty_inputs() {
    let prev = vec![vec![0usize, 1]];
    let students = vec![student(0, Gender::Male), student(1, Gender::Female)];
    assert_eq!(beam_search(&prev, &students, 0), Err(SolveError::NoFeasibleResult));
    let empty_grid = vec![vec![!0usize, !0]];
    let nobody: Vec<Student> = vec![];
    assert_eq!(beam_search(&empty_grid, &nobody, 2), Err(SolveError::NoFeasibleResult));
}

#[test]
fn execute_round_trips_identities() {
    // Arbitrary unique ids; the result holds exactly the same records, each
    // with its original identity, over the same occupied seats.
    let ids = [31usize, 4, 27, 15];
    let input = vec![
        vec![Some(student(31, Gender::Male)), None],
        vec![Some(student(4, Gender::Female)), Some(student(27, Gender::Male))],
        vec![None, Some(student(15, Gender::Female))],
    ];
    let (out, _score) = execute(&input).unwrap();
    assert_eq!(out.len(), 3);
    for y in 0..3 {
        assert_eq!(out[y].len(), 2);
        for x in 0..2 {
            assert_eq!(out[y][x].is_some(), input[y][x].is_some());
        }
    }
    let mut seen: Vec<usize> = out
        .iter()
        .flatten()
        .filter_map(|c| c.as_ref().map(|s| s.id))
        .collect();
    seen.sort();
    let mut expected = ids.to_vec();
    expected.sort();
    assert_eq!(seen, expected);
}

#[test]
fn execute_rejects_duplicates_and_empty_layouts() {
    let dup_input = vec![vec![
        Some(student(1, Gender::Male)),
        Some(student(1, Gender::Male)),
        Some(student(2, Gender::Female)),
    ]];
    match execute(&dup_input) {
        Err(SolveError::InvalidInput { duplicate_ids }) => assert_eq!(duplicate_ids, vec![1]),
        other => panic!("expected InvalidInput, got {:?}", other),
    }

    let empty: Vec<Vec<Option<Student>>> = vec![vec![None, None]];
    assert_eq!(execute(&empty), Err(SolveError::NoFeasibleResult));
}

#[test]
fn seeded_stream_is_deterministic_and_bounded() {
    let mut a = SeededRng::new(42);
    let mut b = SeededRng::new(42);
    let mut c = SeededRng::new(43);
    let mut differs = false;
    for _ in 0..64 {
        let x = a.draw(1000);
        let y = b.draw(1000);
        let z = c.draw(1000);
        assert!(x < 1000);
        assert_eq!(x, y);
        if x != z {
            differs = true;
        }
    }
    assert!(differs);
}
