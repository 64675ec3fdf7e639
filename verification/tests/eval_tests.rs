use solver::eval_func::{evaluate, individual};
use solver::structs::{Gender, SolveError, Student};

fn student(id: usize, gender: Gender) -> Student {
    Student {
        id,
        name: format!("Student {}", id),
        academic_ability: 3,
        exercise_ability: 3,
        leadership_ability: 3,
        needs_assistance: false,
        gender,
    }
}

#[test]
fn evaluate_exact_value_on_two_seats() {
    // A full 1x2 grid scored against itself. Each student has exactly one
    // former neighbour, still at Manhattan distance 1, so both individual
    // scores are 1000 and the base is 1000. All four localized means are
    // uniform, so each balance term contributes its full weight of 1000.
    let grid = vec![vec![0usize, 1usize]];
    let students = vec![student(0, Gender::Male), student(1, Gender::Female)];
    let score = evaluate(&grid, &grid, &students).unwrap();
    assert_eq!(score, 5000);

    let indiv = individual(&grid, &grid, &students).unwrap();
    assert_eq!(indiv, vec![1000, 1000]);
}

#[test]
fn uniform_attributes_balance_fully() {
    // All-identical attributes on a 2x3 grid with one empty seat: the
    // balance ratio is exactly one for every attribute, so the score is the
    // individual-score mean plus the four full weights.
    let grid = vec![vec![0usize, 1, 2], vec![3, 4, !0]];
    let students: Vec<Student> = (0..5).map(|i| student(i, Gender::Male)).collect();
    let score = evaluate(&grid, &grid, &students).unwrap();
    let indiv = individual(&grid, &grid, &students).unwrap();
    let n = students.len() as i64;
    let base = indiv.iter().sum::<i64>().div_euclid(n);
    assert_eq!(score, base + 4000);
}

#[test]
fn assistance_near_anchor_scores_higher() {
    // A student needing assistance is penalized by the distance to the
    // anchor above the middle column: seated in the front row the penalty is
    // smaller than in the back row.
    let mk = |id: usize, needs: bool| Student {
        id,
        name: format!("Student {}", id),
        academic_ability: 3,
        exercise_ability: 3,
        leadership_ability: 3,
        needs_assistance: needs,
        gender: Gender::Male,
    };
    let with_need = vec![mk(0, true), mk(1, false), mk(2, false), mk(3, false)];
    let without = vec![mk(0, false), mk(1, false), mk(2, false), mk(3, false)];
    let prev = vec![vec![0usize, 1], vec![2, 3]];
    let scored_with = individual(&prev, &prev, &with_need).unwrap();
    let scored_without = individual(&prev, &prev, &without).unwrap();
    // The penalty at seat (x=0, y=0) on a two-column grid is exactly
    // isqrt(250000 * ((2*0-2)^2 + (2*0+2)^2)) = isqrt(2000000) = 1414.
    assert_eq!(scored_with[0], scored_without[0] - 1414);
    // The other students are untouched.
    assert_eq!(scored_with[1..], scored_without[1..]);
}

#[test]
fn widest_supported_grid_scores() {
    // The engine accepts grids of up to 1024 columns and rows.
    let mut row = vec![!0usize; 1024];
    for (i, cell) in row.iter_mut().enumerate() {
        *cell = i;
    }
    let grid = vec![row];
    let students: Vec<Student> = (0..1024)
        .map(|i| student(i, if i % 2 == 0 { Gender::Male } else { Gender::Female }))
        .collect();
    assert!(evaluate(&grid, &grid, &students).is_ok());
}

#[test]
fn shape_mismatch_is_reported() {
    // Occupancy differs between reference and candidate: a typed error.
    let prev = vec![vec![0usize, 1], vec![!0, 2]];
    let cand = vec![vec![0usize, 1], vec![2, !0]];
    let students: Vec<Student> = (0..3).map(|i| student(i, Gender::Male)).collect();
    assert_eq!(evaluate(&prev, &cand, &students), Err(SolveError::ShapeMismatch));

    // A student id outside the dense range is a mismatch too.
    let bad = vec![vec![0usize, 7]];
    let two: Vec<Student> = (0..2).map(|i| student(i, Gender::Male)).collect();
    assert_eq!(evaluate(&bad, &bad, &two), Err(SolveError::ShapeMismatch));
}
