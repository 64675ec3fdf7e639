use solver::solve;
use solver::structs::{Gender, Student};
use solver::utils::swap_seats;

#[test]
fn check_ignoreing_vacant() {
    let students = (0..24)
        .map(|i| Student {
            id: i,
            name: format!("Student {}", i),
            academic_ability: 3,
            exercise_ability: 3,
            leadership_ability: 3,
            needs_assistance: i < 3,
            gender: if i < 15 { Gender::Male } else { Gender::Female },
        })
        .collect::<Vec<Student>>();

    let mut seat_assignment = vec![vec![!0; 5]; 5];
    for j in 0..24 {
        let (x, y) = (j % 5, j / 5);
        seat_assignment[y][x] = j;
    }
    for i in 0..25 {
        let (x, y) = (i % 5, i / 5);
        swap_seats(&mut seat_assignment, (x, y), (4, 4));
        let res = solve(&seat_assignment, &students);
        assert!(res.is_ok());
        swap_seats(&mut seat_assignment, (x, y), (4, 4));
    }
}
