use solver::structs::{Gender, SolveError, Student};
use solver::utils::{check_input, compress_student_id, separate_input, swap_seats};

fn student(id: usize) -> Student {
    Student {
        id,
        name: format!("Student {}", id),
        academic_ability: 3,
        exercise_ability: 3,
        leadership_ability: 3,
        needs_assistance: false,
        gender: Gender::Male,
    }
}

#[test]
fn test_swap_seats() {
    let mut seat_assignment = vec![vec![!0; 5]; 5];
    for j in 0..25 {
        let (x, y) = (j % 5, j / 5);
        seat_assignment[y][x] = j;
    }
    for i in 0..25 {
        let p1 = (i % 5, i / 5);
        for j in 0..25 {
            let p2 = (j % 5, j / 5);

            let (id1, id2) = (seat_assignment[p1.1][p1.0], seat_assignment[p2.1][p2.0]);
            swap_seats(&mut seat_assignment, p1, p2);

            assert_eq!(seat_assignment[p1.1][p1.0], id2);
            assert_eq!(seat_assignment[p2.1][p2.0], id1);
        }
    }
}

#[test]
fn test_compress_student_id() {
    let mut students1 = (1..=15)
        .map(|i| Student {
            id: i,
            name: format!("Student {}", i),
            academic_ability: 3,
            exercise_ability: 3,
            leadership_ability: 3,
            needs_assistance: false,
            gender: Gender::Male,
        })
        .collect::<Vec<Student>>();
    let mut layout1 = vec![vec![!0; 4]; 4];
    for (i, student) in students1.iter().enumerate() {
        layout1[i / 4][i % 4] = student.id;
    }

    let students1_want = (0..15)
        .map(|i| Student {
            id: i,
            name: format!("Student {}", i + 1),
            academic_ability: 3,
            exercise_ability: 3,
            leadership_ability: 3,
            needs_assistance: false,
            gender: Gender::Male,
        })
        .collect::<Vec<Student>>();
    let mut layout1_want = vec![vec![!0; 4]; 4];
    for (i, student) in students1_want.iter().enumerate() {
        layout1_want[i / 4][i % 4] = student.id;
    }

    compress_student_id(&mut students1, &mut layout1);
    assert_eq!(students1, students1_want);
    assert_eq!(layout1, layout1_want);
}

#[test]
fn compress_then_expand_restores_ids() {
    // Ids in an arbitrary permutation over the seats; compacting and
    // re-expanding through the retained id list reproduces them exactly.
    let ids = [42usize, 7, 19, 3, 1000, 5];
    let mut students: Vec<Student> = ids.iter().map(|&i| student(i)).collect();
    students.sort_by_key(|s| s.id);
    let retained: Vec<usize> = students.iter().map(|s| s.id).collect();

    let mut layout = vec![vec![!0; 3], vec![!0; 3]];
    layout[0][0] = 19;
    layout[0][2] = 42;
    layout[1][0] = 3;
    layout[1][1] = 1000;
    layout[1][2] = 7;
    layout[0][1] = 5;
    let original = layout.clone();

    compress_student_id(&mut students, &mut layout);
    for y in 0..2 {
        for x in 0..3 {
            let v = layout[y][x];
            let expanded = if v == !0 { !0 } else { retained[v] };
            assert_eq!(expanded, original[y][x]);
        }
    }
    for (i, s) in students.iter().enumerate() {
        assert_eq!(s.id, i);
    }
    assert_eq!(retained, vec![3, 5, 7, 19, 42, 1000]);
}

#[test]
fn duplicate_ids_are_all_reported() {
    // Student ids [1, 1, 2] at three distinct seats: rejected, listing [1].
    let input = vec![vec![Some(student(1)), Some(student(1)), Some(student(2))]];
    match check_input(&input) {
        Err(SolveError::InvalidInput { duplicate_ids }) => {
            assert_eq!(duplicate_ids, vec![1]);
        }
        other => panic!("expected InvalidInput, got {:?}", other),
    }

    let input2 = vec![
        vec![Some(student(9)), Some(student(4)), Some(student(9))],
        vec![Some(student(4)), None, Some(student(2))],
    ];
    match check_input(&input2) {
        Err(SolveError::InvalidInput { duplicate_ids }) => {
            assert_eq!(duplicate_ids, vec![4, 9]);
        }
        other => panic!("expected InvalidInput, got {:?}", other),
    }

    let ok_input = vec![vec![Some(student(1)), None, Some(student(2))]];
    assert!(check_input(&ok_input).is_ok());
}

#[test]
fn separate_input_splits_and_sorts() {
    let input = vec![
        vec![Some(student(5)), None],
        vec![Some(student(2)), Some(student(9))],
    ];
    let (grid, students) = separate_input(&input);
    assert_eq!(grid, vec![vec![5, !0], vec![2, 9]]);
    let ids: Vec<usize> = students.iter().map(|s| s.id).collect();
    assert_eq!(ids, vec![2, 5, 9]);
}
