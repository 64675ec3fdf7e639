#![allow(unused_imports)]
use vstd::prelude::*;

pub mod beam_search;
pub mod eval_func;
pub mod grid;
pub mod math;
pub mod rng;
pub mod simulated_annealing;
pub mod structs;
pub mod tabu_search;
pub mod utils;

verus! {

use crate::eval_func::{grids_wf, spec_evaluate};
use crate::grid::{
    count_id, count_id_upto, is_rect, lemma_count_exists, lemma_count_indicator,
    lemma_count_nonneg, lemma_flat_to_cell, ok_pair, VACANT,
};
use crate::rng::{content_seed, spec_content_seed, SeededRng};
use crate::simulated_annealing::sa_model;
use crate::structs::{SeatAssignment, SolveError, Student};
use crate::utils::{
    cell_id, check_input, compress_student_id, count_sid, count_uid, err_dups, has_duplicate,
    id_sorted, index_of_id, is_sorted_arrangement, lemma_count_sid_exists, lemma_count_sid_pos,
    lemma_count_sid_two, lemma_count_uid_multiset, lemma_grid_count, lemma_grid_view,
    lemma_index_of_id, lemma_occ_parallel, lemma_occ_students_all, lemma_occ_students_len,
    lemma_occ_students_mem, lemma_parallel_counts, lemma_sorted_arrangement_unique, occ_ids,
    occ_students, separate_input, sorted_arrangement_of, unique_ids,
};

/// Iteration budget of the default annealing strategy. Deliberately modest:
/// it keeps a full end-to-end solve fast enough for interactive use and for
/// the test suite's per-test time budget. Quality-sensitive callers should
/// invoke the annealing strategy directly with a larger budget — a few
/// hundred thousand iterations is reasonable for classroom-sized grids.
pub const LOOP_CNT: usize = 5000;

/// Start and end temperatures of the annealing schedule, in thousandths.
pub const T1_MILLI: i64 = 119500;

pub const T2_MILLI: i64 = 1563;

/// The exact outcome of `solve` on a given input: the default annealing run,
/// seeded from the content hash, starting from a fresh stream.
pub open spec fn solve_model(gp: Seq<Seq<usize>>, ss: Seq<Student>) -> (Seq<Seq<usize>>, int, Seq<u64>) {
    sa_model(
        gp,
        ss,
        spec_content_seed(ss, gp, gp.len() as int, gp[0].len() as int),
        Seq::empty(),
        T1_MILLI as int,
        T2_MILLI as int,
        LOOP_CNT as int,
        LOOP_CNT as int,
    )
}

/// Determinism: `solve`'s outcome is a function of the layout and student
/// list alone — two calls over identical inputs yield identical layouts and
/// scores.
pub proof fn lemma_solve_deterministic(
    gp: Seq<Seq<usize>>,
    ss: Seq<Student>,
    a: (Seq<Seq<usize>>, int),
    b: (Seq<Seq<usize>>, int),
)
    requires
        a.0 == solve_model(gp, ss).0,
        a.1 == solve_model(gp, ss).1,
        b.0 == solve_model(gp, ss).0,
        b.1 == solve_model(gp, ss).1,
    ensures
        a == b,
{
}

/// The input's occupied records in ascending id order (a single sequence
/// when ids are unique, which every accepted input has).
pub open spec fn students_of(inp: Seq<Vec<Option<Student>>>) -> Seq<Student> {
    sorted_arrangement_of(occ_students(inp, inp.len() as int))
}

/// The dense, compacted form of the external layout: vacant seats become
/// `VACANT`, every occupant id becomes its position in the sorted student
/// list.
pub open spec fn compact_grid_of(inp: Seq<Vec<Option<Student>>>) -> Seq<Seq<usize>> {
    Seq::new(
        inp.len(),
        |y: int|
            Seq::new(
                inp[y]@.len(),
                |x: int|
                    if inp[y]@[x] is Some {
                        index_of_id(students_of(inp), (inp[y]@[x]->0).id) as usize
                    } else {
                        VACANT
                    },
            ),
    )
}

/// The sorted students, reindexed with their positions.
pub open spec fn compact_students_of(inp: Seq<Vec<Option<Student>>>) -> Seq<Student> {
    Seq::new(
        students_of(inp).len(),
        |i: int| Student { id: i as usize, ..students_of(inp)[i] },
    )
}

/// Runs the default strategy — annealing with the standard schedule — on a
/// dense, compacted layout, seeding the pseudorandom stream from a canonical
/// hash of the students and the layout, so identical inputs give identical
/// outputs.
pub fn solve(previous: &SeatAssignment, students: &Vec<Student>) -> (r: Result<
    (SeatAssignment, i64),
    SolveError,
>)
    requires
        grids_wf(previous.deep_view(), previous.deep_view()),
        ok_pair(
            previous.deep_view(),
            previous.deep_view(),
            students@.len() as int,
            previous.deep_view().len() as int,
            previous.deep_view()[0].len() as int,
        ),
        1 <= students@.len() <= 1048576,
    ensures
        r is Ok,
        ({
            let gp = previous.deep_view();
            let out = r->Ok_0.0.deep_view();
            &&& ok_pair(gp, out, students@.len() as int, gp.len() as int, gp[0].len() as int)
            &&& r->Ok_0.1 as int == spec_evaluate(gp, out, students@)
            &&& out == solve_model(gp, students@).0
            &&& r->Ok_0.1 as int == solve_model(gp, students@).1
        }),
{
    proof {
        lemma_grid_view(*previous);
        assert(previous@[0int]@ == previous.deep_view()[0int]);
    }
    let seed: u64 = content_seed(students, previous);
    let mut rng = SeededRng::new(seed);
    crate::simulated_annealing::execute(previous, students, LOOP_CNT, &mut rng, T1_MILLI, T2_MILLI)
}

/// Solves an external layout end to end: rejects duplicate ids (listing all
/// of them), rejects a layout without occupants, compacts the remaining
/// students to dense ids, runs the default strategy, and re-expands the best
/// layout found to the caller's original identities.
#[verifier::rlimit(100)]
pub fn execute(current_layout: &Vec<Vec<Option<Student>>>) -> (r: Result<
    (Vec<Vec<Option<Student>>>, i64),
    SolveError,
>)
    requires
        1 <= current_layout@.len() <= 1024,
        1 <= current_layout@[0int]@.len() <= 1024,
        forall|y: int|
            0 <= y < current_layout@.len() ==> (#[trigger] current_layout@[y])@.len()
                == current_layout@[0int]@.len(),
        forall|y: int, x: int|
            0 <= y < current_layout@.len() && 0 <= x < current_layout@[y]@.len() && (
            #[trigger] current_layout@[y]@[x]) is Some ==> (current_layout@[y]@[x]->0).id
                < usize::MAX,
    ensures
        ({
            let inp = current_layout@;
            let ids = occ_ids(inp, inp.len() as int);
            let ss = occ_students(inp, inp.len() as int);
            &&& ((r is Err) && r->Err_0 is InvalidInput) <==> has_duplicate(ids)
            &&& ((r is Err) && r->Err_0 is InvalidInput) ==> ({
                let dups = err_dups(r->Err_0);
                &&& forall|a: int, b: int|
                    0 <= a < b < dups.len() ==> (#[trigger] dups[a]) < (#[trigger] dups[b])
                &&& forall|vv: usize| dups.contains(vv) <==> ids.to_multiset().count(vv) >= 2
            })
            &&& ((r is Err) && r->Err_0 == SolveError::NoFeasibleResult) <==> (!has_duplicate(ids)
                && ss.len() == 0)
            &&& (r is Ok) <==> (!has_duplicate(ids) && ss.len() >= 1)
            &&& (r is Ok) ==> ({
                let out = r->Ok_0.0;
                &&& out@.len() == inp.len()
                &&& forall|y: int|
                    0 <= y < inp.len() ==> (#[trigger] out@[y])@.len() == inp[y]@.len()
                &&& forall|y: int, x: int|
                    0 <= y < inp.len() && 0 <= x < inp[y]@.len() ==> ((#[trigger] out@[y]@[x])
                        is Some <==> inp[y]@[x] is Some)
                &&& forall|y: int, x: int|
                    0 <= y < inp.len() && 0 <= x < inp[y]@.len() && (#[trigger] out@[y]@[x])
                        is Some ==> ss.contains(out@[y]@[x]->0)
                &&& forall|k: int|
                    #![trigger ss[k]]
                    0 <= k < ss.len() ==> exists|y: int, x: int|
                        0 <= y < inp.len() && 0 <= x < inp[y]@.len() && (#[trigger] out@[y]@[x])
                            == Some(ss[k])
                &&& r->Ok_0.1 as int == solve_model(
                    compact_grid_of(inp),
                    compact_students_of(inp),
                ).1
                &&& forall|y: int, x: int|
                    0 <= y < inp.len() && 0 <= x < inp[y]@.len() ==> (#[trigger] out@[y]@[x]) == ({
                        let c = solve_model(compact_grid_of(inp), compact_students_of(inp)).0[y][x];
                        if c == VACANT {
                            Option::<Student>::None
                        } else {
                            Option::Some(students_of(inp)[c as int])
                        }
                    })
            })
        }),
{
    let ghost inp = current_layout@;
    let ghost dd = inp.len() as int;
    let ghost ww = inp[0int]@.len() as int;
    let ghost ids_all = occ_ids(inp, dd);
    let ghost ss_all = occ_students(inp, dd);
    match check_input(current_layout) {
        Err(e) => {
            return Err(e);
        },
        Ok(_) => {},
    }
    // No id occurs twice from here on.
    proof {
        lemma_occ_parallel(inp, dd);
        assert forall|vv: usize| #[trigger] count_sid(ss_all, vv) <= 1 by {
            lemma_parallel_counts(ids_all, ss_all, vv);
            lemma_count_uid_multiset(ids_all, vv);
            if ids_all.to_multiset().count(vv) >= 2 {
                assert(has_duplicate(ids_all));
            }
        }
    }
    let sep = separate_input(current_layout);
    let mut previous = sep.0;
    let mut students = sep.1;
    let ghost pre_students = students@;
    let ghost raw_grid = previous.deep_view();
    let n: usize = students.len();
    proof {
        lemma_occ_students_len(inp, dd, ww);
        assert(dd * ww <= 1048576) by (nonlinear_arith)
            requires
                1 <= dd <= 1024,
                1 <= ww <= 1024,
        ;
    }
    if n == 0 {
        return Err(SolveError::NoFeasibleResult);
    }
    proof {
        lemma_grid_view(previous);
        // The sorted student list has strictly increasing, hence unique, ids.
        assert forall|a: int, b: int| 0 <= a < b < pre_students.len() implies (
        #[trigger] pre_students[a]).id < (#[trigger] pre_students[b]).id by {
            if pre_students[a].id == pre_students[b].id {
                lemma_count_sid_two(pre_students, a, b);
                assert(count_sid(ss_all, pre_students[a].id) >= 2);
            }
        }
        // Every student id is below the vacancy mark.
        lemma_occ_students_all(inp, dd, |s: Student| s.id < VACANT);
        assert forall|i: int| 0 <= i < pre_students.len() implies (
        #[trigger] pre_students[i]).id < VACANT by {
            lemma_count_sid_pos(pre_students, i);
            lemma_count_sid_exists(ss_all, pre_students[i].id);
            let k = choose|k: int|
                0 <= k < ss_all.len() && (#[trigger] ss_all[k]).id == pre_students[i].id;
        }
        // Every occupied cell's id belongs to some student.
        assert forall|y: int, x: int|
            0 <= y < raw_grid.len() && 0 <= x < raw_grid[y].len() && (#[trigger] raw_grid[y][x])
                != VACANT implies exists|i: int|
            0 <= i < pre_students.len() && (#[trigger] pre_students[i]).id == raw_grid[y][x] by {
            assert(raw_grid[y][x] == previous@[y]@[x]);
            assert(previous@[y]@[x] == cell_id(inp[y]@[x]));
            assert(inp[y]@[x] is Some);
            lemma_occ_students_mem(inp, y, x, dd);
            let k = choose|k: int| 0 <= k < ss_all.len() && (#[trigger] ss_all[k]) == inp[y]@[x]->0;
            lemma_count_sid_pos(ss_all, k);
            lemma_count_sid_exists(pre_students, raw_grid[y][x]);
        }
    }
    // Retain the original ids, in their (sorted) list order.
    let mut original_ids: Vec<usize> = Vec::new();
    let mut i0: usize = 0;
    while i0 < n
        invariant
            i0 <= n,
            n == students@.len(),
            students@ == pre_students,
            original_ids@.len() == i0,
            forall|t: int| 0 <= t < i0 ==> (#[trigger] original_ids@[t]) == pre_students[t].id,
        decreases n - i0,
    {
        original_ids.push(students[i0].id);
        i0 = i0 + 1;
    }
    let ghost old_rows = previous@;
    proof {
        lemma_grid_view(previous);
        assert(raw_grid.len() == dd);
        assert forall|y: int| 0 <= y < dd implies (#[trigger] raw_grid[y]) == old_rows[y]@ by {}
        assert forall|y: int| 0 <= y < dd implies (#[trigger] raw_grid[y]).len() == ww by {
            assert(raw_grid[y] == previous@[y]@);
        }
        assert forall|y: int, x: int| 0 <= y < dd && 0 <= x < ww implies (
        #[trigger] raw_grid[y][x]) == cell_id(inp[y]@[x]) by {
            assert(raw_grid[y] == previous@[y]@);
        }
        assert forall|y: int, x: int|
            0 <= y < previous@.len() && 0 <= x < previous@[y]@.len() && (
            #[trigger] previous@[y]@[x]) != VACANT implies exists|i: int|
            0 <= i < students@.len() && (#[trigger] students@[i]).id == previous@[y]@[x] by {
            assert(raw_grid[y] == previous@[y]@);
            assert(previous@[y]@[x] == raw_grid[y][x]);
        }
    }
    compress_student_id(&mut students, &mut previous);
    let ghost cgrid = previous.deep_view();
    proof {
        lemma_grid_view(previous);
        // The compacted pair is a valid input for the search strategies.
        assert(is_rect(cgrid, dd, ww)) by {
            assert forall|y: int| 0 <= y < dd implies (#[trigger] cgrid[y]).len() == ww by {
                assert(cgrid[y] == previous@[y]@);
            }
        }
        assert forall|y: int, x: int| 0 <= y < dd && 0 <= x < ww implies ((#[trigger] cgrid[y][x])
            == VACANT <==> raw_grid[y][x] == VACANT) by {
            assert(cgrid[y][x] == previous@[y]@[x]);
            if raw_grid[y][x] != VACANT {
                assert((previous@[y]@[x] as int) < n as int);
            }
        }
        assert forall|y: int, x: int|
            0 <= y < dd && 0 <= x < ww && cgrid[y][x] != VACANT implies (#[trigger] cgrid[y][x])
            < n by {
            assert(cgrid[y][x] == previous@[y]@[x]);
        }
        assert forall|id: usize| (id as int) < n implies #[trigger] count_id(cgrid, dd, ww, id)
            == 1 by {
            let oid = pre_students[id as int].id;
            assert forall|yy: int, xx: int| 0 <= yy < dd && 0 <= xx < ww implies (((
            #[trigger] cgrid[yy][xx]) == id) <==> (raw_grid[yy][xx] == oid)) by {
                assert(cgrid[yy][xx] == previous@[yy]@[xx]);
                if raw_grid[yy][xx] == VACANT {
                    assert(cgrid[yy][xx] == VACANT);
                } else {
                    let c = previous@[yy]@[xx];
                    assert((c as int) < n as int && pre_students[c as int].id == raw_grid[yy][xx]);
                    if raw_grid[yy][xx] == oid && c != id {
                        assert(pre_students[c as int].id == pre_students[id as int].id);
                        if (c as int) < id as int {
                            assert(pre_students[c as int].id < pre_students[id as int].id);
                        } else {
                            assert(pre_students[id as int].id < pre_students[c as int].id);
                        }
                        assert(false);
                    }
                }
            }
            lemma_count_indicator(cgrid, raw_grid, dd, ww, id, oid, dd * ww);
            assert forall|y: int, x: int| 0 <= y < dd && 0 <= x < ww implies (
            #[trigger] raw_grid[y][x]) == cell_id(inp[y]@[x]) by {}
            lemma_grid_count(inp, raw_grid, dd, ww, dd, oid);
            lemma_parallel_counts(ids_all, ss_all, oid);
            lemma_count_sid_pos(pre_students, id as int);
            assert(count_sid(ss_all, oid) >= 1);
            assert(count_uid(ids_all, oid) == count_id_upto(raw_grid, ww, oid, dd * ww));
        }
        assert(ok_pair(cgrid, cgrid, n as int, dd, ww));
        assert(grids_wf(cgrid, cgrid)) by {
            assert(cgrid[0].len() == ww);
        }
    }
    let solved_pair = match solve(&previous, &students) {
        Ok(p) => p,
        Err(_) => {
            proof {
                assert(false);
            }
            return Err(SolveError::NoFeasibleResult);
        },
    };
    let solved = solved_pair.0;
    let score = solved_pair.1;
    let ghost sv = solved.deep_view();
    proof {
        lemma_grid_view(solved);
    }
    // Re-expand to the original identities.
    let mut out: Vec<Vec<Option<Student>>> = Vec::new();
    let d: usize = solved.len();
    let mut y: usize = 0;
    while y < d
        invariant
            y <= d,
            d as int == dd,
            sv == solved.deep_view(),
            sv.len() == dd,
            is_rect(sv, dd, ww),
            ok_pair(cgrid, sv, n as int, dd, ww),
            n == students@.len(),
            n == pre_students.len(),
            1 <= n,
            original_ids@.len() == n,
            forall|t: int| 0 <= t < n ==> (#[trigger] original_ids@[t]) == pre_students[t].id,
            forall|t: int|
                0 <= t < n ==> (#[trigger] students@[t]) == (Student {
                    id: t as usize,
                    ..pre_students[t]
                }),
            out@.len() == y,
            forall|yy: int| 0 <= yy < y ==> (#[trigger] out@[yy])@.len() == ww,
            forall|yy: int, xx: int|
                0 <= yy < y && 0 <= xx < ww ==> ((#[trigger] out@[yy]@[xx]) == (
                if sv[yy][xx] == VACANT {
                    Option::<Student>::None
                } else {
                    Option::Some(pre_students[sv[yy][xx] as int])
                })),
        decreases d - y,
    {
        let row = &solved[y];
        proof {
            lemma_grid_view(solved);
            assert(row@ == sv[y as int]);
            assert(sv[y as int].len() == ww);
        }
        let mut new_row: Vec<Option<Student>> = Vec::new();
        let wrow: usize = row.len();
        let mut x: usize = 0;
        while x < wrow
            invariant
                x <= wrow,
                y < d,
                d as int == dd,
                wrow as int == ww,
                sv == solved.deep_view(),
                is_rect(sv, dd, ww),
                ok_pair(cgrid, sv, n as int, dd, ww),
                row@ == sv[y as int],
                row@.len() == ww,
                n == students@.len(),
                n == pre_students.len(),
                original_ids@.len() == n,
                forall|t: int| 0 <= t < n ==> (#[trigger] original_ids@[t]) == pre_students[t].id,
                forall|t: int|
                    0 <= t < n ==> (#[trigger] students@[t]) == (Student {
                        id: t as usize,
                        ..pre_students[t]
                    }),
                new_row@.len() == x,
                forall|xx: int|
                    0 <= xx < x ==> ((#[trigger] new_row@[xx]) == (
                    if sv[y as int][xx] == VACANT {
                        Option::<Student>::None
                    } else {
                        Option::Some(pre_students[sv[y as int][xx] as int])
                    })),
            decreases wrow - x,
        {
            let v: usize = row[x];
            if v == usize::MAX {
                new_row.push(None);
            } else {
                proof {
                    assert(sv[y as int][x as int] == v);
                    assert((v as int) < n as int);
                }
                let s = &students[v];
                let restored = Student {
                    id: original_ids[v],
                    name: s.name.clone(),
                    academic_ability: s.academic_ability,
                    exercise_ability: s.exercise_ability,
                    leadership_ability: s.leadership_ability,
                    needs_assistance: s.needs_assistance,
                    gender: s.gender,
                };
                proof {
                    assert(restored == pre_students[v as int]);
                }
                new_row.push(Some(restored));
            }
            x = x + 1;
        }
        out.push(new_row);
        y = y + 1;
    }
    // The output has the input's occupancy and exactly its students.
    proof {
        broadcast use vstd::seq_lib::group_to_multiset_ensures;

        assert forall|yy: int, xx: int| 0 <= yy < dd && 0 <= xx < ww implies ((
        #[trigger] out@[yy]@[xx]) is Some <==> inp[yy]@[xx] is Some) by {
            assert(sv[yy][xx] == VACANT <==> cgrid[yy][xx] == VACANT);
            assert(raw_grid[yy][xx] == cell_id(inp[yy]@[xx]));
            if inp[yy]@[xx] is Some {
                assert((inp[yy]@[xx]->0).id < usize::MAX);
            }
        }
        assert forall|yy: int, xx: int|
            0 <= yy < dd && 0 <= xx < ww && (#[trigger] out@[yy]@[xx]) is Some implies
            ss_all.contains(out@[yy]@[xx]->0) by {
            let v = sv[yy][xx];
            assert(out@[yy]@[xx]->0 == pre_students[v as int]);
            assert(pre_students.contains(pre_students[v as int]));
            assert(pre_students.to_multiset().count(pre_students[v as int]) > 0);
            assert(ss_all.to_multiset().count(pre_students[v as int]) > 0);
            assert(ss_all.contains(pre_students[v as int]));
        }
        assert forall|k: int| #![trigger ss_all[k]] 0 <= k < ss_all.len() implies exists|yy: int, xx: int|
            0 <= yy < inp.len() && 0 <= xx < inp[yy]@.len() && (#[trigger] out@[yy]@[xx]) == Some(
                ss_all[k],
            ) by {
            assert(ss_all.contains(ss_all[k]));
            assert(ss_all.to_multiset().count(ss_all[k]) > 0);
            assert(pre_students.to_multiset().count(ss_all[k]) > 0);
            assert(pre_students.contains(ss_all[k]));
            let j = choose|j: int| 0 <= j < pre_students.len() && pre_students[j] == ss_all[k];
            assert(count_id(sv, dd, ww, j as usize) == 1);
            lemma_count_nonneg(sv, ww, j as usize, dd * ww);
            lemma_count_exists(sv, ww, j as usize, dd * ww);
            let t = choose|t: int| 0 <= t < dd * ww && sv[#[trigger] (t / ww)][t % ww] == j as usize;
            lemma_flat_to_cell(ww, dd, t);
            let yy = t / ww;
            let xx = t % ww;
            assert(out@[yy]@[xx] == Some(pre_students[j]));
            assert(inp[yy]@.len() == ww);
        }
    }
    // The result is the contract's pipeline: the compacted input, solved by
    // the model, re-expanded to the sorted records.
    proof {
        lemma_grid_view(previous);
        let ssm = students_of(inp);
        assert(is_sorted_arrangement(ss_all, pre_students));
        assert(exists|ss2: Seq<Student>| #[trigger] is_sorted_arrangement(ss_all, ss2));
        assert(is_sorted_arrangement(ss_all, sorted_arrangement_of(ss_all)));
        assert(unique_ids(pre_students));
        lemma_sorted_arrangement_unique(pre_students, sorted_arrangement_of(ss_all));
        assert(ssm == pre_students);
        assert(cgrid =~~= compact_grid_of(inp)) by {
            assert(compact_grid_of(inp).len() == dd);
            assert forall|y: int| 0 <= y < dd implies (#[trigger] cgrid[y]).len()
                == compact_grid_of(inp)[y].len() by {
                assert(compact_grid_of(inp)[y].len() == inp[y]@.len());
            }
            assert forall|y: int, x: int| 0 <= y < dd && 0 <= x < ww implies (
            #[trigger] cgrid[y][x]) == compact_grid_of(inp)[y][x] by {
                assert(cgrid[y] == previous@[y]@);
                if inp[y]@[x] is Some {
                    assert(raw_grid[y][x] == cell_id(inp[y]@[x]));
                    assert(raw_grid[y][x] != VACANT);
                    assert(old_rows[y]@[x] == raw_grid[y][x]);
                    let c = cgrid[y][x];
                    assert((previous@[y]@[x] as int) < pre_students.len()
                        && pre_students[previous@[y]@[x] as int].id == old_rows[y]@[x]);
                    assert((c as int) < pre_students.len() && pre_students[c as int].id == (
                    inp[y]@[x]->0).id);
                    lemma_index_of_id(pre_students, c as int);
                    assert(index_of_id(ssm, (inp[y]@[x]->0).id) == c as int);
                    assert(compact_grid_of(inp)[y][x] == (index_of_id(
                        ssm,
                        (inp[y]@[x]->0).id,
                    ) as usize));
                } else {
                    assert(raw_grid[y][x] == VACANT);
                    assert(cgrid[y][x] == VACANT);
                    assert(compact_grid_of(inp)[y][x] == VACANT);
                }
            }
        }
        assert(students@ =~= compact_students_of(inp)) by {
            assert(compact_students_of(inp).len() == ssm.len());
            assert forall|t: int| 0 <= t < students@.len() implies (#[trigger] students@[t])
                == compact_students_of(inp)[t] by {
                assert(compact_students_of(inp)[t] == (Student {
                    id: t as usize,
                    ..ssm[t]
                }));
            }
        }
        assert(cgrid == compact_grid_of(inp));
        assert(sv == solve_model(compact_grid_of(inp), compact_students_of(inp)).0);
        assert(score as int == solve_model(compact_grid_of(inp), compact_students_of(inp)).1);
        assert forall|y: int, x: int| 0 <= y < dd && 0 <= x < ww implies (
        #[trigger] out@[y]@[x]) == ({
            let c = solve_model(compact_grid_of(inp), compact_students_of(inp)).0[y][x];
            if c == VACANT {
                Option::<Student>::None
            } else {
                Option::Some(students_of(inp)[c as int])
            }
        }) by {
            assert(out@[y]@[x] == (if sv[y][x] == VACANT {
                Option::<Student>::None
            } else {
                Option::Some(pre_students[sv[y][x] as int])
            }));
        }
    }
    Ok((out, score))
}

} // verus!
