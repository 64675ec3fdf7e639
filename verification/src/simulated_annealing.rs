use vstd::prelude::*;

use crate::eval_func::{evaluate, grids_wf, spec_evaluate};
use crate::grid::{is_rect, ok_pair, VACANT};
use crate::math::{exp_q32, spec_exp_q32};
use crate::rng::{chacha_draw, SeededRng};
use crate::structs::{SeatAssignment, SolveError, Student};
use crate::utils::{copy_grid, is_swap, lemma_grid_view, lemma_swap_ok_pair, swap_seats};

verus! {

/// The grid after exchanging the contents of two cells, written as the two
/// sequential updates the in-place swap performs.
pub open spec fn grid_swap(g: Seq<Seq<usize>>, y1: int, x1: int, y2: int, x2: int) -> Seq<
    Seq<usize>,
> {
    let v1 = g[y1][x1];
    let v2 = g[y2][x2];
    let ga = g.update(y1, g[y1].update(x1, v2));
    ga.update(y2, ga[y2].update(x2, v1))
}

/// The exact state of one annealing run after `i` iterations — the accepted
/// layout, its score and the pseudorandom stream history — as a function of
/// the inputs, the seed and the history the stream started with. The run is
/// a pure function of these, which is what makes two runs over identical
/// inputs identical.
pub open spec fn sa_model(
    gp: Seq<Seq<usize>>,
    ss: Seq<Student>,
    seed: u64,
    h0: Seq<u64>,
    t1: int,
    t2: int,
    loop_cnt: int,
    i: int,
) -> (Seq<Seq<usize>>, int, Seq<u64>)
    decreases i,
{
    if i <= 0 {
        (gp, spec_evaluate(gp, gp, ss), h0)
    } else {
        let prior = sa_model(gp, ss, seed, h0, t1, t2, loop_cnt, i - 1);
        let g = prior.0;
        let sc = prior.1;
        let h = prior.2;
        let d = gp.len() as int;
        let w = gp[0].len() as int;
        let x1 = chacha_draw(seed, h, w as u64) as int;
        let h1 = h.push(w as u64);
        let y1 = chacha_draw(seed, h1, d as u64) as int;
        let h2 = h1.push(d as u64);
        let x2 = chacha_draw(seed, h2, w as u64) as int;
        let h3 = h2.push(w as u64);
        let y2 = chacha_draw(seed, h3, d as u64) as int;
        let h4 = h3.push(d as u64);
        if gp[y1][x1] == VACANT || gp[y2][x2] == VACANT {
            (g, sc, h4)
        } else {
            let temp = t1 - ((t1 - t2) * (i - 1)) / loop_cnt;
            let g2 = grid_swap(g, y1, x1, y2, x2);
            let nsc = spec_evaluate(gp, g2, ss);
            if nsc > sc {
                (g2, nsc, h4)
            } else {
                let p = spec_exp_q32((sc - nsc) * 1000, temp);
                let dr = chacha_draw(seed, h4, 4294967296u64) as int;
                let h5 = h4.push(4294967296u64);
                if dr < p {
                    (g2, nsc, h5)
                } else {
                    (g, sc, h5)
                }
            }
        }
    }
}

/// Stochastic annealing: a single trajectory of random seat swaps. Each
/// iteration draws two cells; when both are occupied, the occupants are
/// swapped and the move is kept if it improves the score, or otherwise with
/// probability `exp((new - current) / temperature)`, the temperature falling
/// linearly from `temperature1_milli` to `temperature2_milli` (both in
/// thousandths) over the iterations. The result is the final accepted layout
/// and its score; with zero iterations, the reference layout and its own
/// score. The outcome is exactly `sa_model` of the inputs and the stream's
/// seed: identical inputs and seeds give identical results.
pub fn execute(
    previous: &SeatAssignment,
    students: &Vec<Student>,
    loop_cnt: usize,
    rng: &mut SeededRng,
    temperature1_milli: i64,
    temperature2_milli: i64,
) -> (r: Result<(SeatAssignment, i64), SolveError>)
    requires
        grids_wf(previous.deep_view(), previous.deep_view()),
        ok_pair(
            previous.deep_view(),
            previous.deep_view(),
            students@.len() as int,
            previous.deep_view().len() as int,
            previous.deep_view()[0].len() as int,
        ),
        1 <= students@.len() <= 1048576,
        1 <= temperature2_milli,
        temperature2_milli <= temperature1_milli,
        temperature1_milli <= 1048576,
        loop_cnt <= 1000000000,
    ensures
        r is Ok,
        ({
            let gp = previous.deep_view();
            let out = r->Ok_0.0.deep_view();
            let m = sa_model(
                gp,
                students@,
                old(rng).seed(),
                old(rng).history(),
                temperature1_milli as int,
                temperature2_milli as int,
                loop_cnt as int,
                loop_cnt as int,
            );
            &&& ok_pair(gp, out, students@.len() as int, gp.len() as int, gp[0].len() as int)
            &&& r->Ok_0.1 as int == spec_evaluate(gp, out, students@)
            &&& out == m.0
            &&& r->Ok_0.1 as int == m.1
            &&& final(rng).history() == m.2
            &&& final(rng).seed() == old(rng).seed()
            &&& loop_cnt == 0 ==> out == gp
        }),
{
    let ghost gp = previous.deep_view();
    let ghost n = students@.len() as int;
    let ghost seed0 = rng.seed();
    let ghost h0 = rng.history();
    let ghost t1m = temperature1_milli as int;
    let ghost t2m = temperature2_milli as int;
    let d: usize = previous.len();
    let w: usize = previous[0].len();
    let mut new = copy_grid(previous);
    let mut cur_score: i64 = match evaluate(previous, &new, students) {
        Ok(s) => s,
        Err(_) => {
            proof {
                assert(false);
            }
            return Err(SolveError::ShapeMismatch);
        },
    };
    let mut i: usize = 0;
    while i < loop_cnt
        invariant
            i <= loop_cnt,
            loop_cnt <= 1000000000,
            n == students@.len(),
            1 <= n <= 1048576,
            d as int == gp.len(),
            w as int == gp[0].len(),
            gp == previous.deep_view(),
            grids_wf(gp, gp),
            ok_pair(gp, new.deep_view(), n, d as int, w as int),
            cur_score as int == spec_evaluate(gp, new.deep_view(), students@),
            -2000000 <= cur_score <= 17004000,
            1 <= temperature2_milli,
            temperature2_milli <= temperature1_milli,
            temperature1_milli <= 1048576,
            t1m == temperature1_milli as int,
            t2m == temperature2_milli as int,
            rng.seed() == seed0,
            (new.deep_view(), cur_score as int, rng.history()) == sa_model(
                gp,
                students@,
                seed0,
                h0,
                t1m,
                t2m,
                loop_cnt as int,
                i as int,
            ),
        decreases loop_cnt - i,
    {
        let ghost st_pre = sa_model(gp, students@, seed0, h0, t1m, t2m, loop_cnt as int, i as int);
        let x1 = rng.draw(w as u64) as usize;
        let y1 = rng.draw(d as u64) as usize;
        let x2 = rng.draw(w as u64) as usize;
        let y2 = rng.draw(d as u64) as usize;
        proof {
            lemma_grid_view(*previous);
            assert(previous@.len() == d);
            assert(previous@[y1 as int]@.len() == w && previous@[y2 as int]@.len() == w) by {
                assert(gp[y1 as int] == previous@[y1 as int]@);
                assert(gp[y2 as int] == previous@[y2 as int]@);
            }
        }
        if previous[y1][x1] == usize::MAX || previous[y2][x2] == usize::MAX {
            proof {
                let st_next = sa_model(
                    gp,
                    students@,
                    seed0,
                    h0,
                    t1m,
                    t2m,
                    loop_cnt as int,
                    i as int + 1,
                );
                assert(st_next == (st_pre.0, st_pre.1, rng.history()));
            }
            i = i + 1;
            continue ;
        }
        proof {
            assert(gp[y1 as int][x1 as int] == previous@[y1 as int]@[x1 as int]);
            assert(gp[y2 as int][x2 as int] == previous@[y2 as int]@[x2 as int]);
            assert(gp[y1 as int][x1 as int] != VACANT && gp[y2 as int][x2 as int] != VACANT);
        }
        // Linear interpolation of the temperature over the loop index.
        let span: u64 = (temperature1_milli - temperature2_milli) as u64;
        proof {
            assert((span as int) * (i as int) <= 1048576 * 1000000000) by (nonlinear_arith)
                requires
                    0 <= span as int <= 1048576,
                    0 <= i as int <= 1000000000,
            ;
            assert((span as int) * (i as int) >= 0) by (nonlinear_arith)
                requires
                    0 <= span as int,
                    0 <= i as int,
            ;
        }
        let decr: u64 = (span * (i as u64)) / (loop_cnt as u64);
        proof {
            assert((span as int) * (i as int) <= (span as int) * (loop_cnt as int))
                by (nonlinear_arith)
                requires
                    0 <= span as int,
                    0 <= i as int <= loop_cnt as int,
            ;
            vstd::arithmetic::div_mod::lemma_div_is_ordered(
                (span as int) * (i as int),
                (span as int) * (loop_cnt as int),
                loop_cnt as int,
            );
            vstd::arithmetic::div_mod::lemma_div_by_multiple(span as int, loop_cnt as int);
            assert((span as int) * (loop_cnt as int) == (loop_cnt as int) * (span as int))
                by (nonlinear_arith);
            vstd::arithmetic::div_mod::lemma_div_pos_is_pos(
                (span as int) * (i as int),
                loop_cnt as int,
            );
        }
        let temp: i64 = temperature1_milli - (decr as i64);
        proof {
            assert(temp as int == t1m - ((t1m - t2m) * (i as int)) / (loop_cnt as int));
        }
        let ghost pre_swap = new.deep_view();
        proof {
            lemma_grid_view(new);
            assert(new@.len() == d);
            assert(new@[y1 as int]@.len() == w && new@[y2 as int]@.len() == w) by {
                assert(pre_swap[y1 as int] == new@[y1 as int]@);
                assert(pre_swap[y2 as int] == new@[y2 as int]@);
            }
        }
        swap_seats(&mut new, (x1, y1), (x2, y2));
        proof {
            lemma_grid_view(new);
            assert(is_rect(new.deep_view(), d as int, w as int));
            assert(is_swap(
                pre_swap,
                new.deep_view(),
                d as int,
                w as int,
                y1 as int,
                x1 as int,
                y2 as int,
                x2 as int,
            ));
            assert(pre_swap[y1 as int][x1 as int] != VACANT && pre_swap[y2 as int][x2 as int]
                != VACANT);
            lemma_swap_ok_pair(
                gp,
                pre_swap,
                new.deep_view(),
                n,
                d as int,
                w as int,
                y1 as int,
                x1 as int,
                y2 as int,
                x2 as int,
            );
            assert(new.deep_view() =~~= grid_swap(
                pre_swap,
                y1 as int,
                x1 as int,
                y2 as int,
                x2 as int,
            ));
        }
        let new_score: i64 = match evaluate(previous, &new, students) {
            Ok(s) => s,
            Err(_) => {
                proof {
                    assert(false);
                }
                return Err(SolveError::ShapeMismatch);
            },
        };
        let accept: bool = if new_score > cur_score {
            true
        } else {
            let q: u64 = ((cur_score - new_score) as u64) * 1000;
            let p: u64 = exp_q32(q, temp as u64);
            let draw: u64 = rng.draw(4294967296);
            draw < p
        };
        if accept {
            cur_score = new_score;
        } else {
            swap_seats(&mut new, (x1, y1), (x2, y2));
            proof {
                assert(new.deep_view() =~~= pre_swap);
            }
        }
        proof {
            let st_next = sa_model(
                gp,
                students@,
                seed0,
                h0,
                t1m,
                t2m,
                loop_cnt as int,
                i as int + 1,
            );
            assert(st_next == (new.deep_view(), cur_score as int, rng.history()));
        }
        i = i + 1;
    }
    Ok((new, cur_score))
}

/// Determinism: the annealing outcome is a function of the layout, the
/// students, the seed and the schedule alone — two runs over identical
/// inputs yield identical layouts and scores.
pub proof fn lemma_annealing_deterministic(
    gp: Seq<Seq<usize>>,
    ss: Seq<Student>,
    seed: u64,
    h0: Seq<u64>,
    t1: int,
    t2: int,
    loop_cnt: int,
    a: (Seq<Seq<usize>>, int),
    b: (Seq<Seq<usize>>, int),
)
    requires
        a.0 == sa_model(gp, ss, seed, h0, t1, t2, loop_cnt, loop_cnt).0,
        a.1 == sa_model(gp, ss, seed, h0, t1, t2, loop_cnt, loop_cnt).1,
        b.0 == sa_model(gp, ss, seed, h0, t1, t2, loop_cnt, loop_cnt).0,
        b.1 == sa_model(gp, ss, seed, h0, t1, t2, loop_cnt, loop_cnt).1,
    ensures
        a == b,
{
}

} // verus!
