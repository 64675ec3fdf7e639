use vstd::prelude::*;

use crate::eval_func::{evaluate, grids_wf, spec_evaluate};
use crate::grid::{is_rect, ok_pair, VACANT};
use crate::rng::{chacha_draw, SeededRng};
use crate::simulated_annealing::grid_swap;
use crate::structs::{SeatAssignment, SolveError, Student};
use crate::utils::{copy_grid, is_swap, lemma_grid_view, lemma_swap_ok_pair, swap_seats};

verus! {

/// How often one neighbour attempt may redraw before it is given up; a
/// bounded stand-in for redrawing indefinitely, so that every call
/// terminates.
pub const MAX_DRAW_ATTEMPTS: usize = 1024;

/// Whether the ordered pair `(a, b)` stands in the forbidden list.
pub open spec fn spec_tabu_contains(tabu: Seq<(u64, u64)>, a: u64, b: u64) -> bool {
    exists|i: int| 0 <= i < tabu.len() && (#[trigger] tabu[i]) == (a, b)
}

/// Whether the ordered pair `(a, b)` is currently forbidden.
fn tabu_contains(tabu: &Vec<(u64, u64)>, a: u64, b: u64) -> (r: bool)
    ensures
        r == spec_tabu_contains(tabu@, a, b),
{
    let mut i: usize = 0;
    while i < tabu.len()
        invariant
            i <= tabu@.len(),
            forall|t: int| 0 <= t < i ==> (#[trigger] tabu@[t]) != (a, b),
        decreases tabu@.len() - i,
    {
        let e = tabu[i];
        if e.0 == a && e.1 == b {
            proof {
                assert(tabu@[i as int] == (a, b));
            }
            return true;
        }
        i = i + 1;
    }
    false
}

/// The forbidden list after evicting its oldest entries down to `cap`.
pub open spec fn evict(tabu: Seq<(u64, u64)>, cap: int) -> Seq<(u64, u64)>
    decreases tabu.len(),
{
    if tabu.len() <= cap || tabu.len() == 0 {
        tabu
    } else {
        evict(tabu.drop_first(), cap)
    }
}

/// The outcome of one bounded redraw round, from attempt `a` on: whether a
/// usable pair of seats was found, its coordinates, and the stream history
/// afterwards.
pub open spec fn draw_attempts(
    gp: Seq<Seq<usize>>,
    cur: Seq<Seq<usize>>,
    tabu: Seq<(u64, u64)>,
    seed: u64,
    h: Seq<u64>,
    d: int,
    w: int,
    a: int,
) -> (bool, int, int, int, int, Seq<u64>)
    decreases MAX_DRAW_ATTEMPTS - a,
{
    if a >= MAX_DRAW_ATTEMPTS {
        (false, 0, 0, 0, 0, h)
    } else {
        let x1 = chacha_draw(seed, h, w as u64) as int;
        let h1 = h.push(w as u64);
        let y1 = chacha_draw(seed, h1, d as u64) as int;
        let h2 = h1.push(d as u64);
        let x2 = chacha_draw(seed, h2, w as u64) as int;
        let h3 = h2.push(w as u64);
        let y2 = chacha_draw(seed, h3, d as u64) as int;
        let h4 = h3.push(d as u64);
        if cur[y1][x1] != VACANT && cur[y2][x2] != VACANT && !(x1 == x2 && y1 == y2)
            && !spec_tabu_contains(tabu, cur[y1][x1] as u64, cur[y2][x2] as u64) {
            (true, x1, y1, x2, y2, h4)
        } else {
            draw_attempts(gp, cur, tabu, seed, h4, d, w, a + 1)
        }
    }
}

/// One neighbour attempt: draw a pair, swap, keep strict improvements and
/// forbid the swapped pair, revert anything else.
pub open spec fn neighbor_step(
    gp: Seq<Seq<usize>>,
    ss: Seq<Student>,
    st: (Seq<Seq<usize>>, int, Seq<(u64, u64)>, Seq<u64>),
    seed: u64,
    cap: int,
    d: int,
    w: int,
) -> (Seq<Seq<usize>>, int, Seq<(u64, u64)>, Seq<u64>) {
    let da = draw_attempts(gp, st.0, st.2, seed, st.3, d, w, 0);
    if !da.0 {
        (st.0, st.1, st.2, da.5)
    } else {
        let aid = st.0[da.2][da.1] as u64;
        let bid = st.0[da.4][da.3] as u64;
        let g2 = grid_swap(st.0, da.2, da.1, da.4, da.3);
        let sc = spec_evaluate(gp, g2, ss);
        if sc > st.1 {
            (g2, sc, evict(st.2.push((aid, bid)), cap), da.5)
        } else {
            (st.0, st.1, st.2, da.5)
        }
    }
}

/// The state after the first `nb` neighbour attempts of one outer round.
pub open spec fn nb_fold(
    gp: Seq<Seq<usize>>,
    ss: Seq<Student>,
    st: (Seq<Seq<usize>>, int, Seq<(u64, u64)>, Seq<u64>),
    seed: u64,
    cap: int,
    d: int,
    w: int,
    nb: int,
) -> (Seq<Seq<usize>>, int, Seq<(u64, u64)>, Seq<u64>)
    decreases nb,
{
    if nb <= 0 {
        st
    } else {
        neighbor_step(gp, ss, nb_fold(gp, ss, st, seed, cap, d, w, nb - 1), seed, cap, d, w)
    }
}

/// The exact state of one tabu run after `it` outer rounds of
/// `neighbor_cnt` attempts each: the current layout, the best score, the
/// forbidden list and the stream history — a pure function of the inputs
/// and the seed, which makes two runs over identical inputs identical.
pub open spec fn tabu_model(
    gp: Seq<Seq<usize>>,
    ss: Seq<Student>,
    seed: u64,
    h0: Seq<u64>,
    neighbor_cnt: int,
    cap: int,
    it: int,
) -> (Seq<Seq<usize>>, int, Seq<(u64, u64)>, Seq<u64>)
    decreases it,
{
    let d = gp.len() as int;
    let w = gp[0].len() as int;
    if it <= 0 {
        (gp, spec_evaluate(gp, gp, ss), Seq::empty(), h0)
    } else {
        nb_fold(
            gp,
            ss,
            tabu_model(gp, ss, seed, h0, neighbor_cnt, cap, it - 1),
            seed,
            cap,
            d,
            w,
            neighbor_cnt,
        )
    }
}

/// Tabu-constrained search: repeatedly tries random swaps of two occupied
/// seats, keeps only strict improvements, and forbids the swapped pair of
/// student ids (ordered, first-in-first-out, at most `tabu_list_size`
/// entries) from being retried until it is evicted. Only improving moves
/// are accepted, so the returned score never falls below the reference
/// layout's own score; the outcome is exactly `tabu_model` of the inputs
/// and the stream's seed.
pub fn execute(
    previous: &SeatAssignment,
    students: &Vec<Student>,
    loop_cnt: usize,
    neighbor_cnt: usize,
    tabu_list_size: usize,
    rng: &mut SeededRng,
) -> (r: Result<(SeatAssignment, i64), SolveError>)
    requires
        grids_wf(previous.deep_view(), previous.deep_view()),
        ok_pair(
            previous.deep_view(),
            previous.deep_view(),
            students@.len() as int,
            previous.deep_view().len() as int,
            previous.deep_view()[0].len() as int,
        ),
        1 <= students@.len() <= 1048576,
    ensures
        r is Ok,
        ({
            let gp = previous.deep_view();
            let out = r->Ok_0.0.deep_view();
            let m = tabu_model(
                gp,
                students@,
                old(rng).seed(),
                old(rng).history(),
                neighbor_cnt as int,
                tabu_list_size as int,
                loop_cnt as int,
            );
            &&& ok_pair(gp, out, students@.len() as int, gp.len() as int, gp[0].len() as int)
            &&& r->Ok_0.1 as int == spec_evaluate(gp, out, students@)
            &&& r->Ok_0.1 as int >= spec_evaluate(gp, gp, students@)
            &&& out == m.0
            &&& r->Ok_0.1 as int == m.1
            &&& final(rng).history() == m.3
            &&& final(rng).seed() == old(rng).seed()
            &&& (loop_cnt == 0 || neighbor_cnt == 0) ==> out == gp
        }),
{
    let ghost gp = previous.deep_view();
    let ghost n = students@.len() as int;
    let ghost seed0 = rng.seed();
    let ghost h0 = rng.history();
    let ghost cap = tabu_list_size as int;
    let d: usize = previous.len();
    let w: usize = previous[0].len();
    let mut current = copy_grid(previous);
    let mut best: i64 = match evaluate(previous, &current, students) {
        Ok(s) => s,
        Err(_) => {
            proof {
                assert(false);
            }
            return Err(SolveError::ShapeMismatch);
        },
    };
    let mut tabu: Vec<(u64, u64)> = Vec::new();
    let mut it: usize = 0;
    proof {
        assert(tabu@ =~= Seq::<(u64, u64)>::empty());
    }
    while it < loop_cnt
        invariant
            it <= loop_cnt,
            n == students@.len(),
            1 <= n <= 1048576,
            d as int == gp.len(),
            w as int == gp[0].len(),
            gp == previous.deep_view(),
            grids_wf(gp, gp),
            ok_pair(gp, current.deep_view(), n, d as int, w as int),
            best as int == spec_evaluate(gp, current.deep_view(), students@),
            best as int >= spec_evaluate(gp, gp, students@),
            -2000000 <= best <= 17004000,
            rng.seed() == seed0,
            cap == tabu_list_size as int,
            (current.deep_view(), best as int, tabu@, rng.history()) == tabu_model(
                gp,
                students@,
                seed0,
                h0,
                neighbor_cnt as int,
                cap,
                it as int,
            ),
            neighbor_cnt == 0 ==> current.deep_view() == gp,
            it == 0 ==> current.deep_view() == gp,
        decreases loop_cnt - it,
    {
        let ghost round_st = tabu_model(
            gp,
            students@,
            seed0,
            h0,
            neighbor_cnt as int,
            cap,
            it as int,
        );
        let mut nb: usize = 0;
        while nb < neighbor_cnt
            invariant
                nb <= neighbor_cnt,
                n == students@.len(),
                1 <= n <= 1048576,
                d as int == gp.len(),
                w as int == gp[0].len(),
                gp == previous.deep_view(),
                grids_wf(gp, gp),
                ok_pair(gp, current.deep_view(), n, d as int, w as int),
                best as int == spec_evaluate(gp, current.deep_view(), students@),
                best as int >= spec_evaluate(gp, gp, students@),
                -2000000 <= best <= 17004000,
                rng.seed() == seed0,
                cap == tabu_list_size as int,
                round_st == tabu_model(
                    gp,
                    students@,
                    seed0,
                    h0,
                    neighbor_cnt as int,
                    cap,
                    it as int,
                ),
                (current.deep_view(), best as int, tabu@, rng.history()) == nb_fold(
                    gp,
                    students@,
                    round_st,
                    seed0,
                    cap,
                    d as int,
                    w as int,
                    nb as int,
                ),
                neighbor_cnt == 0 ==> current.deep_view() == gp,
                it == 0 && nb == 0 ==> current.deep_view() == gp,
            decreases neighbor_cnt - nb,
        {
            let ghost nb_st = nb_fold(
                gp,
                students@,
                round_st,
                seed0,
                cap,
                d as int,
                w as int,
                nb as int,
            );
            let ghost cv0 = current.deep_view();
            let ghost tabu0 = tabu@;
            let ghost h_start = rng.history();
            // Draw two distinct occupied positions whose occupant pair is
            // not forbidden; give up after a bounded number of redraws.
            let mut found: bool = false;
            let mut x1: usize = 0;
            let mut y1: usize = 0;
            let mut x2: usize = 0;
            let mut y2: usize = 0;
            let mut attempt: usize = 0;
            while attempt < MAX_DRAW_ATTEMPTS && !found
                invariant
                    attempt <= MAX_DRAW_ATTEMPTS,
                    d as int == gp.len(),
                    w as int == gp[0].len(),
                    gp == previous.deep_view(),
                    grids_wf(gp, gp),
                    ok_pair(gp, current.deep_view(), n, d as int, w as int),
                    rng.seed() == seed0,
                    current.deep_view() == cv0,
                    tabu@ == tabu0,
                    !found ==> draw_attempts(gp, cv0, tabu0, seed0, h_start, d as int, w as int, 0)
                        == draw_attempts(
                        gp,
                        cv0,
                        tabu0,
                        seed0,
                        rng.history(),
                        d as int,
                        w as int,
                        attempt as int,
                    ),
                    found ==> draw_attempts(gp, cv0, tabu0, seed0, h_start, d as int, w as int, 0)
                        == (true, x1 as int, y1 as int, x2 as int, y2 as int, rng.history()),
                    found ==> x1 < w && y1 < d && x2 < w && y2 < d && !(x1 == x2 && y1 == y2)
                        && cv0[y1 as int][x1 as int] != VACANT && cv0[y2 as int][x2 as int]
                        != VACANT && !spec_tabu_contains(
                        tabu0,
                        cv0[y1 as int][x1 as int] as u64,
                        cv0[y2 as int][x2 as int] as u64,
                    ),
                decreases MAX_DRAW_ATTEMPTS - attempt,
            {
                let cx1 = rng.draw(w as u64) as usize;
                let cy1 = rng.draw(d as u64) as usize;
                let cx2 = rng.draw(w as u64) as usize;
                let cy2 = rng.draw(d as u64) as usize;
                proof {
                    lemma_grid_view(current);
                    assert(current@.len() == d);
                    assert(current@[cy1 as int]@.len() == w && current@[cy2 as int]@.len() == w)
                        by {
                        assert(current.deep_view()[cy1 as int] == current@[cy1 as int]@);
                        assert(current.deep_view()[cy2 as int] == current@[cy2 as int]@);
                    }
                }
                let v1: usize = current[cy1][cx1];
                let v2: usize = current[cy2][cx2];
                let mut usable: bool = false;
                if v1 != usize::MAX && v2 != usize::MAX && !(cx1 == cx2 && cy1 == cy2) {
                    if !tabu_contains(&tabu, v1 as u64, v2 as u64) {
                        usable = true;
                    }
                }
                proof {
                    assert(cv0[cy1 as int][cx1 as int] == v1 && cv0[cy2 as int][cx2 as int] == v2);
                }
                if usable {
                    found = true;
                    x1 = cx1;
                    y1 = cy1;
                    x2 = cx2;
                    y2 = cy2;
                }
                attempt = attempt + 1;
            }
            proof {
                if !found {
                    assert(draw_attempts(
                        gp,
                        cv0,
                        tabu0,
                        seed0,
                        rng.history(),
                        d as int,
                        w as int,
                        attempt as int,
                    ) == (false, 0int, 0int, 0int, 0int, rng.history()));
                }
            }
            if found {
                let ghost pre_swap = current.deep_view();
                proof {
                    lemma_grid_view(current);
                    assert(current@.len() == d);
                    assert(current@[y1 as int]@.len() == w && current@[y2 as int]@.len() == w) by {
                        assert(pre_swap[y1 as int] == current@[y1 as int]@);
                        assert(pre_swap[y2 as int] == current@[y2 as int]@);
                    }
                }
                let a: u64 = current[y1][x1] as u64;
                let b: u64 = current[y2][x2] as u64;
                swap_seats(&mut current, (x1, y1), (x2, y2));
                proof {
                    lemma_grid_view(current);
                    assert(is_rect(current.deep_view(), d as int, w as int));
                    assert(is_swap(
                        pre_swap,
                        current.deep_view(),
                        d as int,
                        w as int,
                        y1 as int,
                        x1 as int,
                        y2 as int,
                        x2 as int,
                    ));
                    lemma_swap_ok_pair(
                        gp,
                        pre_swap,
                        current.deep_view(),
                        n,
                        d as int,
                        w as int,
                        y1 as int,
                        x1 as int,
                        y2 as int,
                        x2 as int,
                    );
                    assert(current.deep_view() =~~= grid_swap(
                        pre_swap,
                        y1 as int,
                        x1 as int,
                        y2 as int,
                        x2 as int,
                    ));
                }
                let score: i64 = match evaluate(previous, &current, students) {
                    Ok(s) => s,
                    Err(_) => {
                        proof {
                            assert(false);
                        }
                        return Err(SolveError::ShapeMismatch);
                    },
                };
                if score > best {
                    best = score;
                    tabu.push((a, b));
                    while tabu.len() > tabu_list_size
                        invariant
                            evict(tabu@, cap) == evict(tabu0.push((a, b)), cap),
                            cap == tabu_list_size as int,
                        decreases tabu@.len(),
                    {
                        let ghost pre = tabu@;
                        tabu.remove(0);
                        proof {
                            assert(tabu@ =~= pre.drop_first());
                        }
                    }
                    proof {
                        assert(tabu@ == evict(tabu0.push((a, b)), cap));
                    }
                } else {
                    swap_seats(&mut current, (x1, y1), (x2, y2));
                    proof {
                        assert(current.deep_view() =~~= pre_swap);
                    }
                }
            }
            proof {
                let st_next = nb_fold(
                    gp,
                    students@,
                    round_st,
                    seed0,
                    cap,
                    d as int,
                    w as int,
                    nb as int + 1,
                );
                assert(st_next == neighbor_step(
                    gp,
                    students@,
                    nb_st,
                    seed0,
                    cap,
                    d as int,
                    w as int,
                ));
                assert(st_next == (current.deep_view(), best as int, tabu@, rng.history()));
            }
            nb = nb + 1;
        }
        it = it + 1;
    }
    Ok((current, best))
}

/// Determinism: the tabu outcome is a function of the layout, the students,
/// the seed and the bounds alone — two runs over identical inputs yield
/// identical layouts and scores.
pub proof fn lemma_tabu_deterministic(
    gp: Seq<Seq<usize>>,
    ss: Seq<Student>,
    seed: u64,
    h0: Seq<u64>,
    neighbor_cnt: int,
    cap: int,
    loop_cnt: int,
    a: (Seq<Seq<usize>>, int),
    b: (Seq<Seq<usize>>, int),
)
    requires
        a.0 == tabu_model(gp, ss, seed, h0, neighbor_cnt, cap, loop_cnt).0,
        a.1 == tabu_model(gp, ss, seed, h0, neighbor_cnt, cap, loop_cnt).1,
        b.0 == tabu_model(gp, ss, seed, h0, neighbor_cnt, cap, loop_cnt).0,
        b.1 == tabu_model(gp, ss, seed, h0, neighbor_cnt, cap, loop_cnt).1,
    ensures
        a == b,
{
}

} // verus!
