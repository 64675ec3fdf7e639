use vstd::prelude::*;
use vstd::arithmetic::div_mod::{
    lemma_div_is_ordered, lemma_div_nonincreasing, lemma_div_pos_is_pos, lemma_fundamental_div_mod,
};
use vstd::math::abs;

use crate::grid::{
    count_id, count_id_upto, is_rect, lemma_cell_to_flat, lemma_count_nonneg, lemma_flat_to_cell,
    lemma_seat_of, lemma_seat_unique, ok_pair, seat_of, VACANT,
};
use crate::math::{floor_div_i64, isqrt, isqrt_spec, lemma_isqrt_spec};
use crate::structs::{Gender, SeatAssignment, SolveError, Student};

verus! {

// Weights of the scoring terms, in the unit of the final score.
pub const PREV_ADJ_DISTANCE_WEIGHT: i64 = 1000;
pub const BLACKBOARD_DISTANCE_WEIGHT: i64 = 1000;
pub const ACADEMIC_WEIGHT: i64 = 1000;
pub const EXERCISE_WEIGHT: i64 = 1000;
pub const LEADERSHIP_WEIGHT: i64 = 1000;
pub const GENDER_WEIGHT: i64 = 1000;

/// The four attributes whose local balance the score rewards.
#[derive(Clone, Copy, PartialEq, Eq, Structural)]
pub enum Attr {
    Academic,
    Exercise,
    Leadership,
    MaleRate,
}

/// Shapes accepted by the scoring engine: both grids rectangular of one
/// shape, with at least one cell, at most 1024 rows and columns (so that
/// every scoring sum fits comfortably in `i64`).
pub open spec fn grids_wf(gp: Seq<Seq<usize>>, gn: Seq<Seq<usize>>) -> bool {
    let d = gp.len() as int;
    let w = gp[0].len() as int;
    &&& 1 <= d <= 1024
    &&& 1 <= w <= 1024
    &&& is_rect(gp, d, w)
    &&& is_rect(gn, d, w)
}

// ------------------------------------------------------------------
// The individual score: distance from former neighbours, distance to the
// anchor point one row above the middle column.
// ------------------------------------------------------------------

/// The eight grid-adjacent offsets, in the order the engine visits them.
pub open spec fn dir_dx(t: int) -> int {
    if t == 0 {
        0
    } else if t == 1 {
        1
    } else if t == 2 {
        0
    } else if t == 3 {
        -1
    } else if t == 4 {
        -1
    } else if t == 5 {
        1
    } else if t == 6 {
        -1
    } else {
        1
    }
}

pub open spec fn dir_dy(t: int) -> int {
    if t == 0 {
        1
    } else if t == 1 {
        0
    } else if t == 2 {
        -1
    } else if t == 3 {
        0
    } else if t == 4 {
        -1
    } else if t == 5 {
        1
    } else if t == 6 {
        1
    } else {
        -1
    }
}

/// Sum and number of Manhattan distances, in the candidate layout, between
/// student `i` and those of its first `t` directions that held a neighbour in
/// the previous layout.
pub open spec fn adj_contrib(
    gp: Seq<Seq<usize>>,
    gn: Seq<Seq<usize>>,
    d: int,
    w: int,
    i: usize,
    t: int,
) -> (int, int)
    decreases t,
{
    if t <= 0 {
        (0, 0)
    } else {
        let acc = adj_contrib(gp, gn, d, w, i, t - 1);
        let py = seat_of(gp, d, w, i).0;
        let px = seat_of(gp, d, w, i).1;
        let ny = py + dir_dy(t - 1);
        let nx = px + dir_dx(t - 1);
        if 0 <= ny < d && 0 <= nx < w && gp[ny][nx] != VACANT {
            let j = gp[ny][nx];
            let iy = seat_of(gn, d, w, i).0;
            let ix = seat_of(gn, d, w, i).1;
            let jy = seat_of(gn, d, w, j).0;
            let jx = seat_of(gn, d, w, j).1;
            (acc.0 + abs(ix - jx) + abs(iy - jy), acc.1 + 1)
        } else {
            acc
        }
    }
}

/// The stability reward of student `i`: the weighted mean Manhattan distance
/// to the former neighbours, rounded down; zero when there was none.
pub open spec fn stab_score(gp: Seq<Seq<usize>>, gn: Seq<Seq<usize>>, d: int, w: int, i: usize) -> int {
    let acc = adj_contrib(gp, gn, d, w, i, 8);
    if acc.1 == 0 {
        0
    } else {
        ((PREV_ADJ_DISTANCE_WEIGHT as int) * acc.0) / acc.1
    }
}

/// The weighted Euclidean distance from student `i`'s candidate seat to the
/// anchor point at column `w / 2`, one row above the grid, rounded down:
/// `floor(1000 * sqrt((x - w/2)^2 + (y + 1)^2))`, computed exactly as the
/// integer square root of `250000 * ((2x - w)^2 + (2y + 2)^2)`.
pub open spec fn anchor_penalty(gn: Seq<Seq<usize>>, d: int, w: int, i: usize) -> int {
    let y = seat_of(gn, d, w, i).0;
    let x = seat_of(gn, d, w, i).1;
    let a = (2 * x - w) * (2 * x - w) + (2 * y + 2) * (2 * y + 2);
    isqrt_spec((250000 * a) as nat) as int
}

/// The individual score of student `i`.
pub open spec fn indiv_score(
    gp: Seq<Seq<usize>>,
    gn: Seq<Seq<usize>>,
    ss: Seq<Student>,
    d: int,
    w: int,
    i: int,
) -> int {
    stab_score(gp, gn, d, w, i as usize) + (if ss[i].needs_assistance {
        -anchor_penalty(gn, d, w, i as usize)
    } else {
        0
    })
}

/// Sum of the first `t` individual scores.
pub open spec fn indiv_sum(
    gp: Seq<Seq<usize>>,
    gn: Seq<Seq<usize>>,
    ss: Seq<Student>,
    d: int,
    w: int,
    t: int,
) -> int
    decreases t,
{
    if t <= 0 {
        0
    } else {
        indiv_sum(gp, gn, ss, d, w, t - 1) + indiv_score(gp, gn, ss, d, w, t - 1)
    }
}

// ------------------------------------------------------------------
// Balance terms: for each attribute, the ratio of the smallest to the
// largest localized mean over a 3x3 window around every cell.
// ------------------------------------------------------------------

/// The value student `s` contributes to attribute `a`.
pub open spec fn attr_val(s: Student, a: Attr) -> int {
    match a {
        Attr::Academic => s.academic_ability as int,
        Attr::Exercise => s.exercise_ability as int,
        Attr::Leadership => s.leadership_ability as int,
        Attr::MaleRate => if s.gender == Gender::Male {
            1
        } else {
            0
        },
    }
}

/// Sum and occupant count of attribute `a` over the first `t` of the nine
/// cells of the 3x3 window centred on `(y, x)`.
pub open spec fn win_stats(
    gn: Seq<Seq<usize>>,
    ss: Seq<Student>,
    d: int,
    w: int,
    a: Attr,
    y: int,
    x: int,
    t: int,
) -> (int, int)
    decreases t,
{
    if t <= 0 {
        (0, 0)
    } else {
        let acc = win_stats(gn, ss, d, w, a, y, x, t - 1);
        let yy = y + (t - 1) / 3 - 1;
        let xx = x + (t - 1) % 3 - 1;
        if 0 <= yy < d && 0 <= xx < w && gn[yy][xx] != VACANT {
            (acc.0 + attr_val(ss[gn[yy][xx] as int], a), acc.1 + 1)
        } else {
            acc
        }
    }
}

/// Running minimum and maximum of the localized means over the first `k`
/// cells, row-major, each mean kept as a (sum, count) pair. The first field
/// says whether any window with occupants was seen yet.
pub open spec fn balance_fold(
    gn: Seq<Seq<usize>>,
    ss: Seq<Student>,
    d: int,
    w: int,
    a: Attr,
    k: int,
) -> (bool, int, int, int, int)
    decreases k,
{
    if k <= 0 {
        (false, 0, 0, 0, 0)
    } else {
        let st = balance_fold(gn, ss, d, w, a, k - 1);
        let win = win_stats(gn, ss, d, w, a, (k - 1) / w, (k - 1) % w, 9);
        let s = win.0;
        let c = win.1;
        if c > 0 {
            if !st.0 {
                (true, s, c, s, c)
            } else {
                let mn = if s * st.2 < st.1 * c {
                    (s, c)
                } else {
                    (st.1, st.2)
                };
                let mx = if s * st.4 > st.3 * c {
                    (s, c)
                } else {
                    (st.3, st.4)
                };
                (true, mn.0, mn.1, mx.0, mx.1)
            }
        } else {
            st
        }
    }
}

/// The balance term for attribute `a`: the weighted ratio of the smallest to
/// the largest localized mean, rounded down. When no window has occupants, or
/// the largest mean is zero, the term is omitted (it contributes zero).
pub open spec fn balance_term(
    gn: Seq<Seq<usize>>,
    ss: Seq<Student>,
    d: int,
    w: int,
    a: Attr,
    weight: int,
) -> int {
    let st = balance_fold(gn, ss, d, w, a, d * w);
    if !st.0 || st.3 == 0 {
        0
    } else {
        (weight * st.1 * st.4) / (st.2 * st.3)
    }
}

// ------------------------------------------------------------------
// Uniform attributes balance perfectly.
// ------------------------------------------------------------------

/// In a population whose members all carry attribute value `a`, every window
/// sums to `a` times its occupant count.
proof fn lemma_uniform_window(
    gn: Seq<Seq<usize>>,
    ss: Seq<Student>,
    d: int,
    w: int,
    at: Attr,
    a: int,
    y: int,
    x: int,
    t: int,
)
    requires
        0 <= t <= 9,
        forall|i: int| 0 <= i < ss.len() ==> #[trigger] attr_val(ss[i], at) == a,
        forall|yy: int, xx: int|
            0 <= yy < d && 0 <= xx < w && gn[yy][xx] != VACANT ==> ((#[trigger] gn[yy][xx]) as int)
                < ss.len(),
    ensures
        win_stats(gn, ss, d, w, at, y, x, t).0 == a * win_stats(gn, ss, d, w, at, y, x, t).1,
        0 <= win_stats(gn, ss, d, w, at, y, x, t).1 <= t,
    decreases t,
{
    if t > 0 {
        lemma_uniform_window(gn, ss, d, w, at, a, y, x, t - 1);
        let acc = win_stats(gn, ss, d, w, at, y, x, t - 1);
        let yy = y + (t - 1) / 3 - 1;
        let xx = x + (t - 1) % 3 - 1;
        if 0 <= yy < d && 0 <= xx < w && gn[yy][xx] != VACANT {
            assert(attr_val(ss[gn[yy][xx] as int], at) == a);
            assert(acc.0 + a == a * (acc.1 + 1)) by (nonlinear_arith)
                requires
                    acc.0 == a * acc.1,
            ;
        }
    } else {
        assert(a * 0 == 0) by (nonlinear_arith);
    }
}

/// The occupant count of a window never shrinks as it takes in more cells,
/// and the centre cell counts itself.
proof fn lemma_center_occupied(
    gn: Seq<Seq<usize>>,
    ss: Seq<Student>,
    d: int,
    w: int,
    at: Attr,
    y: int,
    x: int,
    t: int,
)
    requires
        0 <= y < d,
        0 <= x < w,
        gn[y][x] != VACANT,
        5 <= t <= 9,
    ensures
        win_stats(gn, ss, d, w, at, y, x, t).1 >= 1,
    decreases t,
{
    if t == 5 {
        let acc = win_stats(gn, ss, d, w, at, y, x, 4);
        lemma_win_cnt_nonneg(gn, ss, d, w, at, y, x, 4);
        assert((5 - 1) / 3 == 1 && (5 - 1) % 3 == 1);
    } else {
        lemma_center_occupied(gn, ss, d, w, at, y, x, t - 1);
        lemma_win_cnt_nonneg(gn, ss, d, w, at, y, x, t - 1);
    }
}

proof fn lemma_win_cnt_nonneg(
    gn: Seq<Seq<usize>>,
    ss: Seq<Student>,
    d: int,
    w: int,
    at: Attr,
    y: int,
    x: int,
    t: int,
)
    ensures
        win_stats(gn, ss, d, w, at, y, x, t).1 >= 0,
    decreases t,
{
    if t > 0 {
        lemma_win_cnt_nonneg(gn, ss, d, w, at, y, x, t - 1);
    }
}

/// With a uniform attribute, the running minimum and maximum stay the same
/// ratio `a`.
proof fn lemma_uniform_fold(
    gn: Seq<Seq<usize>>,
    ss: Seq<Student>,
    d: int,
    w: int,
    at: Attr,
    a: int,
    k: int,
)
    requires
        0 <= k,
        forall|i: int| 0 <= i < ss.len() ==> #[trigger] attr_val(ss[i], at) == a,
        forall|yy: int, xx: int|
            0 <= yy < d && 0 <= xx < w && gn[yy][xx] != VACANT ==> ((#[trigger] gn[yy][xx]) as int)
                < ss.len(),
    ensures
        ({
            let st = balance_fold(gn, ss, d, w, at, k);
            st.0 ==> (st.1 == a * st.2 && st.3 == a * st.4 && st.2 >= 1 && st.4 >= 1)
        }),
    decreases k,
{
    if k > 0 {
        lemma_uniform_fold(gn, ss, d, w, at, a, k - 1);
        lemma_uniform_window(gn, ss, d, w, at, a, (k - 1) / w, (k - 1) % w, 9);
    }
}

/// Once some window has occupants, later folds still know it.
proof fn lemma_fold_found_mono(
    gn: Seq<Seq<usize>>,
    ss: Seq<Student>,
    d: int,
    w: int,
    at: Attr,
    j: int,
    k: int,
)
    requires
        0 <= j <= k,
        balance_fold(gn, ss, d, w, at, j).0,
    ensures
        balance_fold(gn, ss, d, w, at, k).0,
    decreases k - j,
{
    if j < k {
        lemma_fold_found_mono(gn, ss, d, w, at, j, k - 1);
    }
}

/// Balance-term uniformity: when every student carries the same value of an
/// attribute, every localized mean equals it, so the minimum-to-maximum
/// ratio is exactly one and the term contributes the full weight — except
/// that a uniform value of zero leaves the largest mean at zero, and the
/// term is omitted.
pub proof fn lemma_uniform_attribute_balance(
    gn: Seq<Seq<usize>>,
    ss: Seq<Student>,
    d: int,
    w: int,
    at: Attr,
    weight: int,
    a: int,
)
    requires
        1 <= w,
        1 <= d,
        1 <= ss.len(),
        ok_pair(gn, gn, ss.len() as int, d, w),
        0 <= weight,
        0 <= a,
        forall|i: int| 0 <= i < ss.len() ==> #[trigger] attr_val(ss[i], at) == a,
    ensures
        a >= 1 ==> balance_term(gn, ss, d, w, at, weight) == weight,
        a == 0 ==> balance_term(gn, ss, d, w, at, weight) == 0,
{
    // Some cell is occupied: the first student has a seat.
    assert(count_id(gn, d, w, 0usize) == 1);
    crate::grid::lemma_count_exists(gn, w, 0usize, d * w);
    let t0 = choose|t: int| 0 <= t < d * w && gn[#[trigger] (t / w)][t % w] == 0usize;
    lemma_flat_to_cell(w, d, t0);
    let cy = t0 / w;
    let cx = t0 % w;
    assert(gn[cy][cx] != VACANT) by {
        assert(gn[cy][cx] == 0usize);
        assert(0usize != usize::MAX);
    }
    lemma_center_occupied(gn, ss, d, w, at, cy, cx, 9);
    lemma_uniform_window(gn, ss, d, w, at, a, cy, cx, 9);
    // The fold finds that cell, and keeps ratio `a` throughout.
    let k0 = cy * w + cx;
    lemma_cell_to_flat(w, d, cy, cx);
    assert(balance_fold(gn, ss, d, w, at, k0 + 1).0) by {
        assert((k0 + 1 - 1) / w == cy && (k0 + 1 - 1) % w == cx);
        lemma_win_cnt_nonneg(gn, ss, d, w, at, cy, cx, 9);
    }
    lemma_fold_found_mono(gn, ss, d, w, at, k0 + 1, d * w);
    lemma_uniform_fold(gn, ss, d, w, at, a, d * w);
    let st = balance_fold(gn, ss, d, w, at, d * w);
    if a == 0 {
        assert(st.3 == 0) by (nonlinear_arith)
            requires
                st.3 == a * st.4,
                a == 0,
        ;
    } else {
        assert(st.3 >= a) by (nonlinear_arith)
            requires
                st.3 == a * st.4,
                st.4 >= 1,
                a >= 1,
        ;
        let num = weight * st.1 * st.4;
        let den = st.2 * st.3;
        assert(num == weight * den) by (nonlinear_arith)
            requires
                st.1 == a * st.2,
                st.3 == a * st.4,
                num == weight * st.1 * st.4,
                den == st.2 * st.3,
        ;
        assert(den >= 1) by (nonlinear_arith)
            requires
                st.2 >= 1,
                st.3 >= 1,
                den == st.2 * st.3,
        ;
        vstd::arithmetic::div_mod::lemma_div_by_multiple(weight, den);
        assert((weight * den) / den == weight);
    }
}

// ------------------------------------------------------------------
// The full score.
// ------------------------------------------------------------------

/// The fitness of candidate `gn` against reference `gp`: the floored mean of
/// the individual scores plus the four weighted balance terms.
pub open spec fn spec_evaluate(gp: Seq<Seq<usize>>, gn: Seq<Seq<usize>>, ss: Seq<Student>) -> int {
    let d = gp.len() as int;
    let w = gp[0].len() as int;
    let n = ss.len() as int;
    indiv_sum(gp, gn, ss, d, w, n) / n + balance_term(gn, ss, d, w, Attr::Academic, ACADEMIC_WEIGHT as int)
        + balance_term(gn, ss, d, w, Attr::Exercise, EXERCISE_WEIGHT as int) + balance_term(
        gn,
        ss,
        d,
        w,
        Attr::Leadership,
        LEADERSHIP_WEIGHT as int,
    ) + balance_term(gn, ss, d, w, Attr::MaleRate, GENDER_WEIGHT as int)
}

// ------------------------------------------------------------------
// Executable validity check.
// ------------------------------------------------------------------

/// Counts how often each id below `n` occupies a cell.
fn count_ids(g: &SeatAssignment, n: usize) -> (r: Vec<usize>)
    requires
        grids_wf(g.deep_view(), g.deep_view()),
        forall|y: int, x: int|
            0 <= y < g.deep_view().len() && 0 <= x < g.deep_view()[0].len() && g.deep_view()[y][x]
                != VACANT ==> (#[trigger] g.deep_view()[y][x]) < n,
    ensures
        r@.len() == n,
        forall|id: usize|
            (id as int) < n ==> (#[trigger] r@[id as int]) as int == count_id(
                g.deep_view(),
                g.deep_view().len() as int,
                g.deep_view()[0].len() as int,
                id,
            ),
{
    let ghost gv = g.deep_view();
    let d: usize = g.len();
    let w: usize = g[0].len();
    proof {
        crate::utils::lemma_grid_view(*g);
    }
    let mut counts: Vec<usize> = Vec::new();
    let mut id0: usize = 0;
    while id0 < n
        invariant
            id0 <= n,
            counts@.len() == id0,
            forall|i: int| 0 <= i < id0 ==> (#[trigger] counts@[i]) == 0,
        decreases n - id0,
    {
        counts.push(0);
        id0 = id0 + 1;
    }
    proof {
        assert forall|id: usize| (id as int) < n implies count_id_upto(gv, w as int, id, 0) == 0
            by {}
    }
    let mut y: usize = 0;
    while y < d
        invariant
            y <= d,
            d as int == gv.len(),
            w as int == gv[0].len(),
            gv == g.deep_view(),
            is_rect(gv, d as int, w as int),
            1 <= w <= 1024,
            1 <= d <= 1024,
            forall|yy: int, xx: int|
                0 <= yy < d as int && 0 <= xx < w as int && gv[yy][xx] != VACANT ==> (
                #[trigger] gv[yy][xx]) < n,
            counts@.len() == n,
            forall|id: usize|
                (id as int) < n ==> (#[trigger] counts@[id as int]) as int == count_id_upto(
                    gv,
                    w as int,
                    id,
                    (y as int) * (w as int),
                ),
            forall|id: usize|
                (id as int) < n ==> (#[trigger] counts@[id as int]) as int <= (y as int) * (
                w as int),
        decreases d - y,
    {
        let row = &g[y];
        proof {
            crate::utils::lemma_grid_view(*g);
            assert(row@ == gv[y as int]);
            assert(gv[y as int].len() == w as int);
        }
        let mut x: usize = 0;
        while x < w
            invariant
                x <= w,
                y < d,
                d as int == gv.len(),
                w as int == gv[0].len(),
                gv == g.deep_view(),
                is_rect(gv, d as int, w as int),
                1 <= w <= 1024,
                1 <= d <= 1024,
                row@ == gv[y as int],
                row@.len() == w as int,
                forall|yy: int, xx: int|
                    0 <= yy < d as int && 0 <= xx < w as int && gv[yy][xx] != VACANT ==> (
                    #[trigger] gv[yy][xx]) < n,
                counts@.len() == n,
                forall|id: usize|
                    (id as int) < n ==> (#[trigger] counts@[id as int]) as int == count_id_upto(
                        gv,
                        w as int,
                        id,
                        (y as int) * (w as int) + x as int,
                    ),
                forall|id: usize|
                    (id as int) < n ==> (#[trigger] counts@[id as int]) as int <= (y as int) * (
                    w as int) + x as int,
            decreases w - x,
        {
            let ghost k: int = (y as int) * (w as int) + x as int;
            proof {
                lemma_cell_to_flat(w as int, d as int, y as int, x as int);
                assert(k / (w as int) == y as int && k % (w as int) == x as int) by {
                    vstd::arithmetic::div_mod::lemma_fundamental_div_mod_converse(
                        k,
                        w as int,
                        y as int,
                        x as int,
                    );
                }
                assert((y as int) * (w as int) + (x as int) < 2000000) by (nonlinear_arith)
                    requires
                        0 <= y as int,
                        (y as int) < 1024,
                        0 <= x as int,
                        (x as int) < 1024,
                        0 <= w as int,
                        (w as int) <= 1024,
                ;
            }
            let v: usize = row[x];
            if v != usize::MAX {
                let c: usize = counts[v];
                counts[v] = c + 1;
            }
            x = x + 1;
        }
        y = y + 1;
        proof {
            assert((y as int) * (w as int) == (y as int - 1) * (w as int) + (w as int))
                by (nonlinear_arith);
        }
    }
    proof {
        assert((y as int) * (w as int) == gv.len() * gv[0].len());
    }
    counts
}

/// Decides whether the two layouts form a valid pair for the `n` students.
fn check_pair(previous: &SeatAssignment, new: &SeatAssignment, n: usize) -> (r: bool)
    requires
        grids_wf(previous.deep_view(), new.deep_view()),
    ensures
        r == ok_pair(
            previous.deep_view(),
            new.deep_view(),
            n as int,
            previous.deep_view().len() as int,
            previous.deep_view()[0].len() as int,
        ),
{
    let ghost gp = previous.deep_view();
    let ghost gn = new.deep_view();
    let d: usize = previous.len();
    let w: usize = previous[0].len();
    proof {
        crate::utils::lemma_grid_view(*previous);
        crate::utils::lemma_grid_view(*new);
    }
    let mut y: usize = 0;
    while y < d
        invariant
            y <= d,
            d as int == gp.len(),
            w as int == gp[0].len(),
            gp == previous.deep_view(),
            gn == new.deep_view(),
            grids_wf(gp, gn),
            forall|yy: int, xx: int|
                0 <= yy < y as int && 0 <= xx < w as int ==> ((#[trigger] gp[yy][xx]) == VACANT
                    <==> gn[yy][xx] == VACANT),
            forall|yy: int, xx: int|
                0 <= yy < y as int && 0 <= xx < w as int && gp[yy][xx] != VACANT ==> (
                #[trigger] gp[yy][xx]) < n,
            forall|yy: int, xx: int|
                0 <= yy < y as int && 0 <= xx < w as int && gn[yy][xx] != VACANT ==> (
                #[trigger] gn[yy][xx]) < n,
        decreases d - y,
    {
        let prow = &previous[y];
        let nrow = &new[y];
        proof {
            crate::utils::lemma_grid_view(*previous);
            crate::utils::lemma_grid_view(*new);
            assert(prow@ == gp[y as int] && nrow@ == gn[y as int]);
            assert(gp[y as int].len() == w as int && gn[y as int].len() == w as int);
        }
        let mut x: usize = 0;
        while x < w
            invariant
                x <= w,
                y < d,
                d as int == gp.len(),
                w as int == gp[0].len(),
                gp == previous.deep_view(),
                gn == new.deep_view(),
                grids_wf(gp, gn),
                prow@ == gp[y as int],
                nrow@ == gn[y as int],
                prow@.len() == w as int,
                nrow@.len() == w as int,
                forall|yy: int, xx: int|
                    0 <= yy < y as int && 0 <= xx < w as int ==> ((#[trigger] gp[yy][xx]) == VACANT
                        <==> gn[yy][xx] == VACANT),
                forall|xx: int|
                    0 <= xx < x as int ==> ((#[trigger] gp[y as int][xx]) == VACANT <==> gn[y as int][xx]
                        == VACANT),
                forall|yy: int, xx: int|
                    0 <= yy < y as int && 0 <= xx < w as int && gp[yy][xx] != VACANT ==> (
                    #[trigger] gp[yy][xx]) < n,
                forall|xx: int|
                    0 <= xx < x as int && gp[y as int][xx] != VACANT ==> (#[trigger] gp[y as int][xx])
                        < n,
                forall|yy: int, xx: int|
                    0 <= yy < y as int && 0 <= xx < w as int && gn[yy][xx] != VACANT ==> (
                    #[trigger] gn[yy][xx]) < n,
                forall|xx: int|
                    0 <= xx < x as int && gn[y as int][xx] != VACANT ==> (#[trigger] gn[y as int][xx])
                        < n,
            decreases w - x,
        {
            let a: usize = prow[x];
            let b: usize = nrow[x];
            if (a == usize::MAX) != (b == usize::MAX) {
                return false;
            }
            if a != usize::MAX && a >= n {
                return false;
            }
            if b != usize::MAX && b >= n {
                return false;
            }
            x = x + 1;
        }
        y = y + 1;
    }
    let counts_prev = count_ids(previous, n);
    let counts_new = count_ids(new, n);
    let mut id0: usize = 0;
    while id0 < n
        invariant
            id0 <= n,
            d as int == gp.len(),
            w as int == gp[0].len(),
            gp == previous.deep_view(),
            gn == new.deep_view(),
            counts_prev@.len() == n,
            counts_new@.len() == n,
            forall|id: usize|
                (id as int) < n ==> (#[trigger] counts_prev@[id as int]) as int == count_id(
                    gp,
                    d as int,
                    w as int,
                    id,
                ),
            forall|id: usize|
                (id as int) < n ==> (#[trigger] counts_new@[id as int]) as int == count_id(
                    gn,
                    d as int,
                    w as int,
                    id,
                ),
            forall|id: usize| (id as int) < id0 as int ==> #[trigger] count_id(gp, d as int, w as int, id) == 1,
            forall|id: usize| (id as int) < id0 as int ==> #[trigger] count_id(gn, d as int, w as int, id) == 1,
        decreases n - id0,
    {
        if counts_prev[id0] != 1 {
            return false;
        }
        if counts_new[id0] != 1 {
            return false;
        }
        id0 = id0 + 1;
    }
    true
}

/// The `(column, row)` seat of every student in `g`.
fn find_positions(g: &SeatAssignment, n: usize) -> (pos: Vec<(usize, usize)>)
    requires
        grids_wf(g.deep_view(), g.deep_view()),
        ok_pair(
            g.deep_view(),
            g.deep_view(),
            n as int,
            g.deep_view().len() as int,
            g.deep_view()[0].len() as int,
        ),
    ensures
        pos@.len() == n,
        forall|i: int|
            0 <= i < n ==> {
                let p = #[trigger] pos@[i];
                &&& (p.1 as int, p.0 as int) == seat_of(
                    g.deep_view(),
                    g.deep_view().len() as int,
                    g.deep_view()[0].len() as int,
                    i as usize,
                )
                &&& (p.0 as int) < g.deep_view()[0].len()
                &&& (p.1 as int) < g.deep_view().len()
                &&& g.deep_view()[p.1 as int][p.0 as int] == i as usize
            },
{
    let ghost gv = g.deep_view();
    let d: usize = g.len();
    let w: usize = g[0].len();
    proof {
        crate::utils::lemma_grid_view(*g);
    }
    let mut pos: Vec<(usize, usize)> = Vec::new();
    let mut i0: usize = 0;
    while i0 < n
        invariant
            i0 <= n,
            pos@.len() == i0,
        decreases n - i0,
    {
        pos.push((0, 0));
        i0 = i0 + 1;
    }
    let mut y: usize = 0;
    while y < d
        invariant
            y <= d,
            d as int == gv.len(),
            w as int == gv[0].len(),
            gv == g.deep_view(),
            grids_wf(gv, gv),
            ok_pair(gv, gv, n as int, d as int, w as int),
            pos@.len() == n,
            forall|id: usize|
                (id as int) < n && count_id_upto(gv, w as int, id, (y as int) * (w as int)) >= 1
                    ==> {
                    let p = #[trigger] pos@[id as int];
                    &&& (p.0 as int) < w as int
                    &&& (p.1 as int) < d as int
                    &&& gv[p.1 as int][p.0 as int] == id
                },
        decreases d - y,
    {
        let row = &g[y];
        proof {
            crate::utils::lemma_grid_view(*g);
            assert(row@ == gv[y as int]);
            assert(gv[y as int].len() == w as int);
        }
        let mut x: usize = 0;
        while x < w
            invariant
                x <= w,
                y < d,
                d as int == gv.len(),
                w as int == gv[0].len(),
                gv == g.deep_view(),
                grids_wf(gv, gv),
                ok_pair(gv, gv, n as int, d as int, w as int),
                row@ == gv[y as int],
                row@.len() == w as int,
                pos@.len() == n,
                forall|id: usize|
                    (id as int) < n && count_id_upto(
                        gv,
                        w as int,
                        id,
                        (y as int) * (w as int) + x as int,
                    ) >= 1 ==> {
                        let p = #[trigger] pos@[id as int];
                        &&& (p.0 as int) < w as int
                        &&& (p.1 as int) < d as int
                        &&& gv[p.1 as int][p.0 as int] == id
                    },
            decreases w - x,
        {
            let ghost k: int = (y as int) * (w as int) + x as int;
            proof {
                lemma_cell_to_flat(w as int, d as int, y as int, x as int);
                assert(k / (w as int) == y as int && k % (w as int) == x as int) by {
                    vstd::arithmetic::div_mod::lemma_fundamental_div_mod_converse(
                        k,
                        w as int,
                        y as int,
                        x as int,
                    );
                }
            }
            let v: usize = row[x];
            if v != usize::MAX {
                pos[v] = (x, y);
            }
            x = x + 1;
        }
        y = y + 1;
        proof {
            assert((y as int) * (w as int) == (y as int - 1) * (w as int) + (w as int))
                by (nonlinear_arith);
        }
    }
    proof {
        assert((y as int) * (w as int) == (d as int) * (w as int));
        assert forall|i: int| 0 <= i < n implies {
            let p = #[trigger] pos@[i];
            &&& (p.1 as int, p.0 as int) == seat_of(gv, d as int, w as int, i as usize)
            &&& (p.0 as int) < w as int
            &&& (p.1 as int) < d as int
            &&& gv[p.1 as int][p.0 as int] == i as usize
        } by {
            let id = i as usize;
            assert(count_id(gv, d as int, w as int, id) == 1);
            lemma_count_nonneg(gv, w as int, id, (d as int) * (w as int));
            let p = pos@[i];
            assert(gv[p.1 as int][p.0 as int] == id);
            lemma_seat_of(gv, d as int, w as int, id);
            let q = seat_of(gv, d as int, w as int, id);
            lemma_seat_unique(
                gv,
                d as int,
                w as int,
                id,
                p.1 as int,
                p.0 as int,
                q.0,
                q.1,
            );
        }
    }
    pos
}

// ------------------------------------------------------------------
// Bounds of the individual score.
// ------------------------------------------------------------------

proof fn lemma_div_le_self(x: int, c: int)
    requires
        0 <= x,
        1 <= c,
    ensures
        0 <= x / c <= x,
{
    lemma_div_pos_is_pos(x, c);
    lemma_div_nonincreasing(x, c);
}

proof fn lemma_adj_bounds(
    gp: Seq<Seq<usize>>,
    gn: Seq<Seq<usize>>,
    ss: Seq<Student>,
    d: int,
    w: int,
    i: usize,
    t: int,
)
    requires
        grids_wf(gp, gn),
        ok_pair(gp, gn, ss.len() as int, d, w),
        d == gp.len() as int,
        w == gp[0].len() as int,
        (i as int) < ss.len(),
        0 <= t <= 8,
    ensures
        0 <= adj_contrib(gp, gn, d, w, i, t).1 <= t,
        0 <= adj_contrib(gp, gn, d, w, i, t).0 <= 2046 * t,
    decreases t,
{
    if t > 0 {
        lemma_adj_bounds(gp, gn, ss, d, w, i, t - 1);
        let py = seat_of(gp, d, w, i).0;
        let px = seat_of(gp, d, w, i).1;
        let ny = py + dir_dy(t - 1);
        let nx = px + dir_dx(t - 1);
        if 0 <= ny < d && 0 <= nx < w && gp[ny][nx] != VACANT {
            let j = gp[ny][nx];
            lemma_seat_of(gn, d, w, i);
            lemma_seat_of(gn, d, w, j);
        }
    }
}

/// The individual score lies within fixed bounds under valid inputs.
proof fn lemma_indiv_bound(
    gp: Seq<Seq<usize>>,
    gn: Seq<Seq<usize>>,
    ss: Seq<Student>,
    d: int,
    w: int,
    i: int,
)
    requires
        grids_wf(gp, gn),
        ok_pair(gp, gn, ss.len() as int, d, w),
        d == gp.len() as int,
        w == gp[0].len() as int,
        0 <= i < ss.len(),
    ensures
        -2000000 <= indiv_score(gp, gn, ss, d, w, i) <= 17000000,
{
    lemma_adj_bounds(gp, gn, ss, d, w, i as usize, 8);
    let acc = adj_contrib(gp, gn, d, w, i as usize, 8);
    if acc.1 > 0 {
        lemma_div_le_self(1000 * acc.0, acc.1);
    }
    lemma_anchor_bound(gn, ss, d, w, i as usize);
}

/// The anchor penalty lies below two million under valid inputs.
proof fn lemma_anchor_bound(gn: Seq<Seq<usize>>, ss: Seq<Student>, d: int, w: int, i: usize)
    requires
        1 <= d <= 1024,
        1 <= w <= 1024,
        is_rect(gn, d, w),
        count_id(gn, d, w, i) == 1,
    ensures
        0 <= anchor_penalty(gn, d, w, i) < 2000000,
{
    lemma_seat_of(gn, d, w, i);
    let y = seat_of(gn, d, w, i).0;
    let x = seat_of(gn, d, w, i).1;
    let a = (2 * x - w) * (2 * x - w) + (2 * y + 2) * (2 * y + 2);
    assert(0 <= a <= 8400000) by (nonlinear_arith)
        requires
            0 <= x < w <= 1024,
            0 <= y < d <= 1024,
            a == (2 * x - w) * (2 * x - w) + (2 * y + 2) * (2 * y + 2),
    ;
    lemma_isqrt_spec((250000 * a) as nat);
    let r = isqrt_spec((250000 * a) as nat);
    if r >= 2000000 {
        assert(r * r >= 2000000 * 2000000) by (nonlinear_arith)
            requires
                r >= 2000000,
        ;
    }
}

// ------------------------------------------------------------------
// The per-student score vector.
// ------------------------------------------------------------------

/// Computes every student's individual score, or reports that the two
/// layouts do not form a valid pair.
pub fn individual(previous: &SeatAssignment, new: &SeatAssignment, students: &Vec<Student>) -> (r:
    Result<Vec<i64>, SolveError>)
    requires
        grids_wf(previous.deep_view(), new.deep_view()),
        1 <= students@.len() <= 1048576,
    ensures
        ({
            let gp = previous.deep_view();
            let gn = new.deep_view();
            let n = students@.len() as int;
            let d = gp.len() as int;
            let w = gp[0].len() as int;
            &&& (r is Ok) <==> ok_pair(gp, gn, n, d, w)
            &&& (r is Ok) ==> (r->Ok_0)@.len() == n
            &&& (r is Ok) ==> forall|i: int|
                0 <= i < n ==> (r->Ok_0)@[i] as int == indiv_score(gp, gn, students@, d, w, i)
            &&& (r is Err) ==> r->Err_0 == SolveError::ShapeMismatch
        }),
{
    let ghost gp = previous.deep_view();
    let ghost gn = new.deep_view();
    let ghost ss = students@;
    let n: usize = students.len();
    let d: usize = previous.len();
    let w: usize = previous[0].len();
    if !check_pair(previous, new, n) {
        return Err(SolveError::ShapeMismatch);
    }
    let pos_prev = find_positions(previous, n);
    let pos_new = find_positions(new, n);
    proof {
        crate::utils::lemma_grid_view(*previous);
        crate::utils::lemma_grid_view(*new);
    }
    let mut scores: Vec<i64> = Vec::new();
    let mut i: usize = 0;
    while i < n
        invariant
            i <= n,
            n == ss.len(),
            n >= 1,
            d as int == gp.len(),
            w as int == gp[0].len(),
            gp == previous.deep_view(),
            gn == new.deep_view(),
            ss == students@,
            grids_wf(gp, gn),
            ok_pair(gp, gn, n as int, d as int, w as int),
            pos_prev@.len() == n,
            pos_new@.len() == n,
            forall|t: int|
                0 <= t < n ==> {
                    let p = #[trigger] pos_prev@[t];
                    &&& (p.1 as int, p.0 as int) == seat_of(gp, d as int, w as int, t as usize)
                    &&& (p.0 as int) < w as int
                    &&& (p.1 as int) < d as int
                },
            forall|t: int|
                0 <= t < n ==> {
                    let p = #[trigger] pos_new@[t];
                    &&& (p.1 as int, p.0 as int) == seat_of(gn, d as int, w as int, t as usize)
                    &&& (p.0 as int) < w as int
                    &&& (p.1 as int) < d as int
                },
            scores@.len() == i,
            forall|t: int|
                0 <= t < i as int ==> (#[trigger] scores@[t]) as int == indiv_score(
                    gp,
                    gn,
                    ss,
                    d as int,
                    w as int,
                    t,
                ),
        decreases n - i,
    {
        let (px, py) = pos_prev[i];
        let (ix, iy) = pos_new[i];
        let mut sum: u64 = 0;
        let mut cnt: u64 = 0;
        let mut t: usize = 0;
        while t < 8
            invariant
                t <= 8,
                i < n,
                n == ss.len(),
                d as int == gp.len(),
                w as int == gp[0].len(),
                gp == previous.deep_view(),
                gn == new.deep_view(),
                ss == students@,
                grids_wf(gp, gn),
                ok_pair(gp, gn, n as int, d as int, w as int),
                (px as int, py as int) == (
                    seat_of(gp, d as int, w as int, i).1,
                    seat_of(gp, d as int, w as int, i).0,
                ),
                (ix as int, iy as int) == (
                    seat_of(gn, d as int, w as int, i).1,
                    seat_of(gn, d as int, w as int, i).0,
                ),
                px < w && py < d && ix < w && iy < d,
                pos_new@.len() == n,
                forall|q: int|
                    0 <= q < n ==> {
                        let p = #[trigger] pos_new@[q];
                        &&& (p.1 as int, p.0 as int) == seat_of(gn, d as int, w as int, q as usize)
                        &&& (p.0 as int) < w as int
                        &&& (p.1 as int) < d as int
                    },
                sum as int == adj_contrib(gp, gn, d as int, w as int, i, t as int).0,
                cnt as int == adj_contrib(gp, gn, d as int, w as int, i, t as int).1,
                cnt <= t as u64,
                sum <= 2046 * (t as u64),
            decreases 8 - t,
        {
            let (dx, dy): (i64, i64) = dir_step(t);
            let nx: i64 = px as i64 + dx;
            let ny: i64 = py as i64 + dy;
            if 0 <= nx && nx < w as i64 && 0 <= ny && ny < d as i64 {
                let nrow = &previous[ny as usize];
                proof {
                    crate::utils::lemma_grid_view(*previous);
                    assert(nrow@ == gp[ny as int]);
                    assert(gp[ny as int].len() == w as int);
                }
                let j: usize = nrow[nx as usize];
                if j != usize::MAX {
                    proof {
                        assert(gp[ny as int][nx as int] < n);
                    }
                    let (jx, jy) = pos_new[j];
                    let ddx: usize = if ix >= jx {
                        ix - jx
                    } else {
                        jx - ix
                    };
                    let ddy: usize = if iy >= jy {
                        iy - jy
                    } else {
                        jy - iy
                    };
                    proof {
                        assert(ddx as int == abs(ix as int - jx as int));
                        assert(ddy as int == abs(iy as int - jy as int));
                        assert(ddx as int + ddy as int <= 2046);
                    }
                    sum = sum + (ddx as u64) + (ddy as u64);
                    cnt = cnt + 1;
                }
            }
            t = t + 1;
        }
        let stab: u64 = if cnt == 0 {
            0
        } else {
            proof {
                lemma_div_le_self(1000 * sum as int, cnt as int);
            }
            (1000 * sum) / cnt
        };
        proof {
            assert(stab as int == stab_score(gp, gn, d as int, w as int, i));
            assert(stab <= 16368000);
        }
        let mut sc: i64 = stab as i64;
        if students[i].needs_assistance {
            let t1: i64 = 2 * (ix as i64) - (w as i64);
            let t2: i64 = 2 * (iy as i64) + 2;
            proof {
                assert(t1 as int * t1 as int >= 0 && t1 as int * t1 as int <= 4200000
                    && t2 as int * t2 as int >= 0 && t2 as int * t2 as int <= 4300000)
                    by (nonlinear_arith)
                    requires
                        -1024 <= t1 as int,
                        t1 as int <= 2048,
                        2 <= t2 as int,
                        t2 as int <= 2050,
                ;
            }
            let a: i64 = t1 * t1 + t2 * t2;
            let v: u64 = 250000 * (a as u64);
            let p: u64 = isqrt(v);
            proof {
                lemma_anchor_bound(gn, ss, d as int, w as int, i);
                assert(p as int == anchor_penalty(gn, d as int, w as int, i));
            }
            sc = sc - (p as i64);
        }
        proof {
            assert(sc as int == indiv_score(gp, gn, ss, d as int, w as int, i as int));
        }
        scores.push(sc);
        i = i + 1;
    }
    Ok(scores)
}

// ------------------------------------------------------------------
// The balance term, executably.
// ------------------------------------------------------------------

/// The value a student contributes to attribute `a`, executably.
fn attr_of(s: &Student, a: Attr) -> (v: u128)
    ensures
        v as int == attr_val(*s, a),
        v <= 18446744073709551615u128,
{
    match a {
        Attr::Academic => s.academic_ability as u128,
        Attr::Exercise => s.exercise_ability as u128,
        Attr::Leadership => s.leadership_ability as u128,
        Attr::MaleRate => if s.gender == Gender::Male {
            1
        } else {
            0
        },
    }
}

/// Computes the balance term of one attribute over the candidate layout.
fn balance_attr(new: &SeatAssignment, students: &Vec<Student>, a: Attr, weight: i64) -> (r: i64)
    requires
        grids_wf(new.deep_view(), new.deep_view()),
        ok_pair(
            new.deep_view(),
            new.deep_view(),
            students@.len() as int,
            new.deep_view().len() as int,
            new.deep_view()[0].len() as int,
        ),
        0 <= weight <= 1000,
    ensures
        r as int == balance_term(
            new.deep_view(),
            students@,
            new.deep_view().len() as int,
            new.deep_view()[0].len() as int,
            a,
            weight as int,
        ),
        0 <= r <= weight,
{
    let ghost gn = new.deep_view();
    let ghost ss = students@;
    let n: usize = students.len();
    let d: usize = new.len();
    let w: usize = new[0].len();
    proof {
        crate::utils::lemma_grid_view(*new);
    }
    let mut found: bool = false;
    let mut mn_n: u128 = 0;
    let mut mn_d: u128 = 0;
    let mut mx_n: u128 = 0;
    let mut mx_d: u128 = 0;
    let mut y: usize = 0;
    while y < d
        invariant
            y <= d,
            n == ss.len(),
            d as int == gn.len(),
            w as int == gn[0].len(),
            gn == new.deep_view(),
            ss == students@,
            grids_wf(gn, gn),
            ok_pair(gn, gn, n as int, d as int, w as int),
            (found, mn_n as int, mn_d as int, mx_n as int, mx_d as int) == balance_fold(
                gn,
                ss,
                d as int,
                w as int,
                a,
                (y as int) * (w as int),
            ),
            mn_n <= 170000000000000000000u128,
            mx_n <= 170000000000000000000u128,
            mn_d <= 9,
            mx_d <= 9,
            found ==> 1 <= mn_d && 1 <= mx_d,
            found ==> mn_n * mx_d <= mx_n * mn_d,
            !found ==> mn_n == 0 && mn_d == 0 && mx_n == 0 && mx_d == 0,
        decreases d - y,
    {
        let mut x: usize = 0;
        while x < w
            invariant
                x <= w,
                y < d,
                n == ss.len(),
                d as int == gn.len(),
                w as int == gn[0].len(),
                gn == new.deep_view(),
                ss == students@,
                grids_wf(gn, gn),
                ok_pair(gn, gn, n as int, d as int, w as int),
                (found, mn_n as int, mn_d as int, mx_n as int, mx_d as int) == balance_fold(
                    gn,
                    ss,
                    d as int,
                    w as int,
                    a,
                    (y as int) * (w as int) + x as int,
                ),
                mn_n <= 170000000000000000000u128,
                mx_n <= 170000000000000000000u128,
                mn_d <= 9,
                mx_d <= 9,
                found ==> 1 <= mn_d && 1 <= mx_d,
                found ==> mn_n * mx_d <= mx_n * mn_d,
                !found ==> mn_n == 0 && mn_d == 0 && mx_n == 0 && mx_d == 0,
            decreases w - x,
        {
            let ghost k: int = (y as int) * (w as int) + x as int;
            proof {
                lemma_cell_to_flat(w as int, d as int, y as int, x as int);
                assert(k / (w as int) == y as int && k % (w as int) == x as int) by {
                    vstd::arithmetic::div_mod::lemma_fundamental_div_mod_converse(
                        k,
                        w as int,
                        y as int,
                        x as int,
                    );
                }
            }
            // Window sum and count around (y, x).
            let mut s: u128 = 0;
            let mut c: u128 = 0;
            let mut t: usize = 0;
            while t < 9
                invariant
                    t <= 9,
                    y < d,
                    x < w,
                    n == ss.len(),
                    d as int == gn.len(),
                    w as int == gn[0].len(),
                    gn == new.deep_view(),
                    ss == students@,
                    grids_wf(gn, gn),
                    ok_pair(gn, gn, n as int, d as int, w as int),
                    (s as int, c as int) == win_stats(
                        gn,
                        ss,
                        d as int,
                        w as int,
                        a,
                        y as int,
                        x as int,
                        t as int,
                    ),
                    c <= t as u128,
                    s <= (t as u128) * 18446744073709551615u128,
                decreases 9 - t,
            {
                let dy: i64 = (t / 3) as i64 - 1;
                let dx: i64 = (t % 3) as i64 - 1;
                let yy: i64 = y as i64 + dy;
                let xx: i64 = x as i64 + dx;
                if 0 <= yy && yy < d as i64 && 0 <= xx && xx < w as i64 {
                    let row = &new[yy as usize];
                    proof {
                        crate::utils::lemma_grid_view(*new);
                        assert(row@ == gn[yy as int]);
                        assert(gn[yy as int].len() == w as int);
                    }
                    let j: usize = row[xx as usize];
                    if j != usize::MAX {
                        proof {
                            assert(gn[yy as int][xx as int] < n);
                        }
                        let v = attr_of(&students[j], a);
                        s = s + v;
                        c = c + 1;
                    }
                }
                t = t + 1;
            }
            // Fold the window mean into the running minimum and maximum.
            if c > 0 {
                if !found {
                    found = true;
                    mn_n = s;
                    mn_d = c;
                    mx_n = s;
                    mx_d = c;
                } else {
                    proof {
                        lemma_balance_products(s as int, c as int, mn_n as int, mn_d as int, mx_n as int, mx_d as int);
                    }
                    let new_min = s * mn_d < mn_n * c;
                    let new_max = s * mx_d > mx_n * c;
                    if new_min {
                        mn_n = s;
                        mn_d = c;
                    }
                    if new_max {
                        mx_n = s;
                        mx_d = c;
                    }
                }
            }
            x = x + 1;
        }
        y = y + 1;
        proof {
            assert((y as int) * (w as int) == (y as int - 1) * (w as int) + (w as int))
                by (nonlinear_arith);
        }
    }
    proof {
        assert((y as int) * (w as int) == (d as int) * (w as int));
    }
    if !found || mx_n == 0 {
        return 0;
    }
    proof {
        assert((weight as int) * (mn_n as int) <= 1000 * 170000000000000000000) by (nonlinear_arith)
            requires
                0 <= weight as int <= 1000,
                0 <= mn_n as int <= 170000000000000000000,
        ;
        assert((weight as int) * (mn_n as int) * (mx_d as int) <= 1000 * 170000000000000000000 * 9)
            by (nonlinear_arith)
            requires
                0 <= (weight as int) * (mn_n as int) <= 1000 * 170000000000000000000,
                0 <= mx_d as int <= 9,
        ;
        assert((mn_d as int) * (mx_n as int) >= 1) by (nonlinear_arith)
            requires
                1 <= mn_d as int,
                1 <= mx_n as int,
        ;
    }
    proof {
        assert((mn_d as int) * (mx_n as int) <= 9 * 170000000000000000000 && 1 <= (mn_d as int) * (
        mx_n as int)) by (nonlinear_arith)
            requires
                1 <= mn_d as int <= 9,
                1 <= mx_n as int <= 170000000000000000000,
        ;
    }
    let num: u128 = (weight as u128) * mn_n * mx_d;
    let den: u128 = mn_d * mx_n;
    let q: u128 = num / den;
    proof {
        assert(num as int <= (weight as int) * (mx_n as int) * (mn_d as int)) by (nonlinear_arith)
            requires
                num as int == (weight as int) * (mn_n as int) * (mx_d as int),
                (mn_n as int) * (mx_d as int) <= (mx_n as int) * (mn_d as int),
                0 <= weight as int,
        ;
        assert(((weight as int) * (mx_n as int) * (mn_d as int)) == (weight as int) * ((mx_n as int)
            * (mn_d as int))) by (nonlinear_arith);
        lemma_div_is_ordered(
            num as int,
            (weight as int) * ((mx_n as int) * (mn_d as int)),
            den as int,
        );
        assert((mx_n as int) * (mn_d as int) == den as int) by (nonlinear_arith)
            requires
                den as int == (mn_d as int) * (mx_n as int),
        ;
        vstd::arithmetic::div_mod::lemma_div_by_multiple(weight as int, den as int);
        lemma_div_pos_is_pos(num as int, den as int);
    }
    q as i64
}

/// The products compared when updating the running minimum and maximum fit
/// comfortably, and the branch conditions preserve `min <= max`.
proof fn lemma_balance_products(s: int, c: int, mn_n: int, mn_d: int, mx_n: int, mx_d: int)
    requires
        0 <= s <= 170000000000000000000,
        1 <= c <= 9,
        0 <= mn_n <= 170000000000000000000,
        1 <= mn_d <= 9,
        0 <= mx_n <= 170000000000000000000,
        1 <= mx_d <= 9,
    ensures
        s * mn_d <= 170000000000000000000 * 9,
        mn_n * c <= 170000000000000000000 * 9,
        s * mx_d <= 170000000000000000000 * 9,
        mx_n * c <= 170000000000000000000 * 9,
        0 <= s * mn_d && 0 <= mn_n * c && 0 <= s * mx_d && 0 <= mx_n * c,
        (s * mn_d < mn_n * c) && !(s * mx_d > mx_n * c) ==> s * mx_d <= mx_n * c,
        !(s * mn_d < mn_n * c) && (s * mx_d > mx_n * c) ==> mn_n * c <= s * mn_d,
        (s * mn_d < mn_n * c) && (s * mx_d > mx_n * c) ==> s * c <= s * c,
    decreases 0int,
{
    assert(s * mn_d <= 170000000000000000000 * 9 && 0 <= s * mn_d) by (nonlinear_arith)
        requires
            0 <= s <= 170000000000000000000,
            1 <= mn_d <= 9,
    ;
    assert(mn_n * c <= 170000000000000000000 * 9 && 0 <= mn_n * c) by (nonlinear_arith)
        requires
            0 <= mn_n <= 170000000000000000000,
            1 <= c <= 9,
    ;
    assert(s * mx_d <= 170000000000000000000 * 9 && 0 <= s * mx_d) by (nonlinear_arith)
        requires
            0 <= s <= 170000000000000000000,
            1 <= mx_d <= 9,
    ;
    assert(mx_n * c <= 170000000000000000000 * 9 && 0 <= mx_n * c) by (nonlinear_arith)
        requires
            0 <= mx_n <= 170000000000000000000,
            1 <= c <= 9,
    ;
}

// ------------------------------------------------------------------
// The full evaluation.
// ------------------------------------------------------------------

/// Scores candidate `new` against reference `previous`: the floored mean of
/// the individual scores plus the four weighted balance terms. Returns
/// `ShapeMismatch` exactly when the two layouts are not a valid pair for the
/// given students.
pub fn evaluate(previous: &SeatAssignment, new: &SeatAssignment, students: &Vec<Student>) -> (r:
    Result<i64, SolveError>)
    requires
        grids_wf(previous.deep_view(), new.deep_view()),
        1 <= students@.len() <= 1048576,
    ensures
        ({
            let gp = previous.deep_view();
            let gn = new.deep_view();
            let n = students@.len() as int;
            &&& (r is Ok) <==> ok_pair(gp, gn, n, gp.len() as int, gp[0].len() as int)
            &&& (r is Ok) ==> r->Ok_0 as int == spec_evaluate(gp, gn, students@)
            &&& (r is Ok) ==> -2000000 <= r->Ok_0 <= 17004000
            &&& (r is Err) ==> r->Err_0 == SolveError::ShapeMismatch
        }),
{
    let ghost gp = previous.deep_view();
    let ghost gn = new.deep_view();
    let ghost ss = students@;
    let n: usize = students.len();
    let d: usize = previous.len();
    let w: usize = previous[0].len();
    let scores = match individual(previous, new, students) {
        Err(e) => {
            return Err(e);
        },
        Ok(scores) => scores,
    };
    let mut sum: i64 = 0;
    let mut i: usize = 0;
    while i < n
        invariant
            i <= n,
            n == ss.len(),
            1 <= n <= 1048576,
            d as int == gp.len(),
            w as int == gp[0].len(),
            gp == previous.deep_view(),
            gn == new.deep_view(),
            ss == students@,
            grids_wf(gp, gn),
            ok_pair(gp, gn, n as int, d as int, w as int),
            scores@.len() == n,
            forall|t: int|
                0 <= t < n ==> (#[trigger] scores@[t]) as int == indiv_score(
                    gp,
                    gn,
                    ss,
                    d as int,
                    w as int,
                    t,
                ),
            sum as int == indiv_sum(gp, gn, ss, d as int, w as int, i as int),
            -2000000 * (i as int) <= sum as int <= 17000000 * (i as int),
        decreases n - i,
    {
        proof {
            lemma_indiv_bound(gp, gn, ss, d as int, w as int, i as int);
        }
        sum = sum + scores[i];
        i = i + 1;
    }
    let base: i64 = floor_div_i64(sum, n as i64);
    proof {
        if sum >= 0 {
            lemma_div_pos_is_pos(sum as int, n as int);
            lemma_div_nonincreasing(sum as int, n as int);
        } else {
            lemma_div_neg_bound(-(sum as int), n as int);
            lemma_div_is_ordered(sum as int, 0, n as int);
            lemma_div_pos_is_pos(0, n as int);
            lemma_div_nonincreasing(0, n as int);
        }
        assert(-2000000 * (i as int) >= -2100000000000000) by (nonlinear_arith)
            requires
                0 <= i as int <= 1048576,
        ;
        assert(17000000 * (i as int) <= 17900000000000000) by (nonlinear_arith)
            requires
                0 <= i as int <= 1048576,
        ;
    }
    proof {
        vstd::arithmetic::div_mod::lemma_div_multiples_vanish(-2000000, n as int);
        vstd::arithmetic::div_mod::lemma_div_multiples_vanish(17000000, n as int);
        assert((n as int) * -2000000 == -2000000 * (n as int)) by (nonlinear_arith);
        assert((n as int) * 17000000 == 17000000 * (n as int)) by (nonlinear_arith);
        lemma_div_is_ordered(-2000000 * (n as int), sum as int, n as int);
        lemma_div_is_ordered(sum as int, 17000000 * (n as int), n as int);
    }
    let mut score: i64 = base;
    let ta = balance_attr(new, students, Attr::Academic, ACADEMIC_WEIGHT);
    let te = balance_attr(new, students, Attr::Exercise, EXERCISE_WEIGHT);
    let tl = balance_attr(new, students, Attr::Leadership, LEADERSHIP_WEIGHT);
    let tg = balance_attr(new, students, Attr::MaleRate, GENDER_WEIGHT);
    score = score + ta + te + tl + tg;
    Ok(score)
}

/// A floored quotient of a negative value stays within the value's bound.
proof fn lemma_div_neg_bound(m: int, c: int)
    requires
        0 <= m,
        1 <= c,
    ensures
        (-m) / c >= -m,
{
    lemma_fundamental_div_mod(-m, c);
    let q = (-m) / c;
    let r = (-m) % c;
    vstd::arithmetic::div_mod::lemma_mod_bound(-m, c);
    assert(q >= -m) by (nonlinear_arith)
        requires
            -m == c * q + r,
            0 <= r < c,
            0 <= m,
            1 <= c,
    ;
}

/// The `t`-th adjacency offset, executably.
fn dir_step(t: usize) -> (r: (i64, i64))
    requires
        t < 8,
    ensures
        r.0 as int == dir_dx(t as int),
        r.1 as int == dir_dy(t as int),
{
    if t == 0 {
        (0, 1)
    } else if t == 1 {
        (1, 0)
    } else if t == 2 {
        (0, -1)
    } else if t == 3 {
        (-1, 0)
    } else if t == 4 {
        (-1, -1)
    } else if t == 5 {
        (1, 1)
    } else if t == 6 {
        (-1, 1)
    } else {
        (1, -1)
    }
}

} // verus!
