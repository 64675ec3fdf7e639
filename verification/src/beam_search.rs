use vstd::prelude::*;

use crate::eval_func::{evaluate, grids_wf, spec_evaluate};
use crate::grid::{is_rect, lemma_cell_to_flat, ok_pair, VACANT};
use crate::simulated_annealing::grid_swap;
use crate::structs::{SeatAssignment, SolveError, Student};
use crate::utils::{copy_grid, is_swap, lemma_grid_view, lemma_swap_ok_pair, swap_seats};

verus! {

// ------------------------------------------------------------------
// The candidate order: by score, ties broken by the grids' natural
// (reading-order lexicographic) order.
// ------------------------------------------------------------------

/// Whether `a` is lexicographically greater than `b` over the cells from
/// position `k` on, in reading order.
pub open spec fn lex_gt(a: Seq<Seq<usize>>, b: Seq<Seq<usize>>, d: int, w: int, k: int) -> bool
    decreases d * w - k,
{
    if k < 0 || k >= d * w {
        false
    } else {
        let va = a[k / w][k % w];
        let vb = b[k / w][k % w];
        if va > vb {
            true
        } else if va < vb {
            false
        } else {
            lex_gt(a, b, d, w, k + 1)
        }
    }
}

/// The strict "better" order on scored candidates: a higher score wins, and
/// equal scores fall back to the greater grid.
pub open spec fn cand_better(
    a: (int, Seq<Seq<usize>>),
    b: (int, Seq<Seq<usize>>),
    d: int,
    w: int,
) -> bool {
    a.0 > b.0 || (a.0 == b.0 && lex_gt(a.1, b.1, d, w, 0))
}

/// Lexicographic comparison of two same-shaped grids, cell by cell in
/// reading order.
fn grid_lex_gt(a: &SeatAssignment, b: &SeatAssignment, Ghost(d): Ghost<int>, Ghost(w): Ghost<int>) -> (r: bool)
    requires
        1 <= w,
        1 <= d,
        is_rect(a.deep_view(), d, w),
        is_rect(b.deep_view(), d, w),
    ensures
        r == lex_gt(a.deep_view(), b.deep_view(), d, w, 0),
{
    let ghost av = a.deep_view();
    let ghost bv = b.deep_view();
    proof {
        lemma_grid_view(*a);
        lemma_grid_view(*b);
    }
    let dd: usize = a.len();
    let ww: usize = a[0].len();
    proof {
        assert(av[0].len() == w);
        assert(av[0] == a@[0int]@);
    }
    let mut y: usize = 0;
    while y < dd
        invariant
            y <= dd,
            dd as int == d,
            ww as int == w,
            1 <= w,
            av == a.deep_view(),
            bv == b.deep_view(),
            is_rect(av, d, w),
            is_rect(bv, d, w),
            a@.len() == d,
            b@.len() == d,
            lex_gt(av, bv, d, w, 0) == lex_gt(av, bv, d, w, (y as int) * w),
        decreases dd - y,
    {
        let ra = &a[y];
        let rb = &b[y];
        proof {
            lemma_grid_view(*a);
            lemma_grid_view(*b);
            assert(ra@ == av[y as int] && rb@ == bv[y as int]);
            assert(av[y as int].len() == w && bv[y as int].len() == w);
        }
        let mut x: usize = 0;
        while x < ww
            invariant
                x <= ww,
                y < dd,
                dd as int == d,
                ww as int == w,
                1 <= w,
                av == a.deep_view(),
                bv == b.deep_view(),
                is_rect(av, d, w),
                is_rect(bv, d, w),
                ra@ == av[y as int],
                rb@ == bv[y as int],
                ra@.len() == w,
                rb@.len() == w,
                lex_gt(av, bv, d, w, 0) == lex_gt(av, bv, d, w, (y as int) * w + x as int),
            decreases ww - x,
        {
            let ghost k: int = (y as int) * w + x as int;
            proof {
                lemma_cell_to_flat(w, d, y as int, x as int);
                assert(k / w == y as int && k % w == x as int) by {
                    vstd::arithmetic::div_mod::lemma_fundamental_div_mod_converse(
                        k,
                        w,
                        y as int,
                        x as int,
                    );
                }
            }
            let va: usize = ra[x];
            let vb: usize = rb[x];
            if va > vb {
                return true;
            }
            if va < vb {
                return false;
            }
            x = x + 1;
        }
        y = y + 1;
        proof {
            assert((y as int) * w == (y as int - 1) * w + w) by (nonlinear_arith);
        }
    }
    proof {
        assert((y as int) * w == d * w);
    }
    false
}

// ------------------------------------------------------------------
// The exact value of a beam run, stage by stage.
// ------------------------------------------------------------------

/// The scored candidates obtained by swapping the fixed cell `(y1, x1)` of
/// one kept layout with each of its first `c` cells (columns outermost),
/// keeping the occupied ones.
pub open spec fn expand_one(
    gp: Seq<Seq<usize>>,
    ss: Seq<Student>,
    cand: Seq<Seq<usize>>,
    y1: int,
    x1: int,
    d: int,
    w: int,
    c: int,
) -> Seq<(int, Seq<Seq<usize>>)>
    decreases c,
{
    if c <= 0 {
        Seq::empty()
    } else {
        let prior = expand_one(gp, ss, cand, y1, x1, d, w, c - 1);
        let x2 = (c - 1) / d;
        let y2 = (c - 1) % d;
        if cand[y2][x2] == VACANT {
            prior
        } else {
            let g2 = grid_swap(cand, y1, x1, y2, x2);
            prior.push((spec_evaluate(gp, g2, ss), g2))
        }
    }
}

/// The candidates of the first `qi` kept layouts, in order.
pub open spec fn expand_queue(
    gp: Seq<Seq<usize>>,
    ss: Seq<Student>,
    queue: Seq<Seq<Seq<usize>>>,
    y1: int,
    x1: int,
    d: int,
    w: int,
    qi: int,
) -> Seq<(int, Seq<Seq<usize>>)>
    decreases qi,
{
    if qi <= 0 {
        Seq::empty()
    } else {
        expand_queue(gp, ss, queue, y1, x1, d, w, qi - 1) + expand_one(
            gp,
            ss,
            queue[qi - 1],
            y1,
            x1,
            d,
            w,
            d * w,
        )
    }
}

/// The position of the best candidate among the first `j`, the earliest of
/// equals.
pub open spec fn best_index(cands: Seq<(int, Seq<Seq<usize>>)>, d: int, w: int, j: int) -> int
    decreases j,
{
    if j <= 1 {
        0
    } else {
        let b = best_index(cands, d, w, j - 1);
        if cand_better(cands[j - 1], cands[b], d, w) {
            j - 1
        } else {
            b
        }
    }
}

/// The best `m` candidate layouts, best first, each winner removed by a
/// swap with the last entry (as the in-place extraction does).
pub open spec fn select_top(cands: Seq<(int, Seq<Seq<usize>>)>, d: int, w: int, m: int) -> Seq<
    Seq<Seq<usize>>,
>
    decreases m,
{
    if m <= 0 || cands.len() == 0 {
        Seq::empty()
    } else {
        let bi = best_index(cands, d, w, cands.len() as int);
        let rest = cands.update(bi, cands.last()).drop_last();
        seq![cands[bi].1] + select_top(rest, d, w, m - 1)
    }
}

/// The kept layouts after resolving the first `c` cells of the reference
/// layout (columns outermost), starting from `queue`.
pub open spec fn beam_stages(
    gp: Seq<Seq<usize>>,
    ss: Seq<Student>,
    queue: Seq<Seq<Seq<usize>>>,
    bw: int,
    d: int,
    w: int,
    c: int,
) -> Seq<Seq<Seq<usize>>>
    decreases c,
{
    if c <= 0 {
        queue
    } else {
        let q = beam_stages(gp, ss, queue, bw, d, w, c - 1);
        let x1 = (c - 1) / d;
        let y1 = (c - 1) % d;
        if gp[y1][x1] == VACANT {
            q
        } else {
            select_top(expand_queue(gp, ss, q, y1, x1, d, w, q.len() as int), d, w, bw)
        }
    }
}

/// The position of the best survivor among the first `j`, under a final
/// rescoring.
pub open spec fn final_best(
    gp: Seq<Seq<usize>>,
    ss: Seq<Student>,
    queue: Seq<Seq<Seq<usize>>>,
    d: int,
    w: int,
    j: int,
) -> int
    decreases j,
{
    if j <= 1 {
        0
    } else {
        let b = final_best(gp, ss, queue, d, w, j - 1);
        if cand_better(
            (spec_evaluate(gp, queue[j - 1], ss), queue[j - 1]),
            (spec_evaluate(gp, queue[b], ss), queue[b]),
            d,
            w,
        ) {
            j - 1
        } else {
            b
        }
    }
}

/// The exact outcome of a beam run: the surviving layouts after every cell
/// is resolved, and the best of them with its score. A pure function of the
/// inputs: the search is deterministic.
pub open spec fn beam_model(gp: Seq<Seq<usize>>, ss: Seq<Student>, bw: int) -> (
    Seq<Seq<usize>>,
    int,
) {
    let d = gp.len() as int;
    let w = gp[0].len() as int;
    let qf = beam_stages(gp, ss, seq![gp], bw, d, w, w * d);
    let bi = final_best(gp, ss, qf, d, w, qf.len() as int);
    (qf[bi], spec_evaluate(gp, qf[bi], ss))
}

/// The kept layouts mirror their model, position for position.
spec fn queue_matches(q: Seq<Vec<Vec<usize>>>, m: Seq<Seq<Seq<usize>>>) -> bool {
    q.len() == m.len() && (forall|i: int|
        0 <= i < q.len() ==> (#[trigger] q[i]).deep_view() == m[i])
}

/// The scored candidates mirror their model, position for position.
spec fn cands_match(c: Seq<(i64, Vec<Vec<usize>>)>, m: Seq<(int, Seq<Seq<usize>>)>) -> bool {
    c.len() == m.len() && (forall|i: int|
        0 <= i < c.len() ==> ((#[trigger] c[i]).0 as int == m[i].0 && c[i].1.deep_view()
            == m[i].1))
}

// ------------------------------------------------------------------
// The search itself.
// ------------------------------------------------------------------

/// Breadth-bounded deterministic search. Every occupied cell of the
/// reference layout is resolved in turn (columns outermost, as a fixed
/// raster order): each kept candidate is expanded by swapping the fixed cell
/// with every occupied cell, all expansions are scored, and only the best
/// `beam_width` survive, ties broken by the lexicographic order of the
/// grids. The best surviving candidate is returned with its score — exactly
/// `beam_model` of the inputs. An empty student list or a zero beam width
/// yields `NoFeasibleResult`.
pub fn beam_search(previous: &SeatAssignment, students: &Vec<Student>, beam_width: usize) -> (r:
    Result<(SeatAssignment, i64), SolveError>)
    requires
        grids_wf(previous.deep_view(), previous.deep_view()),
        ok_pair(
            previous.deep_view(),
            previous.deep_view(),
            students@.len() as int,
            previous.deep_view().len() as int,
            previous.deep_view()[0].len() as int,
        ),
        students@.len() <= 1048576,
    ensures
        (r is Ok) <==> (students@.len() >= 1 && beam_width >= 1),
        (r is Err) ==> r->Err_0 == SolveError::NoFeasibleResult,
        (r is Ok) ==> ({
            let gp = previous.deep_view();
            let out = r->Ok_0.0.deep_view();
            let m = beam_model(gp, students@, beam_width as int);
            &&& ok_pair(gp, out, students@.len() as int, gp.len() as int, gp[0].len() as int)
            &&& r->Ok_0.1 as int == spec_evaluate(gp, out, students@)
            &&& out == m.0
            &&& r->Ok_0.1 as int == m.1
        }),
{
    let ghost gp = previous.deep_view();
    let ghost n = students@.len() as int;
    let ghost dd = gp.len() as int;
    let ghost ww = gp[0].len() as int;
    let nn: usize = students.len();
    if nn == 0 || beam_width == 0 {
        return Err(SolveError::NoFeasibleResult);
    }
    let d: usize = previous.len();
    let w: usize = previous[0].len();
    let mut queue: Vec<SeatAssignment> = Vec::new();
    queue.push(copy_grid(previous));
    proof {
        assert(queue@[0int].deep_view() == gp);
        assert(queue_matches(queue@, seq![gp]));
        assert(beam_stages(gp, students@, seq![gp], beam_width as int, dd, ww, 0) == seq![gp]);
    }
    let mut x1: usize = 0;
    while x1 < w
        invariant
            x1 <= w,
            beam_width >= 1,
            n == students@.len(),
            1 <= n <= 1048576,
            d as int == dd,
            w as int == ww,
            dd == gp.len(),
            ww == gp[0].len(),
            gp == previous.deep_view(),
            grids_wf(gp, gp),
            ok_pair(gp, gp, n, dd, ww),
            queue@.len() >= 1,
            forall|i: int|
                0 <= i < queue@.len() ==> ok_pair(
                    gp,
                    (#[trigger] queue@[i]).deep_view(),
                    n,
                    dd,
                    ww,
                ),
            queue_matches(
                queue@,
                beam_stages(gp, students@, seq![gp], beam_width as int, dd, ww, (x1 as int) * dd),
            ),
        decreases w - x1,
    {
        let mut y1: usize = 0;
        while y1 < d
            invariant
                y1 <= d,
                x1 < w,
                beam_width >= 1,
                n == students@.len(),
                1 <= n <= 1048576,
                d as int == dd,
                w as int == ww,
                dd == gp.len(),
                ww == gp[0].len(),
                gp == previous.deep_view(),
                grids_wf(gp, gp),
                ok_pair(gp, gp, n, dd, ww),
                queue@.len() >= 1,
                forall|i: int|
                    0 <= i < queue@.len() ==> ok_pair(
                        gp,
                        (#[trigger] queue@[i]).deep_view(),
                        n,
                        dd,
                        ww,
                    ),
                queue_matches(
                    queue@,
                    beam_stages(
                        gp,
                        students@,
                        seq![gp],
                        beam_width as int,
                        dd,
                        ww,
                        (x1 as int) * dd + y1 as int,
                    ),
                ),
            decreases d - y1,
        {
            let ghost c1: int = (x1 as int) * dd + y1 as int;
            proof {
                lemma_grid_view(*previous);
                assert(gp[y1 as int] == previous@[y1 as int]@);
                lemma_cell_to_flat(dd, ww, x1 as int, y1 as int);
                assert(c1 / dd == x1 as int && c1 % dd == y1 as int) by {
                    vstd::arithmetic::div_mod::lemma_fundamental_div_mod_converse(
                        c1,
                        dd,
                        x1 as int,
                        y1 as int,
                    );
                }
            }
            if previous[y1][x1] == usize::MAX {
                proof {
                    assert(beam_stages(
                        gp,
                        students@,
                        seq![gp],
                        beam_width as int,
                        dd,
                        ww,
                        c1 + 1,
                    ) == beam_stages(gp, students@, seq![gp], beam_width as int, dd, ww, c1));
                }
                y1 = y1 + 1;
                continue ;
            }
            proof {
                assert(gp[y1 as int][x1 as int] != VACANT);
            }
            let ghost stage_q = beam_stages(gp, students@, seq![gp], beam_width as int, dd, ww, c1);
            // Expand every kept candidate by swapping the fixed cell with
            // every occupied cell.
            let mut cands: Vec<(i64, SeatAssignment)> = Vec::new();
            let mut qi: usize = 0;
            proof {
                assert(cands_match(
                    cands@,
                    expand_queue(gp, students@, stage_q, y1 as int, x1 as int, dd, ww, 0),
                ));
            }
            while qi < queue.len()
                invariant
                    qi <= queue@.len(),
                    x1 < w,
                    y1 < d,
                    gp[y1 as int][x1 as int] != VACANT,
                    n == students@.len(),
                    1 <= n <= 1048576,
                    d as int == dd,
                    w as int == ww,
                    dd == gp.len(),
                    ww == gp[0].len(),
                    gp == previous.deep_view(),
                    grids_wf(gp, gp),
                    ok_pair(gp, gp, n, dd, ww),
                    queue@.len() >= 1,
                    queue_matches(queue@, stage_q),
                    forall|i: int|
                        0 <= i < queue@.len() ==> ok_pair(
                            gp,
                            (#[trigger] queue@[i]).deep_view(),
                            n,
                            dd,
                            ww,
                        ),
                    forall|i: int|
                        0 <= i < cands@.len() ==> ok_pair(
                            gp,
                            (#[trigger] cands@[i]).1.deep_view(),
                            n,
                            dd,
                            ww,
                        ),
                    cands_match(
                        cands@,
                        expand_queue(
                            gp,
                            students@,
                            stage_q,
                            y1 as int,
                            x1 as int,
                            dd,
                            ww,
                            qi as int,
                        ),
                    ),
                    qi >= 1 ==> cands@.len() >= 1,
                decreases queue@.len() - qi,
            {
                let cur = &queue[qi];
                let ghost cv = cur.deep_view();
                proof {
                    lemma_grid_view(*cur);
                    assert(cv == stage_q[qi as int]);
                }
                let mut x2: usize = 0;
                while x2 < w
                    invariant
                        x2 <= w,
                        qi < queue@.len(),
                        x1 < w,
                        y1 < d,
                        gp[y1 as int][x1 as int] != VACANT,
                        n == students@.len(),
                        1 <= n <= 1048576,
                        d as int == dd,
                        w as int == ww,
                        dd == gp.len(),
                        ww == gp[0].len(),
                        gp == previous.deep_view(),
                        grids_wf(gp, gp),
                        ok_pair(gp, gp, n, dd, ww),
                        cur == queue@[qi as int],
                        cv == cur.deep_view(),
                        cv == stage_q[qi as int],
                        ok_pair(gp, cv, n, dd, ww),
                        forall|i: int|
                            0 <= i < cands@.len() ==> ok_pair(
                                gp,
                                (#[trigger] cands@[i]).1.deep_view(),
                                n,
                                dd,
                                ww,
                            ),
                        cands_match(
                            cands@,
                            expand_queue(
                                gp,
                                students@,
                                stage_q,
                                y1 as int,
                                x1 as int,
                                dd,
                                ww,
                                qi as int,
                            ) + expand_one(
                                gp,
                                students@,
                                cv,
                                y1 as int,
                                x1 as int,
                                dd,
                                ww,
                                (x2 as int) * dd,
                            ),
                        ),
                        x2 > x1 ==> cands@.len() >= 1,
                    decreases w - x2,
                {
                    let mut y2: usize = 0;
                    while y2 < d
                        invariant
                            y2 <= d,
                            x2 < w,
                            qi < queue@.len(),
                            x1 < w,
                            y1 < d,
                            gp[y1 as int][x1 as int] != VACANT,
                            n == students@.len(),
                            1 <= n <= 1048576,
                            d as int == dd,
                            w as int == ww,
                            dd == gp.len(),
                            ww == gp[0].len(),
                            gp == previous.deep_view(),
                            grids_wf(gp, gp),
                            ok_pair(gp, gp, n, dd, ww),
                            cur == queue@[qi as int],
                            cv == cur.deep_view(),
                            cv == stage_q[qi as int],
                            ok_pair(gp, cv, n, dd, ww),
                            forall|i: int|
                                0 <= i < cands@.len() ==> ok_pair(
                                    gp,
                                    (#[trigger] cands@[i]).1.deep_view(),
                                    n,
                                    dd,
                                    ww,
                                ),
                            cands_match(
                                cands@,
                                expand_queue(
                                    gp,
                                    students@,
                                    stage_q,
                                    y1 as int,
                                    x1 as int,
                                    dd,
                                    ww,
                                    qi as int,
                                ) + expand_one(
                                    gp,
                                    students@,
                                    cv,
                                    y1 as int,
                                    x1 as int,
                                    dd,
                                    ww,
                                    (x2 as int) * dd + y2 as int,
                                ),
                            ),
                            x2 > x1 || (x2 == x1 && y2 > y1) ==> cands@.len() >= 1,
                        decreases d - y2,
                    {
                        let ghost c2: int = (x2 as int) * dd + y2 as int;
                        proof {
                            lemma_grid_view(*cur);
                            assert(cv[y2 as int] == cur@[y2 as int]@);
                            lemma_cell_to_flat(dd, ww, x2 as int, y2 as int);
                            assert(c2 / dd == x2 as int && c2 % dd == y2 as int) by {
                                vstd::arithmetic::div_mod::lemma_fundamental_div_mod_converse(
                                    c2,
                                    dd,
                                    x2 as int,
                                    y2 as int,
                                );
                            }
                        }
                        if cur[y2][x2] == usize::MAX {
                            proof {
                                assert(cv[y2 as int][x2 as int] == VACANT);
                                assert(!(y2 == y1 && x2 == x1));
                                assert(expand_one(
                                    gp,
                                    students@,
                                    cv,
                                    y1 as int,
                                    x1 as int,
                                    dd,
                                    ww,
                                    c2 + 1,
                                ) == expand_one(
                                    gp,
                                    students@,
                                    cv,
                                    y1 as int,
                                    x1 as int,
                                    dd,
                                    ww,
                                    c2,
                                ));
                            }
                            y2 = y2 + 1;
                            continue ;
                        }
                        let mut cand = copy_grid(cur);
                        proof {
                            lemma_grid_view(cand);
                            assert(cand@.len() == d);
                            assert(cand@[y1 as int]@.len() == w && cand@[y2 as int]@.len() == w)
                                by {
                                assert(cv[y1 as int] == cand@[y1 as int]@);
                                assert(cv[y2 as int] == cand@[y2 as int]@);
                            }
                        }
                        swap_seats(&mut cand, (x1, y1), (x2, y2));
                        proof {
                            lemma_grid_view(cand);
                            assert(is_rect(cand.deep_view(), dd, ww));
                            assert(is_swap(
                                cv,
                                cand.deep_view(),
                                dd,
                                ww,
                                y1 as int,
                                x1 as int,
                                y2 as int,
                                x2 as int,
                            ));
                            assert(cv[y1 as int][x1 as int] != VACANT && cv[y2 as int][x2 as int]
                                != VACANT);
                            lemma_swap_ok_pair(
                                gp,
                                cv,
                                cand.deep_view(),
                                n,
                                dd,
                                ww,
                                y1 as int,
                                x1 as int,
                                y2 as int,
                                x2 as int,
                            );
                            assert(cand.deep_view() =~~= grid_swap(
                                cv,
                                y1 as int,
                                x1 as int,
                                y2 as int,
                                x2 as int,
                            ));
                        }
                        let score: i64 = match evaluate(previous, &cand, students) {
                            Ok(s) => s,
                            Err(_) => {
                                proof {
                                    assert(false);
                                }
                                return Err(SolveError::NoFeasibleResult);
                            },
                        };
                        cands.push((score, cand));
                        y2 = y2 + 1;
                    }
                    x2 = x2 + 1;
                    proof {
                        assert((x2 as int) * dd == (x2 as int - 1) * dd + dd) by (nonlinear_arith);
                    }
                }
                qi = qi + 1;
                proof {
                    assert((w as int) * dd == ww * dd);
                    assert(expand_one(
                        gp,
                        students@,
                        cv,
                        y1 as int,
                        x1 as int,
                        dd,
                        ww,
                        ww * dd,
                    ) == expand_one(gp, students@, cv, y1 as int, x1 as int, dd, ww, dd * ww));
                    assert(ww * dd == dd * ww) by (nonlinear_arith);
                }
            }
            let ghost all_cands = expand_queue(
                gp,
                students@,
                stage_q,
                y1 as int,
                x1 as int,
                dd,
                ww,
                stage_q.len() as int,
            );
            proof {
                assert(cands_match(cands@, all_cands));
            }
            // Keep only the best `beam_width` candidates.
            let mut newq: Vec<SeatAssignment> = Vec::new();
            let ghost m0: int = beam_width as int;
            let ghost sel = select_top(all_cands, dd, ww, m0);
            let ghost mut cm = all_cands;
            while newq.len() < beam_width && cands.len() > 0
                invariant
                    beam_width >= 1,
                    newq@.len() <= beam_width,
                    m0 == beam_width as int,
                    sel == select_top(all_cands, dd, ww, m0),
                    n == students@.len(),
                    d as int == dd,
                    w as int == ww,
                    dd == gp.len(),
                    ww == gp[0].len(),
                    gp == previous.deep_view(),
                    grids_wf(gp, gp),
                    forall|i: int|
                        0 <= i < cands@.len() ==> ok_pair(
                            gp,
                            (#[trigger] cands@[i]).1.deep_view(),
                            n,
                            dd,
                            ww,
                        ),
                    forall|i: int|
                        0 <= i < newq@.len() ==> ok_pair(
                            gp,
                            (#[trigger] newq@[i]).deep_view(),
                            n,
                            dd,
                            ww,
                        ),
                    newq@.len() + cands@.len() >= 1,
                    cands_match(cands@, cm),
                    select_top(cm, dd, ww, m0 - newq@.len()) =~= sel.skip(newq@.len() as int),
                    queue_matches(newq@, sel.take(newq@.len() as int)),
                    sel.len() >= newq@.len(),
                decreases cands@.len(),
            {
                let mut bi: usize = 0;
                let mut j: usize = 1;
                while j < cands.len()
                    invariant
                        bi < j || (j == 1 && bi == 0),
                        bi < cands@.len(),
                        j <= cands@.len(),
                        cands@.len() >= 1,
                        d as int == dd,
                        w as int == ww,
                        dd == gp.len(),
                        ww == gp[0].len(),
                        gp == previous.deep_view(),
                        grids_wf(gp, gp),
                        cands_match(cands@, cm),
                        bi as int == best_index(cm, dd, ww, j as int),
                        forall|i: int|
                            0 <= i < cands@.len() ==> ok_pair(
                                gp,
                                (#[trigger] cands@[i]).1.deep_view(),
                                n,
                                dd,
                                ww,
                            ),
                    decreases cands@.len() - j,
                {
                    let better: bool = if cands[j].0 > cands[bi].0 {
                        true
                    } else if cands[j].0 == cands[bi].0 {
                        proof {
                            let a = cands@[j as int].1;
                            let b = cands@[bi as int].1;
                            lemma_grid_view(a);
                            lemma_grid_view(b);
                        }
                        grid_lex_gt(&cands[j].1, &cands[bi].1, Ghost(dd), Ghost(ww))
                    } else {
                        false
                    };
                    proof {
                        assert(better == cand_better(cm[j as int], cm[bi as int], dd, ww));
                    }
                    if better {
                        bi = j;
                    }
                    j = j + 1;
                }
                proof {
                    assert(bi as int == best_index(cm, dd, ww, cm.len() as int));
                }
                let picked = cands.swap_remove(bi);
                newq.push(picked.1);
                proof {
                    let rest = cm.update(bi as int, cm.last()).drop_last();
                    let l0 = newq@.len() - 1;
                    assert(cands_match(cands@, rest)) by {
                        assert forall|i: int| 0 <= i < cands@.len() implies ((
                        #[trigger] cands@[i]).0 as int == rest[i].0 && cands@[i].1.deep_view()
                            == rest[i].1) by {
                            if i == bi as int {
                            } else {
                            }
                        }
                    }
                    assert(select_top(cm, dd, ww, m0 - l0) == seq![cm[bi as int].1] + select_top(
                        rest,
                        dd,
                        ww,
                        m0 - l0 - 1,
                    ));
                    assert(sel.skip(l0)[0] == cm[bi as int].1);
                    assert(sel[l0] == cm[bi as int].1);
                    assert(picked.1.deep_view() == cm[bi as int].1);
                    assert(queue_matches(newq@, sel.take(l0 + 1))) by {
                        assert(sel.take(l0 + 1) =~= sel.take(l0).push(sel[l0]));
                        assert(newq@[l0] == picked.1);
                        assert forall|i: int| 0 <= i < newq@.len() implies (
                        #[trigger] newq@[i]).deep_view() == sel.take(l0 + 1)[i] by {
                            if i < l0 {
                                assert(newq@[i].deep_view() == sel.take(l0)[i]);
                            }
                        }
                    }
                    assert(select_top(rest, dd, ww, m0 - l0 - 1) =~= sel.skip(l0 + 1)) by {
                        assert(sel.skip(l0) =~= seq![cm[bi as int].1] + select_top(
                            rest,
                            dd,
                            ww,
                            m0 - l0 - 1,
                        ));
                        assert forall|t: int|
                            0 <= t < select_top(rest, dd, ww, m0 - l0 - 1).len() implies #[trigger]
                        select_top(rest, dd, ww, m0 - l0 - 1)[t] == sel.skip(l0 + 1)[t] by {
                            assert(sel.skip(l0)[t + 1] == select_top(rest, dd, ww, m0 - l0 - 1)[t]);
                        }
                        assert(sel.skip(l0).len() == 1 + select_top(rest, dd, ww, m0 - l0 - 1).len());
                    }
                    assert(sel.len() >= newq@.len()) by {
                        assert(sel.skip(l0).len() >= 1);
                    }
                    cm = rest;
                }
            }
            proof {
                if newq@.len() < beam_width {
                    assert(cands@.len() == 0);
                    assert(cm.len() == 0);
                    assert(select_top(cm, dd, ww, m0 - newq@.len()).len() == 0);
                } else {
                    assert(select_top(cm, dd, ww, m0 - newq@.len()).len() == 0);
                }
                assert(sel.skip(newq@.len() as int).len() == 0);
                assert(sel.len() == newq@.len());
                assert(sel.take(newq@.len() as int) =~= sel);
                assert(queue_matches(newq@, sel));
                assert(beam_stages(gp, students@, seq![gp], beam_width as int, dd, ww, c1 + 1)
                    == sel);
            }
            queue = newq;
            y1 = y1 + 1;
        }
        x1 = x1 + 1;
        proof {
            assert((x1 as int) * dd == (x1 as int - 1) * dd + dd) by (nonlinear_arith);
        }
    }
    proof {
        assert((x1 as int) * dd == ww * dd);
    }
    let ghost qf = beam_stages(gp, students@, seq![gp], beam_width as int, dd, ww, ww * dd);
    // Score the survivors once more and return the single best.
    let mut best_idx: usize = 0;
    let mut best_score: i64 = match evaluate(previous, &queue[0], students) {
        Ok(s) => s,
        Err(_) => {
            proof {
                assert(false);
            }
            return Err(SolveError::NoFeasibleResult);
        },
    };
    let mut qi: usize = 1;
    while qi < queue.len()
        invariant
            1 <= qi <= queue@.len(),
            best_idx < qi,
            queue@.len() >= 1,
            n == students@.len(),
            1 <= n <= 1048576,
            d as int == dd,
            w as int == ww,
            dd == gp.len(),
            ww == gp[0].len(),
            gp == previous.deep_view(),
            grids_wf(gp, gp),
            queue_matches(queue@, qf),
            forall|i: int|
                0 <= i < queue@.len() ==> ok_pair(
                    gp,
                    (#[trigger] queue@[i]).deep_view(),
                    n,
                    dd,
                    ww,
                ),
            best_idx as int == final_best(gp, students@, qf, dd, ww, qi as int),
            best_score as int == spec_evaluate(gp, queue@[best_idx as int].deep_view(), students@),
        decreases queue@.len() - qi,
    {
        let score: i64 = match evaluate(previous, &queue[qi], students) {
            Ok(s) => s,
            Err(_) => {
                proof {
                    assert(false);
                }
                return Err(SolveError::NoFeasibleResult);
            },
        };
        let better: bool = if score > best_score {
            true
        } else if score == best_score {
            proof {
                let a = queue@[qi as int];
                let b = queue@[best_idx as int];
                lemma_grid_view(a);
                lemma_grid_view(b);
            }
            grid_lex_gt(&queue[qi], &queue[best_idx], Ghost(dd), Ghost(ww))
        } else {
            false
        };
        proof {
            assert(better == cand_better(
                (spec_evaluate(gp, qf[qi as int], students@), qf[qi as int]),
                (
                    spec_evaluate(gp, qf[best_idx as int], students@),
                    qf[best_idx as int],
                ),
                dd,
                ww,
            ));
        }
        if better {
            best_idx = qi;
            best_score = score;
        }
        qi = qi + 1;
    }
    proof {
        assert(best_idx as int == final_best(gp, students@, qf, dd, ww, qf.len() as int));
        assert(beam_model(gp, students@, beam_width as int).0 == qf[best_idx as int]);
    }
    let best = queue.swap_remove(best_idx);
    Ok((best, best_score))
}

/// Determinism: the beam outcome is a function of the reference layout,
/// the students and the beam width alone — two runs over identical inputs
/// yield identical layouts and scores.
pub proof fn lemma_beam_deterministic(
    gp: Seq<Seq<usize>>,
    ss: Seq<Student>,
    bw: int,
    a: (Seq<Seq<usize>>, int),
    b: (Seq<Seq<usize>>, int),
)
    requires
        a == beam_model(gp, ss, bw),
        b == beam_model(gp, ss, bw),
    ensures
        a == b,
{
}

} // verus!
