use vstd::prelude::*;
use vstd::arithmetic::div_mod::{
    lemma_fundamental_div_mod, lemma_fundamental_div_mod_converse, lemma_mod_bound,
};
use vstd::arithmetic::mul::lemma_mul_inequality;
use vstd::multiset::Multiset;
use vstd::seq_lib::to_multiset_build;
use vstd::seq_lib::to_multiset_remove;

verus! {

/// The reserved cell value marking an unoccupied seat.
pub const VACANT: usize = usize::MAX;

/// `g` has `d` rows, each `w` cells wide.
pub open spec fn is_rect(g: Seq<Seq<usize>>, d: int, w: int) -> bool {
    g.len() == d && (forall|y: int| 0 <= y < d ==> (#[trigger] g[y]).len() == w)
}

/// Dimensions small enough that every scoring sum fits comfortably in `i64`.
pub open spec fn dims_ok(d: int, w: int) -> bool {
    1 <= d <= 1024 && 1 <= w <= 1024
}

/// Row-major flattening of a rectangular grid.
pub open spec fn flat_grid(g: Seq<Seq<usize>>, d: int, w: int) -> Seq<usize> {
    Seq::new((d * w) as nat, |k: int| g[k / w][k % w])
}

/// How often `id` occupies one of the first `k` cells, row-major.
pub open spec fn count_id_upto(g: Seq<Seq<usize>>, w: int, id: usize, k: int) -> int
    decreases k,
{
    if k <= 0 {
        0
    } else {
        count_id_upto(g, w, id, k - 1) + (if g[(k - 1) / w][(k - 1) % w] == id {
            1int
        } else {
            0int
        })
    }
}

/// How often `id` occupies a cell of the whole grid.
pub open spec fn count_id(g: Seq<Seq<usize>>, d: int, w: int, id: usize) -> int {
    count_id_upto(g, w, id, d * w)
}

/// The seat `(row, column)` of student `id`; meaningful when the student
/// occupies exactly one cell.
pub open spec fn seat_of(g: Seq<Seq<usize>>, d: int, w: int, id: usize) -> (int, int) {
    choose|p: (int, int)| 0 <= p.0 < d && 0 <= p.1 < w && g[p.0][p.1] == id
}

/// Both layouts are rectangular of the same shape, agree on which seats are
/// occupied, and each of the `n` students occupies exactly one seat in each.
pub open spec fn ok_pair(
    prev: Seq<Seq<usize>>,
    new: Seq<Seq<usize>>,
    n: int,
    d: int,
    w: int,
) -> bool {
    &&& is_rect(prev, d, w)
    &&& is_rect(new, d, w)
    &&& forall|y: int, x: int|
        0 <= y < d && 0 <= x < w ==> ((#[trigger] prev[y][x]) == VACANT <==> new[y][x] == VACANT)
    &&& forall|y: int, x: int|
        0 <= y < d && 0 <= x < w && prev[y][x] != VACANT ==> (#[trigger] prev[y][x]) < n
    &&& forall|y: int, x: int|
        0 <= y < d && 0 <= x < w && new[y][x] != VACANT ==> (#[trigger] new[y][x]) < n
    &&& forall|id: usize| (id as int) < n ==> #[trigger] count_id(prev, d, w, id) == 1
    &&& forall|id: usize| (id as int) < n ==> #[trigger] count_id(new, d, w, id) == 1
}

/// A single layout in which each of the `n` students has exactly one seat.
pub open spec fn ok_grid(g: Seq<Seq<usize>>, n: int, d: int, w: int) -> bool {
    ok_pair(g, g, n, d, w)
}

// ------------------------------------------------------------------
// Row-major index arithmetic.
// ------------------------------------------------------------------

/// Splitting a flat index into row and column lands inside the grid.
pub proof fn lemma_flat_to_cell(w: int, d: int, k: int)
    requires
        1 <= w,
        0 <= k < d * w,
    ensures
        0 <= k / w < d,
        0 <= k % w < w,
        k == (k / w) * w + (k % w),
{
    lemma_fundamental_div_mod(k, w);
    lemma_mod_bound(k, w);
    if k / w < 0 {
        assert(k == w * (k / w) + k % w);
        assert(w * (k / w) <= -w) by (nonlinear_arith)
            requires
                1 <= w,
                k / w <= -1,
        ;
    }
    if k / w >= d {
        lemma_mul_inequality(d, k / w, w);
        assert(d * w <= (k / w) * w);
        assert(w * (k / w) == (k / w) * w) by (nonlinear_arith);
    }
    assert(w * (k / w) == (k / w) * w) by (nonlinear_arith);
}

/// Combining a row and column into a flat index is the inverse.
pub proof fn lemma_cell_to_flat(w: int, d: int, y: int, x: int)
    requires
        1 <= w,
        0 <= y < d,
        0 <= x < w,
    ensures
        0 <= y * w + x < d * w,
        (y * w + x) / w == y,
        (y * w + x) % w == x,
{
    lemma_fundamental_div_mod_converse(y * w + x, w, y, x);
    assert(0 <= y * w + x && y * w + x < d * w) by (nonlinear_arith)
        requires
            1 <= w,
            0 <= y < d,
            0 <= x < w,
    ;
}

// ------------------------------------------------------------------
// Counting lemmas.
// ------------------------------------------------------------------

pub proof fn lemma_count_mono(g: Seq<Seq<usize>>, w: int, id: usize, j: int, k: int)
    requires
        j <= k,
    ensures
        count_id_upto(g, w, id, j) <= count_id_upto(g, w, id, k),
    decreases k - j,
{
    if j < k {
        lemma_count_mono(g, w, id, j, k - 1);
    }
}

pub proof fn lemma_count_nonneg(g: Seq<Seq<usize>>, w: int, id: usize, k: int)
    ensures
        count_id_upto(g, w, id, k) >= 0,
    decreases k,
{
    if k > 0 {
        lemma_count_nonneg(g, w, id, k - 1);
    }
}

/// A cell holding `id` pushes the count past the count of any shorter prefix.
pub proof fn lemma_count_cell(g: Seq<Seq<usize>>, w: int, id: usize, t: int, k: int)
    requires
        0 <= t < k,
        g[t / w][t % w] == id,
    ensures
        count_id_upto(g, w, id, k) >= count_id_upto(g, w, id, t) + 1,
{
    assert(count_id_upto(g, w, id, t + 1) == count_id_upto(g, w, id, t) + 1);
    lemma_count_mono(g, w, id, t + 1, k);
}

/// With a total count of one, two cells holding `id` are the same cell.
pub proof fn lemma_seat_unique(
    g: Seq<Seq<usize>>,
    d: int,
    w: int,
    id: usize,
    y1: int,
    x1: int,
    y2: int,
    x2: int,
)
    requires
        1 <= w,
        count_id(g, d, w, id) == 1,
        0 <= y1 < d,
        0 <= x1 < w,
        0 <= y2 < d,
        0 <= x2 < w,
        g[y1][x1] == id,
        g[y2][x2] == id,
    ensures
        y1 == y2 && x1 == x2,
{
    let k1 = y1 * w + x1;
    let k2 = y2 * w + x2;
    lemma_cell_to_flat(w, d, y1, x1);
    lemma_cell_to_flat(w, d, y2, x2);
    if k1 != k2 {
        let (a, b) = if k1 < k2 {
            (k1, k2)
        } else {
            (k2, k1)
        };
        lemma_count_nonneg(g, w, id, a);
        lemma_count_cell(g, w, id, a, b);
        lemma_count_cell(g, w, id, b, d * w);
        assert(false);
    } else {
        assert(y1 == y2 && x1 == x2) by {
            lemma_fundamental_div_mod_converse(k1, w, y1, x1);
            lemma_fundamental_div_mod_converse(k2, w, y2, x2);
        }
    }
}

/// A positive count yields a cell holding `id`.
pub proof fn lemma_count_exists(g: Seq<Seq<usize>>, w: int, id: usize, k: int)
    requires
        count_id_upto(g, w, id, k) >= 1,
    ensures
        exists|t: int| 0 <= t < k && g[#[trigger] (t / w)][t % w] == id,
    decreases k,
{
    if k > 0 {
        if g[(k - 1) / w][(k - 1) % w] == id {
            assert(0 <= k - 1 < k && g[(k - 1) / w][(k - 1) % w] == id);
        } else {
            lemma_count_exists(g, w, id, k - 1);
        }
    }
}

/// When `id` has exactly one seat, `seat_of` designates it.
pub proof fn lemma_seat_of(g: Seq<Seq<usize>>, d: int, w: int, id: usize)
    requires
        1 <= w,
        count_id(g, d, w, id) == 1,
    ensures
        ({
            let (y, x) = seat_of(g, d, w, id);
            0 <= y < d && 0 <= x < w && g[y][x] == id
        }),
{
    lemma_count_exists(g, w, id, d * w);
    let t = choose|t: int| 0 <= t < d * w && g[#[trigger] (t / w)][t % w] == id;
    lemma_flat_to_cell(w, d, t);
    let p = (t / w, t % w);
    assert(0 <= p.0 < d && 0 <= p.1 < w && g[p.0][p.1] == id);
    let q = seat_of(g, d, w, id);
    assert(0 <= q.0 < d && 0 <= q.1 < w && g[q.0][q.1] == id) by {
        assert(exists|p: (int, int)| 0 <= p.0 < d && 0 <= p.1 < w && g[p.0][p.1] == id);
    }
}

/// Cells matching `a` in one grid exactly where they match `b` in another
/// give both values the same count.
pub proof fn lemma_count_indicator(
    g1: Seq<Seq<usize>>,
    g2: Seq<Seq<usize>>,
    d: int,
    w: int,
    a: usize,
    b: usize,
    k: int,
)
    requires
        1 <= w,
        0 <= k <= d * w,
        forall|yy: int, xx: int|
            0 <= yy < d && 0 <= xx < w ==> (((#[trigger] g1[yy][xx]) == a) <==> (g2[yy][xx] == b)),
    ensures
        count_id_upto(g1, w, a, k) == count_id_upto(g2, w, b, k),
    decreases k,
{
    if k > 0 {
        lemma_count_indicator(g1, g2, d, w, a, b, k - 1);
        lemma_flat_to_cell(w, d, k - 1);
    }
}

// ------------------------------------------------------------------
// The multiset of cell values, and swap invariance.
// ------------------------------------------------------------------

/// The prefix count agrees with the multiset of the flattened prefix.
pub proof fn lemma_count_is_multiset(g: Seq<Seq<usize>>, d: int, w: int, id: usize, k: int)
    requires
        1 <= w,
        0 <= k <= d * w,
    ensures
        count_id_upto(g, w, id, k) == flat_grid(g, d, w).subrange(0, k).to_multiset().count(id),
    decreases k,
{
    let f = flat_grid(g, d, w);
    broadcast use vstd::seq_lib::group_to_multiset_ensures;

    if k == 0 {
        assert(f.subrange(0, 0) =~= Seq::<usize>::empty());
        assert(f.subrange(0, 0).to_multiset() =~= Multiset::<usize>::empty()) by {
            f.subrange(0, 0).to_multiset_ensures();
            assert(f.subrange(0, 0).to_multiset().len() == 0);
        }
    } else {
        lemma_count_is_multiset(g, d, w, id, k - 1);
        assert(f.subrange(0, k) =~= f.subrange(0, k - 1).push(f[k - 1]));
        to_multiset_build(f.subrange(0, k - 1), f[k - 1]);
    }
}

/// Updating one position replaces one value in the multiset.
pub proof fn lemma_to_multiset_update<A>(s: Seq<A>, i: int, v: A)
    requires
        0 <= i < s.len(),
    ensures
        s.update(i, v).to_multiset() == s.to_multiset().remove(s[i]).insert(v),
{
    broadcast use vstd::seq_lib::group_to_multiset_ensures;

    let su = s.update(i, v);
    assert(su.remove(i) =~= s.remove(i));
    to_multiset_remove(su, i);
    to_multiset_remove(s, i);
    assert(su.to_multiset().remove(v) == s.to_multiset().remove(s[i]));
    assert(su.contains(v)) by {
        assert(su[i] == v);
    }
    assert(su.to_multiset().count(v) > 0);
    assert(su.to_multiset() =~= su.to_multiset().remove(v).insert(v));
}

} // verus!
