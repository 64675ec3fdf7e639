use vstd::prelude::*;
use vstd::multiset::Multiset;

use crate::grid::{
    count_id, count_id_upto, flat_grid, is_rect, lemma_cell_to_flat, lemma_count_is_multiset, lemma_flat_to_cell,
    lemma_to_multiset_update, ok_pair, VACANT,
};
use crate::structs::{SeatAssignment, SolveError, Student};

verus! {

/// Bridges the nested views of a grid vector to its deep view.
pub proof fn lemma_grid_view(g: Vec<Vec<usize>>)
    ensures
        g.deep_view().len() == g@.len(),
        forall|y: int| 0 <= y < g@.len() ==> #[trigger] g.deep_view()[y] == g@[y]@,
{
    assert forall|y: int| 0 <= y < g@.len() implies #[trigger] g.deep_view()[y] == g@[y]@ by {
        assert(g.deep_view()[y] =~= g@[y]@);
    }
}

/// Two grids differ exactly by exchanging the contents of cells
/// `(y1, x1)` and `(y2, x2)`.
pub open spec fn is_swap(
    a: Seq<Seq<usize>>,
    b: Seq<Seq<usize>>,
    d: int,
    w: int,
    y1: int,
    x1: int,
    y2: int,
    x2: int,
) -> bool {
    &&& is_rect(a, d, w)
    &&& is_rect(b, d, w)
    &&& 0 <= y1 < d && 0 <= x1 < w && 0 <= y2 < d && 0 <= x2 < w
    &&& b[y1][x1] == a[y2][x2]
    &&& b[y2][x2] == a[y1][x1]
    &&& forall|y: int, x: int|
        0 <= y < d && 0 <= x < w && !(y == y1 && x == x1) && !(y == y2 && x == x2) ==> (
        #[trigger] b[y][x]) == a[y][x]
}

/// Exchanges the occupants (vacancies included) of two in-bounds cells.
/// Positions are `(column, row)` pairs. A swap of a cell with itself is a
/// no-op.
pub fn swap_seats(assigment: &mut SeatAssignment, pos1: (usize, usize), pos2: (usize, usize))
    requires
        (pos1.1 as int) < old(assigment)@.len(),
        (pos1.0 as int) < old(assigment)@[pos1.1 as int]@.len(),
        (pos2.1 as int) < old(assigment)@.len(),
        (pos2.0 as int) < old(assigment)@[pos2.1 as int]@.len(),
    ensures
        final(assigment)@.len() == old(assigment)@.len(),
        forall|y: int|
            0 <= y < old(assigment)@.len() ==> (#[trigger] final(assigment).deep_view()[y]).len()
                == old(assigment).deep_view()[y].len(),
        final(assigment).deep_view()[pos1.1 as int][pos1.0 as int]
            == old(assigment).deep_view()[pos2.1 as int][pos2.0 as int],
        final(assigment).deep_view()[pos2.1 as int][pos2.0 as int]
            == old(assigment).deep_view()[pos1.1 as int][pos1.0 as int],
        forall|y: int, x: int|
            0 <= y < old(assigment)@.len() && 0 <= x < old(assigment).deep_view()[y].len()
                && !(y == pos1.1 && x == pos1.0) && !(y == pos2.1 && x == pos2.0)
                ==> (#[trigger] final(assigment).deep_view()[y][x])
                    == old(assigment).deep_view()[y][x],
{
    proof {
        lemma_grid_view(*assigment);
    }
    let tmp: usize = assigment[pos1.1][pos1.0];
    let v2: usize = assigment[pos2.1][pos2.0];
    assigment[pos1.1][pos1.0] = v2;
    assigment[pos2.1][pos2.0] = tmp;
    proof {
        lemma_grid_view(*old(assigment));
        lemma_grid_view(*assigment);
    }
}

/// A fresh cell-by-cell copy of a grid.
pub fn copy_grid(g: &SeatAssignment) -> (r: SeatAssignment)
    ensures
        r.deep_view() == g.deep_view(),
        r@.len() == g@.len(),
        forall|y: int| 0 <= y < g@.len() ==> (#[trigger] r@[y])@.len() == g@[y]@.len(),
{
    let mut out: Vec<Vec<usize>> = Vec::new();
    let mut y: usize = 0;
    while y < g.len()
        invariant
            y <= g@.len(),
            out@.len() == y,
            forall|i: int| 0 <= i < y ==> (#[trigger] out@[i])@ == g@[i]@,
        decreases g@.len() - y,
    {
        let row = &g[y];
        let mut new_row: Vec<usize> = Vec::new();
        let mut x: usize = 0;
        while x < row.len()
            invariant
                x <= row@.len(),
                new_row@.len() == x,
                forall|j: int| 0 <= j < x ==> (#[trigger] new_row@[j]) == row@[j],
            decreases row@.len() - x,
        {
            new_row.push(row[x]);
            x = x + 1;
        }
        proof {
            assert(new_row@ =~= row@);
        }
        out.push(new_row);
        y = y + 1;
    }
    proof {
        lemma_grid_view(out);
        lemma_grid_view(*g);
        assert(out.deep_view() =~~= g.deep_view());
    }
    out
}

// ------------------------------------------------------------------
// Swap invariance.
// ------------------------------------------------------------------

/// Swapping two cells never creates or destroys a cell value: the multiset
/// of all cell contents — occupied ids and vacancies alike, hence in
/// particular the tally of occupied versus empty seats — is unchanged.
pub proof fn lemma_swap_preserves_multiset(
    a: Seq<Seq<usize>>,
    b: Seq<Seq<usize>>,
    d: int,
    w: int,
    y1: int,
    x1: int,
    y2: int,
    x2: int,
)
    requires
        1 <= w,
        is_swap(a, b, d, w, y1, x1, y2, x2),
    ensures
        flat_grid(b, d, w).to_multiset() == flat_grid(a, d, w).to_multiset(),
{
    broadcast use vstd::multiset::group_multiset_axioms;
    broadcast use vstd::seq_lib::group_to_multiset_ensures;

    let fa = flat_grid(a, d, w);
    let fb = flat_grid(b, d, w);
    let k1 = y1 * w + x1;
    let k2 = y2 * w + x2;
    lemma_cell_to_flat(w, d, y1, x1);
    lemma_cell_to_flat(w, d, y2, x2);
    let v1 = a[y1][x1];
    let v2 = a[y2][x2];
    assert(fb =~= fa.update(k1, v2).update(k2, v1)) by {
        assert forall|k: int| 0 <= k < d * w implies fb[k] == fa.update(k1, v2).update(k2, v1)[k]
            by {
            lemma_flat_to_cell(w, d, k);
            if k == k2 {
            } else if k == k1 {
            } else {
                assert(!(k / w == y1 && k % w == x1) && !(k / w == y2 && k % w == x2)) by {
                    if k / w == y1 && k % w == x1 {
                        assert(k == (k / w) * w + (k % w));
                        assert(k == k1);
                    }
                    if k / w == y2 && k % w == x2 {
                        assert(k == (k / w) * w + (k % w));
                        assert(k == k2);
                    }
                }
            }
        }
    }
    lemma_to_multiset_update(fa, k1, v2);
    lemma_to_multiset_update(fa.update(k1, v2), k2, v1);
    assert(fa.contains(v1)) by {
        assert(fa[k1] == v1);
    }
    assert(fa.contains(v2)) by {
        assert(fa[k2] == v2);
    }
    assert(fa.to_multiset().count(v1) > 0);
    assert(fa.to_multiset().count(v2) > 0);
    if k1 == k2 {
        assert(v1 == v2);
        assert(fb.to_multiset() =~= fa.to_multiset());
    } else {
        assert(fa.update(k1, v2)[k2] == fa[k2]);
        assert(fa[k2] == v2);
        assert(fb.to_multiset() == fa.to_multiset().remove(v1).insert(v2).remove(v2).insert(v1));
        assert(fb.to_multiset() =~= fa.to_multiset());
    }
}

/// Inserting at any position adds one value to the multiset.
pub proof fn lemma_to_multiset_insert<A>(s: Seq<A>, i: int, v: A)
    requires
        0 <= i <= s.len(),
    ensures
        s.insert(i, v).to_multiset() == s.to_multiset().insert(v),
{
    broadcast use vstd::multiset::group_multiset_axioms;
    broadcast use vstd::seq_lib::group_to_multiset_ensures;

    let si = s.insert(i, v);
    assert(si.remove(i) =~= s);
    vstd::seq_lib::to_multiset_remove(si, i);
    assert(si[i] == v);
    assert(si.to_multiset().remove(v) == s.to_multiset());
    assert(si.contains(v));
    assert(si.to_multiset().count(v) > 0);
    assert(si.to_multiset() =~= si.to_multiset().remove(v).insert(v));
}

/// Two distinct positions holding `v` put at least two copies of `v` in the
/// multiset.
pub proof fn lemma_count_at_least_two<A>(s: Seq<A>, i: int, j: int, v: A)
    requires
        0 <= i < s.len(),
        0 <= j < s.len(),
        i != j,
        s[i] == v,
        s[j] == v,
    ensures
        s.to_multiset().count(v) >= 2,
{
    broadcast use vstd::multiset::group_multiset_axioms;
    broadcast use vstd::seq_lib::group_to_multiset_ensures;

    vstd::seq_lib::to_multiset_remove(s, i);
    let s2 = s.remove(i);
    let j2: int = if j < i {
        j
    } else {
        j - 1
    };
    assert(s2[j2] == v);
    assert(s2.contains(v));
    assert(s2.to_multiset().count(v) > 0);
    assert(s2.to_multiset() == s.to_multiset().remove(v));
}

/// Two copies of `v` in the multiset yield two distinct positions holding it.
pub proof fn lemma_two_implies_positions<A>(s: Seq<A>, v: A)
    requires
        s.to_multiset().count(v) >= 2,
    ensures
        exists|i: int, j: int| 0 <= i < j < s.len() && s[i] == v && (#[trigger] s[i]) == (
        #[trigger] s[j]),
{
    broadcast use vstd::multiset::group_multiset_axioms;
    broadcast use vstd::seq_lib::group_to_multiset_ensures;

    assert(s.to_multiset().count(v) > 0);
    assert(s.contains(v));
    let i = choose|i: int| 0 <= i < s.len() && s[i] == v;
    vstd::seq_lib::to_multiset_remove(s, i);
    let s2 = s.remove(i);
    assert(s2.to_multiset().count(v) > 0);
    assert(s2.contains(v));
    let j2 = choose|j: int| 0 <= j < s2.len() && s2[j] == v;
    let j: int = if j2 < i {
        j2
    } else {
        j2 + 1
    };
    assert(s[j] == v);
    if i < j {
        assert(0 <= i < j < s.len() && s[i] == v && s[j] == v);
    } else {
        assert(0 <= j < i < s.len() && s[j] == v && s[i] == v);
    }
}

/// Swapping two occupied cells of the candidate keeps the layout pair valid:
/// the shape, the occupied-cell pattern and the one-seat-per-student property
/// all survive.
pub proof fn lemma_swap_ok_pair(
    prev: Seq<Seq<usize>>,
    g1: Seq<Seq<usize>>,
    g2: Seq<Seq<usize>>,
    n: int,
    d: int,
    w: int,
    y1: int,
    x1: int,
    y2: int,
    x2: int,
)
    requires
        1 <= w,
        ok_pair(prev, g1, n, d, w),
        is_swap(g1, g2, d, w, y1, x1, y2, x2),
        g1[y1][x1] != VACANT,
        g1[y2][x2] != VACANT,
    ensures
        ok_pair(prev, g2, n, d, w),
{
    broadcast use vstd::multiset::group_multiset_axioms;

    lemma_swap_preserves_multiset(g1, g2, d, w, y1, x1, y2, x2);
    assert(d * w >= 0) by (nonlinear_arith)
        requires
            d >= 0,
            w >= 1,
    ;
    assert forall|id: usize| (id as int) < n implies #[trigger] count_id(g2, d, w, id) == 1 by {
        lemma_count_is_multiset(g1, d, w, id, d * w);
        lemma_count_is_multiset(g2, d, w, id, d * w);
        let f1 = flat_grid(g1, d, w);
        let f2 = flat_grid(g2, d, w);
        assert(f1.subrange(0, d * w) =~= f1);
        assert(f2.subrange(0, d * w) =~= f2);
        assert(count_id(g1, d, w, id) == 1);
    }
    assert forall|y: int, x: int| 0 <= y < d && 0 <= x < w implies ((#[trigger] prev[y][x])
        == VACANT <==> g2[y][x] == VACANT) by {
        if y == y1 && x == x1 {
        } else if y == y2 && x == x2 {
        } else {
            assert(g2[y][x] == g1[y][x]);
        }
    }
    assert forall|y: int, x: int| 0 <= y < d && 0 <= x < w && g2[y][x] != VACANT implies (
    #[trigger] g2[y][x]) < n by {
        if y == y1 && x == x1 {
        } else if y == y2 && x == x2 {
        } else {
            assert(g2[y][x] == g1[y][x]);
        }
    }
}

// ------------------------------------------------------------------
// The external input: seats holding optional student records.
// ------------------------------------------------------------------

/// The id a cell contributes to the dense layout.
pub open spec fn cell_id(c: Option<Student>) -> usize {
    match c {
        Option::Some(s) => s.id,
        Option::None => VACANT,
    }
}

/// The ids of the occupied cells among the first `j` cells of one row.
pub open spec fn row_ids(row: Seq<Option<Student>>, j: int) -> Seq<usize>
    decreases j,
{
    if j <= 0 {
        Seq::empty()
    } else {
        match row[j - 1] {
            Option::Some(s) => row_ids(row, j - 1).push(s.id),
            Option::None => row_ids(row, j - 1),
        }
    }
}

/// The ids of all occupied cells of the first `i` rows, reading order.
pub open spec fn occ_ids(inp: Seq<Vec<Option<Student>>>, i: int) -> Seq<usize>
    decreases i,
{
    if i <= 0 {
        Seq::empty()
    } else {
        occ_ids(inp, i - 1) + row_ids(inp[i - 1]@, inp[i - 1]@.len() as int)
    }
}

/// The occupied student records among the first `j` cells of one row.
pub open spec fn row_students(row: Seq<Option<Student>>, j: int) -> Seq<Student>
    decreases j,
{
    if j <= 0 {
        Seq::empty()
    } else {
        match row[j - 1] {
            Option::Some(s) => row_students(row, j - 1).push(s),
            Option::None => row_students(row, j - 1),
        }
    }
}

/// The occupied student records of the first `i` rows, reading order.
pub open spec fn occ_students(inp: Seq<Vec<Option<Student>>>, i: int) -> Seq<Student>
    decreases i,
{
    if i <= 0 {
        Seq::empty()
    } else {
        occ_students(inp, i - 1) + row_students(inp[i - 1]@, inp[i - 1]@.len() as int)
    }
}

/// Some student id occurs at two or more seats.
pub open spec fn has_duplicate(ids: Seq<usize>) -> bool {
    exists|v: usize| ids.to_multiset().count(v) >= 2
}

/// The duplicate list an `InvalidInput` error carries.
pub open spec fn err_dups(e: SolveError) -> Seq<usize> {
    match e {
        SolveError::InvalidInput { duplicate_ids } => duplicate_ids@,
        _ => Seq::empty(),
    }
}

/// Builds a sorted copy of `v` by insertion.
fn sort_ids(v: &Vec<usize>) -> (r: Vec<usize>)
    ensures
        r@.len() == v@.len(),
        forall|a: int, b: int| 0 <= a < b < r@.len() ==> (#[trigger] r@[a]) <= (#[trigger] r@[b]),
        r@.to_multiset() == v@.to_multiset(),
{
    broadcast use vstd::seq_lib::group_to_multiset_ensures;
    broadcast use vstd::multiset::group_multiset_axioms;

    let mut out: Vec<usize> = Vec::new();
    let mut i: usize = 0;
    proof {
        assert(v@.subrange(0, 0) =~= Seq::<usize>::empty());
        assert(Seq::<usize>::empty().to_multiset() =~= Multiset::<usize>::empty()) by {
            Seq::<usize>::empty().to_multiset_ensures();
            assert(Seq::<usize>::empty().to_multiset().len() == 0);
        }
        assert(out@.to_multiset() =~= v@.subrange(0, 0).to_multiset());
    }
    while i < v.len()
        invariant
            i <= v@.len(),
            out@.len() == i,
            forall|a: int, b: int|
                0 <= a < b < out@.len() ==> (#[trigger] out@[a]) <= (#[trigger] out@[b]),
            out@.to_multiset() == v@.subrange(0, i as int).to_multiset(),
        decreases v@.len() - i,
    {
        let x: usize = v[i];
        let mut p: usize = 0;
        while p < out.len() && out[p] <= x
            invariant
                p <= out@.len(),
                forall|q: int| 0 <= q < p ==> (#[trigger] out@[q]) <= x,
            decreases out@.len() - p,
        {
            p = p + 1;
        }
        let ghost old_out = out@;
        proof {
            old_out.insert_ensures(p as int, x);
            lemma_to_multiset_insert(old_out, p as int, x);
        }
        out.insert(p, x);
        proof {
            assert forall|a: int, b: int| 0 <= a < b < out@.len() implies (#[trigger] out@[a]) <= (
            #[trigger] out@[b]) by {
                if b < p {
                } else if a < p && b == p {
                } else if a < p && b > p {
                    assert(out@[b] == old_out[b - 1]);
                    if b - 1 >= p {
                        assert(old_out[p as int] > x || p as int == old_out.len());
                        assert(old_out[p as int] <= old_out[b - 1]);
                    }
                } else if a == p {
                    assert(out@[b] == old_out[b - 1]);
                    assert(x < old_out[p as int] || p as int >= old_out.len());
                    assert(old_out[p as int] <= old_out[b - 1]);
                } else {
                    assert(out@[a] == old_out[a - 1] && out@[b] == old_out[b - 1]);
                }
            }
            assert(v@.subrange(0, i as int + 1) =~= v@.subrange(0, i as int).push(v@[i as int]));
            assert(out@.to_multiset() == old_out.to_multiset().insert(x));
            vstd::seq_lib::to_multiset_build(v@.subrange(0, i as int), v@[i as int]);
            assert(out@.to_multiset() == v@.subrange(0, i as int + 1).to_multiset());
        }
        i = i + 1;
    }
    proof {
        assert(v@.subrange(0, v@.len() as int) =~= v@);
    }
    out
}

/// Rejects an input that names the same student id at two or more seats,
/// reporting every duplicated id once, in ascending order.
pub fn check_input(input: &Vec<Vec<Option<Student>>>) -> (r: Result<(), SolveError>)
    ensures
        ({
            let ids = occ_ids(input@, input@.len() as int);
            &&& (r is Ok) <==> !has_duplicate(ids)
            &&& (r is Err) ==> r->Err_0 is InvalidInput
            &&& (r is Err) ==> ({
                let dups = err_dups(r->Err_0);
                &&& forall|a: int, b: int|
                    0 <= a < b < dups.len() ==> (#[trigger] dups[a]) < (#[trigger] dups[b])
                &&& forall|vv: usize| dups.contains(vv) <==> ids.to_multiset().count(vv) >= 2
            })
        }),
{
    broadcast use vstd::seq_lib::group_to_multiset_ensures;

    let ghost ids = occ_ids(input@, input@.len() as int);
    // Collect the ids of every occupied seat, reading order.
    let mut flat: Vec<usize> = Vec::new();
    let mut y: usize = 0;
    while y < input.len()
        invariant
            y <= input@.len(),
            flat@ == occ_ids(input@, y as int),
        decreases input@.len() - y,
    {
        let row = &input[y];
        let mut x: usize = 0;
        while x < row.len()
            invariant
                x <= row@.len(),
                y < input@.len(),
                row@ == input@[y as int]@,
                flat@ == occ_ids(input@, y as int) + row_ids(row@, x as int),
            decreases row@.len() - x,
        {
            match &row[x] {
                Some(s) => {
                    flat.push(s.id);
                },
                None => {},
            }
            x = x + 1;
        }
        proof {
            assert(flat@ == occ_ids(input@, y as int + 1));
        }
        y = y + 1;
    }
    proof {
        assert(flat@ == ids);
    }
    let sorted = sort_ids(&flat);
    let ghost so = sorted@;
    // Scan the sorted ids for adjacent repetitions.
    let mut dups: Vec<usize> = Vec::new();
    let mut t: usize = 1;
    if sorted.len() >= 2 {
        while t < sorted.len()
            invariant
                1 <= t <= so.len(),
                so == sorted@,
                forall|a: int, b: int|
                    0 <= a < b < so.len() ==> (#[trigger] so[a]) <= (#[trigger] so[b]),
                forall|a: int, b: int|
                    0 <= a < b < dups@.len() ==> (#[trigger] dups@[a]) < (#[trigger] dups@[b]),
                forall|vv: usize|
                    dups@.contains(vv) <==> exists|q: int|
                        0 < q < t as int && (#[trigger] so[q]) == so[q - 1] && so[q] == vv,
                forall|a: int|
                    0 <= a < dups@.len() ==> (#[trigger] dups@[a]) <= so[t as int - 1],
            decreases so.len() - t,
        {
            let cur: usize = sorted[t];
            let prev: usize = sorted[t - 1];
            if cur == prev {
                let already: bool = if dups.len() == 0 {
                    false
                } else {
                    dups[dups.len() - 1] == cur
                };
                if !already {
                    let ghost old_dups = dups@;
                    dups.push(cur);
                    proof {
                        assert forall|vv: usize| dups@.contains(vv) implies exists|q: int|
                            0 < q < t as int + 1 && (#[trigger] so[q]) == so[q - 1] && so[q] == vv
                            by {
                            if vv == cur {
                                assert(0 < t as int && (t as int) < (t as int) + 1 && so[t as int]
                                    == so[t as int - 1] && so[t as int] == vv);
                            } else {
                                assert(old_dups.contains(vv));
                                let q = choose|q: int|
                                    0 < q < t as int && (#[trigger] so[q]) == so[q - 1] && so[q]
                                        == vv;
                                assert(0 < q < t as int + 1 && so[q] == so[q - 1] && so[q] == vv);
                            }
                        }
                        assert forall|vv: usize|
                            (exists|q: int|
                                0 < q < t as int + 1 && (#[trigger] so[q]) == so[q - 1] && so[q]
                                    == vv) implies dups@.contains(vv) by {
                            let q = choose|q: int|
                                0 < q < t as int + 1 && (#[trigger] so[q]) == so[q - 1] && so[q]
                                    == vv;
                            if q < t as int {
                                assert(old_dups.contains(vv));
                                let a = choose|a: int| 0 <= a < old_dups.len() && old_dups[a] == vv;
                                assert(dups@[a] == vv);
                            } else {
                                assert(vv == cur);
                                assert(dups@[dups@.len() - 1] == cur);
                            }
                        }
                        // The new entry is strictly larger than every earlier one.
                        assert forall|a: int, b: int| 0 <= a < b < dups@.len() implies (
                        #[trigger] dups@[a]) < (#[trigger] dups@[b]) by {
                            if b == dups@.len() - 1 {
                                assert(dups@[a] == old_dups[a]);
                                assert(old_dups[a] <= so[t as int - 1]);
                                if old_dups.len() >= 1 {
                                    assert(old_dups[old_dups.len() - 1] != cur);
                                }
                                if dups@[a] == cur {
                                    if old_dups.len() >= 1 && a < old_dups.len() - 1 {
                                        assert(old_dups[a] < old_dups[old_dups.len() - 1]);
                                        assert(old_dups[old_dups.len() - 1] <= so[t as int - 1]);
                                        assert(so[t as int - 1] == cur);
                                        assert(false);
                                    } else {
                                        assert(a == old_dups.len() - 1);
                                        assert(false);
                                    }
                                }
                            }
                        }
                    }
                }
            }
            t = t + 1;
        }
    }
    proof {
        // Adjacent repetitions characterise duplicated values.
        let tt: int = if so.len() >= 2 {
            so.len() as int
        } else {
            1
        };
        assert forall|vv: usize| dups@.contains(vv) implies so.to_multiset().count(vv) >= 2 by {
            if so.len() >= 2 {
                let q = choose|q: int|
                    0 < q < tt && (#[trigger] so[q]) == so[q - 1] && so[q] == vv;
                lemma_count_at_least_two(so, q - 1, q, vv);
            }
        }
        assert forall|vv: usize| so.to_multiset().count(vv) >= 2 implies dups@.contains(vv) by {
            lemma_two_implies_positions(so, vv);
            let (a, b): (int, int) = choose|a: int, b: int|
                0 <= a < b < so.len() && so[a] == vv && (#[trigger] so[a]) == (#[trigger] so[b]);
            assert(so[a] <= so[a + 1] && so[a + 1] <= so[b]);
            assert(so[a + 1] == so[a] && so[a + 1] == vv);
            assert(0 < a + 1 < tt && so[a + 1] == so[a] && so[a + 1] == vv);
        }
        assert(so.to_multiset() == ids.to_multiset());
    }
    if dups.len() == 0 {
        proof {
            if has_duplicate(ids) {
                let vv = choose|vv: usize| ids.to_multiset().count(vv) >= 2;
                assert(dups@.contains(vv));
            }
        }
        Ok(())
    } else {
        proof {
            let vv = dups@[0];
            assert(dups@.contains(vv));
            assert(ids.to_multiset().count(vv) >= 2);
        }
        Err(SolveError::InvalidInput { duplicate_ids: dups })
    }
}

// ------------------------------------------------------------------
// Counting occupied ids, in the external and the dense representation.
// ------------------------------------------------------------------

/// How often `v` occurs in an id sequence.
pub open spec fn count_uid(s: Seq<usize>, v: usize) -> int
    decreases s.len(),
{
    if s.len() == 0 {
        0
    } else {
        count_uid(s.drop_last(), v) + (if s.last() == v {
            1int
        } else {
            0int
        })
    }
}

/// How often a student with id `v` occurs in a record sequence.
pub open spec fn count_sid(ss: Seq<Student>, v: usize) -> int
    decreases ss.len(),
{
    if ss.len() == 0 {
        0
    } else {
        count_sid(ss.drop_last(), v) + (if ss.last().id == v {
            1int
        } else {
            0int
        })
    }
}

pub proof fn lemma_count_uid_concat(a: Seq<usize>, b: Seq<usize>, v: usize)
    ensures
        count_uid(a + b, v) == count_uid(a, v) + count_uid(b, v),
    decreases b.len(),
{
    if b.len() == 0 {
        assert(a + b =~= a);
    } else {
        assert((a + b).drop_last() =~= a + b.drop_last());
        assert((a + b).last() == b.last());
        lemma_count_uid_concat(a, b.drop_last(), v);
    }
}

pub proof fn lemma_count_sid_concat(a: Seq<Student>, b: Seq<Student>, v: usize)
    ensures
        count_sid(a + b, v) == count_sid(a, v) + count_sid(b, v),
    decreases b.len(),
{
    if b.len() == 0 {
        assert(a + b =~= a);
    } else {
        assert((a + b).drop_last() =~= a + b.drop_last());
        assert((a + b).last() == b.last());
        lemma_count_sid_concat(a, b.drop_last(), v);
    }
}

/// Inserting one record raises exactly its id's count.
pub proof fn lemma_count_sid_insert(s: Seq<Student>, p: int, x: Student, v: usize)
    requires
        0 <= p <= s.len(),
    ensures
        count_sid(s.insert(p, x), v) == count_sid(s, v) + (if x.id == v {
            1int
        } else {
            0int
        }),
{
    let s1 = s.subrange(0, p);
    let s2 = s.subrange(p, s.len() as int);
    assert(s.insert(p, x) =~= (s1.push(x)) + s2);
    lemma_count_sid_concat(s1.push(x), s2, v);
    assert(s1.push(x).drop_last() =~= s1);
    assert(s =~= s1 + s2);
    lemma_count_sid_concat(s1, s2, v);
}

/// The sequence count agrees with the multiset count.
pub proof fn lemma_count_uid_multiset(s: Seq<usize>, v: usize)
    ensures
        count_uid(s, v) == s.to_multiset().count(v),
    decreases s.len(),
{
    broadcast use vstd::multiset::group_multiset_axioms;
    broadcast use vstd::seq_lib::group_to_multiset_ensures;

    if s.len() == 0 {
        assert(s.to_multiset().len() == 0);
        assert(s.to_multiset() =~= Multiset::<usize>::empty());
    } else {
        lemma_count_uid_multiset(s.drop_last(), v);
        assert(s =~= s.drop_last().push(s.last()));
        vstd::seq_lib::to_multiset_build(s.drop_last(), s.last());
    }
}

/// The occupied ids are, position for position, the ids of the occupied
/// records.
pub proof fn lemma_row_parallel(row: Seq<Option<Student>>, j: int)
    ensures
        row_ids(row, j).len() == row_students(row, j).len(),
        forall|k: int|
            0 <= k < row_ids(row, j).len() ==> (#[trigger] row_ids(row, j)[k]) == row_students(
                row,
                j,
            )[k].id,
    decreases j,
{
    if j > 0 {
        lemma_row_parallel(row, j - 1);
    }
}

pub proof fn lemma_occ_parallel(inp: Seq<Vec<Option<Student>>>, i: int)
    ensures
        occ_ids(inp, i).len() == occ_students(inp, i).len(),
        forall|k: int|
            0 <= k < occ_ids(inp, i).len() ==> (#[trigger] occ_ids(inp, i)[k]) == occ_students(
                inp,
                i,
            )[k].id,
    decreases i,
{
    if i > 0 {
        lemma_occ_parallel(inp, i - 1);
        lemma_row_parallel(inp[i - 1]@, inp[i - 1]@.len() as int);
    }
}

/// Position-for-position parallel sequences have the same id counts.
pub proof fn lemma_parallel_counts(ids: Seq<usize>, ss: Seq<Student>, v: usize)
    requires
        ids.len() == ss.len(),
        forall|k: int| 0 <= k < ids.len() ==> (#[trigger] ids[k]) == ss[k].id,
    ensures
        count_uid(ids, v) == count_sid(ss, v),
    decreases ids.len(),
{
    if ids.len() > 0 {
        assert(ids.last() == ss.last().id);
        lemma_parallel_counts(ids.drop_last(), ss.drop_last(), v);
    }
}

/// A record at one position puts its id's count at one at least.
pub proof fn lemma_count_sid_pos(ss: Seq<Student>, a: int)
    requires
        0 <= a < ss.len(),
    ensures
        count_sid(ss, ss[a].id) >= 1,
        count_sid(ss, ss[a].id) >= 0,
    decreases ss.len(),
{
    lemma_count_sid_nonneg(ss.drop_last(), ss[a].id);
    if a == ss.len() - 1 {
    } else {
        lemma_count_sid_pos(ss.drop_last(), a);
    }
}

pub proof fn lemma_count_sid_nonneg(ss: Seq<Student>, v: usize)
    ensures
        count_sid(ss, v) >= 0,
    decreases ss.len(),
{
    if ss.len() > 0 {
        lemma_count_sid_nonneg(ss.drop_last(), v);
    }
}

/// Two positions sharing an id put its count at two at least.
pub proof fn lemma_count_sid_two(ss: Seq<Student>, a: int, b: int)
    requires
        0 <= a < b < ss.len(),
        ss[a].id == ss[b].id,
    ensures
        count_sid(ss, ss[a].id) >= 2,
    decreases ss.len(),
{
    if b == ss.len() - 1 {
        lemma_count_sid_pos(ss.drop_last(), a);
    } else {
        lemma_count_sid_two(ss.drop_last(), a, b);
    }
}

/// A positive count yields a position holding the id.
pub proof fn lemma_count_sid_exists(ss: Seq<Student>, v: usize)
    requires
        count_sid(ss, v) >= 1,
    ensures
        exists|k: int| 0 <= k < ss.len() && (#[trigger] ss[k]).id == v,
    decreases ss.len(),
{
    if ss.len() > 0 {
        if ss.last().id == v {
            assert(ss[ss.len() - 1].id == v);
        } else {
            lemma_count_sid_exists(ss.drop_last(), v);
            let k = choose|k: int| 0 <= k < ss.drop_last().len() && (#[trigger] ss.drop_last()[k]).id == v;
            assert(ss[k].id == v);
        }
    }
}

/// A property of every occupied seat holds of every collected record.
pub proof fn lemma_row_students_all(row: Seq<Option<Student>>, j: int, p: spec_fn(Student) -> bool)
    requires
        0 <= j <= row.len(),
        forall|x: int| 0 <= x < row.len() && (#[trigger] row[x]) is Some ==> p(row[x]->0),
    ensures
        forall|k: int|
            0 <= k < row_students(row, j).len() ==> p(#[trigger] row_students(row, j)[k]),
    decreases j,
{
    if j > 0 {
        lemma_row_students_all(row, j - 1, p);
        let rs = row_students(row, j);
        let prev = row_students(row, j - 1);
        assert forall|k: int| 0 <= k < rs.len() implies p(#[trigger] rs[k]) by {
            match row[j - 1] {
                Option::Some(st) => {
                    if k < prev.len() {
                        assert(rs[k] == prev[k]);
                    } else {
                        assert(rs[k] == st);
                    }
                },
                Option::None => {
                    assert(rs[k] == prev[k]);
                },
            }
        }
    }
}

pub proof fn lemma_occ_students_all(inp: Seq<Vec<Option<Student>>>, i: int, p: spec_fn(Student) -> bool)
    requires
        0 <= i <= inp.len(),
        forall|y: int, x: int|
            0 <= y < inp.len() && 0 <= x < inp[y]@.len() && (#[trigger] inp[y]@[x]) is Some ==> p(
                inp[y]@[x]->0,
            ),
    ensures
        forall|k: int|
            0 <= k < occ_students(inp, i).len() ==> p(#[trigger] occ_students(inp, i)[k]),
    decreases i,
{
    if i > 0 {
        lemma_occ_students_all(inp, i - 1, p);
        lemma_row_students_all(inp[i - 1]@, inp[i - 1]@.len() as int, p);
        let os = occ_students(inp, i);
        let prev = occ_students(inp, i - 1);
        let rs = row_students(inp[i - 1]@, inp[i - 1]@.len() as int);
        assert forall|k: int| 0 <= k < os.len() implies p(#[trigger] os[k]) by {
            if k < prev.len() {
                assert(os[k] == prev[k]);
            } else {
                assert(os[k] == rs[k - prev.len()]);
            }
        }
    }
}

/// An occupied seat's record stands in the occupied-record sequence.
pub proof fn lemma_row_students_mem(row: Seq<Option<Student>>, j: int, jlen: int)
    requires
        0 <= j < jlen <= row.len(),
        row[j] is Some,
    ensures
        exists|k: int|
            0 <= k < row_students(row, jlen).len() && (#[trigger] row_students(row, jlen)[k])
                == row[j]->0,
    decreases jlen,
{
    if j == jlen - 1 {
        let rs = row_students(row, jlen);
        assert(rs[rs.len() - 1] == row[j]->0);
    } else {
        lemma_row_students_mem(row, j, jlen - 1);
        let k = choose|k: int|
            0 <= k < row_students(row, jlen - 1).len() && (#[trigger] row_students(row, jlen - 1)[k])
                == row[j]->0;
        assert(row_students(row, jlen)[k] == row[j]->0);
    }
}

pub proof fn lemma_occ_students_mem(inp: Seq<Vec<Option<Student>>>, y: int, x: int, i: int)
    requires
        0 <= y < i <= inp.len(),
        0 <= x < inp[y]@.len(),
        inp[y]@[x] is Some,
    ensures
        exists|k: int|
            0 <= k < occ_students(inp, i).len() && (#[trigger] occ_students(inp, i)[k])
                == inp[y]@[x]->0,
    decreases i,
{
    if y == i - 1 {
        lemma_row_students_mem(inp[y]@, x, inp[y]@.len() as int);
        let k = choose|k: int|
            0 <= k < row_students(inp[y]@, inp[y]@.len() as int).len() && (#[trigger] row_students(
                inp[y]@,
                inp[y]@.len() as int,
            )[k]) == inp[y]@[x]->0;
        let base = occ_students(inp, i - 1).len() as int;
        assert(occ_students(inp, i)[base + k] == inp[y]@[x]->0);
    } else {
        lemma_occ_students_mem(inp, y, x, i - 1);
        let k = choose|k: int|
            0 <= k < occ_students(inp, i - 1).len() && (#[trigger] occ_students(inp, i - 1)[k])
                == inp[y]@[x]->0;
        assert(occ_students(inp, i)[k] == inp[y]@[x]->0);
    }
}

/// Occupied-record prefixes never outgrow the seats scanned.
pub proof fn lemma_row_students_len(row: Seq<Option<Student>>, j: int)
    requires
        0 <= j,
    ensures
        row_students(row, j).len() <= j,
    decreases j,
{
    if j > 0 {
        lemma_row_students_len(row, j - 1);
    }
}

pub proof fn lemma_occ_students_len(inp: Seq<Vec<Option<Student>>>, i: int, w: int)
    requires
        0 <= i,
        i <= inp.len(),
        forall|y: int| 0 <= y < inp.len() ==> (#[trigger] inp[y])@.len() <= w,
        0 <= w,
    ensures
        occ_students(inp, i).len() <= i * w,
    decreases i,
{
    if i > 0 {
        lemma_occ_students_len(inp, i - 1, w);
        if i - 1 < inp.len() {
            lemma_row_students_len(inp[i - 1]@, inp[i - 1]@.len() as int);
        } else {
            lemma_row_students_len(inp[i - 1]@, inp[i - 1]@.len() as int);
        }
        assert((i - 1) * w + w == i * w) by (nonlinear_arith);
    } else {
        assert(i * w == 0) by (nonlinear_arith)
            requires
                i == 0,
        ;
    }
}

/// Counting a value over a dense row prefix equals counting it among the
/// row's occupied ids, for any value but the vacancy mark.
pub proof fn lemma_row_count(irow: Seq<Option<Student>>, grow: Seq<usize>, x: int, v: usize)
    requires
        v != VACANT,
        grow.len() == irow.len(),
        0 <= x <= irow.len(),
        forall|k: int| 0 <= k < irow.len() ==> (#[trigger] grow[k]) == cell_id(irow[k]),
    ensures
        count_uid(grow.subrange(0, x), v) == count_uid(row_ids(irow, x), v),
    decreases x,
{
    if x > 0 {
        lemma_row_count(irow, grow, x - 1, v);
        assert(grow.subrange(0, x).drop_last() =~= grow.subrange(0, x - 1));
        assert(grow.subrange(0, x).last() == grow[x - 1]);
        match irow[x - 1] {
            Option::Some(st) => {
                assert(row_ids(irow, x).drop_last() =~= row_ids(irow, x - 1));
            },
            Option::None => {},
        }
    } else {
        assert(grow.subrange(0, 0) =~= Seq::<usize>::empty());
    }
}

/// Counting a value over the dense grid equals counting it among all
/// occupied ids, for any value but the vacancy mark.
pub proof fn lemma_grid_count(
    inp: Seq<Vec<Option<Student>>>,
    g: Seq<Seq<usize>>,
    d: int,
    w: int,
    yy: int,
    v: usize,
)
    requires
        v != VACANT,
        is_rect(g, d, w),
        1 <= w,
        inp.len() == d,
        0 <= yy <= d,
        forall|y: int| 0 <= y < d ==> (#[trigger] inp[y])@.len() == w,
        forall|y: int, x: int|
            0 <= y < d && 0 <= x < w ==> (#[trigger] g[y][x]) == cell_id(inp[y]@[x]),
    ensures
        count_id_upto(g, w, v, yy * w) == count_uid(occ_ids(inp, yy), v),
    decreases yy,
{
    broadcast use vstd::multiset::group_multiset_axioms;

    if yy > 0 {
        lemma_grid_count(inp, g, d, w, yy - 1, v);
        let f = flat_grid(g, d, w);
        let k0 = (yy - 1) * w;
        let k1 = yy * w;
        assert(k1 == k0 + w) by (nonlinear_arith)
            requires
                k0 == (yy - 1) * w,
                k1 == yy * w,
        ;
        assert(0 <= k0 && k1 <= d * w) by (nonlinear_arith)
            requires
                1 <= w,
                0 <= yy - 1,
                yy <= d,
                k0 == (yy - 1) * w,
                k1 == yy * w,
        ;
        // Counts over cell prefixes equal counts over the flat prefix.
        lemma_count_is_multiset(g, d, w, v, k0);
        lemma_count_is_multiset(g, d, w, v, k1);
        lemma_count_uid_multiset(f.subrange(0, k0), v);
        lemma_count_uid_multiset(f.subrange(0, k1), v);
        // The slice of row yy-1 is that row's cells.
        let rowseq = f.subrange(k0, k1);
        assert forall|t: int| 0 <= t < w implies (#[trigger] rowseq[t]) == g[yy - 1][t] by {
            lemma_cell_to_flat(w, d, yy - 1, t);
            assert(rowseq[t] == f[k0 + t]);
            assert((k0 + t) / w == yy - 1 && (k0 + t) % w == t) by {
                vstd::arithmetic::div_mod::lemma_fundamental_div_mod_converse(
                    k0 + t,
                    w,
                    yy - 1,
                    t,
                );
            }
        }
        assert(f.subrange(0, k1) =~= f.subrange(0, k0) + rowseq);
        lemma_count_uid_concat(f.subrange(0, k0), rowseq, v);
        // The row slice counts like the row's occupied ids.
        let irow = inp[yy - 1]@;
        assert(rowseq.subrange(0, w) =~= rowseq);
        lemma_row_count(irow, rowseq, w, v);
        assert(occ_ids(inp, yy) =~= occ_ids(inp, yy - 1) + row_ids(irow, w));
        lemma_count_uid_concat(occ_ids(inp, yy - 1), row_ids(irow, w), v);
    } else {
        assert(count_id_upto(g, w, v, 0) == 0);
        assert(occ_ids(inp, 0) =~= Seq::<usize>::empty());
    }
}

/// A field-for-field copy of one student record.
fn copy_student(s: &Student) -> (r: Student)
    ensures
        r == *s,
{
    Student {
        id: s.id,
        name: s.name.clone(),
        academic_ability: s.academic_ability,
        exercise_ability: s.exercise_ability,
        leadership_ability: s.leadership_ability,
        needs_assistance: s.needs_assistance,
        gender: s.gender,
    }
}

/// Builds a copy of `v` sorted by student id, by insertion; students with
/// equal ids keep their relative order.
#[verifier::rlimit(60)]
fn sort_students(v: &Vec<Student>) -> (r: Vec<Student>)
    ensures
        r@.len() == v@.len(),
        forall|a: int, b: int|
            0 <= a < b < r@.len() ==> (#[trigger] r@[a]).id <= (#[trigger] r@[b]).id,
        r@.to_multiset() == v@.to_multiset(),
        forall|vv: usize| #[trigger] count_sid(r@, vv) == count_sid(v@, vv),
{
    broadcast use vstd::seq_lib::group_to_multiset_ensures;
    broadcast use vstd::multiset::group_multiset_axioms;

    let mut out: Vec<Student> = Vec::new();
    let mut i: usize = 0;
    proof {
        assert(v@.subrange(0, 0) =~= Seq::<Student>::empty());
        assert(v@.subrange(0, 0).to_multiset() =~= Multiset::<Student>::empty()) by {
            v@.subrange(0, 0).to_multiset_ensures();
            assert(v@.subrange(0, 0).to_multiset().len() == 0);
        }
        assert(out@.to_multiset() =~= v@.subrange(0, 0).to_multiset());
    }
    while i < v.len()
        invariant
            i <= v@.len(),
            out@.len() == i,
            forall|a: int, b: int|
                0 <= a < b < out@.len() ==> (#[trigger] out@[a]).id <= (#[trigger] out@[b]).id,
            out@.to_multiset() == v@.subrange(0, i as int).to_multiset(),
            forall|vv: usize| #[trigger] count_sid(out@, vv) == count_sid(v@.subrange(0, i as int), vv),
        decreases v@.len() - i,
    {
        let s = copy_student(&v[i]);
        let ghost sv = s;
        let mut p: usize = 0;
        while p < out.len() && out[p].id <= s.id
            invariant
                p <= out@.len(),
                s == sv,
                forall|q: int| 0 <= q < p ==> (#[trigger] out@[q]).id <= sv.id,
            decreases out@.len() - p,
        {
            p = p + 1;
        }
        let ghost old_out = out@;
        proof {
            old_out.insert_ensures(p as int, sv);
            lemma_to_multiset_insert(old_out, p as int, sv);
        }
        out.insert(p, s);
        proof {
            assert forall|a: int, b: int| 0 <= a < b < out@.len() implies (#[trigger] out@[a]).id
                <= (#[trigger] out@[b]).id by {
                if b < p {
                } else if a < p && b == p {
                } else if a < p && b > p {
                    assert(out@[b] == old_out[b - 1]);
                    assert(old_out[p as int].id > sv.id || p as int == old_out.len());
                    assert(old_out[p as int].id <= old_out[b - 1].id);
                } else if a == p {
                    assert(out@[b] == old_out[b - 1]);
                    assert(sv.id < old_out[p as int].id || p as int >= old_out.len());
                    assert(old_out[p as int].id <= old_out[b - 1].id);
                } else {
                    assert(out@[a] == old_out[a - 1] && out@[b] == old_out[b - 1]);
                }
            }
            assert(v@.subrange(0, i as int + 1) =~= v@.subrange(0, i as int).push(v@[i as int]));
            vstd::seq_lib::to_multiset_build(v@.subrange(0, i as int), v@[i as int]);
            assert(out@.to_multiset() == v@.subrange(0, i as int + 1).to_multiset());
            assert forall|vv: usize| #[trigger] count_sid(out@, vv) == count_sid(
                v@.subrange(0, i as int + 1),
                vv,
            ) by {
                lemma_count_sid_insert(old_out, p as int, sv, vv);
                let snext = v@.subrange(0, i as int + 1);
                assert(snext.drop_last() =~= v@.subrange(0, i as int));
                assert(snext.last() == v@[i as int]);
            }
        }
        i = i + 1;
    }
    proof {
        assert(v@.subrange(0, v@.len() as int) =~= v@);
    }
    out
}

/// Splits the external layout into the dense id grid and the list of its
/// students, sorted by id. Vacant seats become `VACANT` cells.
pub fn separate_input(input: &Vec<Vec<Option<Student>>>) -> (r: (SeatAssignment, Vec<Student>))
    ensures
        r.0@.len() == input@.len(),
        forall|y: int| 0 <= y < input@.len() ==> (#[trigger] r.0@[y])@.len() == input@[y]@.len(),
        forall|y: int, x: int|
            0 <= y < input@.len() && 0 <= x < input@[y]@.len() ==> (#[trigger] r.0@[y]@[x])
                == cell_id(input@[y]@[x]),
        r.1@.len() == occ_students(input@, input@.len() as int).len(),
        r.1@.to_multiset() == occ_students(input@, input@.len() as int).to_multiset(),
        forall|vv: usize| #[trigger]
            count_sid(r.1@, vv) == count_sid(occ_students(input@, input@.len() as int), vv),
        forall|a: int, b: int|
            0 <= a < b < r.1@.len() ==> (#[trigger] r.1@[a]).id <= (#[trigger] r.1@[b]).id,
{
    broadcast use vstd::seq_lib::group_to_multiset_ensures;
    broadcast use vstd::multiset::group_multiset_axioms;

    let mut grid: Vec<Vec<usize>> = Vec::new();
    let mut raw: Vec<Student> = Vec::new();
    let mut y: usize = 0;
    proof {
        assert(raw@ =~= occ_students(input@, 0));
    }
    while y < input.len()
        invariant
            y <= input@.len(),
            grid@.len() == y,
            forall|yy: int| 0 <= yy < y ==> (#[trigger] grid@[yy])@.len() == input@[yy]@.len(),
            forall|yy: int, xx: int|
                0 <= yy < y && 0 <= xx < input@[yy]@.len() ==> (#[trigger] grid@[yy]@[xx])
                    == cell_id(input@[yy]@[xx]),
            raw@ == occ_students(input@, y as int),
        decreases input@.len() - y,
    {
        let row = &input[y];
        let mut new_row: Vec<usize> = Vec::new();
        let mut x: usize = 0;
        while x < row.len()
            invariant
                x <= row@.len(),
                y < input@.len(),
                row@ == input@[y as int]@,
                new_row@.len() == x,
                forall|xx: int|
                    0 <= xx < x ==> (#[trigger] new_row@[xx]) == cell_id(input@[y as int]@[xx]),
                raw@ == occ_students(input@, y as int) + row_students(row@, x as int),
            decreases row@.len() - x,
        {
            match &row[x] {
                Some(s) => {
                    new_row.push(s.id);
                    raw.push(copy_student(s));
                },
                None => {
                    new_row.push(usize::MAX);
                },
            }
            x = x + 1;
        }
        grid.push(new_row);
        proof {
            assert(raw@ == occ_students(input@, y as int + 1));
        }
        y = y + 1;
    }
    let students = sort_students(&raw);
    (grid, students)
}

/// Ascending (not necessarily strict) id order.
pub open spec fn id_sorted(ss: Seq<Student>) -> bool {
    forall|a: int, b: int| 0 <= a < b < ss.len() ==> (#[trigger] ss[a]).id <= (#[trigger] ss[b]).id
}

/// No two records share an id.
pub open spec fn unique_ids(ss: Seq<Student>) -> bool {
    forall|a: int, b: int|
        0 <= a < b < ss.len() ==> (#[trigger] ss[a]).id != (#[trigger] ss[b]).id
}

/// Whether `ss` rearranges `src` into ascending id order.
pub open spec fn is_sorted_arrangement(src: Seq<Student>, ss: Seq<Student>) -> bool {
    ss.to_multiset() == src.to_multiset() && id_sorted(ss)
}

/// The id-sorted arrangement of a record sequence; a single sequence when
/// the ids are unique (see `lemma_sorted_arrangement_unique`).
pub open spec fn sorted_arrangement_of(src: Seq<Student>) -> Seq<Student> {
    choose|ss: Seq<Student>| #[trigger] is_sorted_arrangement(src, ss)
}

/// Two id-sorted arrangements of one multiset of records with unique ids
/// are the same sequence.
pub proof fn lemma_sorted_arrangement_unique(a: Seq<Student>, b: Seq<Student>)
    requires
        a.to_multiset() == b.to_multiset(),
        id_sorted(a),
        id_sorted(b),
        unique_ids(a),
    ensures
        a == b,
    decreases a.len(),
{
    broadcast use vstd::multiset::group_multiset_axioms;
    broadcast use vstd::seq_lib::group_to_multiset_ensures;

    a.to_multiset_ensures();
    b.to_multiset_ensures();
    if a.len() == 0 {
        assert(b.to_multiset().len() == 0);
        assert(a =~= b);
    } else {
        assert(a.len() == b.len());
        assert(b.len() > 0);
        // The two heads carry the same id, and unique ids make them equal.
        assert(a.contains(a[0]));
        assert(b.to_multiset().count(a[0]) > 0);
        assert(b.contains(a[0]));
        let j = choose|j: int| 0 <= j < b.len() && b[j] == a[0];
        assert(b.contains(b[0]));
        assert(a.to_multiset().count(b[0]) > 0);
        assert(a.contains(b[0]));
        let i = choose|i: int| 0 <= i < a.len() && a[i] == b[0];
        if j > 0 {
            assert(b[0].id <= b[j].id);
        }
        if i > 0 {
            assert(a[0].id <= a[i].id);
        }
        assert(a[0].id == b[0].id);
        assert(a[i] == b[0] && a[i].id == a[0].id);
        if i != 0 {
            assert(a[0].id != a[i].id);
        }
        assert(a[0] == b[0]);
        // The tails are arrangements of the remaining records.
        let ta = a.remove(0);
        let tb = b.remove(0);
        vstd::seq_lib::to_multiset_remove(a, 0);
        vstd::seq_lib::to_multiset_remove(b, 0);
        assert(ta.to_multiset() == tb.to_multiset());
        assert(id_sorted(ta)) by {
            assert forall|x: int, y: int| 0 <= x < y < ta.len() implies (#[trigger] ta[x]).id <= (
            #[trigger] ta[y]).id by {
                assert(ta[x] == a[x + 1] && ta[y] == a[y + 1]);
            }
        }
        assert(id_sorted(tb)) by {
            assert forall|x: int, y: int| 0 <= x < y < tb.len() implies (#[trigger] tb[x]).id <= (
            #[trigger] tb[y]).id by {
                assert(tb[x] == b[x + 1] && tb[y] == b[y + 1]);
            }
        }
        assert(unique_ids(ta)) by {
            assert forall|x: int, y: int| 0 <= x < y < ta.len() implies (#[trigger] ta[x]).id != (
            #[trigger] ta[y]).id by {
                assert(ta[x] == a[x + 1] && ta[y] == a[y + 1]);
            }
        }
        lemma_sorted_arrangement_unique(ta, tb);
        assert(a =~= b) by {
            assert forall|k: int| 0 <= k < a.len() implies a[k] == b[k] by {
                if k > 0 {
                    assert(ta[k - 1] == a[k] && tb[k - 1] == b[k]);
                }
            }
        }
    }
}

/// The position of id `v` in a record list; a single position when the list
/// is strictly id-sorted (see `lemma_index_of_id`).
pub open spec fn index_of_id(ss: Seq<Student>, v: usize) -> int {
    choose|i: int| 0 <= i < ss.len() && (#[trigger] ss[i]).id == v
}

/// In a strictly id-sorted list, each id has one position.
pub proof fn lemma_index_of_id(ss: Seq<Student>, i: int)
    requires
        forall|a: int, b: int|
            0 <= a < b < ss.len() ==> (#[trigger] ss[a]).id < (#[trigger] ss[b]).id,
        0 <= i < ss.len(),
    ensures
        index_of_id(ss, ss[i].id) == i,
{
    assert(0 <= i < ss.len() && ss[i].id == ss[i].id);
    let j = index_of_id(ss, ss[i].id);
    if j < i {
        assert(ss[j].id < ss[i].id);
    }
    if i < j {
        assert(ss[i].id < ss[j].id);
    }
}

/// Id round-trip: a layout whose occupied cells were compacted to positions
/// in the retained id list re-expands, cell by cell, to the original ids —
/// for any arrangement of unique ids over the seats.
pub proof fn lemma_id_round_trip(
    ids: Seq<usize>,
    g0: Seq<Seq<usize>>,
    g1: Seq<Seq<usize>>,
    d: int,
    w: int,
)
    requires
        ids.len() < VACANT as int,
        is_rect(g0, d, w),
        is_rect(g1, d, w),
        forall|y: int, x: int|
            0 <= y < d && 0 <= x < w && (#[trigger] g0[y][x]) == VACANT ==> g1[y][x] == VACANT,
        forall|y: int, x: int|
            0 <= y < d && 0 <= x < w && (#[trigger] g0[y][x]) != VACANT ==> 0 <= g1[y][x] < ids.len()
                && ids[g1[y][x] as int] == g0[y][x],
    ensures
        forall|y: int, x: int|
            0 <= y < d && 0 <= x < w ==> ({
                let c = #[trigger] g1[y][x];
                (if c == VACANT {
                    VACANT
                } else {
                    ids[c as int]
                }) == g0[y][x]
            }),
{
}

/// Finds the position of `target` in a strictly sorted id list.
fn find_index(ids: &Vec<usize>, target: usize) -> (r: usize)
    requires
        forall|a: int, b: int|
            0 <= a < b < ids@.len() ==> (#[trigger] ids@[a]) < (#[trigger] ids@[b]),
        exists|i: int| 0 <= i < ids@.len() && ids@[i] == target,
    ensures
        (r as int) < ids@.len(),
        ids@[r as int] == target,
{
    let mut lo: usize = 0;
    let mut hi: usize = ids.len();
    while lo < hi
        invariant
            lo <= hi <= ids@.len(),
            forall|a: int, b: int|
                0 <= a < b < ids@.len() ==> (#[trigger] ids@[a]) < (#[trigger] ids@[b]),
            exists|i: int| (lo as int) <= i && i < hi as int && (#[trigger] ids@[i]) == target,
        decreases hi - lo,
    {
        let mid: usize = lo + (hi - lo) / 2;
        let v: usize = ids[mid];
        if v == target {
            return mid;
        } else if v < target {
            proof {
                let i = choose|i: int| (lo as int) <= i && i < hi as int && (#[trigger] ids@[i]) == target;
                if i <= mid as int {
                    if i < mid as int {
                        assert(ids@[i] < ids@[mid as int]);
                    }
                    assert(false);
                }
            }
            lo = mid + 1;
        } else {
            proof {
                let i = choose|i: int| (lo as int) <= i && i < hi as int && (#[trigger] ids@[i]) == target;
                if i >= mid as int {
                    if i > mid as int {
                        assert(ids@[mid as int] < ids@[i]);
                    }
                    assert(false);
                }
            }
            hi = mid;
        }
    }
    proof {
        assert(false);
    }
    0
}

/// Remaps the (already sorted, unique) student ids to the dense range
/// `0 .. n`, rewriting the student list and every occupied cell of the
/// layout; the cell written is the position of the original id in the sorted
/// id list, so the caller can re-expand with that list.
pub fn compress_student_id(students: &mut Vec<Student>, idx_layout: &mut SeatAssignment)
    requires
        forall|a: int, b: int|
            0 <= a < b < old(students)@.len() ==> (#[trigger] old(students)@[a]).id < (
            #[trigger] old(students)@[b]).id,
        forall|i: int| 0 <= i < old(students)@.len() ==> (#[trigger] old(students)@[i]).id < VACANT,
        forall|y: int, x: int|
            0 <= y < old(idx_layout)@.len() && 0 <= x < old(idx_layout)@[y]@.len() && (
            #[trigger] old(idx_layout)@[y]@[x]) != VACANT ==> exists|i: int|
                0 <= i < old(students)@.len() && (#[trigger] old(students)@[i]).id == old(
                    idx_layout,
                )@[y]@[x],
    ensures
        final(students)@.len() == old(students)@.len(),
        forall|i: int|
            0 <= i < old(students)@.len() ==> (#[trigger] final(students)@[i]) == (Student {
                id: i as usize,
                ..old(students)@[i]
            }),
        final(idx_layout)@.len() == old(idx_layout)@.len(),
        forall|y: int|
            0 <= y < old(idx_layout)@.len() ==> (#[trigger] final(idx_layout)@[y])@.len() == old(
                idx_layout,
            )@[y]@.len(),
        forall|y: int, x: int|
            0 <= y < old(idx_layout)@.len() && 0 <= x < old(idx_layout)@[y]@.len() && (
            #[trigger] old(idx_layout)@[y]@[x]) == VACANT ==> final(idx_layout)@[y]@[x] == VACANT,
        forall|y: int, x: int|
            0 <= y < old(idx_layout)@.len() && 0 <= x < old(idx_layout)@[y]@.len() && (
            #[trigger] old(idx_layout)@[y]@[x]) != VACANT ==> (final(idx_layout)@[y]@[x] as int)
                < old(students)@.len() && old(students)@[final(idx_layout)@[y]@[x] as int].id
                == old(idx_layout)@[y]@[x],
{
    let ghost old_students = students@;
    let n: usize = students.len();
    // Retain the original ids, in their sorted order.
    let mut ids: Vec<usize> = Vec::new();
    let mut i: usize = 0;
    while i < n
        invariant
            i <= n,
            n == students@.len(),
            students@ == old_students,
            ids@.len() == i,
            forall|t: int| 0 <= t < i ==> (#[trigger] ids@[t]) == old_students[t].id,
        decreases n - i,
    {
        ids.push(students[i].id);
        i = i + 1;
    }
    // Rewrite the student list with dense ids.
    let mut out: Vec<Student> = Vec::new();
    let mut i2: usize = 0;
    while i2 < n
        invariant
            i2 <= n,
            n == students@.len(),
            students@ == old_students,
            out@.len() == i2,
            forall|t: int|
                0 <= t < i2 ==> (#[trigger] out@[t]) == (Student {
                    id: t as usize,
                    ..old_students[t]
                }),
        decreases n - i2,
    {
        let s = &students[i2];
        let mut c = copy_student(s);
        c.id = i2;
        out.push(c);
        i2 = i2 + 1;
    }
    *students = out;
    // Rewrite every occupied cell with the position of its id.
    let d: usize = idx_layout.len();
    let ghost old_layout = idx_layout@;
    let mut y: usize = 0;
    while y < d
        invariant
            y <= d,
            d == idx_layout@.len(),
            idx_layout@.len() == old_layout.len(),
            n == old_students.len(),
            ids@.len() == n,
            forall|t: int| 0 <= t < n ==> (#[trigger] ids@[t]) == old_students[t].id,
            forall|a: int, b: int|
                0 <= a < b < old_students.len() ==> (#[trigger] old_students[a]).id < (
                #[trigger] old_students[b]).id,
            forall|yy: int|
                0 <= yy < old_layout.len() ==> (#[trigger] idx_layout@[yy])@.len()
                    == old_layout[yy]@.len(),
            forall|yy: int, xx: int|
                0 <= yy < old_layout.len() && 0 <= xx < old_layout[yy]@.len() && (
                #[trigger] old_layout[yy]@[xx]) != VACANT ==> exists|t: int|
                    0 <= t < old_students.len() && (#[trigger] old_students[t]).id
                        == old_layout[yy]@[xx],
            forall|yy: int, xx: int|
                (y as int) <= yy && yy < old_layout.len() && 0 <= xx < old_layout[yy]@.len() ==> (
                #[trigger] idx_layout@[yy]@[xx]) == old_layout[yy]@[xx],
            forall|yy: int, xx: int|
                0 <= yy < y as int && 0 <= xx < old_layout[yy]@.len() && (
                #[trigger] old_layout[yy]@[xx]) == VACANT ==> idx_layout@[yy]@[xx] == VACANT,
            forall|yy: int, xx: int|
                0 <= yy < y as int && 0 <= xx < old_layout[yy]@.len() && (
                #[trigger] old_layout[yy]@[xx]) != VACANT ==> (idx_layout@[yy]@[xx] as int) < n
                    && old_students[idx_layout@[yy]@[xx] as int].id == old_layout[yy]@[xx],
        decreases d - y,
    {
        let wrow: usize = idx_layout[y].len();
        let mut x: usize = 0;
        while x < wrow
            invariant
                x <= wrow,
                y < d,
                d == idx_layout@.len(),
                idx_layout@.len() == old_layout.len(),
                wrow == old_layout[y as int]@.len(),
                n == old_students.len(),
                ids@.len() == n,
                forall|t: int| 0 <= t < n ==> (#[trigger] ids@[t]) == old_students[t].id,
                forall|a: int, b: int|
                    0 <= a < b < old_students.len() ==> (#[trigger] old_students[a]).id < (
                    #[trigger] old_students[b]).id,
                forall|yy: int|
                    0 <= yy < old_layout.len() ==> (#[trigger] idx_layout@[yy])@.len()
                        == old_layout[yy]@.len(),
                forall|yy: int, xx: int|
                    0 <= yy < old_layout.len() && 0 <= xx < old_layout[yy]@.len() && (
                    #[trigger] old_layout[yy]@[xx]) != VACANT ==> exists|t: int|
                        0 <= t < old_students.len() && (#[trigger] old_students[t]).id
                            == old_layout[yy]@[xx],
                forall|yy: int, xx: int|
                    (y as int) < yy && yy < old_layout.len() && 0 <= xx < old_layout[yy]@.len() ==> (
                    #[trigger] idx_layout@[yy]@[xx]) == old_layout[yy]@[xx],
                forall|xx: int|
                    (x as int) <= xx && xx < old_layout[y as int]@.len() ==> (
                    #[trigger] idx_layout@[y as int]@[xx]) == old_layout[y as int]@[xx],
                forall|yy: int, xx: int|
                    0 <= yy < y as int && 0 <= xx < old_layout[yy]@.len() && (
                    #[trigger] old_layout[yy]@[xx]) == VACANT ==> idx_layout@[yy]@[xx] == VACANT,
                forall|xx: int|
                    0 <= xx < x as int && (#[trigger] old_layout[y as int]@[xx]) == VACANT
                        ==> idx_layout@[y as int]@[xx] == VACANT,
                forall|yy: int, xx: int|
                    0 <= yy < y as int && 0 <= xx < old_layout[yy]@.len() && (
                    #[trigger] old_layout[yy]@[xx]) != VACANT ==> (idx_layout@[yy]@[xx] as int) < n
                        && old_students[idx_layout@[yy]@[xx] as int].id == old_layout[yy]@[xx],
                forall|xx: int|
                    0 <= xx < x as int && (#[trigger] old_layout[y as int]@[xx]) != VACANT ==> (
                    idx_layout@[y as int]@[xx] as int) < n && old_students[idx_layout@[y as int]@[xx] as int].id
                        == old_layout[y as int]@[xx],
            decreases wrow - x,
        {
            let v: usize = idx_layout[y][x];
            if v != usize::MAX {
                proof {
                    assert forall|a: int, b: int| 0 <= a < b < ids@.len() implies (
                    #[trigger] ids@[a]) < (#[trigger] ids@[b]) by {
                        assert(ids@[a] == old_students[a].id);
                        assert(ids@[b] == old_students[b].id);
                    }
                    assert(v == old_layout[y as int]@[x as int]);
                    let t = choose|t: int|
                        0 <= t < old_students.len() && (#[trigger] old_students[t]).id
                            == old_layout[y as int]@[x as int];
                    assert(ids@[t] == v);
                }
                let idx = find_index(&ids, v);
                idx_layout[y][x] = idx;
            }
            x = x + 1;
        }
        y = y + 1;
    }
}

} // verus!
