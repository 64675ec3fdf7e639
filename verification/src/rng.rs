use vstd::prelude::*;

use rand::Rng;
use rand::SeedableRng;
use rand_chacha::ChaCha20Rng;

use crate::structs::{Gender, SeatAssignment, Student};

verus! {

#[verifier::external_type_specification]
#[verifier::external_body]
pub struct ExChaCha20Rng(ChaCha20Rng);

/// The value that rand's `gen_range(0..bound)` yields from a ChaCha20 stream
/// that was seeded with `seed` and has already served the draws whose bounds
/// `history` records. ChaCha20 is a deterministic cipher and rand's uniform
/// sampling consumes its output deterministically, so the result is a
/// function of these three arguments alone.
pub uninterp spec fn chacha_draw(seed: u64, history: Seq<u64>, bound: u64) -> u64;

/// A deterministic pseudorandom stream: a ChaCha20 generator, seeded once and
/// consumed through bounded draws. The ghost fields record the seed and the
/// bound of every draw made so far, which together determine every result.
pub struct SeededRng {
    inner: ChaCha20Rng,
    gseed: Ghost<u64>,
    ghistory: Ghost<Seq<u64>>,
}

/// Relies on `rand_core::SeedableRng::seed_from_u64`, which expands the seed
/// into a ChaCha20 state by a fixed, documented algorithm; `chacha_draw`
/// names what draws from that state return.
#[verifier::external_body]
fn make_chacha(seed: u64) -> (r: ChaCha20Rng) {
    ChaCha20Rng::seed_from_u64(seed)
}

impl SeededRng {
    /// The seed this stream was created with.
    pub closed spec fn seed(self) -> u64 {
        self.gseed@
    }

    /// The bounds of the draws served so far, oldest first.
    pub closed spec fn history(self) -> Seq<u64> {
        self.ghistory@
    }

    /// A fresh stream for the given seed, with no draws made yet.
    pub fn new(seed: u64) -> (r: SeededRng)
        ensures
            r.seed() == seed,
            r.history() == Seq::<u64>::empty(),
    {
        SeededRng { inner: make_chacha(seed), gseed: Ghost(seed), ghistory: Ghost(Seq::empty()) }
    }

    /// Relies on `rand::Rng::gen_range`, which returns a value of the given
    /// range — it panics only on an empty range, which the precondition
    /// excludes — chosen by a deterministic function of the generator state.
    #[verifier::external_body]
    pub fn draw(&mut self, bound: u64) -> (r: u64)
        requires
            1 <= bound,
        ensures
            r < bound,
            r == chacha_draw(old(self).seed(), old(self).history(), bound),
            final(self).seed() == old(self).seed(),
            final(self).history() == old(self).history().push(bound),
    {
        self.inner.gen_range(0..bound)
    }
}

// ------------------------------------------------------------------
// Content-derived seeding: a canonical integer encoding of the input,
// hashed with FNV-1a. Fully deterministic and computed in verified code.
// ------------------------------------------------------------------

pub const FNV_OFFSET: u64 = 0xcbf29ce484222325;
pub const FNV_PRIME: u64 = 0x100000001b3;

/// One FNV-1a round.
pub open spec fn fnv_step(h: u64, v: u64) -> u64 {
    vstd::wrapping::u64_specs::wrapping_mul(h ^ v, FNV_PRIME)
}

/// FNV-1a folded over a word sequence, front to back.
pub open spec fn fnv_fold(h: u64, items: Seq<u64>) -> u64
    decreases items.len(),
{
    if items.len() == 0 {
        h
    } else {
        fnv_fold(fnv_step(h, items[0]), items.drop_first())
    }
}

/// Folding over a concatenation folds over the parts in order.
pub proof fn lemma_fnv_fold_concat(h: u64, a: Seq<u64>, b: Seq<u64>)
    ensures
        fnv_fold(h, a + b) == fnv_fold(fnv_fold(h, a), b),
    decreases a.len(),
{
    if a.len() == 0 {
        assert(a + b =~= b);
    } else {
        assert((a + b).drop_first() =~= a.drop_first() + b);
        assert((a + b)[0] == a[0]);
        lemma_fnv_fold_concat(fnv_step(h, a[0]), a.drop_first(), b);
    }
}

/// Folding over one appended word is one more round.
pub proof fn lemma_fnv_fold_snoc(h: u64, s: Seq<u64>, v: u64)
    ensures
        fnv_fold(h, s.push(v)) == fnv_step(fnv_fold(h, s), v),
{
    lemma_fnv_fold_concat(h, s, seq![v]);
    assert(s + seq![v] =~= s.push(v));
    let h2 = fnv_fold(h, s);
    assert(fnv_fold(h2, seq![v]) == fnv_fold(fnv_step(h2, v), seq![v].drop_first()));
    assert(seq![v].drop_first() =~= Seq::<u64>::empty());
    assert(fnv_fold(fnv_step(h2, v), Seq::<u64>::empty()) == fnv_step(h2, v));
}

/// The canonical words of one student record: every field the scoring engine
/// can observe. The display name is opaque to the engine and stays out.
pub open spec fn student_words(s: Student) -> Seq<u64> {
    seq![
        s.id as u64,
        s.academic_ability as u64,
        s.exercise_ability as u64,
        s.leadership_ability as u64,
        if s.needs_assistance {
            1u64
        } else {
            0u64
        },
        if s.gender == Gender::Male {
            1u64
        } else {
            0u64
        },
    ]
}

/// The canonical words of the first `i` students.
pub open spec fn students_words(ss: Seq<Student>, i: int) -> Seq<u64>
    decreases i,
{
    if i <= 0 {
        Seq::empty()
    } else {
        students_words(ss, i - 1) + student_words(ss[i - 1])
    }
}

/// The canonical words of the first `k` grid cells, row-major.
pub open spec fn grid_words(g: Seq<Seq<usize>>, w: int, k: int) -> Seq<u64>
    decreases k,
{
    if k <= 0 {
        Seq::empty()
    } else {
        grid_words(g, w, k - 1).push(g[(k - 1) / w][(k - 1) % w] as u64)
    }
}

/// The content-derived seed: dimensions, then every cell, then every student
/// record, hashed with FNV-1a. Identical inputs give identical seeds.
pub open spec fn spec_content_seed(students: Seq<Student>, g: Seq<Seq<usize>>, d: int, w: int) -> u64 {
    fnv_fold(
        FNV_OFFSET,
        seq![d as u64, w as u64] + grid_words(g, w, d * w) + students_words(
            students,
            students.len() as int,
        ),
    )
}

/// One FNV-1a round, executably.
fn fnv_push(h: u64, v: u64) -> (r: u64)
    ensures
        r == fnv_step(h, v),
{
    (h ^ v).wrapping_mul(FNV_PRIME)
}

/// Hashes the scoring-relevant content of a solve input into a seed.
pub fn content_seed(students: &Vec<Student>, layout: &SeatAssignment) -> (r: u64)
    requires
        crate::grid::is_rect(
            layout.deep_view(),
            layout@.len() as int,
            layout@[0int]@.len() as int,
        ),
        layout@.len() >= 1,
        layout@[0int]@.len() >= 1,
    ensures
        r == spec_content_seed(
            students@,
            layout.deep_view(),
            layout@.len() as int,
            layout@[0int]@.len() as int,
        ),
{
    proof {
        crate::utils::lemma_grid_view(*layout);
    }
    let ghost gv = layout.deep_view();
    let d: usize = layout.len();
    let w: usize = layout[0].len();
    let mut h: u64 = FNV_OFFSET;
    h = fnv_push(h, d as u64);
    h = fnv_push(h, w as u64);
    let ghost pre: Seq<u64> = seq![d as u64, w as u64];
    proof {
        assert(Seq::<u64>::empty().push(d as u64) =~= seq![d as u64]);
        assert(seq![d as u64].push(w as u64) =~= pre);
        lemma_fnv_fold_snoc(FNV_OFFSET, Seq::<u64>::empty(), d as u64);
        lemma_fnv_fold_snoc(FNV_OFFSET, seq![d as u64], w as u64);
        assert(h == fnv_fold(FNV_OFFSET, pre));
    }
    // Fold in every cell, row-major.
    let mut y: usize = 0;
    while y < d
        invariant
            y <= d,
            d as int == layout@.len(),
            w as int == layout@[0int]@.len(),
            gv == layout.deep_view(),
            pre == seq![d as u64, w as u64],
            crate::grid::is_rect(gv, d as int, w as int),
            1 <= w,
            h == fnv_fold(FNV_OFFSET, pre + grid_words(gv, w as int, (y as int) * (w as int))),
        decreases d - y,
    {
        let row = &layout[y];
        proof {
            crate::utils::lemma_grid_view(*layout);
            assert(row@ == gv[y as int]);
            assert(gv[y as int].len() == w as int);
        }
        let mut x: usize = 0;
        while x < w
            invariant
                x <= w,
                y < d,
                d as int == layout@.len(),
                w as int == layout@[0int]@.len(),
                gv == layout.deep_view(),
                pre == seq![d as u64, w as u64],
                crate::grid::is_rect(gv, d as int, w as int),
                1 <= w,
                row@ == gv[y as int],
                row@.len() == w,
                h == fnv_fold(
                    FNV_OFFSET,
                    pre + grid_words(gv, w as int, (y as int) * (w as int) + x as int),
                ),
            decreases w - x,
        {
            let ghost k: int = (y as int) * (w as int) + x as int + 1;
            proof {
                crate::grid::lemma_cell_to_flat(w as int, d as int, y as int, x as int);
                assert((k - 1) / (w as int) == y as int && (k - 1) % (w as int) == x as int) by {
                    vstd::arithmetic::div_mod::lemma_fundamental_div_mod_converse(
                        k - 1,
                        w as int,
                        y as int,
                        x as int,
                    );
                }
                assert(grid_words(gv, w as int, k) == grid_words(gv, w as int, k - 1).push(
                    gv[y as int][x as int] as u64,
                ));
                assert(pre + grid_words(gv, w as int, k) =~= (pre + grid_words(
                    gv,
                    w as int,
                    k - 1,
                )).push(gv[y as int][x as int] as u64));
                lemma_fnv_fold_snoc(
                    FNV_OFFSET,
                    pre + grid_words(gv, w as int, k - 1),
                    gv[y as int][x as int] as u64,
                );
            }
            h = fnv_push(h, row[x] as u64);
            x = x + 1;
        }
        y = y + 1;
        proof {
            assert((y as int) * (w as int) == (y as int - 1) * (w as int) + (w as int))
                by (nonlinear_arith);
        }
    }
    let ghost gw: Seq<u64> = grid_words(gv, w as int, (d as int) * (w as int));
    proof {
        assert((y as int) * (w as int) == (d as int) * (w as int));
    }
    // Fold in every student record.
    let n: usize = students.len();
    let mut i: usize = 0;
    proof {
        assert(pre + gw + students_words(students@, 0) =~= pre + gw);
    }
    while i < n
        invariant
            i <= n,
            n == students@.len(),
            pre == seq![d as u64, w as u64],
            gw == grid_words(gv, w as int, (d as int) * (w as int)),
            h == fnv_fold(FNV_OFFSET, pre + gw + students_words(students@, i as int)),
        decreases n - i,
    {
        let s = &students[i];
        let ghost base: Seq<u64> = pre + gw + students_words(students@, i as int);
        let ghost sw: Seq<u64> = student_words(students@[i as int]);
        h = fnv_push(h, s.id as u64);
        h = fnv_push(h, s.academic_ability as u64);
        h = fnv_push(h, s.exercise_ability as u64);
        h = fnv_push(h, s.leadership_ability as u64);
        h = fnv_push(
            h,
            if s.needs_assistance {
                1u64
            } else {
                0u64
            },
        );
        h = fnv_push(
            h,
            if s.gender == Gender::Male {
                1u64
            } else {
                0u64
            },
        );
        proof {
            lemma_fnv_fold_snoc(FNV_OFFSET, base, sw[0]);
            lemma_fnv_fold_snoc(FNV_OFFSET, base.push(sw[0]), sw[1]);
            lemma_fnv_fold_snoc(FNV_OFFSET, base.push(sw[0]).push(sw[1]), sw[2]);
            lemma_fnv_fold_snoc(FNV_OFFSET, base.push(sw[0]).push(sw[1]).push(sw[2]), sw[3]);
            lemma_fnv_fold_snoc(
                FNV_OFFSET,
                base.push(sw[0]).push(sw[1]).push(sw[2]).push(sw[3]),
                sw[4],
            );
            lemma_fnv_fold_snoc(
                FNV_OFFSET,
                base.push(sw[0]).push(sw[1]).push(sw[2]).push(sw[3]).push(sw[4]),
                sw[5],
            );
            assert(base.push(sw[0]).push(sw[1]).push(sw[2]).push(sw[3]).push(sw[4]).push(sw[5])
                =~= pre + gw + students_words(students@, i as int + 1));
        }
        i = i + 1;
    }
    h
}

} // verus!
