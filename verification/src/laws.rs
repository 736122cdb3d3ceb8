//! Laws of the move generator: what a single legal slide does to the
//! rendering, stated and proved over the spec-level model.

use vstd::prelude::*;
use crate::board::{
    Car, car_ok, car_len, car_base, car_step, cars_ok, occ, covered, render, slid_car, probe,
    slide_legal, lemma_render_char, lemma_slide_wf, lemma_occ_in_range,
};

verus! {

/// How many of the first `n` cells are occupied.
pub open spec fn count_occupied_upto(g: Seq<u8>, n: int) -> int
    decreases n,
{
    if n <= 0 {
        0
    } else {
        count_occupied_upto(g, n - 1) + if g[n - 1] != 46 {
            1int
        } else {
            0
        }
    }
}

/// How many cells of the grid are occupied.
pub open spec fn occupied_count(g: Seq<u8>) -> int {
    count_occupied_upto(g, 36)
}

/// How many cells of the car lie below index `n`.
spec fn occ_below(c: Car, n: int) -> int {
    (if car_base(c) < n {
        1int
    } else {
        0
    }) + (if car_base(c) + car_step(c) < n {
        1int
    } else {
        0
    }) + (if c.truck && car_base(c) + 2 * car_step(c) < n {
        1int
    } else {
        0
    })
}

/// The total number of cells the cars of a list occupy.
pub open spec fn total_len(cs: Seq<Car>) -> int
    decreases cs.len(),
{
    if cs.len() == 0 {
        0
    } else {
        total_len(cs.drop_last()) + car_len(cs.last())
    }
}

/// Painting a car over cells that were empty adds exactly its length to the
/// occupied count.
proof fn lemma_count_paint_upto(g: Seq<u8>, g2: Seq<u8>, c: Car, n: int)
    requires
        g.len() == 36,
        g2.len() == 36,
        car_ok(c),
        forall|k: int| #[trigger] occ(c, k) ==> g[k] == 46,
        forall|k: int|
            0 <= k < 36 ==> (#[trigger] g2[k]) == (if occ(c, k) {
                c.colour
            } else {
                g[k]
            }),
        n <= 36,
    ensures
        count_occupied_upto(g2, n) == count_occupied_upto(g, n) + occ_below(c, n),
    decreases n,
{
    if n <= 0 {
    } else {
        lemma_count_paint_upto(g, g2, c, n - 1);
        if occ(c, n - 1) {
            assert(g[n - 1] == 46);
            assert(g2[n - 1] == c.colour);
        }
    }
}

/// The rendering of a well-formed vehicle list occupies exactly as many
/// cells as its cars have in total: no overlap, nothing painted elsewhere.
pub proof fn lemma_render_count(cs: Seq<Car>)
    requires
        cars_ok(cs),
    ensures
        occupied_count(render(cs)) == total_len(cs),
    decreases cs.len(),
{
    if cs.len() == 0 {
        assert forall|n: int| 0 <= n <= 36 implies count_occupied_upto(render(cs), n) == 0 by {
            lemma_count_zero(render(cs), n);
        }
    } else {
        let cs0 = cs.drop_last();
        let c = cs.last();
        assert(cars_ok(cs0)) by {
            assert(forall|i: int| 0 <= i < cs0.len() ==> cs0[i] == cs[i]);
        }
        lemma_render_count(cs0);
        lemma_render_char(cs0);
        assert forall|k: int| #[trigger] occ(c, k) implies render(cs0)[k] == 46 by {
            lemma_occ_in_range(c, k);
            assert(!covered(cs0, k)) by {
                if covered(cs0, k) {
                    let i = choose|i: int| 0 <= i < cs0.len() && occ(#[trigger] cs0[i], k);
                    assert(cs[i] == cs0[i]);
                    assert(occ(cs[i], k) && occ(cs[cs.len() - 1], k) && i != cs.len() - 1);
                }
            }
        }
        lemma_count_paint_upto(render(cs0), render(cs), c, 36);
        assert(occ_below(c, 36) == car_len(c)) by {
            assert(occ(c, car_base(c)));
            assert(occ(c, car_base(c) + car_step(c)));
            lemma_occ_in_range(c, car_base(c));
            lemma_occ_in_range(c, car_base(c) + car_step(c));
            if c.truck {
                assert(occ(c, car_base(c) + 2 * car_step(c)));
                lemma_occ_in_range(c, car_base(c) + 2 * car_step(c));
            }
        }
    }
}

/// An empty grid has no occupied cells below any index.
proof fn lemma_count_zero(g: Seq<u8>, n: int)
    requires
        forall|k: int| 0 <= k < g.len() ==> (#[trigger] g[k]) == 46,
        n <= g.len(),
    ensures
        count_occupied_upto(g, n) == 0,
    decreases n,
{
    if n > 0 {
        lemma_count_zero(g, n - 1);
    }
}

/// Replacing a car by one of the same length keeps the total cell count.
proof fn lemma_total_len_update(cs: Seq<Car>, i: int, c: Car)
    requires
        0 <= i < cs.len(),
        car_len(c) == car_len(cs[i]),
    ensures
        total_len(cs.update(i, c)) == total_len(cs),
    decreases cs.len(),
{
    let cs2 = cs.update(i, c);
    if i == cs.len() - 1 {
        assert(cs2.drop_last() =~= cs.drop_last());
        assert(cs2.last() == c);
    } else {
        assert(cs2.drop_last() =~= cs.drop_last().update(i, c));
        assert(cs2.last() == cs.last());
        lemma_total_len_update(cs.drop_last(), i, c);
    }
}

/// Move legality: a generated move changes the rendering in exactly the
/// cells the moved vehicle vacates and newly occupies — vacated cells become
/// empty, newly occupied ones take the vehicle's label, every other cell is
/// untouched — and the total number of occupied cells does not change.
pub proof fn lemma_move_legality(cs: Seq<Car>, i: int, delta: int)
    requires
        cars_ok(cs),
        0 <= i < cs.len(),
        slide_legal(render(cs), cs[i], delta),
    ensures
        ({
            let c = cs[i];
            let c2 = slid_car(cs[i], delta);
            let g = render(cs);
            let g2 = render(cs.update(i, c2));
            &&& forall|k: int|
                0 <= k < 36 && occ(c, k) && !occ(c2, k) ==> g[k] == c.colour && g2[k] == 46
            &&& forall|k: int|
                0 <= k < 36 && occ(c2, k) && !occ(c, k) ==> g[k] == 46 && g2[k] == c.colour
            &&& forall|k: int| 0 <= k < 36 && !occ(c, k) && !occ(c2, k) ==> g2[k] == g[k]
            &&& forall|k: int| 0 <= k < 36 && occ(c, k) && occ(c2, k) ==> g2[k] == g[k]
            &&& occupied_count(g2) == occupied_count(g)
        }),
{
    let c = cs[i];
    let c2 = slid_car(cs[i], delta);
    let cs2 = cs.update(i, c2);
    let g = render(cs);
    let g2 = render(cs2);
    lemma_slide_wf(cs, i, delta);
    lemma_render_char(cs);
    lemma_render_char(cs2);
    assert(c2.colour == c.colour);
    assert forall|k: int| 0 <= k < 36 && occ(c, k) && !occ(c2, k) implies g[k] == c.colour && g2[k]
        == 46 by {
        assert(g[k] == c.colour);
        assert(!covered(cs2, k)) by {
            if covered(cs2, k) {
                let j = choose|j: int| 0 <= j < cs2.len() && occ(#[trigger] cs2[j], k);
                assert(j != i);
                assert(cs2[j] == cs[j]);
                assert(occ(cs[j], k) && occ(cs[i], k));
            }
        }
    }
    assert forall|k: int| 0 <= k < 36 && occ(c2, k) && !occ(c, k) implies g[k] == 46 && g2[k]
        == c.colour by {
        assert(cs2[i] == c2 && occ(cs2[i], k));
        assert(g2[k] == c2.colour);
        crate::board::lemma_slid_cells(c, delta, k);
        let t = choose|t: int|
            1 <= t <= vstd::math::abs(delta) && k == #[trigger] probe(c, delta, t);
        assert(g[probe(c, delta, t)] == 46);
    }
    assert forall|k: int| 0 <= k < 36 && !occ(c, k) && !occ(c2, k) implies g2[k] == g[k] by {
        if covered(cs, k) {
            let j = choose|j: int| 0 <= j < cs.len() && occ(#[trigger] cs[j], k);
            assert(j != i);
            assert(cs2[j] == cs[j]);
            assert(g[k] == cs[j].colour);
            assert(g2[k] == cs2[j].colour);
        } else {
            assert(!covered(cs2, k)) by {
                if covered(cs2, k) {
                    let j = choose|j: int| 0 <= j < cs2.len() && occ(#[trigger] cs2[j], k);
                    assert(j != i);
                    assert(cs2[j] == cs[j]);
                }
            }
        }
    }
    assert forall|k: int| 0 <= k < 36 && occ(c, k) && occ(c2, k) implies g2[k] == g[k] by {
        assert(g[k] == c.colour);
        assert(cs2[i] == c2 && occ(cs2[i], k));
        assert(g2[k] == c2.colour);
    }
    lemma_render_count(cs);
    lemma_render_count(cs2);
    lemma_total_len_update(cs, i, c2);
}

/// No phasing: every cell a generated move sweeps over — each cell between
/// the vehicle's old position and its new one, along its axis — was empty in
/// the pre-move rendering. A vehicle never ends up beyond an obstruction
/// that existed along its path.
pub proof fn lemma_no_phasing(cs: Seq<Car>, i: int, delta: int, t: int)
    requires
        cars_ok(cs),
        0 <= i < cs.len(),
        slide_legal(render(cs), cs[i], delta),
        1 <= t <= vstd::math::abs(delta),
    ensures
        render(cs)[probe(cs[i], delta, t)] == 46,
{
}

} // verus!
