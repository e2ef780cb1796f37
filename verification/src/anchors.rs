use vstd::prelude::*;

use vstd::arithmetic::div_mod::{lemma_fundamental_div_mod, lemma_fundamental_div_mod_converse,
    lemma_mod_bound};

use crate::component::{Anchor, Component};

verus! {

/// The coordinate of the `i`-th of `count` components of size `cmp` spread
/// along an axis of `span` cells: the leftover space is divided evenly
/// between the gaps.
pub open spec fn spaced(span: int, cmp: int, count: int, i: int) -> int {
    let diff = (span - cmp * count) / (count - 1);
    (diff + cmp) * i
}

/// The x coordinate of anchor column `i`: its spaced position, except that
/// the last column is snapped to the far edge when it does not already touch
/// it. The snap compares against the other axis's span and component side,
/// so it is meaningful for square layouts, which is how the preset tables
/// call it.
pub open spec fn anchor_x_at(
    grid_w: int,
    grid_h: int,
    comp_w: int,
    comp_h: int,
    count_h: int,
    i: int,
) -> int {
    let base = spaced(grid_w, comp_w, count_h, i);
    if i == count_h - 1 && base + comp_h != grid_h {
        grid_h - comp_h
    } else {
        base
    }
}

/// The y coordinate of anchor row `i`, with the same snapping rule.
pub open spec fn anchor_y_at(
    grid_w: int,
    grid_h: int,
    comp_w: int,
    comp_h: int,
    count_v: int,
    i: int,
) -> int {
    let base = spaced(grid_h, comp_h, count_v, i);
    if i == count_v - 1 && base + comp_w != grid_w {
        grid_w - comp_w
    } else {
        base
    }
}

proof fn lemma_spaced_bounds(span: int, cmp: int, count: int, i: int)
    requires
        count >= 2,
        cmp >= 0,
        cmp * count + (count - 1) <= span,
        0 <= i <= count - 1,
    ensures
        0 <= spaced(span, cmp, count, i) <= span - cmp,
        0 <= (span - cmp * count) / (count - 1) <= span,
{
    let a = span - cmp * count;
    let d = count - 1;
    lemma_fundamental_div_mod(a, d);
    lemma_mod_bound(a, d);
    let diff = a / d;
    assert(d * diff <= a);
    assert(diff >= 0) by (nonlinear_arith)
        requires
            d >= 1,
            d * diff >= 0,
    ;
    assert(d * diff >= 0) by {
        assert(a % d <= d - 1);
        assert(a >= d);
    }
    assert((diff + cmp) * i >= 0) by (nonlinear_arith)
        requires
            diff >= 0,
            cmp >= 0,
            i >= 0,
    ;
    assert((diff + cmp) * i <= (diff + cmp) * d) by (nonlinear_arith)
        requires
            0 <= i <= d,
            diff + cmp >= 0,
    ;
    assert((diff + cmp) * d == d * diff + cmp * d) by (nonlinear_arith);
    assert(cmp * d == cmp * count - cmp) by (nonlinear_arith)
        requires
            d == count - 1,
    ;
    assert(d * diff <= a ==> diff <= a) by (nonlinear_arith)
        requires
            d >= 1,
            diff >= 0,
    ;
}

/// Compute an evenly spaced anchor layout: `counts.0` rows by `counts.1`
/// columns of `comp`-sized components over a `grid.0` by `grid.1` grid, in
/// row-major order. The preconditions are exactly the fit condition that the
/// layout needs along each axis.
pub fn generate_anchors(grid: (u8, u8), comp: (u8, u8), counts: (u8, u8)) -> (r: Vec<Anchor>)
    requires
        counts.0 >= 2,
        counts.1 >= 2,
        comp.0 as int * counts.1 as int + (counts.1 as int - 1) <= grid.0 as int,
        comp.1 as int * counts.0 as int + (counts.0 as int - 1) <= grid.1 as int,
        comp.1 <= grid.1,
        comp.0 <= grid.0,
    ensures
        r@.len() == counts.0 as int * counts.1 as int,
        forall|k: int|
            0 <= k < r@.len() ==> #[trigger] r@[k] == (Anchor {
                x: anchor_x_at(
                    grid.0 as int,
                    grid.1 as int,
                    comp.0 as int,
                    comp.1 as int,
                    counts.1 as int,
                    k % (counts.1 as int),
                ) as u8,
                y: anchor_y_at(
                    grid.0 as int,
                    grid.1 as int,
                    comp.0 as int,
                    comp.1 as int,
                    counts.0 as int,
                    k / (counts.1 as int),
                ) as u8,
                component: Component { width: comp.0, height: comp.1 },
            }),
{
    let grid_w = grid.0;
    let grid_h = grid.1;
    let comp_w = comp.0;
    let comp_h = comp.1;
    let count_v = counts.0;
    let count_h = counts.1;

    let hdiff: usize = (grid_w as usize - comp_w as usize * count_h as usize) / (count_h as usize
        - 1);
    let vdiff: usize = (grid_h as usize - comp_h as usize * count_v as usize) / (count_v as usize
        - 1);

    let ghost gw = grid_w as int;
    let ghost gh = grid_h as int;
    let ghost cw = comp_w as int;
    let ghost ch = comp_h as int;
    let ghost nv = count_v as int;
    let ghost nh = count_h as int;

    // Spaced positions along each axis.
    let mut xs: Vec<usize> = Vec::new();
    let mut i: usize = 0;
    while i < count_h as usize
        invariant
            grid_w == grid.0,
            grid_h == grid.1,
            comp_w == comp.0,
            comp_h == comp.1,
            count_v == counts.0,
            count_h == counts.1,
            gw == grid.0 as int,
            gh == grid.1 as int,
            cw == comp.0 as int,
            ch == comp.1 as int,
            nv == counts.0 as int,
            nh == counts.1 as int,
            i <= nh,
            xs@.len() == i,
            hdiff == (gw - cw * nh) / (nh - 1),
            nh >= 2,
            cw >= 0,
            cw * nh + (nh - 1) <= gw,
            gw <= 255,
            forall|j: int| 0 <= j < i ==> #[trigger] xs@[j] == spaced(gw, cw, nh, j),
            forall|j: int| 0 <= j < i ==> #[trigger] xs@[j] <= gw - cw,
        decreases nh - i,
    {
        proof {
            lemma_spaced_bounds(gw, cw, nh, i as int);
        }
        xs.push((hdiff + comp_w as usize) * i);
        i = i + 1;
    }
    let mut ys: Vec<usize> = Vec::new();
    let mut i: usize = 0;
    while i < count_v as usize
        invariant
            grid_w == grid.0,
            grid_h == grid.1,
            comp_w == comp.0,
            comp_h == comp.1,
            count_v == counts.0,
            count_h == counts.1,
            gw == grid.0 as int,
            gh == grid.1 as int,
            cw == comp.0 as int,
            ch == comp.1 as int,
            nv == counts.0 as int,
            nh == counts.1 as int,
            i <= nv,
            ys@.len() == i,
            vdiff == (gh - ch * nv) / (nv - 1),
            nv >= 2,
            ch >= 0,
            ch * nv + (nv - 1) <= gh,
            gh <= 255,
            forall|j: int| 0 <= j < i ==> #[trigger] ys@[j] == spaced(gh, ch, nv, j),
            forall|j: int| 0 <= j < i ==> #[trigger] ys@[j] <= gh - ch,
        decreases nv - i,
    {
        proof {
            lemma_spaced_bounds(gh, ch, nv, i as int);
        }
        ys.push((vdiff + comp_h as usize) * i);
        i = i + 1;
    }

    // Snap the last column and row to the far edge where needed.
    let xl = xs.len();
    let yl = ys.len();
    if xs[xl - 1] + (comp_h as usize) != grid_h as usize {
        xs[xl - 1] = grid_h as usize - comp_h as usize;
    }
    if ys[yl - 1] + (comp_w as usize) != grid_w as usize {
        ys[yl - 1] = grid_w as usize - comp_w as usize;
    }
    proof {
        assert forall|j: int| 0 <= j < nh implies #[trigger] xs@[j] == anchor_x_at(
            gw,
            gh,
            cw,
            ch,
            nh,
            j,
        ) && xs@[j] <= 255 by {}
        assert forall|j: int| 0 <= j < nv implies #[trigger] ys@[j] == anchor_y_at(
            gw,
            gh,
            cw,
            ch,
            nv,
            j,
        ) && ys@[j] <= 255 by {}
    }

    let mut res: Vec<Anchor> = Vec::new();
    let mut row: usize = 0;
    while row < count_v as usize
        invariant
            grid_w == grid.0,
            grid_h == grid.1,
            comp_w == comp.0,
            comp_h == comp.1,
            count_v == counts.0,
            count_h == counts.1,
            gw == grid.0 as int,
            gh == grid.1 as int,
            cw == comp.0 as int,
            ch == comp.1 as int,
            nv == counts.0 as int,
            nh == counts.1 as int,
            row <= nv,
            nh >= 2,
            nv >= 2,
            res@.len() == row * nh,
            xs@.len() == nh,
            ys@.len() == nv,
            forall|j: int|
                0 <= j < nh ==> #[trigger] xs@[j] == anchor_x_at(gw, gh, cw, ch, nh, j) && xs@[j]
                    <= 255,
            forall|j: int|
                0 <= j < nv ==> #[trigger] ys@[j] == anchor_y_at(gw, gh, cw, ch, nv, j) && ys@[j]
                    <= 255,
            forall|k: int|
                0 <= k < res@.len() ==> #[trigger] res@[k] == (Anchor {
                    x: anchor_x_at(gw, gh, cw, ch, nh, k % nh) as u8,
                    y: anchor_y_at(gw, gh, cw, ch, nv, k / nh) as u8,
                    component: Component { width: comp_w, height: comp_h },
                }),
        decreases nv - row,
    {
        let mut col: usize = 0;
        while col < count_h as usize
            invariant
                grid_w == grid.0,
                grid_h == grid.1,
                comp_w == comp.0,
                comp_h == comp.1,
                count_v == counts.0,
                count_h == counts.1,
                gw == grid.0 as int,
                gh == grid.1 as int,
                cw == comp.0 as int,
                ch == comp.1 as int,
                nv == counts.0 as int,
                nh == counts.1 as int,
                row < nv,
                col <= nh,
                nh >= 2,
                nv >= 2,
                res@.len() == row * nh + col,
                xs@.len() == nh,
                ys@.len() == nv,
                forall|j: int|
                    0 <= j < nh ==> #[trigger] xs@[j] == anchor_x_at(gw, gh, cw, ch, nh, j)
                        && xs@[j] <= 255,
                forall|j: int|
                    0 <= j < nv ==> #[trigger] ys@[j] == anchor_y_at(gw, gh, cw, ch, nv, j)
                        && ys@[j] <= 255,
                forall|k: int|
                    0 <= k < res@.len() ==> #[trigger] res@[k] == (Anchor {
                        x: anchor_x_at(gw, gh, cw, ch, nh, k % nh) as u8,
                        y: anchor_y_at(gw, gh, cw, ch, nv, k / nh) as u8,
                        component: Component { width: comp_w, height: comp_h },
                    }),
            decreases nh - col,
        {
            let a = Anchor::new(xs[col] as u8, ys[row] as u8, Component::new(comp_w, comp_h));
            res.push(a);
            proof {
                let k = res@.len() - 1;
                assert(k == row * nh + col);
                lemma_fundamental_div_mod_converse(k, nh, row as int, col as int);
                assert(res@[k] == a);
            }
            col = col + 1;
        }
        proof {
            assert((row + 1) * nh == row * nh + nh) by (nonlinear_arith);
        }
        row = row + 1;
    }
    proof {
        assert(nv * nh == res@.len());
    }
    res
}

} // verus!
