use vstd::prelude::*;

use vstd::arithmetic::div_mod::{lemma_fundamental_div_mod, lemma_fundamental_div_mod_converse,
    lemma_mod_bound};

use crate::cages::{any_cage_outside, cages_within, is_h_cage, is_v_cage};
use crate::cell::{CornerDir, GGCell};
use crate::component::{Anchor, Component, Corner};
use crate::connect::{connected, mask_at, mask_of};
use crate::grid::{cell_compat, corner_dead_cells, incoming_at, place_cell, Grid};
use crate::rng::GridRng;

verus! {

/// Why one generation attempt failed. All four are terminal for the attempt;
/// a caller may retry with a fresh random seed.
#[derive(Clone, Copy, Debug, PartialEq, Eq, Structural)]
pub enum GenError {
    /// A seed anchor was degenerate, did not fit the grid, or conflicted
    /// with an earlier anchor.
    UnsupportedDimensions,
    /// The growth loop exceeded its wasted-iteration cap with active corners
    /// remaining.
    GrowthStalled,
    /// The grown grid's fillable region was not one connected component.
    DisconnectedResult,
    /// Some cage still fell outside the 2 to 9 length bound after repair.
    UnrepairableCages,
}

/// An all-`Uninitialized` cell matrix.
pub open spec fn empty_cells(w: nat, h: nat) -> Seq<Seq<GGCell>> {
    Seq::new(h, |y: int| Seq::new(w, |x: int| GGCell::Uninitialized))
}

/// The cell matrix after committing one placement, cell by cell.
pub open spec fn place_cells(
    cells: Seq<Seq<GGCell>>,
    w: nat,
    h: nat,
    cx: int,
    cy: int,
    comp: Component,
) -> Seq<Seq<GGCell>> {
    Seq::new(
        h,
        |y: int| Seq::new(w, |x: int| place_cell(cells[y][x], incoming_at(comp, cx, cy, x, y))),
    )
}

/// The placement fits the grid and conflicts with nothing in `cells`.
pub open spec fn can_place_cells(
    cells: Seq<Seq<GGCell>>,
    w: nat,
    h: nat,
    cx: int,
    cy: int,
    comp: Component,
) -> bool {
    &&& 0 <= cx
    &&& 0 <= cy
    &&& cx + comp.width as int <= w
    &&& cy + comp.height as int <= h
    &&& forall|x: int, y: int|
        0 <= x < w && 0 <= y < h ==> cell_compat(
            #[trigger] cells[y][x],
            incoming_at(comp, cx, cy, x, y),
        )
}

/// The cell matrix that results from stamping the given anchors, in order,
/// onto an empty `w` by `h` grid.
pub open spec fn seed_cells(w: nat, h: nat, anchors: Seq<Anchor>) -> Seq<Seq<GGCell>>
    decreases anchors.len(),
{
    if anchors.len() == 0 {
        empty_cells(w, h)
    } else {
        let a = anchors.last();
        place_cells(
            seed_cells(w, h, anchors.drop_last()),
            w,
            h,
            a.x as int,
            a.y as int,
            a.component,
        )
    }
}

/// Every anchor has sides of at least 2 and places without conflict onto the
/// grid produced by the anchors before it.
pub open spec fn seeds_ok(w: nat, h: nat, anchors: Seq<Anchor>) -> bool
    decreases anchors.len(),
{
    if anchors.len() == 0 {
        true
    } else {
        let a = anchors.last();
        &&& seeds_ok(w, h, anchors.drop_last())
        &&& a.component.width >= 2
        &&& a.component.height >= 2
        &&& can_place_cells(
            seed_cells(w, h, anchors.drop_last()),
            w,
            h,
            a.x as int,
            a.y as int,
            a.component,
        )
    }
}

/// A valid anchor sequence stays valid when truncated.
pub proof fn lemma_seeds_ok_prefix(w: nat, h: nat, anchors: Seq<Anchor>, i: int)
    requires
        seeds_ok(w, h, anchors),
        0 <= i <= anchors.len(),
    ensures
        seeds_ok(w, h, anchors.subrange(0, i)),
    decreases anchors.len() - i,
{
    if i < anchors.len() {
        lemma_seeds_ok_prefix(w, h, anchors, i + 1);
        let t = anchors.subrange(0, i + 1);
        assert(t.drop_last() =~= anchors.subrange(0, i));
    } else {
        assert(anchors.subrange(0, i) =~= anchors);
    }
}

/// The fillable mask of a bare cell matrix.
pub open spec fn cells_fill_mask(cells: Seq<Seq<GGCell>>, w: nat, h: nat) -> Seq<Seq<bool>> {
    Seq::new(h, |y: int| Seq::new(w, |x: int| cells[y][x].is_fill()))
}

/// `Grid::fill_mask` agrees with the cell-matrix formulation.
proof fn lemma_fill_mask_agrees(g: Grid)
    requires
        g.wf(),
    ensures
        g.fill_mask() == cells_fill_mask(g.cells(), g.width as nat, g.height as nat),
{
    let a = g.fill_mask();
    let b = cells_fill_mask(g.cells(), g.width as nat, g.height as nat);
    assert forall|y: int| 0 <= y < g.height as int implies a[y] == b[y] by {
        assert forall|x: int| 0 <= x < g.width as int implies a[y][x] == b[y][x] by {
            assert(g.cells()[y][x] == g.cell(x, y));
        }
        assert(a[y] =~= b[y]);
    }
    assert(a =~= b);
}

/// The `j`-th of the four corners that placing anchor `a` registers, in the
/// order top-left, top-right, bottom-left, bottom-right.
pub open spec fn anchor_corner(a: Anchor, j: int) -> Corner {
    if j == 0 {
        Corner { x: a.x, y: a.y, dir: CornerDir::TopLeft }
    } else if j == 1 {
        Corner {
            x: (a.x + a.component.width - 1) as u8,
            y: a.y,
            dir: CornerDir::TopRight,
        }
    } else if j == 2 {
        Corner {
            x: a.x,
            y: (a.y + a.component.height - 1) as u8,
            dir: CornerDir::BotLeft,
        }
    } else {
        Corner {
            x: (a.x + a.component.width - 1) as u8,
            y: (a.y + a.component.height - 1) as u8,
            dir: CornerDir::BotRight,
        }
    }
}

/// Every corner registered by the seed anchors is already dead in the seeded
/// grid; on such inputs the growth loop never consults the random source.
pub open spec fn seed_corners_dead(w: nat, h: nat, anchors: Seq<Anchor>) -> bool {
    forall|i: int, j: int|
        0 <= i < anchors.len() && 0 <= j < 4 ==> corner_dead_cells(
            seed_cells(w, h, anchors),
            w as int,
            h as int,
            #[trigger] anchor_corner(anchors[i], j),
        )
}

/// Every corner of the list is dead on this grid.
pub open spec fn all_corners_dead(g: Grid, cs: Seq<Corner>) -> bool {
    forall|i: int| 0 <= i < cs.len() ==> g.corner_dead_spec(#[trigger] cs[i])
}

/// `Grid::can_place` agrees with the cell-matrix formulation.
proof fn lemma_can_place_agrees(g: Grid, cx: int, cy: int, comp: Component)
    requires
        g.wf(),
    ensures
        g.can_place(cx, cy, comp) == can_place_cells(
            g.cells(),
            g.width as nat,
            g.height as nat,
            cx,
            cy,
            comp,
        ),
{
    assert forall|x: int, y: int|
        0 <= x < g.width as int && 0 <= y < g.height as int implies #[trigger] g.cells()[y][x]
        == g.cell(x, y) by {}
    if g.can_place(cx, cy, comp) {
        assert forall|x: int, y: int|
            0 <= x < g.width as nat && 0 <= y < g.height as nat implies cell_compat(
            #[trigger] g.cells()[y][x],
            incoming_at(comp, cx, cy, x, y),
        ) by {
            assert(cell_compat(g.cell(x, y), incoming_at(comp, cx, cy, x, y)));
        }
    }
    if can_place_cells(g.cells(), g.width as nat, g.height as nat, cx, cy, comp) {
        assert forall|x: int, y: int|
            0 <= x < g.width as int && 0 <= y < g.height as int implies cell_compat(
            #[trigger] g.cell(x, y),
            incoming_at(comp, cx, cy, x, y),
        ) by {
            assert(cell_compat(g.cells()[y][x], incoming_at(comp, cx, cy, x, y)));
        }
    }
}

/// `Grid::place_result` agrees with the cell-matrix formulation.
proof fn lemma_place_result_agrees(g: Grid, cx: int, cy: int, comp: Component)
    requires
        g.wf(),
    ensures
        g.place_result(cx, cy, comp) == place_cells(
            g.cells(),
            g.width as nat,
            g.height as nat,
            cx,
            cy,
            comp,
        ),
{
    let a = g.place_result(cx, cy, comp);
    let b = place_cells(g.cells(), g.width as nat, g.height as nat, cx, cy, comp);
    assert forall|y: int| 0 <= y < g.height as int implies a[y] == b[y] by {
        assert forall|x: int| 0 <= x < g.width as int implies a[y][x] == b[y][x] by {
            assert(g.cells()[y][x] == g.cell(x, y));
        }
        assert(a[y] =~= b[y]);
    }
    assert(a =~= b);
}

/// Try every shuffled candidate size from the chosen corner; the first
/// placement that sticks is committed and returned, and a fruitless sweep
/// leaves the grid untouched.
fn try_candidates(grid: &mut Grid, ws: &Vec<u8>, hs: &Vec<u8>, corner: Corner) -> (r: Option<
    (u8, u8, Component),
>)
    requires
        old(grid).wf(),
        forall|t: int| 0 <= t < ws@.len() ==> #[trigger] ws@[t] >= 2,
        forall|t: int| 0 <= t < hs@.len() ==> #[trigger] hs@[t] >= 2,
    ensures
        final(grid).wf(),
        final(grid).width == old(grid).width,
        final(grid).height == old(grid).height,
        r matches Some(p) ==> p.2.width >= 2 && p.2.height >= 2 && p.0 as int + p.2.width as int
            <= old(grid).width as int && p.1 as int + p.2.height as int <= old(grid).height as int
            && old(grid).can_place(p.0 as int, p.1 as int, p.2) && final(grid).cells() == old(
            grid,
        ).place_result(p.0 as int, p.1 as int, p.2),
        r is None ==> *final(grid) == *old(grid),
        r is None ==> forall|wi: int, h2: int|
            #![trigger ws@[wi], hs@[h2]]
            0 <= wi < ws@.len() && 0 <= h2 < hs@.len() ==> candidate_fails(
                *old(grid),
                ws@[wi],
                hs@[h2],
                corner,
            ),
{
    let mut hi: usize = 0;
    while hi < hs.len()
        invariant
            grid.wf(),
            *grid == *old(grid),
            hi <= hs@.len(),
            forall|t: int| 0 <= t < ws@.len() ==> #[trigger] ws@[t] >= 2,
            forall|t: int| 0 <= t < hs@.len() ==> #[trigger] hs@[t] >= 2,
            forall|wi: int, h2: int|
                #![trigger ws@[wi], hs@[h2]]
                0 <= wi < ws@.len() && 0 <= h2 < hi ==> candidate_fails(
                    *old(grid),
                    ws@[wi],
                    hs@[h2],
                    corner,
                ),
        decreases hs@.len() - hi,
    {
        let mut wi: usize = 0;
        while wi < ws.len()
            invariant
                grid.wf(),
                *grid == *old(grid),
                hi < hs@.len(),
                wi <= ws@.len(),
                forall|t: int| 0 <= t < ws@.len() ==> #[trigger] ws@[t] >= 2,
                forall|t: int| 0 <= t < hs@.len() ==> #[trigger] hs@[t] >= 2,
                forall|w2: int, h2: int|
                    #![trigger ws@[w2], hs@[h2]]
                    0 <= w2 < ws@.len() && 0 <= h2 < hi ==> candidate_fails(
                        *old(grid),
                        ws@[w2],
                        hs@[h2],
                        corner,
                    ),
                forall|w2: int|
                    0 <= w2 < wi ==> candidate_fails(
                        *old(grid),
                        #[trigger] ws@[w2],
                        hs@[hi as int],
                        corner,
                    ),
            decreases ws@.len() - wi,
        {
            let component = Component::new(ws[wi], hs[hi]);
            let opp = Corner::new(corner.x, corner.y, corner.dir.get_opposite_dir());
            let pos = component.get_pos_from_corner(opp);
            if pos.0 >= 0 && pos.1 >= 0 {
                proof {
                    assert(pos.0 <= corner.x as int);
                    assert(pos.1 <= corner.y as int);
                }
                let ux = pos.0 as u8;
                let uy = pos.1 as u8;
                if grid.try_place_component(ux, uy, component) {
                    return Some((ux, uy, component));
                }
                proof {
                    assert(candidate_fails(*old(grid), ws@[wi as int], hs@[hi as int], corner));
                }
            } else {
                proof {
                    assert(candidate_fails(*old(grid), ws@[wi as int], hs@[hi as int], corner));
                }
            }
            wi = wi + 1;
        }
        hi = hi + 1;
    }
    None
}

/// The rectangle of the given size cannot be attached at this corner: its
/// origin would be negative, or the placement conflicts.
pub open spec fn candidate_fails(g: Grid, w: u8, h: u8, corner: Corner) -> bool {
    let comp = Component { width: w, height: h };
    let p = comp.pos_from_corner_spec(
        Corner { x: corner.x, y: corner.y, dir: corner.dir.opposite() },
    );
    p.0 >= 0 && p.1 >= 0 ==> !g.can_place(p.0, p.1, comp)
}

/// The sorted candidate list `2..=max`, ready to be shuffled: empty when
/// `max` is below 2.
fn size_candidates(max: u8) -> (r: Vec<u8>)
    ensures
        r@.len() == (if max >= 2 {
            max - 1
        } else {
            0int
        }),
        forall|t: int| 0 <= t < r@.len() ==> #[trigger] r@[t] == t + 2,
        forall|t: int| 0 <= t < r@.len() ==> #[trigger] r@[t] >= 2,
{
    let mut v: Vec<u8> = Vec::new();
    let mut c: usize = 2;
    while c <= max as usize
        invariant
            2 <= c,
            c <= max as int + 1 || c == 2,
            v@.len() == c - 2,
            forall|t: int| 0 <= t < v@.len() ==> #[trigger] v@[t] == t + 2,
            forall|t: int| 0 <= t < v@.len() ==> #[trigger] v@[t] >= 2,
        decreases max as int + 1 - c,
    {
        v.push(c as u8);
        c = c + 1;
    }
    v
}

/// The stochastic growth phase: repeatedly drop dead corners, pick a random
/// survivor, and try shuffled rectangle sizes from it. Returns `true` when
/// every corner has been exhausted, `false` when the wasted-iteration cap
/// was exceeded first.
fn grow(grid: &mut Grid, seed_corners: Vec<Corner>, rng: &mut GridRng) -> (r: bool)
    requires
        old(grid).wf(),
    ensures
        final(grid).wf(),
        final(grid).width == old(grid).width,
        final(grid).height == old(grid).height,
        forall|x: int, y: int|
            0 <= x < old(grid).width as int && 0 <= y < old(grid).height as int
                ==> #[trigger] final(grid).cell(x, y) == old(grid).cell(x, y) || old(grid).cell(
                x,
                y,
            ) == GGCell::Uninitialized || ((old(grid).cell(x, y) matches GGCell::Corner(_))
                && final(grid).cell(x, y) == GGCell::FusedCorner),
        all_corners_dead(*old(grid), seed_corners@) ==> r == true && *final(grid) == *old(grid),
{
    let mut active = seed_corners;
    let ghost seeds = active@;
    let mut wasted: u32 = 0;
    let mut fuel: u32 = 100000000;
    while fuel > 0
        invariant
            grid.wf(),
            grid.width == old(grid).width,
            grid.height == old(grid).height,
            wasted <= 100,
            forall|x: int, y: int|
                0 <= x < old(grid).width as int && 0 <= y < old(grid).height as int
                    ==> #[trigger] grid.cell(x, y) == old(grid).cell(x, y) || old(grid).cell(x, y)
                    == GGCell::Uninitialized || ((old(grid).cell(x, y) matches GGCell::Corner(_))
                    && grid.cell(x, y) == GGCell::FusedCorner),
            seeds == seed_corners@,
            all_corners_dead(*old(grid), seeds) ==> *grid == *old(grid) && active@ == seeds
                && fuel > 0,
        decreases fuel,
    {
        fuel = fuel - 1;

        // Drop corners that can no longer host growth.
        let mut keep: Vec<Corner> = Vec::new();
        let mut ci: usize = 0;
        while ci < active.len()
            invariant
                grid.wf(),
                ci <= active@.len(),
                all_corners_dead(*grid, active@) ==> keep@.len() == 0,
            decreases active@.len() - ci,
        {
            let c = active[ci];
            if !grid.corner_is_dead(&c) {
                keep.push(c);
            }
            ci = ci + 1;
        }
        proof {
            if all_corners_dead(*old(grid), seeds) {
                assert(active@ == seeds);
                assert(all_corners_dead(*grid, active@));
                assert(keep@.len() == 0);
            }
        }
        active = keep;
        if active.len() == 0 {
            return true;
        }
        proof {
            assert(!all_corners_dead(*old(grid), seeds));
        }

        // Pick a random corner and shuffled candidate sizes.
        let idx = rng.pick_index(active.len());
        let rcorn = active[idx];
        let max_w: u8 = if grid.width / 4 < 2 {
            grid.width / 4
        } else {
            2
        };
        let max_h: u8 = if grid.height / 4 < 2 {
            grid.height / 4
        } else {
            2
        };
        let mut ws = size_candidates(max_w);
        let mut hs = size_candidates(max_h);
        let ghost ws0 = ws@;
        let ghost hs0 = hs@;
        rng.shuffle_u8(&mut ws);
        rng.shuffle_u8(&mut hs);
        proof {
            ws0.to_multiset_ensures();
            ws@.to_multiset_ensures();
            hs0.to_multiset_ensures();
            hs@.to_multiset_ensures();
            assert forall|t: int| 0 <= t < ws@.len() implies #[trigger] ws@[t] >= 2 by {
                assert(ws@.contains(ws@[t]));
                assert(ws0.to_multiset().count(ws@[t]) > 0);
                assert(ws0.contains(ws@[t]));
                let i = choose|i: int| 0 <= i < ws0.len() && ws0[i] == ws@[t];
                assert(ws0[i] >= 2);
            }
            assert forall|t: int| 0 <= t < hs@.len() implies #[trigger] hs@[t] >= 2 by {
                assert(hs@.contains(hs@[t]));
                assert(hs0.to_multiset().count(hs@[t]) > 0);
                assert(hs0.contains(hs@[t]));
                let i = choose|i: int| 0 <= i < hs0.len() && hs0[i] == hs@[t];
                assert(hs0[i] >= 2);
            }
        }

        let ghost pre = *grid;
        match try_candidates(grid, &ws, &hs, rcorn) {
            Some(p) => {
                let (ux, uy, component) = p;
                proof {
                    assert forall|x: int, y: int|
                        0 <= x < old(grid).width as int && 0 <= y
                            < old(grid).height as int implies #[trigger] grid.cell(x, y)
                        == old(grid).cell(x, y) || old(grid).cell(x, y)
                        == GGCell::Uninitialized || ((old(grid).cell(x, y) matches GGCell::Corner(
                        _,
                    )) && grid.cell(x, y) == GGCell::FusedCorner) by {
                        assert(grid.cells()[y][x] == grid.cell(x, y));
                        assert(grid.cell(x, y) == place_cell(
                            pre.cell(x, y),
                            incoming_at(component, ux as int, uy as int, x, y),
                        ));
                        assert(pre.cell(x, y) == old(grid).cell(x, y) || old(grid).cell(x, y)
                            == GGCell::Uninitialized || ((old(grid).cell(x, y) matches GGCell::Corner(
                            _,
                        )) && pre.cell(x, y) == GGCell::FusedCorner));
                    }
                }
                let cs = Corner::generate_corners(ux, uy, component);
                active.push(cs[0]);
                active.push(cs[1]);
                active.push(cs[2]);
                active.push(cs[3]);
                wasted = 0;
            },
            None => {
                wasted = wasted + 1;
                if wasted > 100 {
                    return false;
                }
            },
        }
    }
    false
}

impl Grid {
    /// Generate one candidate grid: stamp the seed anchors, grow rectangles
    /// from exposed corners until none is left, verify connectivity, and
    /// repair cage lengths.
    ///
    /// `UnsupportedDimensions` comes back exactly when the anchor set itself
    /// is invalid for this width and height. A successful grid is well
    /// formed, has the requested dimensions, has one connected fillable
    /// region, and every cage length lies in 2 to 9.
    pub fn generate(width: u8, height: u8, anchors: &Vec<Anchor>, rng: &mut GridRng) -> (r: Result<
        Grid,
        GenError,
    >)
        ensures
            r == Err::<Grid, GenError>(GenError::UnsupportedDimensions) <==> !seeds_ok(
                width as nat,
                height as nat,
                anchors@,
            ),
            r matches Ok(g) ==> g.wf() && g.width == width && g.height == height && connected(
                g.fill_mask(),
            ) && cages_within(g.fill_mask(), 2, 9),
            seeds_ok(width as nat, height as nat, anchors@) && seed_corners_dead(
                width as nat,
                height as nat,
                anchors@,
            ) ==> r != Err::<Grid, GenError>(GenError::GrowthStalled) && (r == Err::<
                Grid,
                GenError,
            >(GenError::DisconnectedResult) <==> !connected(
                cells_fill_mask(
                    seed_cells(width as nat, height as nat, anchors@),
                    width as nat,
                    height as nat,
                ),
            )),
    {
        let mut grid = Grid::new(width, height);
        proof {
            assert forall|y: int|
                0 <= y < height as int implies grid.cells()[y] == empty_cells(
                width as nat,
                height as nat,
            )[y] by {
                assert forall|x: int|
                    0 <= x < width as int implies grid.cells()[y][x] == empty_cells(
                    width as nat,
                    height as nat,
                )[y][x] by {
                    assert(grid.cells()[y][x] == grid.cell(x, y));
                }
                assert(grid.cells()[y] =~= empty_cells(width as nat, height as nat)[y]);
            }
            assert(grid.cells() =~= empty_cells(width as nat, height as nat));
            assert(anchors@.subrange(0, 0) =~= Seq::<Anchor>::empty());
        }

        let mut seed_corners: Vec<Corner> = Vec::new();
        let mut k: usize = 0;
        while k < anchors.len()
            invariant
                grid.wf(),
                grid.width == width,
                grid.height == height,
                k <= anchors@.len(),
                seeds_ok(width as nat, height as nat, anchors@.subrange(0, k as int)),
                grid.cells() == seed_cells(
                    width as nat,
                    height as nat,
                    anchors@.subrange(0, k as int),
                ),
                seed_corners@.len() == 4 * k,
                forall|t: int|
                    0 <= t < seed_corners@.len() ==> #[trigger] seed_corners@[t] == anchor_corner(
                        anchors@[t / 4],
                        t % 4,
                    ),
            decreases anchors@.len() - k,
        {
            let a = anchors[k];
            let ghost prefix = anchors@.subrange(0, k as int);
            let ghost prefix1 = anchors@.subrange(0, k as int + 1);
            proof {
                assert(prefix1.drop_last() =~= prefix);
                assert(prefix1.last() == a);
            }
            if a.component.width < 2 || a.component.height < 2 {
                proof {
                    assert(!seeds_ok(width as nat, height as nat, prefix1));
                    if seeds_ok(width as nat, height as nat, anchors@) {
                        lemma_seeds_ok_prefix(
                            width as nat,
                            height as nat,
                            anchors@,
                            k as int + 1,
                        );
                    }
                }
                return Err(GenError::UnsupportedDimensions);
            }
            let ghost pre = grid;
            let ok = grid.try_place_component(a.x, a.y, a.component);
            proof {
                lemma_can_place_agrees(pre, a.x as int, a.y as int, a.component);
            }
            if !ok {
                proof {
                    assert(!can_place_cells(
                        seed_cells(width as nat, height as nat, prefix),
                        width as nat,
                        height as nat,
                        a.x as int,
                        a.y as int,
                        a.component,
                    ));
                    assert(!seeds_ok(width as nat, height as nat, prefix1));
                    if seeds_ok(width as nat, height as nat, anchors@) {
                        lemma_seeds_ok_prefix(
                            width as nat,
                            height as nat,
                            anchors@,
                            k as int + 1,
                        );
                    }
                }
                return Err(GenError::UnsupportedDimensions);
            }
            proof {
                lemma_place_result_agrees(pre, a.x as int, a.y as int, a.component);
                assert(seeds_ok(width as nat, height as nat, prefix1));
                assert(grid.cells() == seed_cells(width as nat, height as nat, prefix1));
            }
            let cs = Corner::generate_corners(a.x, a.y, a.component);
            seed_corners.push(cs[0]);
            seed_corners.push(cs[1]);
            seed_corners.push(cs[2]);
            seed_corners.push(cs[3]);
            proof {
                assert forall|t: int|
                    0 <= t < seed_corners@.len() implies #[trigger] seed_corners@[t]
                    == anchor_corner(anchors@[t / 4], t % 4) by {
                    if t >= 4 * (k as int) {
                        let j = t - 4 * (k as int);
                        lemma_fundamental_div_mod_converse(t, 4, k as int, j);
                        assert(anchors@[t / 4] == a);
                    }
                }
            }
            k = k + 1;
        }
        proof {
            assert(anchors@.subrange(0, anchors@.len() as int) =~= anchors@);
        }

        let ghost wn = width as nat;
        let ghost hn = height as nat;
        let ghost hyp = seeds_ok(wn, hn, anchors@) && seed_corners_dead(wn, hn, anchors@);
        let ghost seed_mask = cells_fill_mask(seed_cells(wn, hn, anchors@), wn, hn);
        proof {
            lemma_fill_mask_agrees(grid);
            if hyp {
                assert(grid.fill_mask() == seed_mask);
                assert forall|i: int|
                    0 <= i < seed_corners@.len() implies grid.corner_dead_spec(
                    #[trigger] seed_corners@[i],
                ) by {
                    lemma_fundamental_div_mod(i, 4);
                    lemma_mod_bound(i, 4);
                    let q = i / 4;
                    let r4 = i % 4;
                    assert(4 * q == i - r4);
                    assert(0 <= q < anchors@.len());
                    assert(corner_dead_cells(
                        seed_cells(wn, hn, anchors@),
                        wn as int,
                        hn as int,
                        anchor_corner(anchors@[q], r4),
                    ));
                    crate::grid::lemma_corner_dead_agrees(grid, seed_corners@[i]);
                }
                assert(all_corners_dead(grid, seed_corners@));
            }
        }
        let ghost gseed = grid;

        let grown = grow(&mut grid, seed_corners, rng);
        proof {
            if hyp {
                assert(grown && *(&grid) == gseed);
            }
        }
        if !grown {
            return Err(GenError::GrowthStalled);
        }

        let conn = grid.check_is_connected();
        proof {
            if hyp {
                assert(grid == gseed);
                assert(grid.fill_mask() == seed_mask);
                assert(conn == connected(seed_mask));
            }
        }
        if !conn {
            return Err(GenError::DisconnectedResult);
        }

        grid.fix_up();

        let cages = grid.get_cages();
        if any_cage_outside(&cages, 2, 9) {
            return Err(GenError::UnrepairableCages);
        }
        proof {
            let m1 = grid.fill_mask();
            assert forall|x: int, y: int, len: int|
                #[trigger] is_h_cage(m1, x, y, len) implies 2 <= len <= 9 by {
                assert(cages@.contains(((x as u8), (y as u8), false, (len as usize))));
                let i = choose|i: int|
                    0 <= i < cages@.len() && cages@[i] == ((x as u8), (y as u8), false, (
                    len as usize));
                assert(2 <= cages@[i].3 <= 9);
                assert(mask_at(m1, x, y));
                assert(mask_at(m1, x + len - 1, y));
                assert(len <= m1[y].len());
            }
            assert forall|x: int, y: int, len: int|
                #[trigger] is_v_cage(m1, x, y, len) implies 2 <= len <= 9 by {
                assert(cages@.contains(((x as u8), (y as u8), true, (len as usize))));
                let i = choose|i: int|
                    0 <= i < cages@.len() && cages@[i] == ((x as u8), (y as u8), true, (
                    len as usize));
                assert(2 <= cages@[i].3 <= 9);
                assert(mask_at(m1, x, y));
                assert(mask_at(m1, x, y + len - 1));
                assert(len <= m1.len());
            }
        }
        Ok(grid)
    }
}

/// Generate a grid and reduce it to its boolean fillable mask, the final
/// output form: `true` marks a cell that belongs to a cage.
pub fn get_grid(width: u8, height: u8, anchors: &Vec<Anchor>, rng: &mut GridRng) -> (r: Result<
    Vec<Vec<bool>>,
    GenError,
>)
    ensures
        r == Err::<Vec<Vec<bool>>, GenError>(GenError::UnsupportedDimensions) <==> !seeds_ok(
            width as nat,
            height as nat,
            anchors@,
        ),
        r matches Ok(m) ==> {
            &&& m@.len() == height as int
            &&& forall|y: int| 0 <= y < height as int ==> (#[trigger] m@[y])@.len() == width as int
            &&& connected(mask_of(m))
            &&& cages_within(mask_of(m), 2, 9)
        },
        seeds_ok(width as nat, height as nat, anchors@) && seed_corners_dead(
            width as nat,
            height as nat,
            anchors@,
        ) ==> r != Err::<Vec<Vec<bool>>, GenError>(GenError::GrowthStalled) && (r == Err::<
            Vec<Vec<bool>>,
            GenError,
        >(GenError::DisconnectedResult) <==> !connected(
            cells_fill_mask(
                seed_cells(width as nat, height as nat, anchors@),
                width as nat,
                height as nat,
            ),
        )),
{
    match Grid::generate(width, height, anchors, rng) {
        Ok(g) => {
            let ghost gv = g;
            let m = g.to_bool_vec();
            proof {
                assert forall|y: int|
                    0 <= y < height as int implies mask_of(m)[y] == gv.fill_mask()[y] by {
                    assert forall|x: int|
                        0 <= x < width as int implies mask_of(m)[y][x] == gv.fill_mask()[y][x] by {
                        assert(m@[y]@[x] == gv.fillable(x, y));
                    }
                    assert(mask_of(m)[y] =~= gv.fill_mask()[y]);
                }
                assert(mask_of(m) =~= gv.fill_mask());
            }
            Ok(m)
        },
        Err(e) => Err(e),
    }
}

} // verus!
