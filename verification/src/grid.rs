use vstd::prelude::*;

use crate::cell::{CornerDir, GGCell};
use crate::component::{Component, Corner};
use crate::counting::{count_mat, count_row, lemma_count_mat_extend, lemma_count_row_extend};

verus! {

/// The grid under construction: a `height` by `width` matrix of cells,
/// mutated in place through seeding, growth and repair.
pub struct Grid {
    pub width: u8,
    pub height: u8,
    pub rows: Vec<Vec<GGCell>>,
}

impl Grid {
    /// The row matrix really is `height` rows of `width` cells each.
    pub open spec fn wf(self) -> bool {
        &&& self.rows@.len() == self.height as int
        &&& forall|y: int|
            0 <= y < self.height as int ==> (#[trigger] self.rows@[y])@.len()
                == self.width as int
    }

    /// The cell matrix as a sequence of sequences.
    pub open spec fn cells(self) -> Seq<Seq<GGCell>> {
        self.rows@.map_values(|r: Vec<GGCell>| r@)
    }

    pub open spec fn cell(self, x: int, y: int) -> GGCell {
        self.rows@[y]@[x]
    }

    /// In bounds and of fillable class.
    pub open spec fn fillable(self, x: int, y: int) -> bool {
        &&& 0 <= x < self.width as int
        &&& 0 <= y < self.height as int
        &&& self.cell(x, y).is_fill()
    }

    /// The boolean matrix of fillable-class cells; connectivity and cages are
    /// judged on this mask alone.
    pub open spec fn fill_mask(self) -> Seq<Seq<bool>> {
        Seq::new(
            self.height as nat,
            |y: int| Seq::new(self.width as nat, |x: int| self.fillable(x, y)),
        )
    }

    /// A fresh all-`Uninitialized` grid.
    pub fn new(width: u8, height: u8) -> (r: Grid)
        ensures
            r.wf(),
            r.width == width,
            r.height == height,
            forall|x: int, y: int|
                0 <= x < width as int && 0 <= y < height as int ==> #[trigger] r.cell(x, y)
                    == GGCell::Uninitialized,
    {
        let mut rows: Vec<Vec<GGCell>> = Vec::new();
        let mut y: usize = 0;
        while y < height as usize
            invariant
                y <= height as int,
                rows@.len() == y,
                forall|yy: int|
                    0 <= yy < y ==> (#[trigger] rows@[yy])@.len() == width as int,
                forall|yy: int, xx: int|
                    0 <= yy < y && 0 <= xx < width as int ==> #[trigger] rows@[yy]@[xx]
                        == GGCell::Uninitialized,
            decreases height as int - y,
        {
            let mut row: Vec<GGCell> = Vec::new();
            let mut x: usize = 0;
            while x < width as usize
                invariant
                    x <= width as int,
                    row@.len() == x,
                    forall|xx: int| 0 <= xx < x ==> #[trigger] row@[xx] == GGCell::Uninitialized,
                decreases width as int - x,
            {
                row.push(GGCell::Uninitialized);
                x = x + 1;
            }
            rows.push(row);
            y = y + 1;
        }
        Grid { width, height, rows }
    }

    /// True exactly when `(x, y)` is in bounds and of fillable class.
    pub fn get_cell_fillable(&self, x: usize, y: usize) -> (r: bool)
        requires
            self.wf(),
        ensures
            r == self.fillable(x as int, y as int),
    {
        if x >= self.width as usize || y >= self.height as usize {
            false
        } else {
            match self.rows[y][x] {
                GGCell::Normal => true,
                GGCell::Corner(_) => true,
                GGCell::FusedCorner => true,
                _ => false,
            }
        }
    }

    /// Total number of fillable-class cells.
    pub fn get_fillable_cell_count(&self) -> (r: u32)
        requires
            self.wf(),
        ensures
            r == count_mat(self.fill_mask()),
    {
        let ghost mask = self.fill_mask();
        let mut count: u32 = 0;
        let mut y: usize = 0;
        proof {
            assert(mask.subrange(0, 0) =~= Seq::<Seq<bool>>::empty());
        }
        while y < self.height as usize
            invariant
                self.wf(),
                mask == self.fill_mask(),
                y <= self.height as int,
                count == count_mat(mask.subrange(0, y as int)),
                count <= y * 256,
            decreases self.height as int - y,
        {
            let ghost row = mask[y as int];
            let mut x: usize = 0;
            proof {
                assert(row.subrange(0, 0) =~= Seq::<bool>::empty());
            }
            while x < self.width as usize
                invariant
                    self.wf(),
                    mask == self.fill_mask(),
                    y < self.height as int,
                    row == mask[y as int],
                    x <= self.width as int,
                    count == count_mat(mask.subrange(0, y as int)) + count_row(
                        row.subrange(0, x as int),
                    ),
                    count <= y * 256 + x,
                decreases self.width as int - x,
            {
                proof {
                    lemma_count_row_extend(row, x as int);
                }
                if self.get_cell_fillable(x, y) {
                    count = count + 1;
                }
                x = x + 1;
            }
            proof {
                assert(row.subrange(0, self.width as int) =~= row);
                lemma_count_mat_extend(mask, y as int);
                assert((y + 1) * 256 == y * 256 + 256) by (nonlinear_arith);
            }
            y = y + 1;
        }
        proof {
            assert(mask.subrange(0, self.height as int) =~= mask);
        }
        count
    }

    /// The finished grid reduced to its fillable mask: `true` marks a cell
    /// that belongs to a cage.
    pub fn to_bool_vec(self) -> (r: Vec<Vec<bool>>)
        requires
            self.wf(),
        ensures
            r@.len() == self.height as int,
            forall|y: int|
                0 <= y < self.height as int ==> (#[trigger] r@[y])@.len() == self.width as int,
            forall|y: int, x: int|
                0 <= y < self.height as int && 0 <= x < self.width as int ==> #[trigger] r@[y]@[x]
                    == self.fillable(x, y),
    {
        let mut out: Vec<Vec<bool>> = Vec::new();
        let mut y: usize = 0;
        while y < self.height as usize
            invariant
                self.wf(),
                y <= self.height as int,
                out@.len() == y,
                forall|yy: int|
                    0 <= yy < y ==> (#[trigger] out@[yy])@.len() == self.width as int,
                forall|yy: int, xx: int|
                    0 <= yy < y && 0 <= xx < self.width as int ==> #[trigger] out@[yy]@[xx]
                        == self.fillable(xx, yy),
            decreases self.height as int - y,
        {
            let mut row: Vec<bool> = Vec::new();
            let mut x: usize = 0;
            while x < self.width as usize
                invariant
                    self.wf(),
                    y < self.height as int,
                    x <= self.width as int,
                    row@.len() == x,
                    forall|xx: int|
                        0 <= xx < x ==> #[trigger] row@[xx] == self.fillable(xx, y as int),
                decreases self.width as int - x,
            {
                row.push(self.get_cell_fillable(x, y));
                x = x + 1;
            }
            out.push(row);
            y = y + 1;
        }
        out
    }
}


/// How an existing grid cell constrains an incoming pattern cell: an existing
/// `Uninitialized` cell accepts anything; a `Corner` accepts only nothing or
/// its opposite-direction corner; every other occupied cell accepts nothing.
pub open spec fn cell_compat(existing: GGCell, incoming: GGCell) -> bool {
    match existing {
        GGCell::Uninitialized => true,
        GGCell::Normal => incoming == GGCell::Uninitialized,
        GGCell::Corner(d) => incoming == GGCell::Uninitialized || incoming == GGCell::Corner(
            d.opposite(),
        ),
        GGCell::FusedCorner => incoming == GGCell::Uninitialized,
        GGCell::Blocked => incoming == GGCell::Uninitialized,
    }
}

/// The value a grid cell takes when a compatible pattern cell is committed
/// onto it: empty cells take the incoming value, a corner met by another
/// corner fuses, and every other occupied cell is left untouched.
pub open spec fn place_cell(existing: GGCell, incoming: GGCell) -> GGCell {
    match existing {
        GGCell::Uninitialized => incoming,
        GGCell::Corner(d) => if incoming matches GGCell::Corner(_) {
            GGCell::FusedCorner
        } else {
            existing
        },
        _ => existing,
    }
}

/// The pattern cell that a component placed with its top-left cell at
/// `(cx, cy)` contributes to grid position `(x, y)`.
pub open spec fn incoming_at(component: Component, cx: int, cy: int, x: int, y: int) -> GGCell {
    component.pattern_at(x - cx + 1, y - cy + 1)
}

impl Grid {
    /// The component lies inside the grid when placed at `(cx, cy)`.
    pub open spec fn fits(self, cx: int, cy: int, component: Component) -> bool {
        &&& 0 <= cx
        &&& 0 <= cy
        &&& cx + component.width as int <= self.width as int
        &&& cy + component.height as int <= self.height as int
    }

    /// The placement fits and conflicts with nothing already on the grid.
    pub open spec fn can_place(self, cx: int, cy: int, component: Component) -> bool {
        &&& self.fits(cx, cy, component)
        &&& forall|x: int, y: int|
            0 <= x < self.width as int && 0 <= y < self.height as int ==> cell_compat(
                #[trigger] self.cell(x, y),
                incoming_at(component, cx, cy, x, y),
            )
    }

    /// The cell matrix after committing the placement.
    pub open spec fn place_result(self, cx: int, cy: int, component: Component) -> Seq<
        Seq<GGCell>,
    > {
        Seq::new(
            self.height as nat,
            |y: int|
                Seq::new(
                    self.width as nat,
                    |x: int| place_cell(self.cell(x, y), incoming_at(component, cx, cy, x, y)),
                ),
        )
    }

    /// Stamp `component` onto the grid with its top-left cell at `(cx, cy)`.
    ///
    /// The whole padded footprint is checked for conflicts before anything is
    /// written, so a rejected placement leaves the grid untouched; an
    /// accepted one commits exactly `place_result`.
    pub fn try_place_component(&mut self, cx: u8, cy: u8, component: Component) -> (r: bool)
        requires
            old(self).wf(),
            component.width >= 2,
            component.height >= 2,
        ensures
            final(self).wf(),
            final(self).width == old(self).width,
            final(self).height == old(self).height,
            r == old(self).can_place(cx as int, cy as int, component),
            r ==> final(self).cells() == old(self).place_result(cx as int, cy as int, component),
            !r ==> *final(self) == *old(self),
    {
        let w = component.width as usize;
        let h = component.height as usize;
        let gw = self.width as usize;
        let gh = self.height as usize;
        if cx as usize + w > gw || cy as usize + h > gh {
            return false;
        }
        // Bounds of the pattern coordinates whose grid cells exist: the
        // padded footprint, clipped at the grid edges.
        let lower_x: usize = if cx == 0 {
            1
        } else {
            0
        };
        let lower_y: usize = if cy == 0 {
            1
        } else {
            0
        };
        let upper_x: usize = if cx as usize + w == gw {
            w
        } else {
            w + 1
        };
        let upper_y: usize = if cy as usize + h == gh {
            h
        } else {
            h + 1
        };
        let cells = component.get_cells();

        let ghost cxi = cx as int;
        let ghost cyi = cy as int;

        // Check pass: read every footprint cell, write nothing.
        let mut y = lower_y;
        while y <= upper_y
            invariant
                self == old(self),
                self.wf(),
                component.width >= 2,
                component.height >= 2,
                w == component.width as int,
                h == component.height as int,
                gw == self.width as int,
                gh == self.height as int,
                cxi == cx as int,
                cyi == cy as int,
                cxi + w <= gw,
                cyi + h <= gh,
                lower_x == if cxi == 0 { 1int } else { 0int },
                lower_y == if cyi == 0 { 1int } else { 0int },
                upper_x == if cxi + w == gw { w as int } else { w + 1 },
                upper_y == if cyi + h == gh { h as int } else { h + 1 },
                lower_y <= y <= upper_y + 1,
                cells@.len() == h + 2,
                forall|py: int| 0 <= py < h + 2 ==> (#[trigger] cells@[py])@.len() == w + 2,
                forall|py: int, px: int|
                    0 <= py < h + 2 && 0 <= px < w + 2 ==> #[trigger] cells@[py]@[px]
                        == component.pattern_at(px, py),
                forall|py: int, px: int|
                    lower_y <= py < y && lower_x <= px <= upper_x ==> cell_compat(
                        #[trigger] self.cell(cxi + px - 1, cyi + py - 1),
                        component.pattern_at(px, py),
                    ),
            decreases upper_y + 1 - y,
        {
            let mut x = lower_x;
            while x <= upper_x
                invariant
                    self == old(self),
                    self.wf(),
                    component.width >= 2,
                    component.height >= 2,
                    w == component.width as int,
                    h == component.height as int,
                    gw == self.width as int,
                    gh == self.height as int,
                    cxi == cx as int,
                    cyi == cy as int,
                    cxi + w <= gw,
                    cyi + h <= gh,
                    lower_x == if cxi == 0 { 1int } else { 0int },
                    lower_y == if cyi == 0 { 1int } else { 0int },
                    upper_x == if cxi + w == gw { w as int } else { w + 1 },
                    upper_y == if cyi + h == gh { h as int } else { h + 1 },
                    lower_y <= y <= upper_y,
                    lower_x <= x <= upper_x + 1,
                    cells@.len() == h + 2,
                    forall|py: int| 0 <= py < h + 2 ==> (#[trigger] cells@[py])@.len() == w + 2,
                    forall|py: int, px: int|
                        0 <= py < h + 2 && 0 <= px < w + 2 ==> #[trigger] cells@[py]@[px]
                            == component.pattern_at(px, py),
                    forall|py: int, px: int|
                        lower_y <= py < y && lower_x <= px <= upper_x ==> cell_compat(
                            #[trigger] self.cell(cxi + px - 1, cyi + py - 1),
                            component.pattern_at(px, py),
                        ),
                    forall|px: int|
                        lower_x <= px < x ==> cell_compat(
                            #[trigger] self.cell(cxi + px - 1, cyi + y - 1),
                            component.pattern_at(px, y as int),
                        ),
                decreases upper_x + 1 - x,
            {
                let comp_cell = cells[y][x];
                let ix = cx as usize + x - 1;
                let iy = cy as usize + y - 1;
                let existing = self.rows[iy][ix];
                let ok = match existing {
                    GGCell::Uninitialized => true,
                    GGCell::Normal => comp_cell == GGCell::Uninitialized,
                    GGCell::Corner(d) => comp_cell == GGCell::Uninitialized || comp_cell
                        == GGCell::Corner(d.get_opposite_dir()),
                    GGCell::FusedCorner => comp_cell == GGCell::Uninitialized,
                    GGCell::Blocked => comp_cell == GGCell::Uninitialized,
                };
                if !ok {
                    proof {
                        assert(!cell_compat(
                            self.cell(ix as int, iy as int),
                            incoming_at(component, cxi, cyi, ix as int, iy as int),
                        ));
                        assert(!old(self).can_place(cxi, cyi, component));
                    }
                    return false;
                }
                x = x + 1;
            }
            y = y + 1;
        }

        proof {
            assert forall|gx: int, gy: int|
                0 <= gx < gw && 0 <= gy < gh implies cell_compat(
                #[trigger] self.cell(gx, gy),
                incoming_at(component, cxi, cyi, gx, gy),
            ) by {
                let px = gx - cxi + 1;
                let py = gy - cyi + 1;
                if lower_x <= px <= upper_x && lower_y <= py <= upper_y {
                    assert(cell_compat(
                        self.cell(cxi + px - 1, cyi + py - 1),
                        component.pattern_at(px, py),
                    ));
                } else {
                    assert(component.pattern_at(px, py) == GGCell::Uninitialized);
                }
            }
            assert(old(self).can_place(cxi, cyi, component));
        }

        // Commit pass: only now is anything written.
        let mut y = lower_y;
        while y <= upper_y
            invariant
                self.wf(),
                self.width == old(self).width,
                self.height == old(self).height,
                component.width >= 2,
                component.height >= 2,
                w == component.width as int,
                h == component.height as int,
                gw == self.width as int,
                gh == self.height as int,
                cxi == cx as int,
                cyi == cy as int,
                cxi + w <= gw,
                cyi + h <= gh,
                lower_x == if cxi == 0 { 1int } else { 0int },
                lower_y == if cyi == 0 { 1int } else { 0int },
                upper_x == if cxi + w == gw { w as int } else { w + 1 },
                upper_y == if cyi + h == gh { h as int } else { h + 1 },
                lower_y <= y <= upper_y + 1,
                cells@.len() == h + 2,
                forall|py: int| 0 <= py < h + 2 ==> (#[trigger] cells@[py])@.len() == w + 2,
                forall|py: int, px: int|
                    0 <= py < h + 2 && 0 <= px < w + 2 ==> #[trigger] cells@[py]@[px]
                        == component.pattern_at(px, py),
                forall|gx: int, gy: int|
                    0 <= gx < gw && 0 <= gy < gh ==> #[trigger] self.cell(gx, gy) == (
                    if lower_x <= gx - cxi + 1 <= upper_x && lower_y <= gy - cyi + 1 < y {
                        place_cell(
                            old(self).cell(gx, gy),
                            incoming_at(component, cxi, cyi, gx, gy),
                        )
                    } else {
                        old(self).cell(gx, gy)
                    }),
            decreases upper_y + 1 - y,
        {
            let mut x = lower_x;
            while x <= upper_x
                invariant
                    self.wf(),
                    self.width == old(self).width,
                    self.height == old(self).height,
                    component.width >= 2,
                    component.height >= 2,
                    w == component.width as int,
                    h == component.height as int,
                    gw == self.width as int,
                    gh == self.height as int,
                    cxi == cx as int,
                    cyi == cy as int,
                    cxi + w <= gw,
                    cyi + h <= gh,
                    lower_x == if cxi == 0 { 1int } else { 0int },
                    lower_y == if cyi == 0 { 1int } else { 0int },
                    upper_x == if cxi + w == gw { w as int } else { w + 1 },
                    upper_y == if cyi + h == gh { h as int } else { h + 1 },
                    lower_y <= y <= upper_y,
                    lower_x <= x <= upper_x + 1,
                    cells@.len() == h + 2,
                    forall|py: int| 0 <= py < h + 2 ==> (#[trigger] cells@[py])@.len() == w + 2,
                    forall|py: int, px: int|
                        0 <= py < h + 2 && 0 <= px < w + 2 ==> #[trigger] cells@[py]@[px]
                            == component.pattern_at(px, py),
                    forall|gx: int, gy: int|
                        0 <= gx < gw && 0 <= gy < gh ==> #[trigger] self.cell(gx, gy) == (
                        if lower_x <= gx - cxi + 1 <= upper_x && (lower_y <= gy - cyi + 1 < y || (
                        gy - cyi + 1 == y && lower_x <= gx - cxi + 1 < x)) {
                            place_cell(
                                old(self).cell(gx, gy),
                                incoming_at(component, cxi, cyi, gx, gy),
                            )
                        } else {
                            old(self).cell(gx, gy)
                        }),
                decreases upper_x + 1 - x,
            {
                let comp_cell = cells[y][x];
                let ix = cx as usize + x - 1;
                let iy = cy as usize + y - 1;
                let ghost prev = *self;
                let existing = self.rows[iy][ix];
                let newval = match existing {
                    GGCell::Uninitialized => comp_cell,
                    GGCell::Corner(_) => if matches!(comp_cell, GGCell::Corner(_)) {
                        GGCell::FusedCorner
                    } else {
                        existing
                    },
                    _ => existing,
                };
                self.rows[iy][ix] = newval;
                proof {
                    assert(comp_cell == component.pattern_at(x as int, y as int));
                    assert(incoming_at(component, cxi, cyi, ix as int, iy as int)
                        == component.pattern_at(x as int, y as int));
                    assert(existing == prev.cell(ix as int, iy as int));
                    assert(prev.cell(ix as int, iy as int) == old(self).cell(
                        ix as int,
                        iy as int,
                    ));
                    assert(newval == place_cell(existing, comp_cell));
                    assert(self.cell(ix as int, iy as int) == newval);
                    assert forall|gx: int, gy: int|
                        0 <= gx < gw && 0 <= gy < gh && !(gx == ix as int && gy
                            == iy as int) implies #[trigger] self.cell(gx, gy) == prev.cell(
                        gx,
                        gy,
                    ) by {}
                }
                x = x + 1;
            }
            y = y + 1;
        }

        proof {
            let res = old(self).place_result(cxi, cyi, component);
            assert forall|gy: int| 0 <= gy < gh implies self.cells()[gy] == res[gy] by {
                assert forall|gx: int| 0 <= gx < gw implies self.cells()[gy][gx] == res[gy][gx] by {
                    assert(self.cells()[gy][gx] == self.cell(gx, gy));
                    let px = gx - cxi + 1;
                    let py = gy - cyi + 1;
                    if !(lower_x <= px <= upper_x && lower_y <= py <= upper_y) {
                        assert(component.pattern_at(px, py) == GGCell::Uninitialized);
                    }
                }
                assert(self.cells()[gy] =~= res[gy]);
            }
            assert(self.cells() =~= res);
        }
        true
    }
}


impl Grid {
    /// A neighbour cell that still lets a fresh rectangle cover it during a
    /// corner-anchored placement: untouched, or a structural blocker (which
    /// the padded footprint never overlaps).
    pub open spec fn empty_ok(self, x: int, y: int) -> bool {
        self.cell(x, y) == GGCell::Uninitialized || self.cell(x, y) == GGCell::Blocked
    }

    /// A neighbour cell that could still coincide with a corner of a fresh
    /// rectangle attached opposite a corner of direction `d`.
    pub open spec fn corner_ok(self, x: int, y: int, d: CornerDir) -> bool {
        self.cell(x, y) == GGCell::Uninitialized || self.cell(x, y) == GGCell::Corner(d.opposite())
    }

    /// A corner is dead when it lies on the grid boundary, or when any of the
    /// neighbour cells that a newly attached rectangle would need is already
    /// taken in an incompatible way.
    pub open spec fn corner_dead_spec(self, corner: Corner) -> bool {
        let x = corner.x as int;
        let y = corner.y as int;
        ||| x == 0
        ||| x + 1 >= self.width as int
        ||| y == 0
        ||| y + 1 >= self.height as int
        ||| match corner.dir {
            CornerDir::TopLeft => !self.empty_ok(x - 1, y + 1) || !self.empty_ok(x + 1, y - 1)
                || !self.corner_ok(x - 1, y, corner.dir) || !self.corner_ok(x, y - 1, corner.dir)
                || !self.corner_ok(x - 1, y - 1, corner.dir),
            CornerDir::TopRight => !self.empty_ok(x + 1, y + 1) || !self.empty_ok(x - 1, y - 1)
                || !self.corner_ok(x + 1, y, corner.dir) || !self.corner_ok(x, y - 1, corner.dir)
                || !self.corner_ok(x + 1, y - 1, corner.dir),
            CornerDir::BotLeft => !self.empty_ok(x - 1, y - 1) || !self.empty_ok(x + 1, y + 1)
                || !self.corner_ok(x - 1, y, corner.dir) || !self.corner_ok(x, y + 1, corner.dir)
                || !self.corner_ok(x - 1, y + 1, corner.dir),
            CornerDir::BotRight => !self.empty_ok(x - 1, y + 1) || !self.empty_ok(x + 1, y - 1)
                || !self.corner_ok(x + 1, y, corner.dir) || !self.corner_ok(x, y + 1, corner.dir)
                || !self.corner_ok(x + 1, y + 1, corner.dir),
        }
    }

    fn cell_empty_ok(&self, x: usize, y: usize) -> (r: bool)
        requires
            self.wf(),
            x < self.width as int,
            y < self.height as int,
        ensures
            r == self.empty_ok(x as int, y as int),
    {
        match self.rows[y][x] {
            GGCell::Uninitialized => true,
            GGCell::Blocked => true,
            _ => false,
        }
    }

    fn cell_corner_ok(&self, x: usize, y: usize, d: CornerDir) -> (r: bool)
        requires
            self.wf(),
            x < self.width as int,
            y < self.height as int,
        ensures
            r == self.corner_ok(x as int, y as int, d),
    {
        match self.rows[y][x] {
            GGCell::Uninitialized => true,
            GGCell::Corner(e) => e == d.get_opposite_dir(),
            _ => false,
        }
    }

    /// Decide whether an active corner can host any further growth.
    pub fn corner_is_dead(&self, corner: &Corner) -> (r: bool)
        requires
            self.wf(),
        ensures
            r == self.corner_dead_spec(*corner),
    {
        let x = corner.x as usize;
        let y = corner.y as usize;
        if x == 0 || x + 1 >= self.width as usize || y == 0 || y + 1 >= self.height as usize {
            return true;
        }
        let d = corner.dir;
        match d {
            CornerDir::TopLeft => !self.cell_empty_ok(x - 1, y + 1) || !self.cell_empty_ok(
                x + 1,
                y - 1,
            ) || !self.cell_corner_ok(x - 1, y, d) || !self.cell_corner_ok(x, y - 1, d)
                || !self.cell_corner_ok(x - 1, y - 1, d),
            CornerDir::TopRight => !self.cell_empty_ok(x + 1, y + 1) || !self.cell_empty_ok(
                x - 1,
                y - 1,
            ) || !self.cell_corner_ok(x + 1, y, d) || !self.cell_corner_ok(x, y - 1, d)
                || !self.cell_corner_ok(x + 1, y - 1, d),
            CornerDir::BotLeft => !self.cell_empty_ok(x - 1, y - 1) || !self.cell_empty_ok(
                x + 1,
                y + 1,
            ) || !self.cell_corner_ok(x - 1, y, d) || !self.cell_corner_ok(x, y + 1, d)
                || !self.cell_corner_ok(x - 1, y + 1, d),
            CornerDir::BotRight => !self.cell_empty_ok(x - 1, y + 1) || !self.cell_empty_ok(
                x + 1,
                y - 1,
            ) || !self.cell_corner_ok(x + 1, y, d) || !self.cell_corner_ok(x, y + 1, d)
                || !self.cell_corner_ok(x + 1, y + 1, d),
        }
    }
}


/// `corner_dead_spec` stated over a bare cell matrix, so that corner
/// liveness can be spoken of for grids given only by their cells.
pub open spec fn corner_dead_cells(cells: Seq<Seq<GGCell>>, w: int, h: int, c: Corner) -> bool {
    let x = c.x as int;
    let y = c.y as int;
    ||| x == 0
    ||| x + 1 >= w
    ||| y == 0
    ||| y + 1 >= h
    ||| match c.dir {
        CornerDir::TopLeft => !empty_ok_cells(cells, x - 1, y + 1) || !empty_ok_cells(
            cells,
            x + 1,
            y - 1,
        ) || !corner_ok_cells(cells, x - 1, y, c.dir) || !corner_ok_cells(cells, x, y - 1, c.dir)
            || !corner_ok_cells(cells, x - 1, y - 1, c.dir),
        CornerDir::TopRight => !empty_ok_cells(cells, x + 1, y + 1) || !empty_ok_cells(
            cells,
            x - 1,
            y - 1,
        ) || !corner_ok_cells(cells, x + 1, y, c.dir) || !corner_ok_cells(cells, x, y - 1, c.dir)
            || !corner_ok_cells(cells, x + 1, y - 1, c.dir),
        CornerDir::BotLeft => !empty_ok_cells(cells, x - 1, y - 1) || !empty_ok_cells(
            cells,
            x + 1,
            y + 1,
        ) || !corner_ok_cells(cells, x - 1, y, c.dir) || !corner_ok_cells(cells, x, y + 1, c.dir)
            || !corner_ok_cells(cells, x - 1, y + 1, c.dir),
        CornerDir::BotRight => !empty_ok_cells(cells, x - 1, y + 1) || !empty_ok_cells(
            cells,
            x + 1,
            y - 1,
        ) || !corner_ok_cells(cells, x + 1, y, c.dir) || !corner_ok_cells(cells, x, y + 1, c.dir)
            || !corner_ok_cells(cells, x + 1, y + 1, c.dir),
    }
}

pub open spec fn empty_ok_cells(cells: Seq<Seq<GGCell>>, x: int, y: int) -> bool {
    cells[y][x] == GGCell::Uninitialized || cells[y][x] == GGCell::Blocked
}

pub open spec fn corner_ok_cells(cells: Seq<Seq<GGCell>>, x: int, y: int, d: CornerDir) -> bool {
    cells[y][x] == GGCell::Uninitialized || cells[y][x] == GGCell::Corner(d.opposite())
}

/// The two corner-death formulations agree on a well-formed grid.
pub proof fn lemma_corner_dead_agrees(g: Grid, c: Corner)
    requires
        g.wf(),
    ensures
        g.corner_dead_spec(c) == corner_dead_cells(g.cells(), g.width as int, g.height as int, c),
{
    assert forall|x: int, y: int|
        0 <= x < g.width as int && 0 <= y < g.height as int implies #[trigger] g.cells()[y][x]
        == g.cell(x, y) by {}
}

} // verus!
