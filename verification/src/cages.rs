use vstd::prelude::*;

use crate::cell::GGCell;
use crate::connect::{connected, mask_at};
use crate::counting::{count_mat, lemma_count_mat_bounds, lemma_count_mat_clear,
    lemma_count_mat_update};
use crate::grid::Grid;

verus! {

/// A maximal horizontal run of set cells: `len` cells starting at `(x, y)`,
/// with no set cell immediately before or after it in the row.
pub open spec fn is_h_cage(m: Seq<Seq<bool>>, x: int, y: int, len: int) -> bool {
    &&& len >= 1
    &&& forall|i: int| x <= i < x + len ==> #[trigger] mask_at(m, i, y)
    &&& !mask_at(m, x - 1, y)
    &&& !mask_at(m, x + len, y)
}

/// A maximal vertical run of set cells.
pub open spec fn is_v_cage(m: Seq<Seq<bool>>, x: int, y: int, len: int) -> bool {
    &&& len >= 1
    &&& forall|i: int| y <= i < y + len ==> #[trigger] mask_at(m, x, i)
    &&& !mask_at(m, x, y - 1)
    &&& !mask_at(m, x, y + len)
}

/// Every cage of the mask, along either axis, has a length between `lo` and
/// `hi`.
pub open spec fn cages_within(m: Seq<Seq<bool>>, lo: int, hi: int) -> bool {
    &&& forall|x: int, y: int, len: int| #[trigger] is_h_cage(m, x, y, len) ==> lo <= len <= hi
    &&& forall|x: int, y: int, len: int| #[trigger] is_v_cage(m, x, y, len) ==> lo <= len <= hi
}

/// The mask with the cell at `(x, y)` cleared.
pub open spec fn mask_clear(m: Seq<Seq<bool>>, x: int, y: int) -> Seq<Seq<bool>> {
    m.update(y, m[y].update(x, false))
}

/// The mask with the cell at `(x, y)` set.
pub open spec fn mask_set(m: Seq<Seq<bool>>, x: int, y: int) -> Seq<Seq<bool>> {
    m.update(y, m[y].update(x, true))
}

/// Reopening the cell at `(x, y)` would keep the region connected and every
/// cage within the 9-cell bound: the acceptance test of the merge pass.
pub open spec fn open_keeps(m: Seq<Seq<bool>>, x: int, y: int) -> bool {
    connected(mask_set(m, x, y)) && cages_within(mask_set(m, x, y), 1, 9)
}

/// The split pass is stuck on this horizontal cage: blocking any of its
/// plain fillable cells would disconnect the region.
pub open spec fn h_cage_split_stuck(g: Grid, x: int, y: int, len: int) -> bool {
    forall|cx: int|
        x <= cx < x + len && #[trigger] g.cell(cx, y) == GGCell::Normal ==> !connected(
            mask_clear(g.fill_mask(), cx, y),
        )
}

/// The split pass is stuck on this vertical cage.
pub open spec fn v_cage_split_stuck(g: Grid, x: int, y: int, len: int) -> bool {
    forall|cy: int|
        y <= cy < y + len && #[trigger] g.cell(x, cy) == GGCell::Normal ==> !connected(
            mask_clear(g.fill_mask(), x, cy),
        )
}

/// The merge pass is stuck on this single-cell cage: neither axis neighbour
/// can be reopened without breaking connectivity or growing a cage past 9.
pub open spec fn merge_stuck(g: Grid, x: int, y: int, vertical: bool) -> bool {
    if vertical {
        &&& y > 0 ==> !open_keeps(g.fill_mask(), x, y - 1)
        &&& y + 1 < g.height as int ==> !open_keeps(g.fill_mask(), x, y + 1)
    } else {
        &&& x > 0 ==> !open_keeps(g.fill_mask(), x - 1, y)
        &&& x + 1 < g.width as int ==> !open_keeps(g.fill_mask(), x + 1, y)
    }
}

/// The grid's fillable mask agrees with `Grid::fillable` cell by cell.
pub proof fn lemma_mask_fillable(g: Grid)
    requires
        g.wf(),
    ensures
        forall|x: int, y: int| #[trigger] mask_at(g.fill_mask(), x, y) == g.fillable(x, y),
{
    assert forall|x: int, y: int| #[trigger] mask_at(g.fill_mask(), x, y) == g.fillable(x, y) by {
        if 0 <= y < g.height as int && 0 <= x < g.width as int {
            assert(g.fill_mask()[y][x] == g.fillable(x, y));
        }
    }
}

impl Grid {
    /// Scan every row left to right and every column top to bottom for
    /// maximal runs of fillable cells. The result lists each horizontal cage
    /// as `(x, y, false, len)` and each vertical cage as `(x, y, true, len)`,
    /// and lists every cage of the grid.
    pub fn get_cages(&self) -> (r: Vec<(u8, u8, bool, usize)>)
        requires
            self.wf(),
        ensures
            forall|i: int|
                0 <= i < r@.len() && !(#[trigger] r@[i]).2 ==> is_h_cage(
                    self.fill_mask(),
                    r@[i].0 as int,
                    r@[i].1 as int,
                    r@[i].3 as int,
                ),
            forall|i: int|
                0 <= i < r@.len() && (#[trigger] r@[i]).2 ==> is_v_cage(
                    self.fill_mask(),
                    r@[i].0 as int,
                    r@[i].1 as int,
                    r@[i].3 as int,
                ),
            forall|x: int, y: int, len: int|
                #[trigger] is_h_cage(self.fill_mask(), x, y, len) ==> r@.contains(
                    ((x as u8), (y as u8), false, (len as usize)),
                ),
            forall|x: int, y: int, len: int|
                #[trigger] is_v_cage(self.fill_mask(), x, y, len) ==> r@.contains(
                    ((x as u8), (y as u8), true, (len as usize)),
                ),
            r@.no_duplicates(),
    {
        let ghost m = self.fill_mask();
        proof {
            lemma_mask_fillable(*self);
        }
        let mut res: Vec<(u8, u8, bool, usize)> = Vec::new();

        // Horizontal pass.
        let mut y: usize = 0;
        proof {
            assert forall|x0: int, y0: int, len: int|
                #[trigger] is_h_cage(m, x0, y0, len) && y0 < 0 implies res@.contains(
                ((x0 as u8), (y0 as u8), false, (len as usize)),
            ) by {
                assert(mask_at(m, x0, y0));
            }
        }
        while y < self.height as usize
            invariant
                self.wf(),
                m == self.fill_mask(),
                forall|xx: int, yy: int| #[trigger] mask_at(m, xx, yy) == self.fillable(xx, yy),
                y <= self.height as int,
                forall|i: int|
                    0 <= i < res@.len() && !(#[trigger] res@[i]).2 ==> is_h_cage(
                        m,
                        res@[i].0 as int,
                        res@[i].1 as int,
                        res@[i].3 as int,
                    ),
                forall|i: int| 0 <= i < res@.len() ==> !(#[trigger] res@[i]).2,
                res@.no_duplicates(),
                forall|i: int| 0 <= i < res@.len() ==> ((#[trigger] res@[i]).1 as int) < y,
                forall|x0: int, y0: int, len: int|
                    #[trigger] is_h_cage(m, x0, y0, len) && y0 < y ==> res@.contains(
                        ((x0 as u8), (y0 as u8), false, (len as usize)),
                    ),
            decreases self.height as int - y,
        {
            let mut x: usize = 0;
            proof {
                assert forall|x0: int, len: int|
                    #[trigger] is_h_cage(m, x0, y as int, len) && x0 < 0 implies res@.contains(
                    ((x0 as u8), (y as u8), false, (len as usize)),
                ) by {
                    assert(mask_at(m, x0, y as int));
                }
            }
            while x < self.width as usize
                invariant
                    self.wf(),
                    m == self.fill_mask(),
                    forall|xx: int, yy: int| #[trigger] mask_at(m, xx, yy) == self.fillable(xx, yy),
                    y < self.height as int,
                    x <= self.width as int,
                    self.fillable(x as int, y as int) ==> x == 0 || !self.fillable(
                        x - 1,
                        y as int,
                    ),
                    forall|i: int|
                        0 <= i < res@.len() && !(#[trigger] res@[i]).2 ==> is_h_cage(
                            m,
                            res@[i].0 as int,
                            res@[i].1 as int,
                            res@[i].3 as int,
                        ),
                    forall|i: int| 0 <= i < res@.len() ==> !(#[trigger] res@[i]).2,
                    res@.no_duplicates(),
                    forall|i: int|
                        0 <= i < res@.len() ==> ((#[trigger] res@[i]).1 as int) < y || (
                        res@[i].1 as int == y && (res@[i].0 as int) < x),
                    forall|x0: int, y0: int, len: int|
                        #[trigger] is_h_cage(m, x0, y0, len) && y0 < y ==> res@.contains(
                            ((x0 as u8), (y0 as u8), false, (len as usize)),
                        ),
                    forall|x0: int, len: int|
                        #[trigger] is_h_cage(m, x0, y as int, len) && x0 < x ==> res@.contains(
                            ((x0 as u8), (y as u8), false, (len as usize)),
                        ),
                decreases self.width as int - x,
            {
                if self.get_cell_fillable(x, y) {
                    let ghost x0 = x as int;
                    let start_x = x as u8;
                    let mut len: usize = 1;
                    x = x + 1;
                    while self.get_cell_fillable(x, y)
                        invariant
                            self.wf(),
                            m == self.fill_mask(),
                            y < self.height as int,
                            x0 == start_x as int,
                            0 <= x0 < self.width as int,
                            len == x - x0,
                            len >= 1,
                            x <= self.width as int,
                            forall|i: int| x0 <= i < x ==> self.fillable(i, y as int),
                            x0 == 0 || !self.fillable(x0 - 1, y as int),
                        decreases self.width as int - x,
                    {
                        len = len + 1;
                        x = x + 1;
                    }
                    let ghost old_res = res@;
                    res.push((start_x, y as u8, false, len));
                    proof {
                        assert(is_h_cage(m, x0, y as int, len as int)) by {
                            assert forall|i: int| x0 <= i < x0 + len implies #[trigger] mask_at(
                                m,
                                i,
                                y as int,
                            ) by {
                                assert(self.fillable(i, y as int));
                            }
                            assert(!self.fillable(x0 - 1, y as int));
                            assert(!self.fillable(x0 + len, y as int));
                        }
                        assert(res@[res@.len() - 1] == (start_x, y as u8, false, len));
                        assert(res@.no_duplicates()) by {
                            assert forall|i1: int, i2: int|
                                0 <= i1 < res@.len() && 0 <= i2 < res@.len() && i1 != i2 implies res@[i1]
                                != res@[i2] by {
                                if i1 < old_res.len() && i2 < old_res.len() {
                                    assert(old_res[i1] != old_res[i2]);
                                } else if i1 < old_res.len() {
                                    assert((old_res[i1].1 as int) < y || (old_res[i1].0 as int)
                                        < x0);
                                } else if i2 < old_res.len() {
                                    assert((old_res[i2].1 as int) < y || (old_res[i2].0 as int)
                                        < x0);
                                }
                            }
                        }
                        // Any cage that begins strictly inside the scanned run
                        // would have a fillable cell just before it.
                        assert forall|x1: int, len1: int|
                            #[trigger] is_h_cage(m, x1, y as int, len1) && x1 < x implies res@.contains(
                            ((x1 as u8), (y as u8), false, (len1 as usize)),
                        ) by {
                            if x1 < x0 {
                                assert(old_res.contains(((x1 as u8), (y as u8), false, (len1 as usize))));
                                let i = choose|i: int|
                                    0 <= i < old_res.len() && old_res[i] == ((x1 as u8), (y as u8), false, (len1 as usize));
                                assert(res@[i] == old_res[i]);
                            } else {
                                assert(mask_at(m, x1, y as int));
                                if x1 > x0 {
                                    assert(self.fillable(x1 - 1, y as int));
                                    assert(mask_at(m, x1 - 1, y as int));
                                    assert(false);
                                }
                                assert(x1 == x0);
                                if len1 < len {
                                    assert(self.fillable(x0 + len1, y as int));
                                    assert(mask_at(m, x1 + len1, y as int));
                                    assert(false);
                                }
                                if len1 > len {
                                    assert(mask_at(m, x1 + len, y as int));
                                    assert(self.fillable(x0 + len, y as int));
                                    assert(false);
                                }
                                assert(len1 == len);
                                assert(res@[res@.len() - 1] == ((x1 as u8), (y as u8), false, (len1 as usize)));
                            }
                        }
                        assert forall|x1: int, y1: int, len1: int|
                            #[trigger] is_h_cage(m, x1, y1, len1) && y1 < y implies res@.contains(
                            ((x1 as u8), (y1 as u8), false, (len1 as usize)),
                        ) by {
                            assert(old_res.contains(((x1 as u8), (y1 as u8), false, (len1 as usize))));
                            let i = choose|i: int|
                                0 <= i < old_res.len() && old_res[i] == ((x1 as u8), (y1 as u8), false, (len1 as usize));
                            assert(res@[i] == old_res[i]);
                        }
                    }
                } else {
                    proof {
                        assert forall|x0: int, len: int|
                            #[trigger] is_h_cage(m, x0, y as int, len) && x0 < x + 1 implies res@.contains(
                            ((x0 as u8), (y as u8), false, (len as usize)),
                        ) by {
                            if x0 == x as int {
                                assert(mask_at(m, x0, y as int));
                                assert(false);
                            }
                        }
                    }
                    x = x + 1;
                }
            }
            proof {
                assert forall|x0: int, y0: int, len: int|
                    #[trigger] is_h_cage(m, x0, y0, len) && y0 < y + 1 implies res@.contains(
                    ((x0 as u8), (y0 as u8), false, (len as usize)),
                ) by {
                    if y0 == y {
                        assert(mask_at(m, x0, y0));
                        assert(self.fillable(x0, y0));
                        assert(x0 < x);
                    }
                }
            }
            y = y + 1;
        }

        proof {
            assert forall|x0: int, y0: int, len: int|
                #[trigger] is_h_cage(m, x0, y0, len) implies res@.contains(
                ((x0 as u8), (y0 as u8), false, (len as usize)),
            ) by {
                assert(mask_at(m, x0, y0));
            }
            assert forall|x0: int, y0: int, len: int|
                #[trigger] is_v_cage(m, x0, y0, len) && x0 < 0 implies res@.contains(
                ((x0 as u8), (y0 as u8), true, (len as usize)),
            ) by {
                assert(mask_at(m, x0, y0));
            }
        }

        // Vertical pass.
        let mut x: usize = 0;
        while x < self.width as usize
            invariant
                self.wf(),
                m == self.fill_mask(),
                forall|xx: int, yy: int| #[trigger] mask_at(m, xx, yy) == self.fillable(xx, yy),
                x <= self.width as int,
                forall|i: int|
                    0 <= i < res@.len() && !(#[trigger] res@[i]).2 ==> is_h_cage(
                        m,
                        res@[i].0 as int,
                        res@[i].1 as int,
                        res@[i].3 as int,
                    ),
                forall|i: int|
                    0 <= i < res@.len() && (#[trigger] res@[i]).2 ==> is_v_cage(
                        m,
                        res@[i].0 as int,
                        res@[i].1 as int,
                        res@[i].3 as int,
                    ),
                forall|x0: int, y0: int, len: int|
                    #[trigger] is_h_cage(m, x0, y0, len) ==> res@.contains(
                        ((x0 as u8), (y0 as u8), false, (len as usize)),
                    ),
                forall|x0: int, y0: int, len: int|
                    #[trigger] is_v_cage(m, x0, y0, len) && x0 < x ==> res@.contains(
                        ((x0 as u8), (y0 as u8), true, (len as usize)),
                    ),
                res@.no_duplicates(),
                forall|i: int|
                    0 <= i < res@.len() && (#[trigger] res@[i]).2 ==> ((res@[i].0 as int) < x),
            decreases self.width as int - x,
        {
            let mut y: usize = 0;
            proof {
                assert forall|y0: int, len: int|
                    #[trigger] is_v_cage(m, x as int, y0, len) && y0 < 0 implies res@.contains(
                    ((x as u8), (y0 as u8), true, (len as usize)),
                ) by {
                    assert(mask_at(m, x as int, y0));
                }
            }
            while y < self.height as usize
                invariant
                    self.wf(),
                    m == self.fill_mask(),
                    forall|xx: int, yy: int| #[trigger] mask_at(m, xx, yy) == self.fillable(xx, yy),
                    x < self.width as int,
                    y <= self.height as int,
                    self.fillable(x as int, y as int) ==> y == 0 || !self.fillable(
                        x as int,
                        y - 1,
                    ),
                    forall|i: int|
                        0 <= i < res@.len() && !(#[trigger] res@[i]).2 ==> is_h_cage(
                            m,
                            res@[i].0 as int,
                            res@[i].1 as int,
                            res@[i].3 as int,
                        ),
                    forall|i: int|
                        0 <= i < res@.len() && (#[trigger] res@[i]).2 ==> is_v_cage(
                            m,
                            res@[i].0 as int,
                            res@[i].1 as int,
                            res@[i].3 as int,
                        ),
                    forall|x0: int, y0: int, len: int|
                        #[trigger] is_h_cage(m, x0, y0, len) ==> res@.contains(
                            ((x0 as u8), (y0 as u8), false, (len as usize)),
                        ),
                    forall|x0: int, y0: int, len: int|
                        #[trigger] is_v_cage(m, x0, y0, len) && x0 < x ==> res@.contains(
                            ((x0 as u8), (y0 as u8), true, (len as usize)),
                        ),
                    forall|y0: int, len: int|
                        #[trigger] is_v_cage(m, x as int, y0, len) && y0 < y ==> res@.contains(
                            ((x as u8), (y0 as u8), true, (len as usize)),
                        ),
                    res@.no_duplicates(),
                    forall|i: int|
                        0 <= i < res@.len() && (#[trigger] res@[i]).2 ==> ((res@[i].0 as int) < x
                            || (res@[i].0 as int == x && (res@[i].1 as int) < y)),
                decreases self.height as int - y,
            {
                if self.get_cell_fillable(x, y) {
                    let ghost y0 = y as int;
                    let start_y = y as u8;
                    let mut len: usize = 1;
                    y = y + 1;
                    while self.get_cell_fillable(x, y)
                        invariant
                            self.wf(),
                            m == self.fill_mask(),
                            x < self.width as int,
                            y0 == start_y as int,
                            0 <= y0 < self.height as int,
                            len == y - y0,
                            len >= 1,
                            y <= self.height as int,
                            forall|i: int| y0 <= i < y ==> self.fillable(x as int, i),
                            y0 == 0 || !self.fillable(x as int, y0 - 1),
                        decreases self.height as int - y,
                    {
                        len = len + 1;
                        y = y + 1;
                    }
                    let ghost old_res = res@;
                    res.push((x as u8, start_y, true, len));
                    proof {
                        assert(is_v_cage(m, x as int, y0, len as int)) by {
                            assert forall|i: int| y0 <= i < y0 + len implies #[trigger] mask_at(
                                m,
                                x as int,
                                i,
                            ) by {
                                assert(self.fillable(x as int, i));
                            }
                            assert(!self.fillable(x as int, y0 - 1));
                            assert(!self.fillable(x as int, y0 + len));
                        }
                        assert(res@[res@.len() - 1] == (x as u8, start_y, true, len));
                        assert(res@.no_duplicates()) by {
                            assert forall|i1: int, i2: int|
                                0 <= i1 < res@.len() && 0 <= i2 < res@.len() && i1 != i2 implies res@[i1]
                                != res@[i2] by {
                                if i1 < old_res.len() && i2 < old_res.len() {
                                    assert(old_res[i1] != old_res[i2]);
                                } else if i1 < old_res.len() {
                                    assert(!old_res[i1].2 || (old_res[i1].0 as int) < x as int || (
                                    old_res[i1].1 as int) < y0);
                                } else if i2 < old_res.len() {
                                    assert(!old_res[i2].2 || (old_res[i2].0 as int) < x as int || (
                                    old_res[i2].1 as int) < y0);
                                }
                            }
                        }
                        assert forall|y1: int, len1: int|
                            #[trigger] is_v_cage(m, x as int, y1, len1) && y1 < y implies res@.contains(
                            ((x as u8), (y1 as u8), true, (len1 as usize)),
                        ) by {
                            if y1 < y0 {
                                assert(old_res.contains(((x as u8), (y1 as u8), true, (len1 as usize))));
                                let i = choose|i: int|
                                    0 <= i < old_res.len() && old_res[i] == ((x as u8), (y1 as u8), true, (len1 as usize));
                                assert(res@[i] == old_res[i]);
                            } else {
                                assert(mask_at(m, x as int, y1));
                                if y1 > y0 {
                                    assert(self.fillable(x as int, y1 - 1));
                                    assert(mask_at(m, x as int, y1 - 1));
                                    assert(false);
                                }
                                assert(y1 == y0);
                                if len1 < len {
                                    assert(self.fillable(x as int, y0 + len1));
                                    assert(mask_at(m, x as int, y1 + len1));
                                    assert(false);
                                }
                                if len1 > len {
                                    assert(mask_at(m, x as int, y1 + len));
                                    assert(self.fillable(x as int, y0 + len));
                                    assert(false);
                                }
                                assert(len1 == len);
                                assert(res@[res@.len() - 1] == ((x as u8), (y1 as u8), true, (len1 as usize)));
                            }
                        }
                        assert forall|i: int|
                            0 <= i < res@.len() && !(#[trigger] res@[i]).2 implies is_h_cage(
                            m,
                            res@[i].0 as int,
                            res@[i].1 as int,
                            res@[i].3 as int,
                        ) by {
                            assert(res@[i] == old_res[i]);
                        }
                        assert forall|x1: int, y1: int, len1: int|
                            #[trigger] is_h_cage(m, x1, y1, len1) implies res@.contains(
                            ((x1 as u8), (y1 as u8), false, (len1 as usize)),
                        ) by {
                            assert(old_res.contains(((x1 as u8), (y1 as u8), false, (len1 as usize))));
                            let i = choose|i: int|
                                0 <= i < old_res.len() && old_res[i] == ((x1 as u8), (y1 as u8), false, (len1 as usize));
                            assert(res@[i] == old_res[i]);
                        }
                        assert forall|x1: int, y1: int, len1: int|
                            #[trigger] is_v_cage(m, x1, y1, len1) && x1 < x implies res@.contains(
                            ((x1 as u8), (y1 as u8), true, (len1 as usize)),
                        ) by {
                            assert(old_res.contains(((x1 as u8), (y1 as u8), true, (len1 as usize))));
                            let i = choose|i: int|
                                0 <= i < old_res.len() && old_res[i] == ((x1 as u8), (y1 as u8), true, (len1 as usize));
                            assert(res@[i] == old_res[i]);
                        }
                    }
                } else {
                    proof {
                        assert forall|y0: int, len: int|
                            #[trigger] is_v_cage(m, x as int, y0, len) && y0 < y + 1 implies res@.contains(
                            ((x as u8), (y0 as u8), true, (len as usize)),
                        ) by {
                            if y0 == y as int {
                                assert(mask_at(m, x as int, y0));
                                assert(false);
                            }
                        }
                    }
                    y = y + 1;
                }
            }
            proof {
                assert forall|x0: int, y0: int, len: int|
                    #[trigger] is_v_cage(m, x0, y0, len) && x0 < x + 1 implies res@.contains(
                    ((x0 as u8), (y0 as u8), true, (len as usize)),
                ) by {
                    if x0 == x {
                        assert(mask_at(m, x0, y0));
                        assert(self.fillable(x0, y0));
                        assert(y0 < y);
                    }
                }
            }
            x = x + 1;
        }

        proof {
            assert forall|x0: int, y0: int, len: int|
                #[trigger] is_h_cage(m, x0, y0, len) implies res@.contains(
                ((x0 as u8), (y0 as u8), false, (len as usize)),
            ) by {
                assert(mask_at(m, x0, y0));
            }
            assert forall|x0: int, y0: int, len: int|
                #[trigger] is_v_cage(m, x0, y0, len) implies res@.contains(
                ((x0 as u8), (y0 as u8), true, (len as usize)),
            ) by {
                assert(mask_at(m, x0, y0));
            }
        }
        res
    }
}

/// True when some listed cage is longer than `limit`.
pub fn any_cage_over(cages: &Vec<(u8, u8, bool, usize)>, limit: usize) -> (r: bool)
    ensures
        r == exists|i: int| 0 <= i < cages@.len() && (#[trigger] cages@[i]).3 > limit,
{
    let mut i: usize = 0;
    while i < cages.len()
        invariant
            i <= cages@.len(),
            forall|j: int| 0 <= j < i ==> (#[trigger] cages@[j]).3 <= limit,
        decreases cages@.len() - i,
    {
        if cages[i].3 > limit {
            return true;
        }
        i = i + 1;
    }
    false
}

/// True when some listed cage is shorter than `lo` or longer than `hi`.
pub fn any_cage_outside(cages: &Vec<(u8, u8, bool, usize)>, lo: usize, hi: usize) -> (r: bool)
    ensures
        r == exists|i: int|
            0 <= i < cages@.len() && ((#[trigger] cages@[i]).3 < lo || cages@[i].3 > hi),
{
    let mut i: usize = 0;
    while i < cages.len()
        invariant
            i <= cages@.len(),
            forall|j: int| 0 <= j < i ==> lo <= (#[trigger] cages@[j]).3 <= hi,
        decreases cages@.len() - i,
    {
        if cages[i].3 < lo || cages[i].3 > hi {
            return true;
        }
        i = i + 1;
    }
    false
}


impl Grid {
    /// Tentatively turn one plain fillable cell into a structural blocker;
    /// keep the change only if the fillable region stays connected, otherwise
    /// restore the cell exactly as it was.
    fn try_block_cell(&mut self, nx: u8, ny: u8) -> (r: bool)
        requires
            old(self).wf(),
            nx < old(self).width,
            ny < old(self).height,
            old(self).cell(nx as int, ny as int) == GGCell::Normal,
        ensures
            final(self).wf(),
            final(self).width == old(self).width,
            final(self).height == old(self).height,
            r == connected(mask_clear(old(self).fill_mask(), nx as int, ny as int)),
            forall|x: int, y: int|
                0 <= x < old(self).width as int && 0 <= y < old(self).height as int
                    ==> #[trigger] final(self).cell(x, y) == (if r && x == nx as int && y
                    == ny as int {
                    GGCell::Blocked
                } else {
                    old(self).cell(x, y)
                }),
            r ==> connected(final(self).fill_mask()) && count_mat(final(self).fill_mask())
                == count_mat(old(self).fill_mask()) - 1,
            !r ==> final(self).fill_mask() == old(self).fill_mask(),
    {
        let nxu = nx as usize;
        let nyu = ny as usize;
        let old_state = self.rows[nyu][nxu];
        self.rows[nyu][nxu] = GGCell::Blocked;
        proof {
            let m0 = old(self).fill_mask();
            let cleared = mask_clear(m0, nx as int, ny as int);
            assert(m0[ny as int][nx as int] == old(self).fillable(nx as int, ny as int));
            lemma_count_mat_clear(m0, nx as int, ny as int);
            assert forall|yy: int|
                0 <= yy < self.height as int implies self.fill_mask()[yy] == cleared[yy] by {
                assert forall|xx: int|
                    0 <= xx < self.width as int implies self.fill_mask()[yy][xx]
                    == cleared[yy][xx] by {
                    assert(self.fill_mask()[yy][xx] == self.fillable(xx, yy));
                    assert(m0[yy][xx] == old(self).fillable(xx, yy));
                }
                assert(self.fill_mask()[yy] =~= cleared[yy]);
            }
            assert(self.fill_mask() =~= cleared);
        }
        if !self.check_is_connected() {
            self.rows[nyu][nxu] = old_state;
            proof {
                assert forall|x: int, y: int|
                    0 <= x < old(self).width as int && 0 <= y
                        < old(self).height as int implies #[trigger] self.cell(x, y) == old(self).cell(x, y) by {}
                assert forall|yy: int|
                    0 <= yy < self.height as int implies self.fill_mask()[yy] == old(self).fill_mask()[yy] by {
                    assert forall|xx: int|
                        0 <= xx < self.width as int implies self.fill_mask()[yy][xx] == old(self).fill_mask()[yy][xx] by {
                        assert(self.cell(xx, yy) == old(self).cell(xx, yy));
                    }
                    assert(self.fill_mask()[yy] =~= old(self).fill_mask()[yy]);
                }
                assert(self.fill_mask() =~= old(self).fill_mask());
            }
            false
        } else {
            true
        }
    }

    /// Tentatively reopen one cell as plain fillable; keep the change only if
    /// the fillable region stays connected and no cage grows past 9 cells,
    /// otherwise restore the cell exactly as it was.
    fn try_open_cell(&mut self, nx: u8, ny: u8) -> (r: bool)
        requires
            old(self).wf(),
            nx < old(self).width,
            ny < old(self).height,
            !old(self).fillable(nx as int, ny as int),
        ensures
            final(self).wf(),
            final(self).width == old(self).width,
            final(self).height == old(self).height,
            r == open_keeps(old(self).fill_mask(), nx as int, ny as int),
            forall|x: int, y: int|
                0 <= x < old(self).width as int && 0 <= y < old(self).height as int
                    ==> #[trigger] final(self).cell(x, y) == (if r && x == nx as int && y
                    == ny as int {
                    GGCell::Normal
                } else {
                    old(self).cell(x, y)
                }),
            r ==> connected(final(self).fill_mask()) && cages_within(final(self).fill_mask(), 1, 9)
                && count_mat(final(self).fill_mask()) == count_mat(old(self).fill_mask()) + 1,
            !r ==> final(self).fill_mask() == old(self).fill_mask(),
    {
        let nxu = nx as usize;
        let nyu = ny as usize;
        let old_state = self.rows[nyu][nxu];
        self.rows[nyu][nxu] = GGCell::Normal;
        proof {
            let m0 = old(self).fill_mask();
            let opened = mask_set(m0, nx as int, ny as int);
            assert(m0[ny as int][nx as int] == old(self).fillable(nx as int, ny as int));
            lemma_count_mat_update(m0, nx as int, ny as int);
            assert forall|yy: int|
                0 <= yy < self.height as int implies self.fill_mask()[yy] == opened[yy] by {
                assert forall|xx: int|
                    0 <= xx < self.width as int implies self.fill_mask()[yy][xx]
                    == opened[yy][xx] by {
                    assert(self.fill_mask()[yy][xx] == self.fillable(xx, yy));
                    assert(m0[yy][xx] == old(self).fillable(xx, yy));
                }
                assert(self.fill_mask()[yy] =~= opened[yy]);
            }
            assert(self.fill_mask() =~= opened);
        }
        let mut keep = self.check_is_connected();
        if keep {
            let cages = self.get_cages();
            if any_cage_over(&cages, 9) {
                proof {
                    let i = choose|i: int| 0 <= i < cages@.len() && (#[trigger] cages@[i]).3 > 9;
                    if cages@[i].2 {
                        assert(is_v_cage(
                            self.fill_mask(),
                            cages@[i].0 as int,
                            cages@[i].1 as int,
                            cages@[i].3 as int,
                        ));
                    } else {
                        assert(is_h_cage(
                            self.fill_mask(),
                            cages@[i].0 as int,
                            cages@[i].1 as int,
                            cages@[i].3 as int,
                        ));
                    }
                    assert(!cages_within(self.fill_mask(), 1, 9));
                }
                keep = false;
            } else {
                proof {
                    let m1 = self.fill_mask();
                    assert forall|x: int, y: int, len: int|
                        #[trigger] is_h_cage(m1, x, y, len) implies 1 <= len <= 9 by {
                        assert(cages@.contains(((x as u8), (y as u8), false, (len as usize))));
                        let i = choose|i: int|
                            0 <= i < cages@.len() && cages@[i] == ((x as u8), (y as u8), false, (
                            len as usize));
                        assert(cages@[i].3 <= 9);
                        assert(mask_at(m1, x, y));
                        assert(mask_at(m1, x + len - 1, y));
                        assert(len <= m1[y].len());
                    }
                    assert forall|x: int, y: int, len: int|
                        #[trigger] is_v_cage(m1, x, y, len) implies 1 <= len <= 9 by {
                        assert(cages@.contains(((x as u8), (y as u8), true, (len as usize))));
                        let i = choose|i: int|
                            0 <= i < cages@.len() && cages@[i] == ((x as u8), (y as u8), true, (
                            len as usize));
                        assert(cages@[i].3 <= 9);
                        assert(mask_at(m1, x, y));
                        assert(mask_at(m1, x, y + len - 1));
                        assert(len <= m1.len());
                    }
                }
            }
        }
        if !keep {
            self.rows[nyu][nxu] = old_state;
            proof {
                assert forall|x: int, y: int|
                    0 <= x < old(self).width as int && 0 <= y
                        < old(self).height as int implies #[trigger] self.cell(x, y) == old(self).cell(x, y) by {}
                assert forall|yy: int|
                    0 <= yy < self.height as int implies self.fill_mask()[yy] == old(self).fill_mask()[yy] by {
                    assert forall|xx: int|
                        0 <= xx < self.width as int implies self.fill_mask()[yy][xx] == old(self).fill_mask()[yy][xx] by {
                        assert(self.cell(xx, yy) == old(self).cell(xx, yy));
                    }
                    assert(self.fill_mask()[yy] =~= old(self).fill_mask()[yy]);
                }
                assert(self.fill_mask() =~= old(self).fill_mask());
            }
            false
        } else {
            true
        }
    }
}


impl Grid {
    /// Walk a vertical over-long cage outward from its midpoint, blocking the
    /// first plain fillable cell in each direction whose loss keeps the
    /// region connected. A fruitless walk proves the cage stuck: blocking any
    /// of its plain cells would disconnect the region.
    fn split_cage_v(&mut self, x: u8, y: u8, len: usize) -> (r: bool)
        requires
            old(self).wf(),
            is_v_cage(old(self).fill_mask(), x as int, y as int, len as int),
            len >= 2,
        ensures
            final(self).wf(),
            final(self).width == old(self).width,
            final(self).height == old(self).height,
            connected(old(self).fill_mask()) ==> connected(final(self).fill_mask()),
            forall|a: int, b: int|
                0 <= a < old(self).width as int && 0 <= b < old(self).height as int
                    ==> #[trigger] final(self).cell(a, b) == old(self).cell(a, b) || (final(self).cell(a, b) == GGCell::Blocked && old(self).cell(a, b) == GGCell::Normal),
            r ==> count_mat(final(self).fill_mask()) < count_mat(old(self).fill_mask()),
            !r ==> final(self).fill_mask() == old(self).fill_mask(),
            !r ==> forall|a: int, b: int|
                0 <= a < old(self).width as int && 0 <= b < old(self).height as int
                    ==> #[trigger] final(self).cell(a, b) == old(self).cell(a, b),
            !r ==> v_cage_split_stuck(*old(self), x as int, y as int, len as int),
    {
        let ghost m0 = old(self).fill_mask();
        proof {
            assert(mask_at(m0, x as int, y as int));
            assert(mask_at(m0, x as int, y as int + len - 1));
        }
        let midpoint: usize = len / 2;
        let mut changed = false;
        let mut j: usize = midpoint;
        while j < len && !changed
            invariant
                self.wf(),
                self.width == old(self).width,
                self.height == old(self).height,
                m0 == old(self).fill_mask(),
                is_v_cage(m0, x as int, y as int, len as int),
                x < old(self).width,
                y as int + len <= old(self).height as int,
                midpoint <= j <= len,
                connected(old(self).fill_mask()) ==> connected(self.fill_mask()),
                forall|a: int, b: int|
                    0 <= a < old(self).width as int && 0 <= b < old(self).height as int
                        ==> #[trigger] self.cell(a, b) == old(self).cell(a, b) || (self.cell(a, b)
                        == GGCell::Blocked && old(self).cell(a, b) == GGCell::Normal),
                changed ==> count_mat(self.fill_mask()) < count_mat(m0),
                !changed ==> self.fill_mask() == old(self).fill_mask(),
                !changed ==> forall|a: int, b: int|
                    0 <= a < old(self).width as int && 0 <= b < old(self).height as int
                        ==> #[trigger] self.cell(a, b) == old(self).cell(a, b),
                !changed ==> forall|cy: int|
                    y + midpoint <= cy < y + j && #[trigger] old(self).cell(x as int, cy)
                        == GGCell::Normal ==> !connected(mask_clear(m0, x as int, cy)),
            decreases len - j,
        {
            proof {
                assert(mask_at(m0, x as int, y as int + j));
            }
            let ny = y + (j as u8);
            let cur = self.rows[ny as usize][x as usize];
            let ghost pre = *self;
            let mut kept = false;
            if matches!(cur, GGCell::Normal) {
                kept = self.try_block_cell(x, ny);
                if kept {
                    changed = true;
                }
            }
            proof {
                assert forall|a: int, b: int|
                    0 <= a < old(self).width as int && 0 <= b
                        < old(self).height as int implies #[trigger] self.cell(a, b) == old(self).cell(a, b) || (self.cell(a, b) == GGCell::Blocked && old(self).cell(a, b)
                        == GGCell::Normal) by {
                    assert(pre.cell(a, b) == old(self).cell(a, b) || (pre.cell(a, b)
                        == GGCell::Blocked && old(self).cell(a, b) == GGCell::Normal));
                }
                if !changed {
                    assert forall|a: int, b: int|
                        0 <= a < old(self).width as int && 0 <= b
                            < old(self).height as int implies #[trigger] self.cell(a, b) == old(self).cell(a, b) by {
                        assert(pre.cell(a, b) == old(self).cell(a, b));
                    }
                    assert(self.fill_mask() == pre.fill_mask());
                    if cur == GGCell::Normal {
                        assert(pre.cell(x as int, ny as int) == GGCell::Normal);
                        assert(!connected(mask_clear(pre.fill_mask(), x as int, ny as int)));
                        assert(!connected(mask_clear(m0, x as int, ny as int)));
                    } else {
                        assert(old(self).cell(x as int, ny as int) != GGCell::Normal);
                    }
                }
            }
            j = j + 1;
        }
        let mut changed2 = false;
        let mut j2: usize = midpoint;
        while j2 > 0 && !changed2
            invariant
                self.wf(),
                self.width == old(self).width,
                self.height == old(self).height,
                m0 == old(self).fill_mask(),
                is_v_cage(m0, x as int, y as int, len as int),
                x < old(self).width,
                y as int + len <= old(self).height as int,
                midpoint <= len,
                0 <= j2 <= midpoint,
                connected(old(self).fill_mask()) ==> connected(self.fill_mask()),
                forall|a: int, b: int|
                    0 <= a < old(self).width as int && 0 <= b < old(self).height as int
                        ==> #[trigger] self.cell(a, b) == old(self).cell(a, b) || (self.cell(a, b)
                        == GGCell::Blocked && old(self).cell(a, b) == GGCell::Normal),
                changed || changed2 ==> count_mat(self.fill_mask()) < count_mat(m0),
                !changed && !changed2 ==> self.fill_mask() == old(self).fill_mask(),
                !changed && !changed2 ==> forall|a: int, b: int|
                    0 <= a < old(self).width as int && 0 <= b < old(self).height as int
                        ==> #[trigger] self.cell(a, b) == old(self).cell(a, b),
                !changed ==> forall|cy: int|
                    y + midpoint <= cy < y + len && #[trigger] old(self).cell(x as int, cy)
                        == GGCell::Normal ==> !connected(mask_clear(m0, x as int, cy)),
                !changed && !changed2 ==> forall|cy: int|
                    y + j2 <= cy < y + midpoint && #[trigger] old(self).cell(x as int, cy)
                        == GGCell::Normal ==> !connected(mask_clear(m0, x as int, cy)),
            decreases j2,
        {
            j2 = j2 - 1;
            proof {
                assert(mask_at(m0, x as int, y as int + j2));
            }
            let ny = y + (j2 as u8);
            let cur = self.rows[ny as usize][x as usize];
            let ghost pre = *self;
            let mut kept = false;
            if matches!(cur, GGCell::Normal) {
                kept = self.try_block_cell(x, ny);
                if kept {
                    changed2 = true;
                }
            }
            proof {
                assert forall|a: int, b: int|
                    0 <= a < old(self).width as int && 0 <= b
                        < old(self).height as int implies #[trigger] self.cell(a, b) == old(self).cell(a, b) || (self.cell(a, b) == GGCell::Blocked && old(self).cell(a, b)
                        == GGCell::Normal) by {
                    assert(pre.cell(a, b) == old(self).cell(a, b) || (pre.cell(a, b)
                        == GGCell::Blocked && old(self).cell(a, b) == GGCell::Normal));
                }
                if !changed && !changed2 {
                    assert forall|a: int, b: int|
                        0 <= a < old(self).width as int && 0 <= b
                            < old(self).height as int implies #[trigger] self.cell(a, b) == old(self).cell(a, b) by {
                        assert(pre.cell(a, b) == old(self).cell(a, b));
                    }
                    assert(self.fill_mask() == pre.fill_mask());
                    if cur == GGCell::Normal {
                        assert(pre.cell(x as int, ny as int) == GGCell::Normal);
                        assert(!connected(mask_clear(pre.fill_mask(), x as int, ny as int)));
                        assert(!connected(mask_clear(m0, x as int, ny as int)));
                    } else {
                        assert(old(self).cell(x as int, ny as int) != GGCell::Normal);
                    }
                }
            }
        }
        changed || changed2
    }

    /// Walk a horizontal over-long cage outward from its midpoint, blocking
    /// the first plain fillable cell in each direction whose loss keeps the
    /// region connected.
    fn split_cage_h(&mut self, x: u8, y: u8, len: usize) -> (r: bool)
        requires
            old(self).wf(),
            is_h_cage(old(self).fill_mask(), x as int, y as int, len as int),
            len >= 2,
        ensures
            final(self).wf(),
            final(self).width == old(self).width,
            final(self).height == old(self).height,
            connected(old(self).fill_mask()) ==> connected(final(self).fill_mask()),
            forall|a: int, b: int|
                0 <= a < old(self).width as int && 0 <= b < old(self).height as int
                    ==> #[trigger] final(self).cell(a, b) == old(self).cell(a, b) || (final(self).cell(a, b) == GGCell::Blocked && old(self).cell(a, b) == GGCell::Normal),
            r ==> count_mat(final(self).fill_mask()) < count_mat(old(self).fill_mask()),
            !r ==> final(self).fill_mask() == old(self).fill_mask(),
            !r ==> forall|a: int, b: int|
                0 <= a < old(self).width as int && 0 <= b < old(self).height as int
                    ==> #[trigger] final(self).cell(a, b) == old(self).cell(a, b),
            !r ==> h_cage_split_stuck(*old(self), x as int, y as int, len as int),
    {
        let ghost m0 = old(self).fill_mask();
        proof {
            assert(mask_at(m0, x as int, y as int));
            assert(mask_at(m0, x as int + len - 1, y as int));
        }
        let midpoint: usize = len / 2;
        let mut changed = false;
        let mut j: usize = midpoint;
        while j < len && !changed
            invariant
                self.wf(),
                self.width == old(self).width,
                self.height == old(self).height,
                m0 == old(self).fill_mask(),
                is_h_cage(m0, x as int, y as int, len as int),
                y < old(self).height,
                x as int + len <= old(self).width as int,
                midpoint <= j <= len,
                connected(old(self).fill_mask()) ==> connected(self.fill_mask()),
                forall|a: int, b: int|
                    0 <= a < old(self).width as int && 0 <= b < old(self).height as int
                        ==> #[trigger] self.cell(a, b) == old(self).cell(a, b) || (self.cell(a, b)
                        == GGCell::Blocked && old(self).cell(a, b) == GGCell::Normal),
                changed ==> count_mat(self.fill_mask()) < count_mat(m0),
                !changed ==> self.fill_mask() == old(self).fill_mask(),
                !changed ==> forall|a: int, b: int|
                    0 <= a < old(self).width as int && 0 <= b < old(self).height as int
                        ==> #[trigger] self.cell(a, b) == old(self).cell(a, b),
                !changed ==> forall|cx: int|
                    x + midpoint <= cx < x + j && #[trigger] old(self).cell(cx, y as int)
                        == GGCell::Normal ==> !connected(mask_clear(m0, cx, y as int)),
            decreases len - j,
        {
            proof {
                assert(mask_at(m0, x as int + j, y as int));
            }
            let nx = x + (j as u8);
            let cur = self.rows[y as usize][nx as usize];
            let ghost pre = *self;
            let mut kept = false;
            if matches!(cur, GGCell::Normal) {
                kept = self.try_block_cell(nx, y);
                if kept {
                    changed = true;
                }
            }
            proof {
                assert forall|a: int, b: int|
                    0 <= a < old(self).width as int && 0 <= b
                        < old(self).height as int implies #[trigger] self.cell(a, b) == old(self).cell(a, b) || (self.cell(a, b) == GGCell::Blocked && old(self).cell(a, b)
                        == GGCell::Normal) by {
                    assert(pre.cell(a, b) == old(self).cell(a, b) || (pre.cell(a, b)
                        == GGCell::Blocked && old(self).cell(a, b) == GGCell::Normal));
                }
                if !changed {
                    assert forall|a: int, b: int|
                        0 <= a < old(self).width as int && 0 <= b
                            < old(self).height as int implies #[trigger] self.cell(a, b) == old(self).cell(a, b) by {
                        assert(pre.cell(a, b) == old(self).cell(a, b));
                    }
                    assert(self.fill_mask() == pre.fill_mask());
                    if cur == GGCell::Normal {
                        assert(pre.cell(nx as int, y as int) == GGCell::Normal);
                        assert(!connected(mask_clear(pre.fill_mask(), nx as int, y as int)));
                        assert(!connected(mask_clear(m0, nx as int, y as int)));
                    } else {
                        assert(old(self).cell(nx as int, y as int) != GGCell::Normal);
                    }
                }
            }
            j = j + 1;
        }
        let mut changed2 = false;
        let mut j2: usize = midpoint;
        while j2 > 0 && !changed2
            invariant
                self.wf(),
                self.width == old(self).width,
                self.height == old(self).height,
                m0 == old(self).fill_mask(),
                is_h_cage(m0, x as int, y as int, len as int),
                y < old(self).height,
                x as int + len <= old(self).width as int,
                midpoint <= len,
                0 <= j2 <= midpoint,
                connected(old(self).fill_mask()) ==> connected(self.fill_mask()),
                forall|a: int, b: int|
                    0 <= a < old(self).width as int && 0 <= b < old(self).height as int
                        ==> #[trigger] self.cell(a, b) == old(self).cell(a, b) || (self.cell(a, b)
                        == GGCell::Blocked && old(self).cell(a, b) == GGCell::Normal),
                changed || changed2 ==> count_mat(self.fill_mask()) < count_mat(m0),
                !changed && !changed2 ==> self.fill_mask() == old(self).fill_mask(),
                !changed && !changed2 ==> forall|a: int, b: int|
                    0 <= a < old(self).width as int && 0 <= b < old(self).height as int
                        ==> #[trigger] self.cell(a, b) == old(self).cell(a, b),
                !changed ==> forall|cx: int|
                    x + midpoint <= cx < x + len && #[trigger] old(self).cell(cx, y as int)
                        == GGCell::Normal ==> !connected(mask_clear(m0, cx, y as int)),
                !changed && !changed2 ==> forall|cx: int|
                    x + j2 <= cx < x + midpoint && #[trigger] old(self).cell(cx, y as int)
                        == GGCell::Normal ==> !connected(mask_clear(m0, cx, y as int)),
            decreases j2,
        {
            j2 = j2 - 1;
            proof {
                assert(mask_at(m0, x as int + j2, y as int));
            }
            let nx = x + (j2 as u8);
            let cur = self.rows[y as usize][nx as usize];
            let ghost pre = *self;
            let mut kept = false;
            if matches!(cur, GGCell::Normal) {
                kept = self.try_block_cell(nx, y);
                if kept {
                    changed2 = true;
                }
            }
            proof {
                assert forall|a: int, b: int|
                    0 <= a < old(self).width as int && 0 <= b
                        < old(self).height as int implies #[trigger] self.cell(a, b) == old(self).cell(a, b) || (self.cell(a, b) == GGCell::Blocked && old(self).cell(a, b)
                        == GGCell::Normal) by {
                    assert(pre.cell(a, b) == old(self).cell(a, b) || (pre.cell(a, b)
                        == GGCell::Blocked && old(self).cell(a, b) == GGCell::Normal));
                }
                if !changed && !changed2 {
                    assert forall|a: int, b: int|
                        0 <= a < old(self).width as int && 0 <= b
                            < old(self).height as int implies #[trigger] self.cell(a, b) == old(self).cell(a, b) by {
                        assert(pre.cell(a, b) == old(self).cell(a, b));
                    }
                    assert(self.fill_mask() == pre.fill_mask());
                    if cur == GGCell::Normal {
                        assert(pre.cell(nx as int, y as int) == GGCell::Normal);
                        assert(!connected(mask_clear(pre.fill_mask(), nx as int, y as int)));
                        assert(!connected(mask_clear(m0, nx as int, y as int)));
                    } else {
                        assert(old(self).cell(nx as int, y as int) != GGCell::Normal);
                    }
                }
            }
        }
        changed || changed2
    }
}


impl Grid {
    /// Try to absorb a single-cell vertical cage by reopening the cell just
    /// above it, then the cell just below it. A fruitless attempt proves the
    /// cage stuck: neither neighbour can be reopened.
    fn merge_cage_v(&mut self, x: u8, y: u8) -> (r: bool)
        requires
            old(self).wf(),
            is_v_cage(old(self).fill_mask(), x as int, y as int, 1),
        ensures
            final(self).wf(),
            final(self).width == old(self).width,
            final(self).height == old(self).height,
            connected(old(self).fill_mask()) ==> connected(final(self).fill_mask()),
            forall|a: int, b: int|
                0 <= a < old(self).width as int && 0 <= b < old(self).height as int
                    ==> #[trigger] final(self).cell(a, b) == old(self).cell(a, b) || (final(self).cell(a, b) == GGCell::Normal && !old(self).cell(a, b).is_fill()),
            r ==> count_mat(final(self).fill_mask()) == count_mat(old(self).fill_mask()) + 1
                && connected(final(self).fill_mask()) && cages_within(final(self).fill_mask(), 1, 9),
            !r ==> final(self).fill_mask() == old(self).fill_mask(),
            !r ==> forall|a: int, b: int|
                0 <= a < old(self).width as int && 0 <= b < old(self).height as int
                    ==> #[trigger] final(self).cell(a, b) == old(self).cell(a, b),
            !r ==> merge_stuck(*old(self), x as int, y as int, true),
    {
        proof {
            lemma_mask_fillable(*old(self));
            assert(mask_at(old(self).fill_mask(), x as int, y as int));
        }
        let mut merged = false;
        if y > 0 {
            merged = self.try_open_cell(x, y - 1);
        }
        if !merged && (y as usize) + 1 < self.height as usize {
            let ghost mid = *self;
            merged = self.try_open_cell(x, y + 1);
            proof {
                assert forall|a: int, b: int|
                    0 <= a < old(self).width as int && 0 <= b
                        < old(self).height as int implies #[trigger] self.cell(a, b) == old(self).cell(a, b) || (self.cell(a, b) == GGCell::Normal && !old(self).cell(
                    a,
                    b,
                ).is_fill()) by {
                    assert(mid.cell(a, b) == old(self).cell(a, b));
                }
                if !merged {
                    assert forall|a: int, b: int|
                        0 <= a < old(self).width as int && 0 <= b
                            < old(self).height as int implies #[trigger] self.cell(a, b) == old(self).cell(a, b) by {
                        assert(mid.cell(a, b) == old(self).cell(a, b));
                    }
                }
            }
        }
        merged
    }

    /// Try to absorb a single-cell horizontal cage by reopening the cell
    /// just left of it, then the cell just right of it.
    fn merge_cage_h(&mut self, x: u8, y: u8) -> (r: bool)
        requires
            old(self).wf(),
            is_h_cage(old(self).fill_mask(), x as int, y as int, 1),
        ensures
            final(self).wf(),
            final(self).width == old(self).width,
            final(self).height == old(self).height,
            connected(old(self).fill_mask()) ==> connected(final(self).fill_mask()),
            forall|a: int, b: int|
                0 <= a < old(self).width as int && 0 <= b < old(self).height as int
                    ==> #[trigger] final(self).cell(a, b) == old(self).cell(a, b) || (final(self).cell(a, b) == GGCell::Normal && !old(self).cell(a, b).is_fill()),
            r ==> count_mat(final(self).fill_mask()) == count_mat(old(self).fill_mask()) + 1
                && connected(final(self).fill_mask()) && cages_within(final(self).fill_mask(), 1, 9),
            !r ==> final(self).fill_mask() == old(self).fill_mask(),
            !r ==> forall|a: int, b: int|
                0 <= a < old(self).width as int && 0 <= b < old(self).height as int
                    ==> #[trigger] final(self).cell(a, b) == old(self).cell(a, b),
            !r ==> merge_stuck(*old(self), x as int, y as int, false),
    {
        proof {
            lemma_mask_fillable(*old(self));
            assert(mask_at(old(self).fill_mask(), x as int, y as int));
        }
        let mut merged = false;
        if x > 0 {
            merged = self.try_open_cell(x - 1, y);
        }
        if !merged && (x as usize) + 1 < self.width as usize {
            let ghost mid = *self;
            merged = self.try_open_cell(x + 1, y);
            proof {
                assert forall|a: int, b: int|
                    0 <= a < old(self).width as int && 0 <= b
                        < old(self).height as int implies #[trigger] self.cell(a, b) == old(self).cell(a, b) || (self.cell(a, b) == GGCell::Normal && !old(self).cell(
                    a,
                    b,
                ).is_fill()) by {
                    assert(mid.cell(a, b) == old(self).cell(a, b));
                }
                if !merged {
                    assert forall|a: int, b: int|
                        0 <= a < old(self).width as int && 0 <= b
                            < old(self).height as int implies #[trigger] self.cell(a, b) == old(self).cell(a, b) by {
                        assert(mid.cell(a, b) == old(self).cell(a, b));
                    }
                }
            }
        }
        merged
    }
}


/// The stuck predicates only read cell states and the fillable mask, so they
/// transfer between two grids that agree on both.
proof fn lemma_stuck_transfer(a: Grid, b: Grid)
    requires
        a.width == b.width,
        a.height == b.height,
        a.fill_mask() == b.fill_mask(),
        forall|x: int, y: int|
            0 <= x < a.width as int && 0 <= y < a.height as int ==> #[trigger] a.cell(x, y)
                == b.cell(x, y),
    ensures
        forall|x: int, y: int, len: int|
            #[trigger] is_h_cage(a.fill_mask(), x, y, len) && h_cage_split_stuck(a, x, y, len)
                ==> h_cage_split_stuck(b, x, y, len),
        forall|x: int, y: int, len: int|
            #[trigger] is_v_cage(a.fill_mask(), x, y, len) && v_cage_split_stuck(a, x, y, len)
                ==> v_cage_split_stuck(b, x, y, len),
        forall|x: int, y: int|
            #[trigger] merge_stuck(a, x, y, true) ==> merge_stuck(b, x, y, true),
        forall|x: int, y: int|
            #[trigger] merge_stuck(a, x, y, false) ==> merge_stuck(b, x, y, false),
{
    assert forall|x: int, y: int, len: int|
        #[trigger] is_h_cage(a.fill_mask(), x, y, len) && h_cage_split_stuck(a, x, y, len) implies h_cage_split_stuck(
        b,
        x,
        y,
        len,
    ) by {
        assert forall|cx: int|
            x <= cx < x + len && #[trigger] b.cell(cx, y) == GGCell::Normal implies !connected(
            mask_clear(b.fill_mask(), cx, y),
        ) by {
            assert(mask_at(a.fill_mask(), cx, y));
            assert(a.cell(cx, y) == b.cell(cx, y));
        }
    }
    assert forall|x: int, y: int, len: int|
        #[trigger] is_v_cage(a.fill_mask(), x, y, len) && v_cage_split_stuck(a, x, y, len) implies v_cage_split_stuck(
        b,
        x,
        y,
        len,
    ) by {
        assert forall|cy: int|
            y <= cy < y + len && #[trigger] b.cell(x, cy) == GGCell::Normal implies !connected(
            mask_clear(b.fill_mask(), x, cy),
        ) by {
            assert(mask_at(a.fill_mask(), x, cy));
            assert(a.cell(x, cy) == b.cell(x, cy));
        }
    }
}

impl Grid {
    /// The cage repair pass: split every over-long cage by blocking plain
    /// fillable cells near its midpoint, then absorb every single-cell cage
    /// by reopening a neighbouring cell, re-deriving the cage list and
    /// restarting the scan after every accepted change, down to a fixed
    /// point. Every accepted change keeps the fillable region connected, and
    /// at the fixed point every surviving over-long cage cannot lose any of
    /// its plain cells without disconnecting the region, and every surviving
    /// single-cell cage cannot absorb either axis neighbour.
    pub fn fix_up(&mut self)
        requires
            old(self).wf(),
        ensures
            final(self).wf(),
            final(self).width == old(self).width,
            final(self).height == old(self).height,
            connected(old(self).fill_mask()) ==> connected(final(self).fill_mask()),
            forall|x: int, y: int|
                0 <= x < old(self).width as int && 0 <= y < old(self).height as int
                    ==> #[trigger] final(self).cell(x, y) == old(self).cell(x, y) || (final(self).cell(x, y) == GGCell::Blocked && old(self).cell(x, y) == GGCell::Normal) || (
                final(self).cell(x, y) == GGCell::Normal && !old(self).cell(x, y).is_fill()),
            forall|x: int, y: int, len: int|
                #[trigger] is_h_cage(final(self).fill_mask(), x, y, len) && len > 9
                    ==> h_cage_split_stuck(*final(self), x, y, len),
            forall|x: int, y: int, len: int|
                #[trigger] is_v_cage(final(self).fill_mask(), x, y, len) && len > 9
                    ==> v_cage_split_stuck(*final(self), x, y, len),
            forall|x: int, y: int, len: int|
                #[trigger] is_h_cage(final(self).fill_mask(), x, y, len) && len < 2
                    ==> merge_stuck(*final(self), x, y, false),
            forall|x: int, y: int, len: int|
                #[trigger] is_v_cage(final(self).fill_mask(), x, y, len) && len < 2
                    ==> merge_stuck(*final(self), x, y, true),
    {
        let ghost gw = old(self).width as int;
        let ghost gh = old(self).height as int;

        // Split over-long cages.
        let mut cages = self.get_cages();
        let mut i: usize = 0;
        proof {
            lemma_count_mat_bounds(self.fill_mask(), gw);
        }
        while i < cages.len()
            invariant
                self.wf(),
                self.width == old(self).width,
                self.height == old(self).height,
                gw == old(self).width as int,
                gh == old(self).height as int,
                connected(old(self).fill_mask()) ==> connected(self.fill_mask()),
                forall|x: int, y: int|
                    0 <= x < gw && 0 <= y < gh ==> #[trigger] self.cell(x, y) == old(self).cell(
                        x,
                        y,
                    ) || (self.cell(x, y) == GGCell::Blocked && old(self).cell(x, y)
                        == GGCell::Normal),
                forall|k2: int|
                    0 <= k2 < cages@.len() && !(#[trigger] cages@[k2]).2 ==> is_h_cage(
                        self.fill_mask(),
                        cages@[k2].0 as int,
                        cages@[k2].1 as int,
                        cages@[k2].3 as int,
                    ),
                forall|k2: int|
                    0 <= k2 < cages@.len() && (#[trigger] cages@[k2]).2 ==> is_v_cage(
                        self.fill_mask(),
                        cages@[k2].0 as int,
                        cages@[k2].1 as int,
                        cages@[k2].3 as int,
                    ),
                forall|x: int, y: int, len: int|
                    #[trigger] is_h_cage(self.fill_mask(), x, y, len) ==> cages@.contains(
                        ((x as u8), (y as u8), false, (len as usize)),
                    ),
                forall|x: int, y: int, len: int|
                    #[trigger] is_v_cage(self.fill_mask(), x, y, len) ==> cages@.contains(
                        ((x as u8), (y as u8), true, (len as usize)),
                    ),
                forall|k2: int|
                    0 <= k2 < i && !(#[trigger] cages@[k2]).2 && cages@[k2].3 > 9
                        ==> h_cage_split_stuck(
                        *self,
                        cages@[k2].0 as int,
                        cages@[k2].1 as int,
                        cages@[k2].3 as int,
                    ),
                forall|k2: int|
                    0 <= k2 < i && (#[trigger] cages@[k2]).2 && cages@[k2].3 > 9
                        ==> v_cage_split_stuck(
                        *self,
                        cages@[k2].0 as int,
                        cages@[k2].1 as int,
                        cages@[k2].3 as int,
                    ),
                0 <= count_mat(self.fill_mask()),
            decreases count_mat(self.fill_mask()), cages@.len() - i,
        {
            let c = cages[i];
            let ghost pre = *self;
            let mut changed = false;
            if c.3 > 9 {
                if c.2 {
                    changed = self.split_cage_v(c.0, c.1, c.3);
                } else {
                    changed = self.split_cage_h(c.0, c.1, c.3);
                }
                proof {
                    assert forall|x: int, y: int|
                        0 <= x < gw && 0 <= y < gh implies #[trigger] self.cell(x, y) == old(self).cell(x, y) || (self.cell(x, y) == GGCell::Blocked && old(self).cell(x, y)
                        == GGCell::Normal) by {
                        assert(pre.cell(x, y) == old(self).cell(x, y) || (pre.cell(x, y)
                            == GGCell::Blocked && old(self).cell(x, y) == GGCell::Normal));
                    }
                }
            }
            if changed {
                proof {
                    lemma_count_mat_bounds(self.fill_mask(), gw);
                }
                cages = self.get_cages();
                i = 0;
            } else {
                proof {
                    lemma_stuck_transfer(pre, *self);
                    if c.3 > 9 {
                        if c.2 {
                            assert(is_v_cage(pre.fill_mask(), c.0 as int, c.1 as int, c.3 as int));
                            assert(v_cage_split_stuck(pre, c.0 as int, c.1 as int, c.3 as int));
                            assert(v_cage_split_stuck(*self, c.0 as int, c.1 as int, c.3 as int));
                        } else {
                            assert(is_h_cage(pre.fill_mask(), c.0 as int, c.1 as int, c.3 as int));
                            assert(h_cage_split_stuck(pre, c.0 as int, c.1 as int, c.3 as int));
                            assert(h_cage_split_stuck(*self, c.0 as int, c.1 as int, c.3 as int));
                        }
                    }
                    assert forall|k2: int|
                        0 <= k2 < i + 1 && !(#[trigger] cages@[k2]).2 && cages@[k2].3 > 9 implies h_cage_split_stuck(
                        *self,
                        cages@[k2].0 as int,
                        cages@[k2].1 as int,
                        cages@[k2].3 as int,
                    ) by {
                        if k2 < i {
                            assert(h_cage_split_stuck(
                                pre,
                                cages@[k2].0 as int,
                                cages@[k2].1 as int,
                                cages@[k2].3 as int,
                            ));
                            assert(is_h_cage(
                                pre.fill_mask(),
                                cages@[k2].0 as int,
                                cages@[k2].1 as int,
                                cages@[k2].3 as int,
                            ));
                        }
                    }
                    assert forall|k2: int|
                        0 <= k2 < i + 1 && (#[trigger] cages@[k2]).2 && cages@[k2].3 > 9 implies v_cage_split_stuck(
                        *self,
                        cages@[k2].0 as int,
                        cages@[k2].1 as int,
                        cages@[k2].3 as int,
                    ) by {
                        if k2 < i {
                            assert(v_cage_split_stuck(
                                pre,
                                cages@[k2].0 as int,
                                cages@[k2].1 as int,
                                cages@[k2].3 as int,
                            ));
                            assert(is_v_cage(
                                pre.fill_mask(),
                                cages@[k2].0 as int,
                                cages@[k2].1 as int,
                                cages@[k2].3 as int,
                            ));
                        }
                    }
                }
                i = i + 1;
            }
        }

        // At the split fixed point, every over-long cage of the current grid
        // is stuck.
        proof {
            assert forall|x: int, y: int, len: int|
                #[trigger] is_h_cage(self.fill_mask(), x, y, len) && len > 9 implies h_cage_split_stuck(
                *self,
                x,
                y,
                len,
            ) by {
                assert(mask_at(self.fill_mask(), x, y));
                assert(cages@.contains(((x as u8), (y as u8), false, (len as usize))));
                let k2 = choose|k2: int|
                    0 <= k2 < cages@.len() && cages@[k2] == ((x as u8), (y as u8), false, (
                    len as usize));
                assert(mask_at(self.fill_mask(), x + len - 1, y));
                assert(len <= self.fill_mask()[y].len());
                assert(cages@[k2].0 as int == x && cages@[k2].1 as int == y && cages@[k2].3 as int
                    == len);
            }
            assert forall|x: int, y: int, len: int|
                #[trigger] is_v_cage(self.fill_mask(), x, y, len) && len > 9 implies v_cage_split_stuck(
                *self,
                x,
                y,
                len,
            ) by {
                assert(mask_at(self.fill_mask(), x, y));
                assert(cages@.contains(((x as u8), (y as u8), true, (len as usize))));
                let k2 = choose|k2: int|
                    0 <= k2 < cages@.len() && cages@[k2] == ((x as u8), (y as u8), true, (
                    len as usize));
                assert(mask_at(self.fill_mask(), x, y + len - 1));
                assert(len <= self.fill_mask().len());
                assert(cages@[k2].0 as int == x && cages@[k2].1 as int == y && cages@[k2].3 as int
                    == len);
            }
        }

        // Absorb single-cell cages.
        cages = self.get_cages();
        i = 0;
        proof {
            lemma_count_mat_bounds(self.fill_mask(), gw);
        }
        while i < cages.len()
            invariant
                self.wf(),
                self.width == old(self).width,
                self.height == old(self).height,
                gw == old(self).width as int,
                gh == old(self).height as int,
                connected(old(self).fill_mask()) ==> connected(self.fill_mask()),
                forall|x: int, y: int|
                    0 <= x < gw && 0 <= y < gh ==> #[trigger] self.cell(x, y) == old(self).cell(
                        x,
                        y,
                    ) || (self.cell(x, y) == GGCell::Blocked && old(self).cell(x, y)
                        == GGCell::Normal) || (self.cell(x, y) == GGCell::Normal && !old(self).cell(
                        x,
                        y,
                    ).is_fill()),
                forall|k2: int|
                    0 <= k2 < cages@.len() && !(#[trigger] cages@[k2]).2 ==> is_h_cage(
                        self.fill_mask(),
                        cages@[k2].0 as int,
                        cages@[k2].1 as int,
                        cages@[k2].3 as int,
                    ),
                forall|k2: int|
                    0 <= k2 < cages@.len() && (#[trigger] cages@[k2]).2 ==> is_v_cage(
                        self.fill_mask(),
                        cages@[k2].0 as int,
                        cages@[k2].1 as int,
                        cages@[k2].3 as int,
                    ),
                forall|x: int, y: int, len: int|
                    #[trigger] is_h_cage(self.fill_mask(), x, y, len) ==> cages@.contains(
                        ((x as u8), (y as u8), false, (len as usize)),
                    ),
                forall|x: int, y: int, len: int|
                    #[trigger] is_v_cage(self.fill_mask(), x, y, len) ==> cages@.contains(
                        ((x as u8), (y as u8), true, (len as usize)),
                    ),
                forall|x: int, y: int, len: int|
                    #[trigger] is_h_cage(self.fill_mask(), x, y, len) && len > 9
                        ==> h_cage_split_stuck(*self, x, y, len),
                forall|x: int, y: int, len: int|
                    #[trigger] is_v_cage(self.fill_mask(), x, y, len) && len > 9
                        ==> v_cage_split_stuck(*self, x, y, len),
                forall|k2: int|
                    0 <= k2 < i && !(#[trigger] cages@[k2]).2 && cages@[k2].3 < 2 ==> merge_stuck(
                        *self,
                        cages@[k2].0 as int,
                        cages@[k2].1 as int,
                        false,
                    ),
                forall|k2: int|
                    0 <= k2 < i && (#[trigger] cages@[k2]).2 && cages@[k2].3 < 2 ==> merge_stuck(
                        *self,
                        cages@[k2].0 as int,
                        cages@[k2].1 as int,
                        true,
                    ),
                count_mat(self.fill_mask()) <= gh * gw,
            decreases gh * gw - count_mat(self.fill_mask()), cages@.len() - i,
        {
            let c = cages[i];
            let ghost pre = *self;
            let mut changed = false;
            if c.3 < 2 {
                if c.2 {
                    changed = self.merge_cage_v(c.0, c.1);
                } else {
                    changed = self.merge_cage_h(c.0, c.1);
                }
                proof {
                    assert forall|x: int, y: int|
                        0 <= x < gw && 0 <= y < gh implies #[trigger] self.cell(x, y) == old(self).cell(x, y) || (self.cell(x, y) == GGCell::Blocked && old(self).cell(x, y)
                        == GGCell::Normal) || (self.cell(x, y) == GGCell::Normal && !old(self).cell(
                        x,
                        y,
                    ).is_fill()) by {
                        assert(pre.cell(x, y) == old(self).cell(x, y) || (pre.cell(x, y)
                            == GGCell::Blocked && old(self).cell(x, y) == GGCell::Normal) || (
                        pre.cell(x, y) == GGCell::Normal && !old(self).cell(x, y).is_fill()));
                    }
                }
            }
            if changed {
                proof {
                    lemma_count_mat_bounds(self.fill_mask(), gw);
                    // An accepted reopen leaves no over-long cage at all.
                    assert(cages_within(self.fill_mask(), 1, 9));
                    assert forall|x: int, y: int, len: int|
                        #[trigger] is_h_cage(self.fill_mask(), x, y, len) && len > 9 implies h_cage_split_stuck(
                        *self,
                        x,
                        y,
                        len,
                    ) by {
                        assert(1 <= len <= 9);
                    }
                    assert forall|x: int, y: int, len: int|
                        #[trigger] is_v_cage(self.fill_mask(), x, y, len) && len > 9 implies v_cage_split_stuck(
                        *self,
                        x,
                        y,
                        len,
                    ) by {
                        assert(1 <= len <= 9);
                    }
                }
                cages = self.get_cages();
                i = 0;
            } else {
                proof {
                    lemma_stuck_transfer(pre, *self);
                    if c.3 < 2 {
                        if c.2 {
                            assert(merge_stuck(pre, c.0 as int, c.1 as int, true));
                            assert(merge_stuck(*self, c.0 as int, c.1 as int, true));
                        } else {
                            assert(merge_stuck(pre, c.0 as int, c.1 as int, false));
                            assert(merge_stuck(*self, c.0 as int, c.1 as int, false));
                        }
                    }
                    assert forall|k2: int|
                        0 <= k2 < i + 1 && !(#[trigger] cages@[k2]).2 && cages@[k2].3 < 2 implies merge_stuck(
                        *self,
                        cages@[k2].0 as int,
                        cages@[k2].1 as int,
                        false,
                    ) by {
                        if k2 < i {
                            assert(merge_stuck(pre, cages@[k2].0 as int, cages@[k2].1 as int, false));
                        }
                    }
                    assert forall|k2: int|
                        0 <= k2 < i + 1 && (#[trigger] cages@[k2]).2 && cages@[k2].3 < 2 implies merge_stuck(
                        *self,
                        cages@[k2].0 as int,
                        cages@[k2].1 as int,
                        true,
                    ) by {
                        if k2 < i {
                            assert(merge_stuck(pre, cages@[k2].0 as int, cages@[k2].1 as int, true));
                        }
                    }
                    assert forall|x: int, y: int, len: int|
                        #[trigger] is_h_cage(self.fill_mask(), x, y, len) && len > 9 implies h_cage_split_stuck(
                        *self,
                        x,
                        y,
                        len,
                    ) by {
                        assert(is_h_cage(pre.fill_mask(), x, y, len));
                        assert(h_cage_split_stuck(pre, x, y, len));
                    }
                    assert forall|x: int, y: int, len: int|
                        #[trigger] is_v_cage(self.fill_mask(), x, y, len) && len > 9 implies v_cage_split_stuck(
                        *self,
                        x,
                        y,
                        len,
                    ) by {
                        assert(is_v_cage(pre.fill_mask(), x, y, len));
                        assert(v_cage_split_stuck(pre, x, y, len));
                    }
                }
                i = i + 1;
            }
        }

        // At the merge fixed point, every single-cell cage of the final grid
        // is stuck.
        proof {
            assert forall|x: int, y: int, len: int|
                #[trigger] is_h_cage(self.fill_mask(), x, y, len) && len < 2 implies merge_stuck(
                *self,
                x,
                y,
                false,
            ) by {
                assert(mask_at(self.fill_mask(), x, y));
                assert(cages@.contains(((x as u8), (y as u8), false, (len as usize))));
                let k2 = choose|k2: int|
                    0 <= k2 < cages@.len() && cages@[k2] == ((x as u8), (y as u8), false, (
                    len as usize));
                assert(cages@[k2].0 as int == x && cages@[k2].1 as int == y);
            }
            assert forall|x: int, y: int, len: int|
                #[trigger] is_v_cage(self.fill_mask(), x, y, len) && len < 2 implies merge_stuck(
                *self,
                x,
                y,
                true,
            ) by {
                assert(mask_at(self.fill_mask(), x, y));
                assert(cages@.contains(((x as u8), (y as u8), true, (len as usize))));
                let k2 = choose|k2: int|
                    0 <= k2 < cages@.len() && cages@[k2] == ((x as u8), (y as u8), true, (
                    len as usize));
                assert(cages@[k2].0 as int == x && cages@[k2].1 as int == y);
            }
        }
    }
}

} // verus!
