use vstd::prelude::*;

use crate::cell::GGCell;
use crate::component::Component;
use crate::generate::{can_place_cells, empty_cells, place_cells};
use crate::grid::{cell_compat, incoming_at, place_cell};

verus! {

/// Compatibility of an existing cell with an incoming pattern cell is a
/// symmetric relation: either of two compatible pattern cells may arrive
/// first.
pub proof fn lemma_cell_compat_sym(a: GGCell, b: GGCell)
    ensures
        cell_compat(a, b) == cell_compat(b, a),
{
}

/// Stamping two compatible pattern cells onto an untouched cell gives the
/// same result in either order; in particular two opposite corners fuse
/// either way.
pub proof fn lemma_place_cell_comm(a: GGCell, b: GGCell)
    requires
        cell_compat(a, b),
    ensures
        place_cell(place_cell(GGCell::Uninitialized, a), b) == place_cell(
            place_cell(GGCell::Uninitialized, b),
            a,
        ),
{
}

/// Corner fusion is symmetric. If rectangle A placed on an empty grid leaves
/// room for rectangle B, then B also places on the empty grid, A still
/// places after B, and the two orders produce cell-for-cell identical grids;
/// wherever a corner of A coincides with a corner of B, that cell ends as a
/// `FusedCorner` regardless of order.
pub proof fn lemma_corner_fusion_symmetric(
    w: nat,
    h: nat,
    ax: int,
    ay: int,
    ca: Component,
    bx: int,
    by: int,
    cb: Component,
)
    requires
        can_place_cells(empty_cells(w, h), w, h, ax, ay, ca),
        can_place_cells(place_cells(empty_cells(w, h), w, h, ax, ay, ca), w, h, bx, by, cb),
    ensures
        can_place_cells(empty_cells(w, h), w, h, bx, by, cb),
        can_place_cells(place_cells(empty_cells(w, h), w, h, bx, by, cb), w, h, ax, ay, ca),
        place_cells(place_cells(empty_cells(w, h), w, h, ax, ay, ca), w, h, bx, by, cb)
            == place_cells(place_cells(empty_cells(w, h), w, h, bx, by, cb), w, h, ax, ay, ca),
        forall|x: int, y: int|
            #![trigger incoming_at(ca, ax, ay, x, y), incoming_at(cb, bx, by, x, y)]
            0 <= x < w && 0 <= y < h && (incoming_at(ca, ax, ay, x, y) matches GGCell::Corner(_))
                && (incoming_at(cb, bx, by, x, y) matches GGCell::Corner(_)) ==> place_cells(
                place_cells(empty_cells(w, h), w, h, ax, ay, ca),
                w,
                h,
                bx,
                by,
                cb,
            )[y][x] == GGCell::FusedCorner,
{
    let e = empty_cells(w, h);
    let ga = place_cells(e, w, h, ax, ay, ca);
    let gb = place_cells(e, w, h, bx, by, cb);
    let gab = place_cells(ga, w, h, bx, by, cb);
    let gba = place_cells(gb, w, h, ax, ay, ca);

    assert forall|x: int, y: int|
        0 <= x < w && 0 <= y < h implies cell_compat(
        #[trigger] gb[y][x],
        incoming_at(ca, ax, ay, x, y),
    ) by {
        let pa = incoming_at(ca, ax, ay, x, y);
        let pb = incoming_at(cb, bx, by, x, y);
        assert(ga[y][x] == place_cell(GGCell::Uninitialized, pa));
        assert(cell_compat(ga[y][x], pb));
        assert(gb[y][x] == place_cell(GGCell::Uninitialized, pb));
        lemma_cell_compat_sym(pa, pb);
    }

    assert forall|y: int| 0 <= y < h implies gab[y] == gba[y] by {
        assert forall|x: int| 0 <= x < w implies gab[y][x] == gba[y][x] by {
            let pa = incoming_at(ca, ax, ay, x, y);
            let pb = incoming_at(cb, bx, by, x, y);
            assert(ga[y][x] == place_cell(GGCell::Uninitialized, pa));
            assert(gb[y][x] == place_cell(GGCell::Uninitialized, pb));
            assert(cell_compat(ga[y][x], pb));
            lemma_place_cell_comm(pa, pb);
        }
        assert(gab[y] =~= gba[y]);
    }
    assert(gab =~= gba);

    assert forall|x: int, y: int|
        0 <= x < w && 0 <= y < h && (incoming_at(ca, ax, ay, x, y) matches GGCell::Corner(_)) && (
        incoming_at(cb, bx, by, x, y) matches GGCell::Corner(_)) implies gab[y][x]
        == GGCell::FusedCorner by {
        let pa = incoming_at(ca, ax, ay, x, y);
        let pb = incoming_at(cb, bx, by, x, y);
        assert(ga[y][x] == place_cell(GGCell::Uninitialized, pa));
        assert(cell_compat(ga[y][x], pb));
        assert(gab[y][x] == place_cell(ga[y][x], pb));
    }
}

} // verus!
