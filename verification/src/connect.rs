use vstd::prelude::*;

use crate::counting::{count_mat, lemma_count_mat_eq, lemma_count_mat_le, lemma_count_mat_update,
    mat_le, row_le};
use crate::grid::Grid;

verus! {

/// A mask cell that is in bounds and set.
pub open spec fn mask_at(m: Seq<Seq<bool>>, x: int, y: int) -> bool {
    &&& 0 <= y < m.len()
    &&& 0 <= x < m[y].len()
    &&& m[y][x]
}

/// Orthogonal 4-adjacency of two cells.
pub open spec fn adjacent4(ax: int, ay: int, bx: int, by: int) -> bool {
    ||| ay == by && (ax == bx + 1 || ax + 1 == bx)
    ||| ax == bx && (ay == by + 1 || ay + 1 == by)
}

/// A walk over set mask cells, each step moving to an orthogonal neighbour.
pub open spec fn path_ok(m: Seq<Seq<bool>>, p: Seq<(int, int)>) -> bool {
    &&& p.len() >= 1
    &&& forall|i: int| 0 <= i < p.len() ==> mask_at(m, (#[trigger] p[i]).0, p[i].1)
    &&& forall|i: int|
        0 <= i < p.len() - 1 ==> adjacent4((#[trigger] p[i]).0, p[i].1, p[i + 1].0, p[i + 1].1)
}

/// Cell `(bx, by)` can be walked to from cell `(ax, ay)` through set cells.
pub open spec fn reachable(m: Seq<Seq<bool>>, ax: int, ay: int, bx: int, by: int) -> bool {
    exists|p: Seq<(int, int)>|
        path_ok(m, p) && p.first() == (ax, ay) && p.last() == (bx, by)
}

/// Every set cell can be walked to from every other set cell.
pub open spec fn connected(m: Seq<Seq<bool>>) -> bool {
    forall|ax: int, ay: int, bx: int, by: int|
        #[trigger] mask_at(m, ax, ay) && #[trigger] mask_at(m, bx, by) ==> reachable(
            m,
            ax,
            ay,
            bx,
            by,
        )
}

/// The visited mask `vis` swallows every `m`-step out of it: no set cell of
/// `m` is adjacent to a visited cell without being visited itself.
pub open spec fn closed_under_adjacency(m: Seq<Seq<bool>>, vis: Seq<Seq<bool>>) -> bool {
    forall|ax: int, ay: int, bx: int, by: int|
        mask_at(vis, ax, ay) && #[trigger] adjacent4(ax, ay, bx, by) && mask_at(m, bx, by)
            ==> mask_at(vis, bx, by)
}

pub proof fn lemma_reachable_refl(m: Seq<Seq<bool>>, ax: int, ay: int)
    requires
        mask_at(m, ax, ay),
    ensures
        reachable(m, ax, ay, ax, ay),
{
    let p: Seq<(int, int)> = seq![(ax, ay)];
    assert(p[0] == (ax, ay));
    assert(path_ok(m, p));
    assert(p.first() == (ax, ay));
    assert(p.last() == (ax, ay));
}

pub proof fn lemma_reachable_step(m: Seq<Seq<bool>>, ax: int, ay: int, bx: int, by: int, cx: int, cy: int)
    requires
        reachable(m, ax, ay, bx, by),
        adjacent4(bx, by, cx, cy),
        mask_at(m, cx, cy),
    ensures
        reachable(m, ax, ay, cx, cy),
{
    let p = choose|p: Seq<(int, int)>|
        path_ok(m, p) && p.first() == (ax, ay) && p.last() == (bx, by);
    let q = p.push((cx, cy));
    assert forall|i: int| 0 <= i < q.len() implies mask_at(m, (#[trigger] q[i]).0, q[i].1) by {
        if i < p.len() {
            assert(q[i] == p[i]);
        }
    }
    assert forall|i: int|
        0 <= i < q.len() - 1 implies adjacent4(
        (#[trigger] q[i]).0,
        q[i].1,
        q[i + 1].0,
        q[i + 1].1,
    ) by {
        if i < p.len() - 1 {
            assert(q[i] == p[i]);
            assert(q[i + 1] == p[i + 1]);
        } else {
            assert(q[i] == p.last());
            assert(q[i + 1] == (cx, cy));
        }
    }
    assert(q.first() == (ax, ay));
    assert(q.last() == (cx, cy));
}

pub proof fn lemma_reachable_sym(m: Seq<Seq<bool>>, ax: int, ay: int, bx: int, by: int)
    requires
        reachable(m, ax, ay, bx, by),
    ensures
        reachable(m, bx, by, ax, ay),
{
    let p = choose|p: Seq<(int, int)>|
        path_ok(m, p) && p.first() == (ax, ay) && p.last() == (bx, by);
    let n = p.len() as int;
    let q = Seq::new(p.len(), |i: int| p[n - 1 - i]);
    assert forall|i: int| 0 <= i < q.len() implies mask_at(m, (#[trigger] q[i]).0, q[i].1) by {
        assert(q[i] == p[n - 1 - i]);
    }
    assert forall|i: int|
        0 <= i < q.len() - 1 implies adjacent4(
        (#[trigger] q[i]).0,
        q[i].1,
        q[i + 1].0,
        q[i + 1].1,
    ) by {
        assert(q[i] == p[n - 1 - i]);
        assert(q[i + 1] == p[n - 2 - i]);
        assert(adjacent4(p[n - 2 - i].0, p[n - 2 - i].1, p[n - 1 - i].0, p[n - 1 - i].1));
    }
    assert(q.first() == p.last());
    assert(q.last() == p.first());
}

pub proof fn lemma_reachable_trans(
    m: Seq<Seq<bool>>,
    ax: int,
    ay: int,
    bx: int,
    by: int,
    cx: int,
    cy: int,
)
    requires
        reachable(m, ax, ay, bx, by),
        reachable(m, bx, by, cx, cy),
    ensures
        reachable(m, ax, ay, cx, cy),
{
    let pa = choose|p: Seq<(int, int)>|
        path_ok(m, p) && p.first() == (ax, ay) && p.last() == (bx, by);
    let pb = choose|p: Seq<(int, int)>|
        path_ok(m, p) && p.first() == (bx, by) && p.last() == (cx, cy);
    let q = pa + pb.subrange(1, pb.len() as int);
    let n1 = pa.len() as int;
    assert forall|i: int| 0 <= i < q.len() implies mask_at(m, (#[trigger] q[i]).0, q[i].1) by {
        if i < n1 {
            assert(q[i] == pa[i]);
        } else {
            assert(q[i] == pb[i - n1 + 1]);
        }
    }
    assert forall|i: int|
        0 <= i < q.len() - 1 implies adjacent4(
        (#[trigger] q[i]).0,
        q[i].1,
        q[i + 1].0,
        q[i + 1].1,
    ) by {
        if i < n1 - 1 {
            assert(q[i] == pa[i]);
            assert(q[i + 1] == pa[i + 1]);
        } else if i == n1 - 1 {
            assert(q[i] == pa.last());
            if pb.len() == 1 {
                assert(i == q.len() - 1);
            } else {
                assert(q[i + 1] == pb[1]);
                assert(adjacent4(pb[0].0, pb[0].1, pb[1].0, pb[1].1));
                assert(pb[0] == pa.last());
            }
        } else {
            assert(q[i] == pb[i - n1 + 1]);
            assert(q[i + 1] == pb[i - n1 + 2]);
        }
    }
    assert(q.first() == (ax, ay));
    if pb.len() == 1 {
        assert(q.last() == pa.last());
        assert(pb.first() == pb.last());
    } else {
        assert(q.last() == pb.last());
    }
}

/// A visited mask that is closed under adjacency contains the end of every
/// walk that starts inside it.
pub proof fn lemma_closed_swallows_path(m: Seq<Seq<bool>>, vis: Seq<Seq<bool>>, p: Seq<(int, int)>)
    requires
        path_ok(m, p),
        mask_at(vis, p.first().0, p.first().1),
        closed_under_adjacency(m, vis),
    ensures
        mask_at(vis, p.last().0, p.last().1),
    decreases p.len(),
{
    if p.len() > 1 {
        assert(adjacent4(p[0].0, p[0].1, p[1].0, p[1].1));
        assert(mask_at(m, p[1].0, p[1].1));
        assert(mask_at(vis, p[1].0, p[1].1));
        let q = p.subrange(1, p.len() as int);
        assert forall|i: int| 0 <= i < q.len() implies mask_at(m, (#[trigger] q[i]).0, q[i].1) by {
            assert(q[i] == p[i + 1]);
        }
        assert forall|i: int|
            0 <= i < q.len() - 1 implies adjacent4(
            (#[trigger] q[i]).0,
            q[i].1,
            q[i + 1].0,
            q[i + 1].1,
        ) by {
            assert(q[i] == p[i + 1]);
            assert(q[i + 1] == p[i + 2]);
        }
        lemma_closed_swallows_path(m, vis, q);
        assert(q.last() == p.last());
    }
}

/// The view of an exec boolean matrix.
pub open spec fn mask_of(v: Vec<Vec<bool>>) -> Seq<Seq<bool>> {
    v@.map_values(|r: Vec<bool>| r@)
}

/// The exec matrix has exactly `h` rows of `w` entries each.
pub open spec fn mask_dims(v: Vec<Vec<bool>>, w: int, h: int) -> bool {
    &&& v@.len() == h
    &&& forall|y: int| 0 <= y < h ==> (#[trigger] v@[y])@.len() == w
}

/// A coordinate currently held on the backtracking stack.
pub open spec fn on_stack(st: Seq<(usize, usize)>, x: int, y: int) -> bool {
    exists|i: int| 0 <= i < st.len() && (#[trigger] st[i]).0 == x && st[i].1 == y
}

impl Grid {
    /// The first fillable cell in row-major order, if any.
    fn find_start(&self) -> (r: Option<(usize, usize)>)
        requires
            self.wf(),
        ensures
            match r {
                Option::Some(s) => self.fillable(s.0 as int, s.1 as int),
                Option::None => forall|x: int, y: int| !self.fillable(x, y),
            },
    {
        let mut y: usize = 0;
        while y < self.height as usize
            invariant
                self.wf(),
                y <= self.height as int,
                forall|xx: int, yy: int| 0 <= yy < y ==> !self.fillable(xx, yy),
            decreases self.height as int - y,
        {
            let mut x: usize = 0;
            while x < self.width as usize
                invariant
                    self.wf(),
                    y < self.height as int,
                    x <= self.width as int,
                    forall|xx: int, yy: int| 0 <= yy < y ==> !self.fillable(xx, yy),
                    forall|xx: int| 0 <= xx < x ==> !self.fillable(xx, y as int),
                decreases self.width as int - x,
            {
                if self.get_cell_fillable(x, y) {
                    return Some((x, y));
                }
                x = x + 1;
            }
            y = y + 1;
        }
        None
    }

    /// The first unvisited fillable orthogonal neighbour of `(tx, ty)`, in
    /// the fixed order left, right, up, down; `None` means every fillable
    /// neighbour is already visited.
    fn pick_neighbor(&self, vis: &Vec<Vec<bool>>, tx: usize, ty: usize) -> (r: Option<
        (usize, usize),
    >)
        requires
            self.wf(),
            mask_dims(*vis, self.width as int, self.height as int),
            tx < self.width as int,
            ty < self.height as int,
        ensures
            match r {
                Option::Some(n) => {
                    &&& adjacent4(tx as int, ty as int, n.0 as int, n.1 as int)
                    &&& mask_at(self.fill_mask(), n.0 as int, n.1 as int)
                    &&& !mask_at(mask_of(*vis), n.0 as int, n.1 as int)
                    &&& n.0 < self.width as int
                    &&& n.1 < self.height as int
                },
                Option::None => forall|nx: int, ny: int|
                    #[trigger] adjacent4(tx as int, ty as int, nx, ny) && mask_at(
                        self.fill_mask(),
                        nx,
                        ny,
                    ) ==> mask_at(mask_of(*vis), nx, ny),
            },
    {
        if tx > 0 && self.get_cell_fillable(tx - 1, ty) && !vis[ty][tx - 1] {
            return Some((tx - 1, ty));
        }
        if tx + 1 < self.width as usize && self.get_cell_fillable(tx + 1, ty) && !vis[ty][tx + 1] {
            return Some((tx + 1, ty));
        }
        if ty > 0 && self.get_cell_fillable(tx, ty - 1) && !vis[ty - 1][tx] {
            return Some((tx, ty - 1));
        }
        if ty + 1 < self.height as usize && self.get_cell_fillable(tx, ty + 1) && !vis[ty + 1][tx] {
            return Some((tx, ty + 1));
        }
        proof {
            let m = self.fill_mask();
            let vm = mask_of(*vis);
            assert forall|nx: int, ny: int|
                #[trigger] adjacent4(tx as int, ty as int, nx, ny) && mask_at(m, nx, ny) implies mask_at(
                vm,
                nx,
                ny,
            ) by {
                assert(m[ny][nx] == self.fillable(nx, ny));
                assert(self.fillable(nx, ny));
            }
        }
        None
    }

    /// Depth-first flood fill over the fillable cells with an explicit
    /// backtracking stack: decides whether the fillable region is one
    /// connected component.
    pub fn check_is_connected(&self) -> (r: bool)
        requires
            self.wf(),
        ensures
            r == connected(self.fill_mask()),
    {
        let ghost m = self.fill_mask();
        let total = self.get_fillable_cell_count();

        let start = match self.find_start() {
            Some(s) => s,
            None => {
                proof {
                    assert forall|ax: int, ay: int, bx: int, by: int|
                        #[trigger] mask_at(m, ax, ay) && #[trigger] mask_at(m, bx, by) implies reachable(
                        m,
                        ax,
                        ay,
                        bx,
                        by,
                    ) by {
                        assert(m[ay][ax] == self.fillable(ax, ay));
                    }
                }
                return true;
            },
        };
        let (sx, sy) = start;
        let ghost sxi = sx as int;
        let ghost syi = sy as int;

        // Visited mask, all clear.
        let mut vis: Vec<Vec<bool>> = Vec::new();
        let mut y: usize = 0;
        while y < self.height as usize
            invariant
                y <= self.height as int,
                vis@.len() == y,
                forall|yy: int| 0 <= yy < y ==> (#[trigger] vis@[yy])@.len() == self.width as int,
                forall|yy: int, xx: int|
                    0 <= yy < y && 0 <= xx < self.width as int ==> !(#[trigger] vis@[yy]@[xx]),
            decreases self.height as int - y,
        {
            let mut row: Vec<bool> = Vec::new();
            let mut x: usize = 0;
            while x < self.width as usize
                invariant
                    x <= self.width as int,
                    row@.len() == x,
                    forall|xx: int| 0 <= xx < x ==> !(#[trigger] row@[xx]),
                decreases self.width as int - x,
            {
                row.push(false);
                x = x + 1;
            }
            vis.push(row);
            y = y + 1;
        }

        proof {
            crate::counting::lemma_count_mat_zero_of_clear(mask_of(vis));
            assert(!mask_of(vis)[syi][sxi]);
        }
        let ghost vm0 = mask_of(vis);
        vis[sy][sx] = true;
        proof {
            assert(mask_of(vis) =~~= vm0.update(syi, vm0[syi].update(sxi, true)));
            lemma_count_mat_update(vm0, sxi, syi);
            lemma_reachable_refl(m, sxi, syi);
        }
        let mut visited_count: u32 = 1;
        let mut stack: Vec<(usize, usize)> = Vec::new();
        stack.push((sx, sy));
        proof {
            assert(stack@[0] == (sx, sy));
            assert(on_stack(stack@, sxi, syi));
            assert(mat_le(mask_of(vis), m)) by {
                assert forall|yy: int| 0 <= yy < m.len() implies row_le(
                    #[trigger] mask_of(vis)[yy],
                    m[yy],
                ) by {
                    assert forall|xx: int|
                        0 <= xx < mask_of(vis)[yy].len() && #[trigger] mask_of(vis)[yy][xx] implies m[yy][xx] by {}
                }
            }
        }

        while stack.len() != 0
            invariant
                self.wf(),
                m == self.fill_mask(),
                total == count_mat(m),
                mask_dims(vis, self.width as int, self.height as int),
                visited_count == count_mat(mask_of(vis)),
                mat_le(mask_of(vis), m),
                mask_at(mask_of(vis), sxi, syi),
                forall|x: int, y: int|
                    #[trigger] mask_at(mask_of(vis), x, y) ==> reachable(m, sxi, syi, x, y),
                forall|i: int|
                    0 <= i < stack@.len() ==> mask_at(
                        mask_of(vis),
                        (#[trigger] stack@[i]).0 as int,
                        stack@[i].1 as int,
                    ),
                stack@.no_duplicates(),
                forall|ax: int, ay: int, bx: int, by: int|
                    mask_at(mask_of(vis), ax, ay) && !on_stack(stack@, ax, ay)
                        && #[trigger] adjacent4(ax, ay, bx, by) && mask_at(m, bx, by) ==> mask_at(
                        mask_of(vis),
                        bx,
                        by,
                    ),
                stack@.len() == 0 ==> visited_count < total,
            decreases total - visited_count, stack@.len(),
        {
            if visited_count == total {
                proof {
                    let vm = mask_of(vis);
                    lemma_count_mat_eq(vm, m);
                    assert forall|ax: int, ay: int, bx: int, by: int|
                        #[trigger] mask_at(m, ax, ay) && #[trigger] mask_at(m, bx, by) implies reachable(
                        m,
                        ax,
                        ay,
                        bx,
                        by,
                    ) by {
                        assert(vm[ay][ax] == m[ay][ax]);
                        assert(vm[by][bx] == m[by][bx]);
                        assert(mask_at(vm, ax, ay));
                        assert(mask_at(vm, bx, by));
                        assert(reachable(m, sxi, syi, ax, ay));
                        assert(reachable(m, sxi, syi, bx, by));
                        lemma_reachable_sym(m, sxi, syi, ax, ay);
                        lemma_reachable_trans(m, ax, ay, sxi, syi, bx, by);
                    }
                }
                return true;
            }
            let top = stack[stack.len() - 1];
            let tx = top.0;
            let ty = top.1;
            proof {
                assert(stack@[stack@.len() - 1] == top);
                assert(mask_at(mask_of(vis), tx as int, ty as int));
            }
            match self.pick_neighbor(&vis, tx, ty) {
                Some(n) => {
                    let (nx, ny) = n;
                    let ghost vmp = mask_of(vis);
                    proof {
                        lemma_count_mat_le(vmp, m);
                    }
                    vis[ny][nx] = true;
                    proof {
                        assert(mask_of(vis) =~~= vmp.update(
                            ny as int,
                            vmp[ny as int].update(nx as int, true),
                        ));
                        lemma_count_mat_update(vmp, nx as int, ny as int);
                    }
                    visited_count = visited_count + 1;
                    let ghost old_stack = stack@;
                    stack.push((nx, ny));
                    proof {
                        let vm = mask_of(vis);
                        assert(mask_at(vm, nx as int, ny as int));
                        // Every newly visited cell is reachable from the start.
                        assert(reachable(m, sxi, syi, tx as int, ty as int));
                        lemma_reachable_step(
                            m,
                            sxi,
                            syi,
                            tx as int,
                            ty as int,
                            nx as int,
                            ny as int,
                        );
                        assert forall|x: int, y: int|
                            #[trigger] mask_at(vm, x, y) implies reachable(m, sxi, syi, x, y) by {
                            if !(x == nx as int && y == ny as int) {
                                assert(mask_at(vmp, x, y));
                            }
                        }
                        assert(mat_le(vm, m)) by {
                            assert forall|yy: int| 0 <= yy < vm.len() implies row_le(
                                #[trigger] vm[yy],
                                m[yy],
                            ) by {
                                assert forall|xx: int|
                                    0 <= xx < vm[yy].len() && #[trigger] vm[yy][xx] implies m[yy][xx] by {
                                    if !(xx == nx as int && yy == ny as int) {
                                        assert(mask_at(vmp, xx, yy) ==> m[yy][xx]);
                                        assert(vmp[yy][xx]);
                                    } else {
                                        assert(mask_at(m, nx as int, ny as int));
                                    }
                                }
                            }
                        }
                        lemma_count_mat_le(vm, m);
                        // Stack facts.
                        assert(stack@ == old_stack.push((nx, ny)));
                        assert forall|i: int|
                            0 <= i < stack@.len() implies mask_at(
                            vm,
                            (#[trigger] stack@[i]).0 as int,
                            stack@[i].1 as int,
                        ) by {
                            if i < old_stack.len() {
                                assert(stack@[i] == old_stack[i]);
                                assert(mask_at(vmp, old_stack[i].0 as int, old_stack[i].1 as int));
                            } else {
                                assert(stack@[i] == (nx, ny));
                            }
                        }
                        assert(stack@.no_duplicates()) by {
                            assert forall|i: int, j: int|
                                0 <= i < stack@.len() && 0 <= j < stack@.len() && i != j implies stack@[i]
                                != stack@[j] by {
                                if i < old_stack.len() && j < old_stack.len() {
                                    assert(old_stack[i] != old_stack[j]);
                                } else if i < old_stack.len() {
                                    // stack[j] is the new cell, unvisited before; stack[i] was visited.
                                    assert(mask_at(vmp, old_stack[i].0 as int, old_stack[i].1 as int));
                                    assert(!mask_at(vmp, nx as int, ny as int));
                                } else if j < old_stack.len() {
                                    assert(mask_at(vmp, old_stack[j].0 as int, old_stack[j].1 as int));
                                    assert(!mask_at(vmp, nx as int, ny as int));
                                }
                            }
                        }
                        // Semi-closedness: the new cell is on the stack, old cells keep it.
                        assert forall|ax: int, ay: int, bx: int, by: int|
                            mask_at(vm, ax, ay) && !on_stack(stack@, ax, ay)
                                && #[trigger] adjacent4(ax, ay, bx, by) && mask_at(m, bx, by) implies mask_at(
                            vm,
                            bx,
                            by,
                        ) by {
                            if ax == nx as int && ay == ny as int {
                                assert(stack@[stack@.len() - 1] == (nx, ny));
                                assert(on_stack(stack@, ax, ay));
                            } else {
                                assert(mask_at(vmp, ax, ay));
                                assert(!on_stack(old_stack, ax, ay)) by {
                                    if on_stack(old_stack, ax, ay) {
                                        let i = choose|i: int|
                                            0 <= i < old_stack.len() && (#[trigger] old_stack[i]).0
                                                == ax && old_stack[i].1 == ay;
                                        assert(stack@[i] == old_stack[i]);
                                        assert(on_stack(stack@, ax, ay));
                                    }
                                }
                                assert(mask_at(vmp, bx, by));
                                assert(mask_at(vm, bx, by));
                            }
                        }
                    }
                },
                None => {
                    let ghost old_stack = stack@;
                    stack.pop();
                    proof {
                        let vm = mask_of(vis);
                        lemma_count_mat_le(vm, m);
                        assert(visited_count < total);
                        assert(stack@ == old_stack.drop_last());
                        assert forall|i: int|
                            0 <= i < stack@.len() implies mask_at(
                            vm,
                            (#[trigger] stack@[i]).0 as int,
                            stack@[i].1 as int,
                        ) by {
                            assert(stack@[i] == old_stack[i]);
                        }
                        assert(stack@.no_duplicates()) by {
                            assert forall|i: int, j: int|
                                0 <= i < stack@.len() && 0 <= j < stack@.len() && i != j implies stack@[i]
                                != stack@[j] by {
                                assert(stack@[i] == old_stack[i]);
                                assert(stack@[j] == old_stack[j]);
                            }
                        }
                        // The popped top has every fillable neighbour visited, so
                        // the semi-closedness extends to it.
                        assert forall|ax: int, ay: int, bx: int, by: int|
                            mask_at(vm, ax, ay) && !on_stack(stack@, ax, ay)
                                && #[trigger] adjacent4(ax, ay, bx, by) && mask_at(m, bx, by) implies mask_at(
                            vm,
                            bx,
                            by,
                        ) by {
                            if ax == tx as int && ay == ty as int {
                                assert(adjacent4(tx as int, ty as int, bx, by));
                            } else {
                                assert(!on_stack(old_stack, ax, ay)) by {
                                    if on_stack(old_stack, ax, ay) {
                                        let i = choose|i: int|
                                            0 <= i < old_stack.len() && (#[trigger] old_stack[i]).0
                                                == ax && old_stack[i].1 == ay;
                                        if i < old_stack.len() - 1 {
                                            assert(stack@[i] == old_stack[i]);
                                            assert(on_stack(stack@, ax, ay));
                                        } else {
                                            assert(old_stack[i] == top);
                                        }
                                    }
                                }
                            }
                        }
                    }
                },
            }
        }

        // The stack ran dry before every fillable cell was seen: whatever was
        // missed is unreachable from the start cell.
        proof {
            let vm = mask_of(vis);
            assert(visited_count < total);
            assert forall|ax: int, ay: int, bx: int, by: int|
                mask_at(vm, ax, ay) && #[trigger] adjacent4(ax, ay, bx, by) && mask_at(m, bx, by) implies mask_at(
                vm,
                bx,
                by,
            ) by {
                assert(!on_stack(stack@, ax, ay));
            }
            assert(closed_under_adjacency(m, vm));
            assert(exists|bx: int, by: int| mask_at(m, bx, by) && !mask_at(vm, bx, by)) by {
                if forall|bx: int, by: int| #[trigger] mask_at(m, bx, by) ==> mask_at(vm, bx, by) {
                    assert(mat_le(m, vm)) by {
                        assert forall|yy: int| 0 <= yy < m.len() implies row_le(
                            #[trigger] m[yy],
                            vm[yy],
                        ) by {
                            assert forall|xx: int|
                                0 <= xx < m[yy].len() && #[trigger] m[yy][xx] implies vm[yy][xx] by {
                                assert(mask_at(m, xx, yy));
                                assert(mask_at(vm, xx, yy));
                            }
                        }
                    }
                    lemma_count_mat_le(m, vm);
                    assert(false);
                }
            }
            let (bx, by) = choose|bx: int, by: int| mask_at(m, bx, by) && !mask_at(vm, bx, by);
            assert(!connected(m)) by {
                if connected(m) {
                    assert(mask_at(m, sxi, syi));
                    assert(reachable(m, sxi, syi, bx, by));
                    let p = choose|p: Seq<(int, int)>|
                        path_ok(m, p) && p.first() == (sxi, syi) && p.last() == (bx, by);
                    lemma_closed_swallows_path(m, vm, p);
                }
            }
        }
        false
    }
}

} // verus!
