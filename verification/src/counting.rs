use vstd::prelude::*;

verus! {

/// Number of `true` entries in one row of a boolean matrix.
pub open spec fn count_row(r: Seq<bool>) -> int
    decreases r.len(),
{
    if r.len() == 0 {
        0
    } else {
        count_row(r.drop_last()) + if r.last() {
            1int
        } else {
            0int
        }
    }
}

/// Number of `true` entries in a boolean matrix.
pub open spec fn count_mat(m: Seq<Seq<bool>>) -> int
    decreases m.len(),
{
    if m.len() == 0 {
        0
    } else {
        count_mat(m.drop_last()) + count_row(m.last())
    }
}

/// `a` is entry-wise at most `b`: wherever `a` is set, `b` is set too.
pub open spec fn row_le(a: Seq<bool>, b: Seq<bool>) -> bool {
    &&& a.len() == b.len()
    &&& forall|i: int| 0 <= i < a.len() && #[trigger] a[i] ==> b[i]
}

/// Entry-wise comparison of whole matrices.
pub open spec fn mat_le(a: Seq<Seq<bool>>, b: Seq<Seq<bool>>) -> bool {
    &&& a.len() == b.len()
    &&& forall|y: int| 0 <= y < a.len() ==> row_le(#[trigger] a[y], b[y])
}

/// Setting one entry of a row from `false` to `true` raises the count by one.
pub proof fn lemma_count_row_update(r: Seq<bool>, i: int)
    requires
        0 <= i < r.len(),
        !r[i],
    ensures
        count_row(r.update(i, true)) == count_row(r) + 1,
    decreases r.len(),
{
    let r2 = r.update(i, true);
    if i == r.len() - 1 {
        assert(r2.drop_last() =~= r.drop_last());
    } else {
        assert(r2.drop_last() =~= r.drop_last().update(i, true));
        lemma_count_row_update(r.drop_last(), i);
    }
}

/// Setting one entry of a matrix from `false` to `true` raises the count by
/// one.
pub proof fn lemma_count_mat_update(m: Seq<Seq<bool>>, x: int, y: int)
    requires
        0 <= y < m.len(),
        0 <= x < m[y].len(),
        !m[y][x],
    ensures
        count_mat(m.update(y, m[y].update(x, true))) == count_mat(m) + 1,
    decreases m.len(),
{
    let m2 = m.update(y, m[y].update(x, true));
    if y == m.len() - 1 {
        assert(m2.drop_last() =~= m.drop_last());
        lemma_count_row_update(m[y], x);
    } else {
        assert(m2.drop_last() =~= m.drop_last().update(y, m[y].update(x, true)));
        assert(m2.last() =~= m.last());
        lemma_count_mat_update(m.drop_last(), x, y);
    }
}

pub proof fn lemma_count_row_le(a: Seq<bool>, b: Seq<bool>)
    requires
        row_le(a, b),
    ensures
        count_row(a) <= count_row(b),
    decreases a.len(),
{
    if a.len() > 0 {
        assert(row_le(a.drop_last(), b.drop_last()));
        lemma_count_row_le(a.drop_last(), b.drop_last());
    }
}

pub proof fn lemma_count_mat_le(a: Seq<Seq<bool>>, b: Seq<Seq<bool>>)
    requires
        mat_le(a, b),
    ensures
        count_mat(a) <= count_mat(b),
    decreases a.len(),
{
    if a.len() > 0 {
        assert(mat_le(a.drop_last(), b.drop_last()));
        lemma_count_mat_le(a.drop_last(), b.drop_last());
        assert(row_le(a.last(), b.last()));
        lemma_count_row_le(a.last(), b.last());
    }
}

/// If `a` is entry-wise at most `b` and both have the same count, the two
/// rows agree everywhere.
pub proof fn lemma_count_row_eq(a: Seq<bool>, b: Seq<bool>)
    requires
        row_le(a, b),
        count_row(a) == count_row(b),
    ensures
        forall|i: int| 0 <= i < a.len() ==> a[i] == b[i],
    decreases a.len(),
{
    if a.len() > 0 {
        assert(row_le(a.drop_last(), b.drop_last()));
        lemma_count_row_le(a.drop_last(), b.drop_last());
        assert(a.last() ==> b.last());
        assert(a.last() == b.last());
        lemma_count_row_eq(a.drop_last(), b.drop_last());
        assert forall|i: int| 0 <= i < a.len() implies a[i] == b[i] by {
            if i < a.len() - 1 {
                assert(a.drop_last()[i] == b.drop_last()[i]);
            }
        }
    }
}

/// If `a` is entry-wise at most `b` and both have the same count, the two
/// matrices agree everywhere.
pub proof fn lemma_count_mat_eq(a: Seq<Seq<bool>>, b: Seq<Seq<bool>>)
    requires
        mat_le(a, b),
        count_mat(a) == count_mat(b),
    ensures
        forall|y: int, i: int| 0 <= y < a.len() && 0 <= i < a[y].len() ==> a[y][i] == b[y][i],
    decreases a.len(),
{
    if a.len() > 0 {
        assert(mat_le(a.drop_last(), b.drop_last()));
        lemma_count_mat_le(a.drop_last(), b.drop_last());
        assert(row_le(a.last(), b.last()));
        lemma_count_row_le(a.last(), b.last());
        lemma_count_row_eq(a.last(), b.last());
        lemma_count_mat_eq(a.drop_last(), b.drop_last());
        assert forall|y: int, i: int|
            0 <= y < a.len() && 0 <= i < a[y].len() implies a[y][i] == b[y][i] by {
            if y < a.len() - 1 {
                assert(a.drop_last()[y][i] == b.drop_last()[y][i]);
            } else {
                assert(a.last()[i] == b.last()[i]);
            }
        }
    }
}

/// Extending a scanned prefix of a row by one entry.
pub proof fn lemma_count_row_extend(r: Seq<bool>, i: int)
    requires
        0 <= i < r.len(),
    ensures
        count_row(r.subrange(0, i + 1)) == count_row(r.subrange(0, i)) + if r[i] {
            1int
        } else {
            0int
        },
{
    assert(r.subrange(0, i + 1).drop_last() =~= r.subrange(0, i));
}

/// Extending a scanned prefix of a matrix by one full row.
pub proof fn lemma_count_mat_extend(m: Seq<Seq<bool>>, y: int)
    requires
        0 <= y < m.len(),
    ensures
        count_mat(m.subrange(0, y + 1)) == count_mat(m.subrange(0, y)) + count_row(m[y]),
{
    assert(m.subrange(0, y + 1).drop_last() =~= m.subrange(0, y));
}


pub proof fn lemma_count_row_zero_of_clear(r: Seq<bool>)
    requires
        forall|i: int| 0 <= i < r.len() ==> !(#[trigger] r[i]),
    ensures
        count_row(r) == 0,
    decreases r.len(),
{
    if r.len() > 0 {
        lemma_count_row_zero_of_clear(r.drop_last());
    }
}

pub proof fn lemma_count_mat_zero_of_clear(m: Seq<Seq<bool>>)
    requires
        forall|y: int, x: int| 0 <= y < m.len() && 0 <= x < m[y].len() ==> !(#[trigger] m[y][x]),
    ensures
        count_mat(m) == 0,
    decreases m.len(),
{
    if m.len() > 0 {
        lemma_count_mat_zero_of_clear(m.drop_last());
        lemma_count_row_zero_of_clear(m.last());
    }
}


pub proof fn lemma_count_row_bounds(r: Seq<bool>)
    ensures
        0 <= count_row(r) <= r.len(),
    decreases r.len(),
{
    if r.len() > 0 {
        lemma_count_row_bounds(r.drop_last());
    }
}

pub proof fn lemma_count_mat_bounds(m: Seq<Seq<bool>>, w: int)
    requires
        forall|y: int| 0 <= y < m.len() ==> (#[trigger] m[y]).len() <= w,
        w >= 0,
    ensures
        0 <= count_mat(m) <= m.len() * w,
    decreases m.len(),
{
    if m.len() > 0 {
        lemma_count_mat_bounds(m.drop_last(), w);
        lemma_count_row_bounds(m.last());
        assert((m.len() - 1) * w + w == m.len() * w) by (nonlinear_arith);
    }
}

/// Clearing one set entry of a row lowers the count by one.
pub proof fn lemma_count_row_clear(r: Seq<bool>, i: int)
    requires
        0 <= i < r.len(),
        r[i],
    ensures
        count_row(r.update(i, false)) == count_row(r) - 1,
    decreases r.len(),
{
    let r2 = r.update(i, false);
    if i == r.len() - 1 {
        assert(r2.drop_last() =~= r.drop_last());
    } else {
        assert(r2.drop_last() =~= r.drop_last().update(i, false));
        lemma_count_row_clear(r.drop_last(), i);
    }
}

/// Clearing one set entry of a matrix lowers the count by one.
pub proof fn lemma_count_mat_clear(m: Seq<Seq<bool>>, x: int, y: int)
    requires
        0 <= y < m.len(),
        0 <= x < m[y].len(),
        m[y][x],
    ensures
        count_mat(m.update(y, m[y].update(x, false))) == count_mat(m) - 1,
    decreases m.len(),
{
    let m2 = m.update(y, m[y].update(x, false));
    if y == m.len() - 1 {
        assert(m2.drop_last() =~= m.drop_last());
        lemma_count_row_clear(m[y], x);
    } else {
        assert(m2.drop_last() =~= m.drop_last().update(y, m[y].update(x, false)));
        assert(m2.last() =~= m.last());
        lemma_count_mat_clear(m.drop_last(), x, y);
    }
}

} // verus!
