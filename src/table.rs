//! Two-dimensional tables stored row after row in one vector.
use vstd::prelude::*;

verus! {

/// Position of cell `(i, u)` in a table stored row after row.
#[verifier::opaque]
pub open spec fn cell(i: int, u: int, cols: int) -> int {
    i * cols + u
}

pub proof fn lemma_cell_bounds(i: int, u: int, rows: int, cols: int)
    requires
        0 <= i < rows,
        0 <= u < cols,
    ensures
        0 <= cell(i, u, cols) < rows * cols,
{
    reveal(cell);
    assert((i + 1) * cols <= rows * cols) by (nonlinear_arith)
        requires
            0 <= i < rows,
            0 <= u < cols,
    ;
    assert((i + 1) * cols == i * cols + cols) by (nonlinear_arith);
    assert(i * cols + u < (i + 1) * cols);
    assert(0 <= i * cols) by (nonlinear_arith)
        requires
            0 <= i,
            0 <= cols,
    ;
}

/// The position of cell `(i, u)` in a table of `rows` rows of `cols` cells.
pub fn cell_index(i: usize, u: usize, rows: usize, cols: usize) -> (k: usize)
    requires
        i < rows,
        u < cols,
        rows * cols <= usize::MAX,
    ensures
        k == cell(i as int, u as int, cols as int),
        k < rows * cols,
{
    proof {
        lemma_cell_bounds(i as int, u as int, rows as int, cols as int);
        reveal(cell);
    }
    i * cols + u
}

pub proof fn lemma_cell_distinct(i: int, u: int, i2: int, u2: int, cols: int)
    requires
        0 <= i,
        0 <= i2,
        0 <= u < cols,
        0 <= u2 < cols,
        i != i2 || u != u2,
    ensures
        cell(i, u, cols) != cell(i2, u2, cols),
{
    reveal(cell);
    if i < i2 {
        assert(i * cols + u < i2 * cols + u2) by (nonlinear_arith)
            requires
                i < i2,
                0 <= u < cols,
                0 <= u2,
        ;
    } else if i2 < i {
        assert(i2 * cols + u2 < i * cols + u) by (nonlinear_arith)
            requires
                i2 < i,
                0 <= u2 < cols,
                0 <= u,
        ;
    }
}

/// The filled cells.
pub open spec fn filled<T>(t: Seq<Option<T>>) -> Set<int> {
    Set::new(|k: int| 0 <= k < t.len() && t[k] is Some)
}

pub proof fn lemma_filled_bound<T>(t: Seq<Option<T>>)
    ensures
        filled(t).finite(),
        filled(t).len() <= t.len(),
{
    vstd::set_lib::lemma_int_range(0, t.len() as int);
    vstd::set_lib::lemma_len_subset(filled(t), vstd::set_lib::set_int_range(0, t.len() as int));
}

pub proof fn lemma_filled_grows<T>(t: Seq<Option<T>>, k: int, v: Option<T>)
    requires
        0 <= k < t.len(),
        t[k] is None,
        v is Some,
    ensures
        filled(t.update(k, v)).len() == filled(t).len() + 1,
{
    lemma_filled_bound(t);
    assert(filled(t.update(k, v)) =~= filled(t).insert(k));
}

pub proof fn lemma_filled_same<T>(t: Seq<Option<T>>, k: int, v: Option<T>)
    requires
        0 <= k < t.len(),
        t[k] is Some,
        v is Some,
    ensures
        filled(t.update(k, v)) == filled(t),
{
    assert(filled(t.update(k, v)) =~= filled(t));
}

} // verus!
