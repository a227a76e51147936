//! Folds over the points of a grid, row by row.
use vstd::arithmetic::div_mod::*;
use vstd::prelude::*;

verus! {

/// Folds `f` over the points `(y, x0), (y, x0 + 1), ...`, `n` of them.
pub open spec fn row_fold<A>(f: spec_fn(A, int, int) -> A, acc: A, y: int, x0: int, n: nat) -> A
    decreases n,
{
    if n == 0 {
        acc
    } else {
        f(row_fold(f, acc, y, x0, (n - 1) as nat), y, x0 + n - 1)
    }
}

/// Folds `f` over `rows` rows of `cols` points each, the first at `(y0, x0)`.
pub open spec fn grid_fold<A>(
    f: spec_fn(A, int, int) -> A,
    acc: A,
    y0: int,
    x0: int,
    rows: nat,
    cols: nat,
) -> A
    decreases rows,
{
    if rows == 0 {
        acc
    } else {
        row_fold(
            f,
            grid_fold(f, acc, y0, x0, (rows - 1) as nat, cols),
            y0 + rows - 1,
            x0,
            cols,
        )
    }
}

/// How many integers lie in `lo..=hi`.
pub open spec fn count_between(lo: int, hi: int) -> nat {
    if hi >= lo {
        (hi - lo + 1) as nat
    } else {
        0
    }
}

/// The row and the column of the point number `i * n + j` of a grid with `n` columns.
pub proof fn lemma_grid_index(i: int, j: int, n: int)
    requires
        0 <= j < n,
    ensures
        (i * n + j) / n == i,
        (i * n + j) % n == j,
{
    lemma_fundamental_div_mod_converse(i * n + j, n, i, j);
}

/// The point number `i * n + j` lies in a grid of `m` rows and `n` columns.
pub proof fn lemma_grid_index_bound(i: int, j: int, m: int, n: int)
    requires
        0 <= i < m,
        0 <= j < n,
    ensures
        0 <= i * n + j < m * n,
        (i + 1) * n == i * n + n,
{
    assert(0 <= i * n + j < m * n && (i + 1) * n == i * n + n) by (nonlinear_arith)
        requires
            0 <= i < m,
            0 <= j < n,
    ;
}

} // verus!
