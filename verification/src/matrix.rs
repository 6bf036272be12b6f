use vstd::prelude::*;
use crate::sums::{lemma_sum_ext, lemma_sum_ge_one, lemma_sum_le, lemma_sum_nonneg, lemma_sum_point};
use crate::model::{is_square, mat_i64, mat_u64, row_fn, row_total, valid_capacities};

verus! {

/// Changing one entry of a square matrix changes the total of its row by the same amount and
/// leaves the other rows' totals alone.
pub proof fn lemma_row_total_update(c: Seq<Seq<int>>, u: int, v: int, x: int)
    requires
        is_square(c, c.len() as int),
        0 <= u < c.len(),
        0 <= v < c.len(),
    ensures
        row_total(c.update(u, c[u].update(v, x)), u) == row_total(c, u) - c[u][v] + x,
        forall|w: int|
            0 <= w < c.len() && w != u ==> #[trigger] row_total(c.update(u, c[u].update(v, x)), w)
                == row_total(c, w),
{
    let n = c.len() as int;
    let c2 = c.update(u, c[u].update(v, x));
    assert forall|w: int| 0 <= w < n && w != u implies #[trigger] row_total(c2, w) == row_total(
        c,
        w,
    ) by {
        lemma_sum_ext(row_fn(c2, w), row_fn(c, w), n);
    }
    lemma_sum_point(row_fn(c, u), row_fn(c2, u), n, v);
}

/// Adding `x` to the capacity from `u` to `v` keeps the capacities valid while the row of
/// `u`, and the pair of `u` and `v`, still fit.
pub proof fn lemma_add_keeps_valid(c: Seq<Seq<int>>, u: int, v: int, x: int)
    requires
        valid_capacities(c),
        0 <= u < c.len(),
        0 <= v < c.len(),
        0 <= x,
        row_total(c, u) + x <= i64::MAX,
        u != v ==> c[u][v] + x + c[v][u] <= i64::MAX,
    ensures
        valid_capacities(c.update(u, c[u].update(v, c[u][v] + x))),
{
    let n = c.len() as int;
    let c2 = c.update(u, c[u].update(v, c[u][v] + x));
    lemma_row_total_update(c, u, v, c[u][v] + x);
    assert forall|a: int, b: int| 0 <= a < n && 0 <= b < n && a != b implies #[trigger] c2[a][b]
        + c2[b][a] <= i64::MAX by {
        assert(c[a][b] + c[b][a] <= i64::MAX);
    }
    assert forall|a: int| 0 <= a < n implies #[trigger] c2[a].len() == n by {}
    assert forall|a: int| 0 <= a < n implies #[trigger] row_total(c2, a) <= i64::MAX by {
        assert(row_total(c, a) <= i64::MAX);
    }
}

/// Capacities below valid ones are valid.
pub proof fn lemma_valid_below(c: Seq<Seq<int>>, d: Seq<Seq<int>>)
    requires
        valid_capacities(c),
        is_square(d, c.len() as int),
        forall|u: int, v: int|
            0 <= u < c.len() && 0 <= v < c.len() ==> 0 <= #[trigger] d[u][v] <= c[u][v],
    ensures
        valid_capacities(d),
{
    let n = c.len() as int;
    assert forall|u: int| 0 <= u < n implies #[trigger] row_total(d, u) <= i64::MAX by {
        lemma_sum_le(row_fn(d, u), row_fn(c, u), n);
        assert(row_total(c, u) <= i64::MAX);
    }
    assert forall|a: int, b: int| 0 <= a < n && 0 <= b < n && a != b implies #[trigger] d[a][b]
        + d[b][a] <= i64::MAX by {
        assert(c[a][b] + c[b][a] <= i64::MAX);
        assert(d[b][a] <= c[b][a]);
    }
}

/// Each entry, and each row total, is bounded by the largest signed 64-bit value.
pub proof fn lemma_capacity_bounds(c: Seq<Seq<int>>)
    requires
        valid_capacities(c),
    ensures
        forall|u: int| 0 <= u < c.len() ==> 0 <= #[trigger] row_total(c, u) <= i64::MAX,
        forall|u: int, v: int|
            0 <= u < c.len() && 0 <= v < c.len() ==> #[trigger] c[u][v] <= row_total(c, u),
        forall|u: int, v: int|
            0 <= u < c.len() && 0 <= v < c.len() && u != v ==> #[trigger] c[u][v] + c[v][u]
                <= i64::MAX,
{
    let n = c.len() as int;
    assert forall|u: int| 0 <= u < n implies 0 <= #[trigger] row_total(c, u) by {
        lemma_sum_nonneg(row_fn(c, u), n);
    }
    assert forall|u: int, v: int| 0 <= u < n && 0 <= v < n implies #[trigger] c[u][v]
        <= row_total(c, u) by {
        lemma_sum_ge_one(row_fn(c, u), n, v);
    }
}

/// How the integer view of a matrix of unsigned entries relates to its rows.
pub proof fn lemma_mat_u64(m: Seq<Vec<u64>>)
    ensures
        mat_u64(m).len() == m.len(),
        forall|u: int| 0 <= u < m.len() ==> #[trigger] m[u]@.len() == mat_u64(m)[u].len(),
        forall|u: int, v: int|
            0 <= u < m.len() && 0 <= v < m[u]@.len() ==> #[trigger] m[u]@[v] as int == mat_u64(
                m,
            )[u][v],
        forall|u: int, v: int|
            0 <= u < m.len() && 0 <= v < m[u]@.len() ==> 0 <= #[trigger] mat_u64(m)[u][v],
{
}

/// How the integer view of a matrix of signed entries relates to its rows.
pub proof fn lemma_mat_i64(m: Seq<Vec<i64>>)
    ensures
        mat_i64(m).len() == m.len(),
        forall|u: int| 0 <= u < m.len() ==> #[trigger] m[u]@.len() == mat_i64(m)[u].len(),
        forall|u: int, v: int|
            0 <= u < m.len() && 0 <= v < m[u]@.len() ==> #[trigger] m[u]@[v] as int == mat_i64(
                m,
            )[u][v],
{
}

/// Sets one entry of a matrix of unsigned entries.
pub(crate) fn set_u64(m: &mut Vec<Vec<u64>>, u: usize, v: usize, x: u64)
    requires
        u < old(m)@.len(),
        v < old(m)@[u as int]@.len(),
    ensures
        final(m)@.len() == old(m)@.len(),
        forall|i: int| 0 <= i < old(m)@.len() ==> (#[trigger] final(m)@[i])@.len() == old(m)@[i]@.len(),
        mat_u64(final(m)@) == mat_u64(old(m)@).update(
            u as int,
            mat_u64(old(m)@)[u as int].update(v as int, x as int),
        ),
{
    m[u].set(v, x);
    assert(mat_u64(m@) =~= mat_u64(old(m)@).update(
        u as int,
        mat_u64(old(m)@)[u as int].update(v as int, x as int),
    )) by {
        assert(mat_u64(m@)[u as int] =~= mat_u64(old(m)@)[u as int].update(v as int, x as int));
    }
}

/// Sets one entry of a matrix of signed entries.
pub(crate) fn set_i64(m: &mut Vec<Vec<i64>>, u: usize, v: usize, x: i64)
    requires
        u < old(m)@.len(),
        v < old(m)@[u as int]@.len(),
    ensures
        final(m)@.len() == old(m)@.len(),
        forall|i: int| 0 <= i < old(m)@.len() ==> (#[trigger] final(m)@[i])@.len() == old(m)@[i]@.len(),
        mat_i64(final(m)@) == mat_i64(old(m)@).update(
            u as int,
            mat_i64(old(m)@)[u as int].update(v as int, x as int),
        ),
{
    m[u].set(v, x);
    assert(mat_i64(m@) =~= mat_i64(old(m)@).update(
        u as int,
        mat_i64(old(m)@)[u as int].update(v as int, x as int),
    )) by {
        assert(mat_i64(m@)[u as int] =~= mat_i64(old(m)@)[u as int].update(v as int, x as int));
    }
}

/// An `n` by `n` matrix of unsigned zeros.
pub(crate) fn zeros_u64(n: usize) -> (m: Vec<Vec<u64>>)
    ensures
        is_square(mat_u64(m@), n as int),
        forall|u: int, v: int| 0 <= u < n && 0 <= v < n ==> #[trigger] mat_u64(m@)[u][v] == 0,
{
    let mut m: Vec<Vec<u64>> = Vec::new();
    for i in 0..n
        invariant
            m@.len() == i,
            forall|u: int| 0 <= u < i ==> (#[trigger] m@[u])@.len() == n,
            forall|u: int, v: int| 0 <= u < i && 0 <= v < n ==> #[trigger] m@[u]@[v] == 0,
    {
        let mut row: Vec<u64> = Vec::new();
        for j in 0..n
            invariant
                row@.len() == j,
                forall|v: int| 0 <= v < j ==> #[trigger] row@[v] == 0,
        {
            row.push(0);
        }
        m.push(row);
    }
    m
}

/// An `n` by `n` matrix of signed zeros.
pub(crate) fn zeros_i64(n: usize) -> (m: Vec<Vec<i64>>)
    ensures
        is_square(mat_i64(m@), n as int),
        forall|u: int, v: int| 0 <= u < n && 0 <= v < n ==> #[trigger] mat_i64(m@)[u][v] == 0,
{
    let mut m: Vec<Vec<i64>> = Vec::new();
    for i in 0..n
        invariant
            m@.len() == i,
            forall|u: int| 0 <= u < i ==> (#[trigger] m@[u])@.len() == n,
            forall|u: int, v: int| 0 <= u < i && 0 <= v < n ==> #[trigger] m@[u]@[v] == 0,
    {
        let mut row: Vec<i64> = Vec::new();
        for j in 0..n
            invariant
                row@.len() == j,
                forall|v: int| 0 <= v < j ==> #[trigger] row@[v] == 0,
        {
            row.push(0);
        }
        m.push(row);
    }
    m
}

/// A copy of the first `n` columns of the first `n` rows.
pub(crate) fn copy_u64(src: &[Vec<u64>], n: usize) -> (m: Vec<Vec<u64>>)
    requires
        src@.len() >= n,
        forall|u: int| 0 <= u < n ==> (#[trigger] src@[u])@.len() >= n,
    ensures
        is_square(mat_u64(m@), n as int),
        forall|u: int, v: int|
            0 <= u < n && 0 <= v < n ==> #[trigger] mat_u64(m@)[u][v] == mat_u64(src@)[u][v],
{
    let mut m: Vec<Vec<u64>> = Vec::new();
    for i in 0..n
        invariant
            m@.len() == i,
            src@.len() >= n,
            forall|u: int| 0 <= u < n ==> (#[trigger] src@[u])@.len() >= n,
            forall|u: int| 0 <= u < i ==> (#[trigger] m@[u])@.len() == n,
            forall|u: int, v: int| 0 <= u < i && 0 <= v < n ==> #[trigger] m@[u]@[v] == src@[u]@[v],
    {
        let mut row: Vec<u64> = Vec::new();
        for j in 0..n
            invariant
                row@.len() == j,
                i < n,
                src@.len() >= n,
                src@[i as int]@.len() >= n,
                forall|v: int| 0 <= v < j ==> #[trigger] row@[v] == src@[i as int]@[v],
        {
            row.push(src[i][j]);
        }
        m.push(row);
    }
    m
}

} // verus!
