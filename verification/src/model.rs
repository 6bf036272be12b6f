use vstd::prelude::*;
use crate::sums::sum_to;

verus! {

/// A matrix of unsigned entries seen as a matrix of integers.
pub open spec fn mat_u64(m: Seq<Vec<u64>>) -> Seq<Seq<int>> {
    m.map_values(|r: Vec<u64>| r@.map_values(|x: u64| x as int))
}

/// A matrix of signed entries seen as a matrix of integers.
pub open spec fn mat_i64(m: Seq<Vec<i64>>) -> Seq<Seq<int>> {
    m.map_values(|r: Vec<i64>| r@.map_values(|x: i64| x as int))
}

/// `m` has `n` rows of `n` entries each.
pub open spec fn is_square(m: Seq<Seq<int>>, n: int) -> bool {
    &&& m.len() == n
    &&& forall|u: int| 0 <= u < n ==> #[trigger] m[u].len() == n
}

/// `m` has at least `n` rows, and each of the first `n` rows has at least `n` entries.
pub open spec fn covers(m: Seq<Seq<int>>, n: int) -> bool {
    &&& m.len() >= n
    &&& forall|u: int| 0 <= u < n ==> #[trigger] m[u].len() >= n
}

/// Row `u` of `m` as a function of the column.
pub open spec fn row_fn(m: Seq<Seq<int>>, u: int) -> spec_fn(int) -> int {
    |v: int| m[u][v]
}

/// Sum of row `u` (over the first `m.len()` columns): for a flow, the net flow out of `u`.
pub open spec fn row_total(m: Seq<Seq<int>>, u: int) -> int {
    sum_to(row_fn(m, u), m.len() as int)
}

/// Sum of all entries of a square matrix.
pub open spec fn mat_total(m: Seq<Seq<int>>) -> int {
    sum_to(|u: int| row_total(m, u), m.len() as int)
}

/// Capacities that a network can hold: square and non-negative, with the capacities out of
/// each node, and the two capacities between any two distinct nodes, adding up to at most
/// the largest signed 64-bit value, so that every flow and residual capacity is exact.
pub open spec fn valid_capacities(c: Seq<Seq<int>>) -> bool {
    let n = c.len() as int;
    &&& is_square(c, n)
    &&& forall|u: int, v: int| 0 <= u < n && 0 <= v < n ==> 0 <= #[trigger] c[u][v]
    &&& forall|u: int| 0 <= u < n ==> #[trigger] row_total(c, u) <= i64::MAX
    &&& forall|u: int, v: int|
        0 <= u < n && 0 <= v < n && u != v ==> #[trigger] c[u][v] + c[v][u] <= i64::MAX
}

/// `f[u][v] == -f[v][u]` on `[0, n)^2`.
pub open spec fn is_skew(f: Seq<Seq<int>>, n: int) -> bool {
    forall|u: int, v: int| 0 <= u < n && 0 <= v < n ==> #[trigger] f[u][v] == -f[v][u]
}

/// The net flow out of `u`.
pub open spec fn net_out(f: Seq<Seq<int>>, u: int) -> int {
    row_total(f, u)
}

/// `f` is a flow from `s` to `t` under the capacities `c`: a skew-symmetric matrix (the flow
/// from `u` to `v` is the negated flow from `v` to `u`), bounded by the capacities, and with
/// zero net flow out of every node other than `s` and `t`.
pub open spec fn is_flow(c: Seq<Seq<int>>, f: Seq<Seq<int>>, s: int, t: int) -> bool {
    let n = c.len() as int;
    &&& is_square(c, n)
    &&& is_square(f, n)
    &&& 0 <= s < n
    &&& 0 <= t < n
    &&& is_skew(f, n)
    &&& forall|u: int, v: int| 0 <= u < n && 0 <= v < n ==> #[trigger] f[u][v] <= c[u][v]
    &&& forall|v: int| 0 <= v < n && v != s && v != t ==> #[trigger] net_out(f, v) == 0
}

/// The value of a flow: the net flow out of the source.
pub open spec fn flow_value(f: Seq<Seq<int>>, s: int) -> int {
    net_out(f, s)
}

/// The edges of the residual graph: those with capacity left over by the flow.
pub open spec fn residual_edge(c: Seq<Seq<int>>, f: Seq<Seq<int>>) -> spec_fn(int, int) -> bool {
    |u: int, v: int| c[u][v] - f[u][v] > 0
}

/// The edges of a matrix with a positive entry.
pub open spec fn positive_edge(r: Seq<Seq<int>>) -> spec_fn(int, int) -> bool {
    |u: int, v: int| r[u][v] > 0
}

/// `p` is a walk in the graph with `n` nodes and edge relation `e`.
pub open spec fn is_walk(e: spec_fn(int, int) -> bool, n: int, p: Seq<int>) -> bool {
    &&& p.len() >= 1
    &&& forall|i: int| 0 <= i < p.len() ==> 0 <= #[trigger] p[i] < n
    &&& forall|i: int| 0 <= i < p.len() - 1 ==> e(#[trigger] p[i], p[i + 1])
}

/// `v` can be reached from `s` along edges of `e`.
pub open spec fn reaches(e: spec_fn(int, int) -> bool, n: int, s: int, v: int) -> bool {
    exists|p: Seq<int>| #[trigger] is_walk(e, n, p) && p[0] == s && p[p.len() - 1] == v
}

/// The residual graph of `f` has a path from `s` to `t`: the flow can be augmented.
pub open spec fn has_augmenting_path(c: Seq<Seq<int>>, f: Seq<Seq<int>>, s: int, t: int) -> bool {
    reaches(residual_edge(c, f), c.len() as int, s, t)
}

/// The total capacity of the edges that leave `side` for its complement.
pub open spec fn cut_capacity(c: Seq<Seq<int>>, side: spec_fn(int) -> bool) -> int {
    let n = c.len() as int;
    sum_to(
        |u: int|
            if side(u) {
                sum_to(|v: int| if side(v) { 0 } else { c[u][v] }, n)
            } else {
                0
            },
        n,
    )
}

/// `side` separates `s` from `t`.
pub open spec fn is_st_cut(side: spec_fn(int) -> bool, s: int, t: int) -> bool {
    side(s) && !side(t)
}

/// The nodes listed in `l`.
pub open spec fn member(l: Seq<usize>) -> spec_fn(int) -> bool {
    |v: int| exists|i: int| 0 <= i < l.len() && l[i] as int == v
}

/// `l` lists, in strictly increasing order, exactly the nodes below `n` that satisfy `p`.
pub open spec fn lists_exactly(l: Seq<usize>, n: int, p: spec_fn(int) -> bool) -> bool {
    &&& forall|i: int, j: int| 0 <= i < j < l.len() ==> l[i] < l[j]
    &&& forall|i: int| 0 <= i < l.len() ==> #[trigger] l[i] < n && p(l[i] as int)
    &&& forall|v: int| 0 <= v < n && p(v) ==> #[trigger] member(l)(v)
}

} // verus!
