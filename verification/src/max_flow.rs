use vstd::prelude::*;
use crate::sums::{lemma_sum_ext, lemma_sum_le, lemma_sum_point, lemma_sum_zero};
use crate::model::{
    cut_capacity, flow_value, has_augmenting_path, is_flow, is_skew, is_square, is_st_cut,
    mat_i64, mat_u64, net_out, positive_edge, reaches, residual_edge, row_fn, row_total,
    valid_capacities,
};
use crate::matrix::{lemma_capacity_bounds, lemma_mat_i64, lemma_mat_u64, set_i64, set_u64, zeros_i64};
use crate::theory::{lemma_max_flow_min_cut, lemma_reaches_congruent, residual_reachable};
use crate::search::{bfs_path, bfs_path_of, is_simple_path};
use crate::network::FlowNetwork;
use crate::residual::{lemma_flow_passes_check, passes_flow_check};

verus! {

/// `m` with `x` added to its entry at `(u, v)`.
pub open spec fn add_at(m: Seq<Seq<int>>, u: int, v: int, x: int) -> Seq<Seq<int>> {
    m.update(u, m[u].update(v, m[u][v] + x))
}

/// The flow after pushing `m` more units from `u` to `v`.
pub open spec fn pushed_flow(f: Seq<Seq<int>>, u: int, v: int, m: int) -> Seq<Seq<int>> {
    add_at(add_at(f, u, v, m), v, u, -m)
}

/// The residual capacities after pushing `m` more units from `u` to `v`.
pub open spec fn pushed_residual(r: Seq<Seq<int>>, u: int, v: int, m: int) -> Seq<Seq<int>> {
    add_at(add_at(r, u, v, -m), v, u, m)
}

/// The flow after pushing `m` units along the first `k` edges of `p`.
pub open spec fn flow_along(f: Seq<Seq<int>>, p: Seq<usize>, m: int, k: int) -> Seq<Seq<int>>
    decreases k,
{
    if k <= 0 {
        f
    } else {
        pushed_flow(flow_along(f, p, m, k - 1), p[k - 1] as int, p[k] as int, m)
    }
}

/// The residual capacities after pushing `m` units along the first `k` edges of `p`.
pub open spec fn residual_along(r: Seq<Seq<int>>, p: Seq<usize>, m: int, k: int) -> Seq<Seq<int>>
    decreases k,
{
    if k <= 0 {
        r
    } else {
        pushed_residual(residual_along(r, p, m, k - 1), p[k - 1] as int, p[k] as int, m)
    }
}

/// The least of `cap` and the residual capacities of the first `k` edges of `p`.
pub open spec fn path_min(r: Seq<Seq<int>>, p: Seq<usize>, cap: int, k: int) -> int
    decreases k,
{
    if k <= 0 {
        cap
    } else {
        let x = r[p[k - 1] as int][p[k] as int];
        let m = path_min(r, p, cap, k - 1);
        if x < m {
            x
        } else {
            m
        }
    }
}

/// The state of Edmonds-Karp: the flow, the residual capacities and the value so far.
pub struct EkState {
    pub flow: Seq<Seq<int>>,
    pub residual: Seq<Seq<int>>,
    pub total: int,
}

/// The state made of the given parts.
pub open spec fn ek_state(flow: Seq<Seq<int>>, residual: Seq<Seq<int>>, total: int) -> EkState {
    EkState { flow, residual, total }
}

/// Edmonds-Karp from `st`, at most `fuel` augmentations: while the value is below `limit`
/// and breadth-first search finds a path, push the least of the path's residual capacities
/// and what is left below `limit` along it.
pub open spec fn ek_run(s: usize, t: usize, limit: int, st: EkState, fuel: nat) -> EkState
    decreases fuel,
{
    if fuel == 0 || st.total >= limit {
        st
    } else {
        match bfs_path_of(st.residual, s, t) {
            None => st,
            Some(p) => {
                let m = path_min(st.residual, p, limit - st.total, p.len() - 1);
                ek_run(
                    s,
                    t,
                    limit,
                    ek_state(
                        flow_along(st.flow, p, m, p.len() - 1),
                        residual_along(st.residual, p, m, p.len() - 1),
                        st.total + m,
                    ),
                    (fuel - 1) as nat,
                )
            },
        }
    }
}

/// The zero flow on `n` nodes.
pub open spec fn zero_flow(n: int) -> Seq<Seq<int>> {
    Seq::new(n as nat, |u: int| Seq::new(n as nat, |v: int| 0int))
}

/// The result of Edmonds-Karp from the zero flow on the capacities `c`, stopping at `limit`
/// (each augmentation raises the value, which never exceeds the capacity out of `s`).
pub open spec fn ek_final(c: Seq<Seq<int>>, s: usize, t: usize, limit: int) -> EkState {
    ek_run(s, t, limit, ek_state(zero_flow(c.len() as int), c, 0), (row_total(c, s as int) + 1) as nat)
}

/// Pushes `m` more units from `u` to `v`: the flow from `u` to `v` grows by `m`, the flow from
/// `v` to `u` shrinks by `m`, and the residual capacities follow.
fn push_edge(
    flow: &mut Vec<Vec<i64>>,
    res: &mut Vec<Vec<u64>>,
    Ghost(c): Ghost<Seq<Seq<int>>>,
    u: usize,
    v: usize,
    m: u64,
)
    requires
        valid_capacities(c),
        is_square(mat_i64(old(flow)@), c.len() as int),
        is_square(mat_u64(old(res)@), c.len() as int),
        is_skew(mat_i64(old(flow)@), c.len() as int),
        forall|x: int, y: int|
            0 <= x < c.len() && 0 <= y < c.len() ==> #[trigger] mat_u64(old(res)@)[x][y] == c[x][y]
                - mat_i64(old(flow)@)[x][y],
        u < c.len(),
        v < c.len(),
        u != v,
        1 <= m <= mat_u64(old(res)@)[u as int][v as int],
    ensures
        ({
            let f0 = mat_i64(old(flow)@);
            let f1 = mat_i64(final(flow)@);
            let r0 = mat_u64(old(res)@);
            let r1 = mat_u64(final(res)@);
            let n = c.len() as int;
            &&& is_square(f1, n)
            &&& is_square(r1, n)
            &&& is_skew(f1, n)
            &&& forall|x: int, y: int|
                0 <= x < n && 0 <= y < n ==> #[trigger] r1[x][y] == c[x][y] - f1[x][y]
            &&& forall|x: int, y: int|
                0 <= x < n && 0 <= y < n && !(x == u && y == v) ==> #[trigger] r1[x][y] >= r0[x][y]
            &&& r1[u as int][v as int] == r0[u as int][v as int] - m
            &&& net_out(f1, u as int) == net_out(f0, u as int) + m
            &&& net_out(f1, v as int) == net_out(f0, v as int) - m
            &&& forall|w: int|
                0 <= w < n && w != u && w != v ==> #[trigger] net_out(f1, w) == net_out(f0, w)
            &&& f1 == pushed_flow(f0, u as int, v as int, m as int)
            &&& r1 == pushed_residual(r0, u as int, v as int, m as int)
        }),
{
    let ghost f0 = mat_i64(flow@);
    let ghost r0 = mat_u64(res@);
    let ghost n = c.len() as int;
    proof {
        lemma_capacity_bounds(c);
        assert(r0[v as int][u as int] == c[v as int][u as int] - f0[v as int][u as int]);
        assert(f0[u as int][v as int] == -f0[v as int][u as int]);
        assert(c[u as int][v as int] + c[v as int][u as int] <= i64::MAX);
        lemma_mat_i64(flow@);
        lemma_mat_u64(res@);
        assert(f0[u as int].len() == n && f0[v as int].len() == n);
        assert(r0[u as int].len() == n && r0[v as int].len() == n);
    }
    let mi = m as i64;
    let a = flow[u][v];
    let b = flow[v][u];
    set_i64(flow, u, v, a + mi);
    set_i64(flow, v, u, b - mi);
    let x = res[u][v];
    let y = res[v][u];
    set_u64(res, u, v, x - m);
    set_u64(res, v, u, y + m);
    proof {
        let f1 = mat_i64(flow@);
        let r1 = mat_u64(res@);
        assert forall|p: int, q: int| 0 <= p < n && 0 <= q < n implies #[trigger] f1[p][q] == -f1[q][p] by {
            assert(f0[p][q] == -f0[q][p]);
        }
        assert forall|p: int, q: int| 0 <= p < n && 0 <= q < n implies #[trigger] r1[p][q] == c[p][q]
            - f1[p][q] by {
            assert(r0[p][q] == c[p][q] - f0[p][q]);
        }
        assert forall|p: int, q: int| 0 <= p < n && 0 <= q < n && !(p == u && q == v) implies #[trigger] r1[p][q]
            >= r0[p][q] by {
            assert(r0[p][q] == c[p][q] - f0[p][q]);
        }
        lemma_sum_point(row_fn(f0, u as int), row_fn(f1, u as int), n, v as int);
        lemma_sum_point(row_fn(f0, v as int), row_fn(f1, v as int), n, u as int);
        assert forall|w: int| 0 <= w < n && w != u && w != v implies #[trigger] net_out(f1, w) == net_out(f0, w) by {
            lemma_sum_ext(row_fn(f1, w), row_fn(f0, w), n);
        }
    }
}

/// The flow `f` and the residual capacities `r` agree with the capacities `c` of `n` nodes.
pub open spec fn consistent(c: Seq<Seq<int>>, f: Seq<Seq<int>>, r: Seq<Seq<int>>, n: int) -> bool {
    &&& n == c.len()
    &&& valid_capacities(c)
    &&& is_square(f, n)
    &&& is_square(r, n)
    &&& is_skew(f, n)
    &&& forall|x: int, y: int| 0 <= x < n && 0 <= y < n ==> #[trigger] r[x][y] == c[x][y] - f[x][y]
}

/// The smallest of `cap` and the residual capacities along `path`.
fn bottleneck(residual: &Vec<Vec<u64>>, path: &Vec<usize>, cap: u64) -> (m: u64)
    requires
        is_square(mat_u64(residual@), residual@.len() as int),
        path@.len() >= 2,
        forall|i: int| 0 <= i < path@.len() ==> #[trigger] path@[i] < residual@.len(),
        forall|i: int|
            0 <= i < path@.len() - 1 ==> positive_edge(mat_u64(residual@))(
                #[trigger] path@[i] as int,
                path@[i + 1] as int,
            ),
        cap >= 1,
    ensures
        1 <= m <= cap,
        forall|j: int|
            0 <= j < path@.len() - 1 ==> m <= mat_u64(residual@)[#[trigger] path@[j] as int][path@[j
                + 1] as int],
        m == cap || exists|j: int|
            0 <= j < path@.len() - 1 && m == mat_u64(residual@)[#[trigger] path@[j] as int][path@[j
                + 1] as int],
        m == path_min(mat_u64(residual@), path@, cap as int, path@.len() - 1),
{
    let ghost r = mat_u64(residual@);
    let k = path.len();
    let mut m: u64 = cap;
    proof {
        lemma_mat_u64(residual@);
    }
    for i in 0..k - 1
        invariant
            k == path@.len(),
            k >= 2,
            r == mat_u64(residual@),
            is_square(r, residual@.len() as int),
            forall|i: int| 0 <= i < path@.len() ==> #[trigger] path@[i] < residual@.len(),
            forall|i: int|
                0 <= i < path@.len() - 1 ==> positive_edge(r)(#[trigger] path@[i] as int, path@[i + 1] as int),
            1 <= m <= cap,
            forall|j: int| 0 <= j < i ==> m <= r[#[trigger] path@[j] as int][path@[j + 1] as int],
            m == cap || exists|j: int| 0 <= j < i && m == r[#[trigger] path@[j] as int][path@[j + 1] as int],
            m == path_min(r, path@, cap as int, i as int),
    {
        let a = path[i];
        let b = path[i + 1];
        proof {
            lemma_mat_u64(residual@);
            assert(path@[i as int] < residual@.len() && path@[i + 1] < residual@.len());
            assert(positive_edge(r)(path@[i as int] as int, path@[i + 1] as int));
            assert(r[a as int].len() == residual@.len());
        }
        let x = residual[a][b];
        if x < m {
            m = x;
        }
        proof {
            assert(x == r[path@[i as int] as int][path@[i + 1] as int]);
        }
    }
    m
}

/// Pushes `m` units along every edge of a simple path.
fn augment_path(
    flow: &mut Vec<Vec<i64>>,
    residual: &mut Vec<Vec<u64>>,
    Ghost(c): Ghost<Seq<Seq<int>>>,
    path: &Vec<usize>,
    m: u64,
)
    requires
        consistent(c, mat_i64(old(flow)@), mat_u64(old(residual)@), c.len() as int),
        is_simple_path(
            positive_edge(mat_u64(old(residual)@)),
            c.len() as int,
            path@,
            path@[0] as int,
            path@[path@.len() - 1] as int,
        ),
        path@.len() >= 2,
        1 <= m,
        forall|j: int|
            0 <= j < path@.len() - 1 ==> m <= mat_u64(old(residual)@)[#[trigger] path@[j] as int][path@[j
                + 1] as int],
    ensures
        consistent(c, mat_i64(final(flow)@), mat_u64(final(residual)@), c.len() as int),
        ({
            let f0 = mat_i64(old(flow)@);
            let f1 = mat_i64(final(flow)@);
            let s = path@[0] as int;
            let t = path@[path@.len() - 1] as int;
            &&& net_out(f1, s) == net_out(f0, s) + m
            &&& net_out(f1, t) == net_out(f0, t) - m
            &&& forall|w: int|
                0 <= w < c.len() && w != s && w != t ==> #[trigger] net_out(f1, w) == net_out(f0, w)
        }),
        mat_i64(final(flow)@) == flow_along(mat_i64(old(flow)@), path@, m as int, path@.len() - 1),
        mat_u64(final(residual)@) == residual_along(mat_u64(old(residual)@), path@, m as int, path@.len() - 1),
{
    let k = path.len();
    let ghost r0 = mat_u64(residual@);
    let ghost n = c.len() as int;
    let ghost f0 = mat_i64(flow@);
    let ghost s = path@[0] as int;
    for i in 0..k - 1
        invariant
            k == path@.len(),
            k >= 2,
            s == path@[0],
            forall|i: int| 0 <= i < path@.len() ==> #[trigger] path@[i] < n,
            forall|i: int, j: int| 0 <= i < j < path@.len() ==> path@[i] != path@[j],
            consistent(c, mat_i64(flow@), mat_u64(residual@), n),
            mat_i64(flow@) == flow_along(f0, path@, m as int, i as int),
            mat_u64(residual@) == residual_along(r0, path@, m as int, i as int),
            1 <= m,
            forall|j: int|
                i <= j < k - 1 ==> m <= mat_u64(residual@)[#[trigger] path@[j] as int][path@[j
                    + 1] as int],
            forall|w: int|
                0 <= w < n ==> #[trigger] net_out(mat_i64(flow@), w) == net_out(f0, w) + (if i > 0
                    && w == s {
                    m as int
                } else {
                    0
                }) - (if i > 0 && w == path@[i as int] {
                    m as int
                } else {
                    0
                }),
    {
        let a = path[i];
        let b = path[i + 1];
        let ghost r_before = mat_u64(residual@);
        let ghost f_before = mat_i64(flow@);
        proof {
            assert(a != b);
            assert(a < n && b < n);
        }
        push_edge(flow, residual, Ghost(c), a, b, m);
        proof {
            let r1 = mat_u64(residual@);
            assert forall|j: int| i + 1 <= j < k - 1 implies m <= r1[#[trigger] path@[j] as int][path@[j
                + 1] as int] by {
                assert(path@[j] != path@[i as int]);
                assert(m <= r_before[path@[j] as int][path@[j + 1] as int]);
                assert(path@[j] < n && path@[j + 1] < n);
            }
            assert forall|w: int| 0 <= w < n implies #[trigger] net_out(mat_i64(flow@), w) == net_out(
                f0,
                w,
            ) + (if i + 1 > 0 && w == s {
                m as int
            } else {
                0
            }) - (if i + 1 > 0 && w == path@[i + 1] {
                m as int
            } else {
                0
            }) by {
                assert(net_out(f_before, w) == net_out(f0, w) + (if i > 0 && w == s {
                    m as int
                } else {
                    0
                }) - (if i > 0 && w == path@[i as int] {
                    m as int
                } else {
                    0
                }));
                if i > 0 {
                    assert(path@[i as int] != path@[0]);
                }
            }
        }
    }
}

/// Edmonds-Karp with an upper limit on the value: augments along shortest residual paths
/// until the value reaches `limit` or no augmenting path is left. Each augmentation pushes
/// the bottleneck of its path, cut down to what is left below `limit`.
pub(crate) fn augment(network: &FlowNetwork, source: usize, sink: usize, limit: u64) -> (res: (
    u64,
    Vec<Vec<i64>>,
    Vec<Vec<u64>>,
))
    requires
        network.wf(),
        source < network@.len(),
        sink < network@.len(),
        source != sink,
    ensures
        is_flow(network@, mat_i64(res.1@), source as int, sink as int),
        flow_value(mat_i64(res.1@), source as int) == res.0,
        res.0 <= limit,
        res.0 <= i64::MAX,
        consistent(network@, mat_i64(res.1@), mat_u64(res.2@), network@.len() as int),
        res.0 < limit ==> !has_augmenting_path(network@, mat_i64(res.1@), source as int, sink as int),
        ek_final(network@, source, sink, limit as int) == ek_state(mat_i64(res.1@), mat_u64(res.2@), res.0 as int),
{
    let n = network.len();
    let ghost c = network@;
    let ghost s = source as int;
    let ghost t = sink as int;
    let mut residual = network.copy_rows();
    let mut flow = zeros_i64(n);
    let mut total: u64 = 0;
    proof {
        lemma_capacity_bounds(c);
        let f = mat_i64(flow@);
        assert forall|w: int| 0 <= w < n implies #[trigger] net_out(f, w) == 0 by {
            lemma_sum_zero(row_fn(f, w), n as int);
        }
        assert forall|x: int, y: int| 0 <= x < n && 0 <= y < n implies #[trigger] f[x][y] == -f[y][x] by {}
        assert(f =~= zero_flow(n as int)) by {
            assert forall|u: int| 0 <= u < n implies #[trigger] f[u] =~= zero_flow(n as int)[u] by {}
        }
    }
    let ghost mut steps: int = 0;
    loop
        invariant
            c == network@,
            0 <= s < n,
            0 <= t < n,
            s != t,
            s == source,
            t == sink,
            consistent(c, mat_i64(flow@), mat_u64(residual@), n as int),
            forall|w: int|
                0 <= w < n && w != s && w != t ==> #[trigger] net_out(mat_i64(flow@), w) == 0,
            net_out(mat_i64(flow@), s) == total,
            total <= limit,
            total <= row_total(c, s),
            row_total(c, s) <= i64::MAX,
            0 <= steps <= total,
            ek_run(source, sink, limit as int, ek_state(mat_i64(flow@), mat_u64(residual@), total as int), (
            row_total(c, s) + 1 - steps) as nat) == ek_final(c, source, sink, limit as int),
        ensures
            total >= limit || !reaches(positive_edge(mat_u64(residual@)), n as int, s, t),
            total >= limit || bfs_path_of(mat_u64(residual@), source, sink) is None,
            ek_run(source, sink, limit as int, ek_state(mat_i64(flow@), mat_u64(residual@), total as int), (
            row_total(c, s) + 1 - steps) as nat) == ek_final(c, source, sink, limit as int),
        decreases row_total(c, s) - total,
    {
        if total >= limit {
            break;
        }
        match bfs_path(&residual, source, sink) {
            None => {
                break;
            },
            Some(path) => {
                let ghost f0 = mat_i64(flow@);
                let ghost r0 = mat_u64(residual@);
                let ghost st0 = ek_state(f0, r0, total as int);
                proof {
                    if path@.len() == 1 {
                        assert(path@[0] == source && path@[0] == sink);
                    }
                }
                let m = bottleneck(&residual, &path, limit - total);
                augment_path(&mut flow, &mut residual, Ghost(c), &path, m);
                proof {
                    let fuel = (row_total(c, s) + 1 - steps) as nat;
                    assert(fuel > 0);
                    assert(ek_run(source, sink, limit as int, st0, fuel) == ek_run(
                        source,
                        sink,
                        limit as int,
                        ek_state(mat_i64(flow@), mat_u64(residual@), total + m),
                        (fuel - 1) as nat,
                    ));
                    steps = steps + 1;
                    let f1 = mat_i64(flow@);
                    let r1 = mat_u64(residual@);
                    lemma_mat_u64(residual@);
                    assert forall|w: int| 0 <= w < n && w != s && w != t implies #[trigger] net_out(f1, w) == 0 by {
                        assert(net_out(f1, w) == net_out(f0, w));
                    }
                    assert forall|v: int| 0 <= v < n implies #[trigger] f1[s][v] <= c[s][v] by {
                        assert(r1[s][v] == c[s][v] - f1[s][v]);
                        assert(r1[s][v] >= 0);
                    }
                    lemma_sum_le(row_fn(f1, s), row_fn(c, s), n as int);
                }
                total = total + m;
            },
        }
    }
    proof {
        let f = mat_i64(flow@);
        let r = mat_u64(residual@);
        lemma_mat_u64(residual@);
        assert(ek_run(source, sink, limit as int, ek_state(f, r, total as int), (row_total(c, s) + 1 - steps) as nat)
            == ek_state(f, r, total as int));
        assert forall|x: int, y: int| 0 <= x < n && 0 <= y < n implies #[trigger] f[x][y] <= c[x][y] by {
            assert(r[x][y] >= 0);
            assert(r[x][y] == c[x][y] - f[x][y]);
        }
        assert forall|x: int, y: int| 0 <= x < n && 0 <= y < n implies #[trigger] positive_edge(r)(x, y)
            == residual_edge(c, f)(x, y) by {
            assert(r[x][y] == c[x][y] - f[x][y]);
        }
        lemma_reaches_congruent(positive_edge(r), residual_edge(c, f), n as int, s, t);
    }
    (total, flow, residual)
}

/// Max flow computation using the Edmonds-Karp algorithm (BFS-based Ford-Fulkerson).
///
/// Each augmentation follows a shortest residual path, found by a breadth-first search
/// over the whole capacity matrix (O(V²) work per search, V = nodes).
pub struct FordFulkerson;

impl FordFulkerson {
    /// Compute maximum flow from `source` to `sink` in the given network.
    ///
    /// Returns the max flow value and the flow matrix. The flow matrix is skew-symmetric:
    /// `flow[u][v] == -flow[v][u]`.
    pub fn max_flow(network: &FlowNetwork, source: usize, sink: usize) -> (res: (u64, Vec<Vec<i64>>))
        requires
            network.wf(),
            source < network@.len(),
            sink < network@.len(),
            source != sink,
        ensures
            is_flow(network@, mat_i64(res.1@), source as int, sink as int),
            flow_value(mat_i64(res.1@), source as int) == res.0,
            !has_augmenting_path(network@, mat_i64(res.1@), source as int, sink as int),
            forall|g: Seq<Seq<int>>|
                is_flow(network@, g, source as int, sink as int) ==> #[trigger] flow_value(
                    g,
                    source as int,
                ) <= res.0,
            passes_flow_check(network@, mat_i64(res.1@), source as int, sink as int),
            mat_i64(res.1@) == ek_final(network@, source, sink, u64::MAX as int).flow,
            res.0 == cut_capacity(network@, residual_reachable(network@, mat_i64(res.1@), source as int)),
            forall|side: spec_fn(int) -> bool|
                is_st_cut(side, source as int, sink as int) ==> res.0 <= #[trigger] cut_capacity(
                    network@,
                    side,
                ),
    {
        let (value, flow, _residual) = augment(network, source, sink, u64::MAX);
        proof {
            lemma_max_flow_min_cut(network@, mat_i64(flow@), source as int, sink as int);
            lemma_flow_passes_check(network@, mat_i64(flow@), source as int, sink as int);
        }
        (value, flow)
    }
}

} // verus!
