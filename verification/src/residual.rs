use vstd::prelude::*;
use crate::sums::{sum_to, lemma_sum_add, lemma_sum_ext, lemma_sum_neg};
use crate::model::{covers, is_flow, is_square, mat_i64, mat_u64, net_out, row_fn};
use crate::matrix::{lemma_capacity_bounds, lemma_mat_i64, lemma_mat_u64};
use crate::network::FlowNetwork;

verus! {

/// `x` when positive, else zero.
pub open spec fn pos_part(x: int) -> int {
    if x > 0 {
        x
    } else {
        0
    }
}

/// The positive flows into `v`, as a function of the node they come from.
pub open spec fn in_fn(f: Seq<Seq<int>>, v: int) -> spec_fn(int) -> int {
    |u: int| pos_part(f[u][v])
}

/// The positive flows out of `v`, as a function of the node they go to.
pub open spec fn out_fn(f: Seq<Seq<int>>, v: int) -> spec_fn(int) -> int {
    |u: int| pos_part(f[v][u])
}

/// The residual capacities of `flow` on the network `c`: what each edge can still take.
pub open spec fn residual_of(c: Seq<Seq<int>>, f: Seq<Seq<int>>, u: int, v: int) -> int {
    pos_part(c[u][v] - f[u][v])
}

/// What `is_valid_flow` checks: no entry exceeds its capacity, and at every node other than
/// `s` and `t` the positive flows in add up to the positive flows out.
pub open spec fn passes_flow_check(c: Seq<Seq<int>>, f: Seq<Seq<int>>, s: int, t: int) -> bool {
    let n = c.len() as int;
    &&& forall|u: int, v: int| 0 <= u < n && 0 <= v < n ==> #[trigger] f[u][v] <= c[u][v]
    &&& forall|v: int|
        0 <= v < n && v != s && v != t ==> #[trigger] sum_to(in_fn(f, v), n) == sum_to(out_fn(f, v), n)
}

/// The total of the positive entries in column `v` of `f`, over the first `n` rows: the flow
/// into `v`.
pub open spec fn positive_into(f: Seq<Seq<int>>, v: int, n: int) -> int {
    sum_to(|u: int| if f[u][v] > 0 { f[u][v] } else { 0 }, n)
}

/// The total of the positive entries in row `v` of `f`, over the first `n` columns: the flow
/// out of `v`.
pub open spec fn positive_out_of(f: Seq<Seq<int>>, v: int, n: int) -> int {
    sum_to(|u: int| if f[v][u] > 0 { f[v][u] } else { 0 }, n)
}

/// The flow check holds exactly when no entry of the flow exceeds its capacity (zero
/// capacities included) and, at every node other than `s` and `t`, the positive flows in add
/// up to the positive flows out.
pub proof fn lemma_flow_check_law(c: Seq<Seq<int>>, f: Seq<Seq<int>>, s: int, t: int)
    ensures
        passes_flow_check(c, f, s, t) <==> ((forall|u: int, v: int|
            0 <= u < c.len() && 0 <= v < c.len() ==> #[trigger] f[u][v] <= c[u][v]) && (forall|v: int|
            0 <= v < c.len() && v != s && v != t ==> #[trigger] positive_into(f, v, c.len() as int)
                == positive_out_of(f, v, c.len() as int))),
{
    let n = c.len() as int;
    assert forall|v: int| 0 <= v < n implies #[trigger] positive_into(f, v, n) == sum_to(in_fn(f, v), n)
        && positive_out_of(f, v, n) == sum_to(out_fn(f, v), n) by {
        lemma_sum_ext(|u: int| if f[u][v] > 0 { f[u][v] } else { 0 }, in_fn(f, v), n);
        lemma_sum_ext(|u: int| if f[v][u] > 0 { f[v][u] } else { 0 }, out_fn(f, v), n);
    }
    if passes_flow_check(c, f, s, t) {
        assert forall|v: int| 0 <= v < n && v != s && v != t implies #[trigger] positive_into(f, v, n)
            == positive_out_of(f, v, n) by {
            assert(sum_to(in_fn(f, v), n) == sum_to(out_fn(f, v), n));
        }
    }
    if (forall|v: int|
        0 <= v < n && v != s && v != t ==> #[trigger] positive_into(f, v, n) == positive_out_of(f, v, n)) {
        assert forall|v: int| 0 <= v < n && v != s && v != t implies #[trigger] sum_to(in_fn(f, v), n)
            == sum_to(out_fn(f, v), n) by {
            assert(positive_into(f, v, n) == positive_out_of(f, v, n));
        }
    }
}

/// The residual capacity of a pair depends only on the capacity and the flow entry of that
/// pair: it is what is left of the capacity after the flow, and zero when nothing is left.
pub proof fn lemma_residual_law(c: Seq<Seq<int>>, f: Seq<Seq<int>>, g: Seq<Seq<int>>, u: int, v: int)
    ensures
        residual_of(c, f, u, v) >= 0,
        residual_of(c, f, u, v) >= c[u][v] - f[u][v],
        residual_of(c, f, u, v) == 0 || residual_of(c, f, u, v) + f[u][v] == c[u][v],
        f[u][v] == g[u][v] ==> residual_of(c, f, u, v) == residual_of(c, g, u, v),
{
}

/// Residual graph computation.
pub struct ResidualGraph;

impl ResidualGraph {
    /// Compute the residual graph given a flow network and a flow assignment.
    ///
    /// Residual capacity: r(u,v) = max(c(u,v) - f(u,v), 0). With a skew-symmetric flow the
    /// backward residual capacities come out of the negative entries of the flow.
    pub fn compute(network: &FlowNetwork, flow: &[Vec<i64>]) -> (residual: Vec<Vec<u64>>)
        requires
            network.wf(),
            covers(mat_i64(flow@), network@.len() as int),
        ensures
            is_square(mat_u64(residual@), network@.len() as int),
            forall|u: int, v: int|
                0 <= u < network@.len() && 0 <= v < network@.len() ==> #[trigger] mat_u64(
                    residual@,
                )[u][v] == residual_of(network@, mat_i64(flow@), u, v),
            forall|u: int, v: int|
                0 <= u < network@.len() && 0 <= v < network@.len() ==> #[trigger] mat_u64(
                    residual@,
                )[u][v] == if network@[u][v] > mat_i64(flow@)[u][v] {
                    network@[u][v] - mat_i64(flow@)[u][v]
                } else {
                    0
                },
    {
        let n = network.len();
        let ghost c = network@;
        let ghost f = mat_i64(flow@);
        proof {
            lemma_capacity_bounds(c);
            lemma_mat_i64(flow@);
        }
        let mut residual: Vec<Vec<u64>> = Vec::new();
        for u in 0..n
            invariant
                n == c.len(),
                c == network@,
                network.wf(),
                f == mat_i64(flow@),
                covers(f, n as int),
                residual@.len() == u,
                forall|i: int| 0 <= i < u ==> (#[trigger] residual@[i])@.len() == n,
                forall|i: int, j: int|
                    0 <= i < u && 0 <= j < n ==> #[trigger] residual@[i]@[j] as int == residual_of(
                        c,
                        f,
                        i,
                        j,
                    ),
        {
            let mut row: Vec<u64> = Vec::new();
            for v in 0..n
                invariant
                    n == c.len(),
                    c == network@,
                    network.wf(),
                    f == mat_i64(flow@),
                    covers(f, n as int),
                    u < n,
                    row@.len() == v,
                    forall|j: int| 0 <= j < v ==> #[trigger] row@[j] as int == residual_of(c, f, u as int, j),
            {
                proof {
                    lemma_capacity_bounds(c);
                    lemma_mat_i64(flow@);
                    assert(f[u as int].len() >= n);
                }
                let cap = network.capacity(u, v);
                let fl = flow[u][v];
                let d: i128 = cap as i128 - fl as i128;
                let x: u64 = if d > 0 {
                    d as u64
                } else {
                    0
                };
                row.push(x);
            }
            residual.push(row);
        }
        proof {
            lemma_mat_u64(residual@);
            assert forall|i: int| 0 <= i < n implies #[trigger] mat_u64(residual@)[i].len() == n by {
                assert(residual@[i]@.len() == n);
            }
        }
        residual
    }

    /// Check if the given flow is valid: capacity constraints and flow conservation.
    pub fn is_valid_flow(network: &FlowNetwork, flow: &[Vec<i64>], source: usize, sink: usize) -> (b: bool)
        requires
            network.wf(),
            covers(mat_i64(flow@), network@.len() as int),
        ensures
            b == passes_flow_check(network@, mat_i64(flow@), source as int, sink as int),
            b <==> ((forall|u: int, v: int|
                0 <= u < network@.len() && 0 <= v < network@.len() ==> #[trigger] mat_i64(flow@)[u][v]
                    <= network@[u][v]) && (forall|v: int|
                0 <= v < network@.len() && v != source && v != sink ==> #[trigger] positive_into(
                    mat_i64(flow@),
                    v,
                    network@.len() as int,
                ) == positive_out_of(mat_i64(flow@), v, network@.len() as int))),
    {
        proof {
            lemma_flow_check_law(network@, mat_i64(flow@), source as int, sink as int);
        }
        let n = network.len();
        let ghost c = network@;
        let ghost f = mat_i64(flow@);
        proof {
            lemma_capacity_bounds(c);
            lemma_mat_i64(flow@);
        }
        // Check capacity constraints (forward flow only)
        for u in 0..n
            invariant
                n == c.len(),
                c == network@,
                network.wf(),
                f == mat_i64(flow@),
                covers(f, n as int),
                forall|i: int, j: int| 0 <= i < u && 0 <= j < n ==> #[trigger] f[i][j] <= c[i][j],
        {
            for v in 0..n
                invariant
                    n == c.len(),
                    c == network@,
                    network.wf(),
                    f == mat_i64(flow@),
                    covers(f, n as int),
                    u < n,
                    forall|i: int, j: int| 0 <= i < u && 0 <= j < n ==> #[trigger] f[i][j] <= c[i][j],
                    forall|j: int| 0 <= j < v ==> #[trigger] f[u as int][j] <= c[u as int][j],
            {
                proof {
                    lemma_mat_i64(flow@);
                    assert(f[u as int].len() >= n);
                }
                let fl = flow[u][v];
                let cap = network.capacity(u, v);
                if fl as i128 > cap as i128 {
                    proof {
                        lemma_flow_check_law(c, f, source as int, sink as int);
                    }
                    return false;
                }
            }
        }
        // Check flow conservation (except source and sink)
        for v in 0..n
            invariant
                n == c.len(),
                c == network@,
                network.wf(),
                f == mat_i64(flow@),
                covers(f, n as int),
                forall|i: int, j: int| 0 <= i < n && 0 <= j < n ==> #[trigger] f[i][j] <= c[i][j],
                forall|w: int|
                    0 <= w < v && w != source && w != sink ==> #[trigger] sum_to(in_fn(f, w), n as int)
                        == sum_to(out_fn(f, w), n as int),
        {
            if v != source && v != sink {
                let mut inflow: i128 = 0;
                let mut outflow: i128 = 0;
                for u in 0..n
                    invariant
                        n == c.len(),
                        f == mat_i64(flow@),
                        covers(f, n as int),
                        v < n,
                        inflow == sum_to(in_fn(f, v as int), u as int),
                        outflow == sum_to(out_fn(f, v as int), u as int),
                        0 <= inflow <= u * 0x7fff_ffff_ffff_ffff,
                        0 <= outflow <= u * 0x7fff_ffff_ffff_ffff,
                {
                    proof {
                        lemma_mat_i64(flow@);
                        assert(f[u as int].len() >= n);
                        assert(f[v as int].len() >= n);
                    }
                    let a = flow[u][v];
                    let b = flow[v][u];
                    if a > 0 {
                        inflow = inflow + a as i128;
                    }
                    if b > 0 {
                        outflow = outflow + b as i128;
                    }
                }
                if inflow != outflow {
                    proof {
                        lemma_flow_check_law(c, f, source as int, sink as int);
                    }
                    return false;
                }
            }
        }
        true
    }
}

/// A flow (in the sense of `is_flow`) passes `is_valid_flow`.
pub proof fn lemma_flow_passes_check(c: Seq<Seq<int>>, f: Seq<Seq<int>>, s: int, t: int)
    requires
        is_flow(c, f, s, t),
    ensures
        passes_flow_check(c, f, s, t),
{
    let n = c.len() as int;
    assert forall|v: int| 0 <= v < n && v != s && v != t implies #[trigger] sum_to(in_fn(f, v), n)
        == sum_to(out_fn(f, v), n) by {
        let a = in_fn(f, v);
        let b = out_fn(f, v);
        let nb = |u: int| -b(u);
        lemma_sum_neg(b, n);
        lemma_sum_add(a, nb, n);
        let r = row_fn(f, v);
        let nr = |u: int| -r(u);
        assert forall|u: int| 0 <= u < n implies #[trigger] a(u) + nb(u) == nr(u) by {
            assert(f[u][v] == -f[v][u]);
        }
        lemma_sum_ext(|u: int| a(u) + nb(u), nr, n);
        lemma_sum_neg(r, n);
        assert(net_out(f, v) == 0);
    }
}

} // verus!
