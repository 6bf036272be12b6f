use vstd::prelude::*;
use crate::model::{
    flow_value, has_augmenting_path, is_flow, is_square, mat_i64, mat_u64, valid_capacities,
};
use crate::matrix::{lemma_capacity_bounds, lemma_mat_i64, lemma_mat_u64, lemma_valid_below};
use crate::theory::{lemma_weak_duality, lemma_no_augmenting_path_saturates, residual_reachable};
use crate::residual::pos_part;
use crate::sums::{lemma_sum_ext, sum_to};
use crate::network::FlowNetwork;
use crate::max_flow::{augment, ek_final};

verus! {

/// The flows of the routed commodities, as integer matrices.
pub open spec fn routed_flows(results: Seq<(u64, Vec<Vec<i64>>)>) -> Seq<Seq<Seq<int>>> {
    results.map_values(|r: (u64, Vec<Vec<i64>>)| mat_i64(r.1@))
}

/// The capacity of the edge from `u` to `v` that the first `i` flows use: the sum of their
/// positive flows from `u` to `v`.
pub open spec fn used(flows: Seq<Seq<Seq<int>>>, i: int, u: int, v: int) -> int
    decreases i,
{
    if i <= 0 {
        0
    } else {
        used(flows, i - 1, u, v) + pos_part(flows[i - 1][u][v])
    }
}

/// Together, the first `k` flows use no more than the capacity `c[u][v]` of any edge.
pub open spec fn shares_capacity(c: Seq<Seq<int>>, flows: Seq<Seq<Seq<int>>>, k: int) -> bool {
    forall|u: int, v: int|
        0 <= u < c.len() && 0 <= v < c.len() ==> 0 <= #[trigger] used(flows, k, u, v) <= c[u][v]
}

/// The first `k` flows use a non-negative amount of each edge among the `n` nodes.
pub open spec fn uses_nonneg(flows: Seq<Seq<Seq<int>>>, k: int, n: int) -> bool {
    forall|u: int, v: int| 0 <= u < n && 0 <= v < n ==> 0 <= #[trigger] used(flows, k, u, v)
}

/// The amounts routed, as integers.
pub open spec fn routed_amounts(results: Seq<(u64, Vec<Vec<i64>>)>) -> Seq<int> {
    results.map_values(|r: (u64, Vec<Vec<i64>>)| r.0 as int)
}

/// The first `k` of `flows` and `amounts` are what greedy routing gives the commodities `cs` on
/// the capacities `c`: each commodity gets the flow, and its value, that Edmonds-Karp stopped
/// at the demand finds in what the earlier commodities left.
pub open spec fn routes_upto(
    c: Seq<Seq<int>>,
    cs: Seq<(usize, usize, u64)>,
    flows: Seq<Seq<Seq<int>>>,
    amounts: Seq<int>,
    k: int,
) -> bool {
    forall|i: int|
        0 <= i < k ==> #[trigger] flows[i] == ek_final(
            remaining_after(c, flows, i),
            cs[i].0,
            cs[i].1,
            cs[i].2 as int,
        ).flow && amounts[i] == ek_final(remaining_after(c, flows, i), cs[i].0, cs[i].1, cs[i].2 as int).total
}

/// `flows` and `amounts` are what greedy routing gives all the commodities `cs`.
pub open spec fn routes(
    c: Seq<Seq<int>>,
    cs: Seq<(usize, usize, u64)>,
    flows: Seq<Seq<Seq<int>>>,
    amounts: Seq<int>,
) -> bool {
    &&& flows.len() == cs.len()
    &&& amounts.len() == cs.len()
    &&& routes_upto(c, cs, flows, amounts, cs.len() as int)
}

/// Greedy routing is sequential: what a commodity gets depends only on the network and the
/// commodities before it, so routing a prefix of the commodities gives the prefix of the results.
pub proof fn lemma_route_prefix(
    c: Seq<Seq<int>>,
    cs1: Seq<(usize, usize, u64)>,
    flows1: Seq<Seq<Seq<int>>>,
    amounts1: Seq<int>,
    cs2: Seq<(usize, usize, u64)>,
    flows2: Seq<Seq<Seq<int>>>,
    amounts2: Seq<int>,
    k: int,
)
    requires
        routes(c, cs1, flows1, amounts1),
        routes(c, cs2, flows2, amounts2),
        0 <= k <= cs1.len(),
        k <= cs2.len(),
        forall|i: int| 0 <= i < k ==> #[trigger] cs1[i] == cs2[i],
    ensures
        forall|i: int| 0 <= i < k ==> #[trigger] flows1[i] == flows2[i] && amounts1[i] == amounts2[i],
    decreases k,
{
    if k > 0 {
        let j = k - 1;
        lemma_route_prefix(c, cs1, flows1, amounts1, cs2, flows2, amounts2, j);
        lemma_remaining_prefix(c, flows1, flows2, j);
        assert(cs1[j] == cs2[j]);
        assert(flows1[j] == flows2[j]);
    }
}

/// Each commodity has a source and a sink among the `n` nodes, and they differ.
pub open spec fn commodities_fit(cs: Seq<(usize, usize, u64)>, n: int) -> bool {
    forall|i: int|
        0 <= i < cs.len() ==> #[trigger] cs[i].0 < n && cs[i].1 < n && cs[i].0 != cs[i].1
}

/// The capacity left once the first `i` flows have been routed.
pub open spec fn remaining_after(c: Seq<Seq<int>>, flows: Seq<Seq<Seq<int>>>, i: int) -> Seq<Seq<int>> {
    Seq::new(c.len(), |u: int| Seq::new(c[u].len(), |v: int| c[u][v] - used(flows, i, u, v)))
}

/// The sum of the routed amounts.
pub open spec fn routed_total(results: Seq<(u64, Vec<Vec<i64>>)>) -> int
    decreases results.len(),
{
    if results.len() == 0 {
        0
    } else {
        routed_total(results.drop_last()) + results[results.len() - 1].0
    }
}

/// The total of a list of routing results is the sum, over its entries, of the amount
/// routed for each.
pub proof fn lemma_routed_total_sum(results: Seq<(u64, Vec<Vec<i64>>)>)
    ensures
        routed_total(results) == sum_to(|i: int| results[i].0 as int, results.len() as int),
    decreases results.len(),
{
    if results.len() > 0 {
        let r0 = results.drop_last();
        lemma_routed_total_sum(r0);
        lemma_sum_ext(
            |i: int| r0[i].0 as int,
            |i: int| results[i].0 as int,
            r0.len() as int,
        );
    }
}

/// One greedy step: `f` is a flow from `s` to `t` within the capacities `rem`, of value
/// `routed`; it routes the whole demand, or else it is a maximum flow (no augmenting path,
/// no flow with a greater value).
pub open spec fn greedy_step(
    rem: Seq<Seq<int>>,
    f: Seq<Seq<int>>,
    routed: int,
    s: int,
    t: int,
    demand: int,
) -> bool {
    &&& is_flow(rem, f, s, t)
    &&& flow_value(f, s) == routed
    &&& routed <= demand
    &&& routed < demand ==> !has_augmenting_path(rem, f, s, t)
    &&& routed < demand ==> forall|g: Seq<Seq<int>>|
        is_flow(rem, g, s, t) ==> #[trigger] flow_value(g, s) <= routed
}

proof fn lemma_used_prefix(a: Seq<Seq<Seq<int>>>, b: Seq<Seq<Seq<int>>>, j: int, u: int, v: int)
    requires
        0 <= j <= a.len(),
        j <= b.len(),
        forall|k: int| 0 <= k < j ==> #[trigger] a[k] == b[k],
    ensures
        used(a, j, u, v) == used(b, j, u, v),
    decreases j,
{
    if j > 0 {
        lemma_used_prefix(a, b, j - 1, u, v);
        assert(a[j - 1] == b[j - 1]);
    }
}

proof fn lemma_remaining_prefix(
    c: Seq<Seq<int>>,
    a: Seq<Seq<Seq<int>>>,
    b: Seq<Seq<Seq<int>>>,
    j: int,
)
    requires
        0 <= j <= a.len(),
        j <= b.len(),
        forall|k: int| 0 <= k < j ==> #[trigger] a[k] == b[k],
    ensures
        remaining_after(c, a, j) == remaining_after(c, b, j),
{
    assert forall|u: int| 0 <= u < c.len() implies #[trigger] remaining_after(c, a, j)[u]
        =~= remaining_after(c, b, j)[u] by {
        assert forall|v: int| 0 <= v < c[u].len() implies remaining_after(c, a, j)[u][v]
            == remaining_after(c, b, j)[u][v] by {
            lemma_used_prefix(a, b, j, u, v);
        }
    }
    assert(remaining_after(c, a, j) =~= remaining_after(c, b, j));
}

/// Routing one more flow `f` within `remaining_after(c, fl0, i)` leaves that capacity less the
/// positive part of `f`.
proof fn lemma_route_step(
    c: Seq<Seq<int>>,
    fl0: Seq<Seq<Seq<int>>>,
    fl: Seq<Seq<Seq<int>>>,
    f: Seq<Seq<int>>,
    left: Seq<Seq<int>>,
    i: int,
)
    requires
        is_square(c, c.len() as int),
        0 <= i,
        fl0.len() == i,
        fl.len() == i + 1,
        forall|k: int| 0 <= k < i ==> #[trigger] fl[k] == fl0[k],
        fl[i] == f,
        is_square(left, c.len() as int),
        uses_nonneg(fl0, i, c.len() as int),
        forall|u: int, v: int|
            0 <= u < c.len() && 0 <= v < c.len() ==> #[trigger] f[u][v] <= remaining_after(c, fl0, i)[u][v],
        forall|u: int, v: int|
            0 <= u < c.len() && 0 <= v < c.len() ==> #[trigger] left[u][v] == remaining_after(c, fl0, i)[u][v]
                - pos_part(f[u][v]),
    ensures
        left == remaining_after(c, fl, i + 1),
        forall|j: int| 0 <= j <= i ==> #[trigger] remaining_after(c, fl, j) == remaining_after(c, fl0, j),
        uses_nonneg(fl, i + 1, c.len() as int),
        forall|u: int, v: int| 0 <= u < c.len() && 0 <= v < c.len() ==> #[trigger] f[u][v] <= c[u][v],
{
    let n = c.len() as int;
    assert forall|j: int| 0 <= j <= i implies #[trigger] remaining_after(c, fl, j) == remaining_after(c, fl0, j) by {
        lemma_remaining_prefix(c, fl, fl0, j);
    }
    assert forall|u: int, v: int| 0 <= u < n && 0 <= v < n implies #[trigger] used(fl, i + 1, u, v)
        == used(fl0, i, u, v) + pos_part(f[u][v]) by {
        lemma_used_prefix(fl, fl0, i, u, v);
    }
    assert forall|u: int| 0 <= u < n implies #[trigger] left[u] =~= remaining_after(c, fl, i + 1)[u] by {
        assert forall|v: int| 0 <= v < n implies left[u][v] == remaining_after(c, fl, i + 1)[u][v] by {
            assert(used(fl, i + 1, u, v) == used(fl0, i, u, v) + pos_part(f[u][v]));
            assert(left[u][v] == remaining_after(c, fl0, i)[u][v] - pos_part(f[u][v]));
        }
    }
    assert(left =~= remaining_after(c, fl, i + 1));
    assert forall|u: int, v: int| 0 <= u < n && 0 <= v < n implies 0 <= #[trigger] used(fl, i + 1, u, v) by {
        assert(used(fl, i + 1, u, v) == used(fl0, i, u, v) + pos_part(f[u][v]));
        assert(0 <= used(fl0, i, u, v));
    }
    assert forall|u: int, v: int| 0 <= u < n && 0 <= v < n implies #[trigger] f[u][v] <= c[u][v] by {
        assert(f[u][v] <= remaining_after(c, fl0, i)[u][v]);
        assert(0 <= used(fl0, i, u, v));
    }
}

/// The capacities of `net` less the positive part of `flow`.
fn take_positive_part(net: &FlowNetwork, flow: &Vec<Vec<i64>>) -> (left: Vec<Vec<u64>>)
    requires
        net.wf(),
        is_square(mat_i64(flow@), net@.len() as int),
        forall|u: int, v: int|
            0 <= u < net@.len() && 0 <= v < net@.len() ==> #[trigger] mat_i64(flow@)[u][v]
                <= net@[u][v],
    ensures
        is_square(mat_u64(left@), net@.len() as int),
        forall|u: int, v: int|
            0 <= u < net@.len() && 0 <= v < net@.len() ==> #[trigger] mat_u64(left@)[u][v]
                == net@[u][v] - pos_part(mat_i64(flow@)[u][v]),
{
    let n = net.len();
    let ghost c = net@;
    let ghost f = mat_i64(flow@);
    let mut left: Vec<Vec<u64>> = Vec::new();
    for u in 0..n
        invariant
            n == c.len(),
            c == net@,
            net.wf(),
            f == mat_i64(flow@),
            is_square(f, n as int),
            forall|x: int, y: int| 0 <= x < n && 0 <= y < n ==> #[trigger] f[x][y] <= c[x][y],
            left@.len() == u,
            forall|i: int| 0 <= i < u ==> (#[trigger] left@[i])@.len() == n,
            forall|i: int, j: int|
                0 <= i < u && 0 <= j < n ==> #[trigger] left@[i]@[j] as int == c[i][j] - pos_part(
                    f[i][j],
                ),
    {
        let mut row: Vec<u64> = Vec::new();
        for v in 0..n
            invariant
                n == c.len(),
                c == net@,
                net.wf(),
                f == mat_i64(flow@),
                is_square(f, n as int),
                forall|x: int, y: int| 0 <= x < n && 0 <= y < n ==> #[trigger] f[x][y] <= c[x][y],
                u < n,
                row@.len() == v,
                forall|j: int| 0 <= j < v ==> #[trigger] row@[j] as int == c[u as int][j] - pos_part(
                    f[u as int][j],
                ),
        {
            proof {
                lemma_mat_i64(flow@);
                assert(f[u as int].len() == n);
                assert(f[u as int][v as int] <= c[u as int][v as int]);
            }
            let cap = net.capacity(u, v);
            let x = flow[u][v];
            let y: u64 = if x > 0 {
                cap - x as u64
            } else {
                cap
            };
            row.push(y);
        }
        left.push(row);
    }
    proof {
        lemma_mat_u64(left@);
        assert forall|i: int| 0 <= i < n implies #[trigger] mat_u64(left@)[i].len() == n by {
            assert(left@[i]@.len() == n);
        }
    }
    left
}

/// Multi-commodity flow: multiple source-sink pairs each with a demand.
///
/// Uses a greedy sequential approach: route each commodity one at a time
/// through the remaining capacity.
pub struct MultiCommodityFlow {
    network: FlowNetwork,
}

impl View for MultiCommodityFlow {
    type V = Seq<Seq<int>>;

    /// The capacities of the shared network.
    closed spec fn view(&self) -> Seq<Seq<int>> {
        self.network@
    }
}

impl MultiCommodityFlow {
    /// The shared network is well formed.
    pub open spec fn wf(&self) -> bool {
        valid_capacities(self@)
    }

    /// Create a new multi-commodity flow solver for the given network.
    pub fn new(network: FlowNetwork) -> (mcf: Self)
        ensures
            mcf@ == network@,
    {
        MultiCommodityFlow { network }
    }

    /// Attempt to route all commodities `(source, sink, demand)` through the shared network,
    /// one after the other. Each commodity is routed through the capacity that the earlier
    /// ones left, and then uses up the capacity its own positive flows take: together the
    /// commodities never exceed the capacity of any edge, and a later commodity may get less
    /// flow because of earlier routing.
    ///
    /// A commodity gets the augmenting paths of Edmonds-Karp in what is left, up to its
    /// demand: when the maximum flow exceeds the demand, the last path is cut down to it
    /// (rather than the maximum flow being scaled down, which would not keep whole numbers).
    ///
    /// Returns a vector of (flow_value, flow_matrix) for each commodity,
    /// and the total flow routed.
    pub fn route(&self, commodities: &[(usize, usize, u64)]) -> (res: (
        Vec<(u64, Vec<Vec<i64>>)>,
        u128,
    ))
        requires
            self.wf(),
            commodities_fit(commodities@, self@.len() as int),
        ensures
            res.0@.len() == commodities@.len(),
            forall|i: int|
                0 <= i < commodities@.len() ==> greedy_step(
                    remaining_after(self@, routed_flows(res.0@), i),
                    #[trigger] routed_flows(res.0@)[i],
                    res.0@[i].0 as int,
                    commodities@[i].0 as int,
                    commodities@[i].1 as int,
                    commodities@[i].2 as int,
                ),
            forall|i: int|
                0 <= i < commodities@.len() ==> is_flow(
                    self@,
                    #[trigger] routed_flows(res.0@)[i],
                    commodities@[i].0 as int,
                    commodities@[i].1 as int,
                ),
            shares_capacity(self@, routed_flows(res.0@), commodities@.len() as int),
            routes(self@, commodities@, routed_flows(res.0@), routed_amounts(res.0@)),
            res.1 == routed_total(res.0@),
            res.1 == sum_to(|i: int| res.0@[i].0 as int, res.0@.len() as int),
    {
        let n = self.network.len();
        let ghost c = self@;
        let mut remaining = self.network.copy_rows();
        let mut results: Vec<(u64, Vec<Vec<i64>>)> = Vec::new();
        let mut total: u128 = 0;
        let k = commodities.len();
        proof {
            assert(remaining_after(c, routed_flows(results@), 0) =~= c) by {
                assert forall|u: int| 0 <= u < n implies #[trigger] remaining_after(
                    c,
                    routed_flows(results@),
                    0,
                )[u] =~= c[u] by {}
            }
        }
        for i in 0..k
            invariant
                n == c.len(),
                c == self@,
                valid_capacities(c),
                k == commodities@.len(),
                commodities_fit(commodities@, n as int),
                results@.len() == i,
                forall|j: int|
                    0 <= j < i ==> greedy_step(
                        remaining_after(c, routed_flows(results@), j),
                        #[trigger] routed_flows(results@)[j],
                        results@[j].0 as int,
                        commodities@[j].0 as int,
                        commodities@[j].1 as int,
                        commodities@[j].2 as int,
                    ),
                forall|j: int|
                    0 <= j < i ==> is_flow(
                        c,
                        #[trigger] routed_flows(results@)[j],
                        commodities@[j].0 as int,
                        commodities@[j].1 as int,
                    ),
                uses_nonneg(routed_flows(results@), i as int, n as int),
                routes_upto(c, commodities@, routed_flows(results@), routed_amounts(results@), i as int),
                mat_u64(remaining@) == remaining_after(c, routed_flows(results@), i as int),
                valid_capacities(mat_u64(remaining@)),
                total == routed_total(results@),
                total <= i * 0x7fff_ffff_ffff_ffff,
        {
            let (source, sink, demand) = commodities[i];
            let ghost rem = mat_u64(remaining@);
            let ghost old_results = results@;
            // A network with the remaining capacity
            let temp = FlowNetwork::from_rows(remaining);
            let (routed, flow, _) = augment(&temp, source, sink, demand);
            let ghost f = mat_i64(flow@);
            let left = take_positive_part(&temp, &flow);
            proof {
                assert(greedy_step(rem, f, routed as int, source as int, sink as int, demand as int)) by {
                    if routed < demand {
                        lemma_no_augmenting_path_saturates(rem, f, source as int, sink as int);
                        assert forall|g: Seq<Seq<int>>|
                            is_flow(rem, g, source as int, sink as int) implies #[trigger] flow_value(
                                g,
                                source as int,
                            ) <= routed by {
                            lemma_weak_duality(
                                rem,
                                g,
                                source as int,
                                sink as int,
                                residual_reachable(rem, f, source as int),
                            );
                        }
                    }
                }
                assert(valid_capacities(mat_u64(left@))) by {
                    lemma_capacity_bounds(rem);
                    assert forall|x: int, y: int| 0 <= x < n && 0 <= y < n implies 0 <= #[trigger] mat_u64(
                        left@,
                    )[x][y] <= rem[x][y] by {
                        lemma_mat_u64(left@);
                        assert(rem[x][y] == c[x][y] - used(routed_flows(old_results), i as int, x, y));
                    }
                    lemma_valid_below(rem, mat_u64(left@));
                }
            }
            results.push((routed, flow));
            total = total + routed as u128;
            remaining = left;
            proof {
                let fl = routed_flows(results@);
                let fl0 = routed_flows(old_results);
                assert(fl.len() == i + 1);
                assert forall|k: int| 0 <= k < i implies #[trigger] fl[k] == fl0[k] by {
                    assert(results@[k] == old_results[k]);
                }
                assert(fl[i as int] == f);
                assert forall|u: int, v: int| 0 <= u < n && 0 <= v < n implies #[trigger] f[u][v]
                    <= remaining_after(c, fl0, i as int)[u][v] by {
                    assert(f[u][v] <= rem[u][v]);
                }
                lemma_route_step(c, fl0, fl, f, mat_u64(left@), i as int);
                assert forall|j: int| 0 <= j < i + 1 implies greedy_step(
                    remaining_after(c, fl, j),
                    #[trigger] fl[j],
                    results@[j].0 as int,
                    commodities@[j].0 as int,
                    commodities@[j].1 as int,
                    commodities@[j].2 as int,
                ) by {
                    if j < i {
                        assert(fl[j] == fl0[j]);
                        assert(results@[j] == old_results[j]);
                    }
                }
                let am = routed_amounts(results@);
                let am0 = routed_amounts(old_results);
                assert forall|j: int| 0 <= j < i + 1 implies #[trigger] fl[j] == ek_final(
                    remaining_after(c, fl, j),
                    commodities@[j].0,
                    commodities@[j].1,
                    commodities@[j].2 as int,
                ).flow && am[j] == ek_final(
                    remaining_after(c, fl, j),
                    commodities@[j].0,
                    commodities@[j].1,
                    commodities@[j].2 as int,
                ).total by {
                    assert(am[j] == results@[j].0);
                    if j < i {
                        assert(fl[j] == fl0[j]);
                        assert(results@[j] == old_results[j]);
                        assert(am0[j] == old_results[j].0);
                    }
                }
                assert forall|j: int| 0 <= j < i + 1 implies is_flow(
                    c,
                    #[trigger] fl[j],
                    commodities@[j].0 as int,
                    commodities@[j].1 as int,
                ) by {
                    if j < i {
                        assert(fl[j] == fl0[j]);
                    }
                }
                assert(results@.drop_last() =~= old_results);
            }
        }
        proof {
            let fl = routed_flows(results@);
            assert forall|u: int, v: int| 0 <= u < n && 0 <= v < n implies 0 <= #[trigger] used(
                fl,
                k as int,
                u,
                v,
            ) <= c[u][v] by {
                lemma_mat_u64(remaining@);
                assert(mat_u64(remaining@)[u][v] >= 0);
                assert(remaining_after(c, fl, k as int)[u][v] == c[u][v] - used(fl, k as int, u, v));
            }
            lemma_routed_total_sum(results@);
        }
        (results, total)
    }
}

} // verus!
