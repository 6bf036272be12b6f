use vstd::prelude::*;
use crate::model::{
    cut_capacity, flow_value, is_flow, is_st_cut, lists_exactly, mat_i64,
    mat_u64, member, positive_edge, residual_edge, row_fn,
};
use crate::theory::{
    in_every_min_cut, is_min_cut, lemma_lists_congruent, lemma_residual_side_is_least_min_cut,
    lemma_cut_capacity_congruent, lemma_lists_extend, lemma_reaches_self, lemma_reaches_congruent, residual_reachable,
};
use crate::network::FlowNetwork;
use crate::sums::{sum_to, lemma_sum_ext};
use crate::matrix::lemma_capacity_bounds;
use crate::max_flow::FordFulkerson;
use crate::residual::ResidualGraph;
use crate::search::explore;

verus! {

/// The edges from `u` to the nodes of `targets` (in that order) with positive capacity.
pub open spec fn row_cut_edges(c: Seq<Seq<int>>, u: usize, targets: Seq<usize>) -> Seq<(usize, usize)>
    decreases targets.len(),
{
    if targets.len() == 0 {
        seq![]
    } else {
        let v = targets[targets.len() - 1];
        row_cut_edges(c, u, targets.drop_last()) + if c[u as int][v as int] > 0 {
            seq![(u, v)]
        } else {
            seq![]
        }
    }
}

/// The edges with positive capacity from the nodes of `sources` to those of `targets`,
/// ordered by source, then by target.
pub open spec fn cut_edge_list(c: Seq<Seq<int>>, sources: Seq<usize>, targets: Seq<usize>) -> Seq<
    (usize, usize),
>
    decreases sources.len(),
{
    if sources.len() == 0 {
        seq![]
    } else {
        cut_edge_list(c, sources.drop_last(), targets) + row_cut_edges(
            c,
            sources[sources.len() - 1],
            targets,
        )
    }
}

/// The total capacity of a list of edges.
pub open spec fn edges_capacity(c: Seq<Seq<int>>, es: Seq<(usize, usize)>) -> int
    decreases es.len(),
{
    if es.len() == 0 {
        0
    } else {
        edges_capacity(c, es.drop_last()) + c[es[es.len() - 1].0 as int][es[es.len() - 1].1 as int]
    }
}

/// The sum of `g` over the nodes of a list.
pub open spec fn list_sum(g: spec_fn(int) -> int, l: Seq<usize>) -> int
    decreases l.len(),
{
    if l.len() == 0 {
        0
    } else {
        list_sum(g, l.drop_last()) + g(l[l.len() - 1] as int)
    }
}

/// The capacity from each node to the nodes of `targets`.
pub open spec fn capacity_to(c: Seq<Seq<int>>, targets: Seq<usize>) -> spec_fn(int) -> int {
    |u: int| list_sum(row_fn(c, u), targets)
}

proof fn lemma_edges_capacity_concat(c: Seq<Seq<int>>, a: Seq<(usize, usize)>, b: Seq<(usize, usize)>)
    ensures
        edges_capacity(c, a + b) == edges_capacity(c, a) + edges_capacity(c, b),
    decreases b.len(),
{
    if b.len() == 0 {
        assert(a + b =~= a);
    } else {
        assert((a + b).drop_last() =~= a + b.drop_last());
        lemma_edges_capacity_concat(c, a, b.drop_last());
    }
}

proof fn lemma_row_cut_edges_capacity(c: Seq<Seq<int>>, u: usize, targets: Seq<usize>)
    requires
        forall|i: int| 0 <= i < targets.len() ==> 0 <= #[trigger] c[u as int][targets[i] as int],
    ensures
        edges_capacity(c, row_cut_edges(c, u, targets)) == list_sum(row_fn(c, u as int), targets),
    decreases targets.len(),
{
    if targets.len() > 0 {
        let v = targets[targets.len() - 1];
        assert forall|i: int| 0 <= i < targets.drop_last().len() implies 0 <= #[trigger] c[u as int][targets.drop_last()[i] as int] by {
            assert(0 <= c[u as int][targets[i] as int]);
        }
        lemma_row_cut_edges_capacity(c, u, targets.drop_last());
        let tail: Seq<(usize, usize)> = if c[u as int][v as int] > 0 {
            seq![(u, v)]
        } else {
            seq![]
        };
        lemma_edges_capacity_concat(c, row_cut_edges(c, u, targets.drop_last()), tail);
        assert(0 <= c[u as int][targets[targets.len() - 1] as int]);
        if c[u as int][v as int] > 0 {
            assert(tail.drop_last() =~= Seq::<(usize, usize)>::empty());
            assert(edges_capacity(c, tail) == edges_capacity(c, tail.drop_last()) + c[u as int][v as int]);
            assert(edges_capacity(c, tail) == c[u as int][v as int]);
        } else {
            assert(edges_capacity(c, tail) == 0);
        }
        assert(row_cut_edges(c, u, targets) == row_cut_edges(c, u, targets.drop_last()) + tail);
        assert(list_sum(row_fn(c, u as int), targets) == list_sum(row_fn(c, u as int), targets.drop_last())
            + row_fn(c, u as int)(v as int));
    }
}

proof fn lemma_cut_edge_list_capacity(c: Seq<Seq<int>>, sources: Seq<usize>, targets: Seq<usize>)
    requires
        forall|i: int, j: int|
            0 <= i < sources.len() && 0 <= j < targets.len() ==> 0 <= #[trigger] c[sources[i] as int][#[trigger] targets[j] as int],
    ensures
        edges_capacity(c, cut_edge_list(c, sources, targets)) == list_sum(capacity_to(c, targets), sources),
    decreases sources.len(),
{
    if sources.len() > 0 {
        let u = sources[sources.len() - 1];
        assert forall|i: int, j: int|
            0 <= i < sources.drop_last().len() && 0 <= j < targets.len() implies 0 <= #[trigger] c[sources.drop_last()[i] as int][#[trigger] targets[j] as int] by {
            assert(0 <= c[sources[i] as int][targets[j] as int]);
        }
        lemma_cut_edge_list_capacity(c, sources.drop_last(), targets);
        assert forall|j: int| 0 <= j < targets.len() implies 0 <= #[trigger] c[u as int][targets[j] as int] by {
            assert(0 <= c[sources[sources.len() - 1] as int][targets[j] as int]);
        }
        lemma_row_cut_edges_capacity(c, u, targets);
        lemma_edges_capacity_concat(c, cut_edge_list(c, sources.drop_last(), targets), row_cut_edges(c, u, targets));
    }
}

/// Summing over a sorted list of the nodes that satisfy `p` is summing over those nodes.
proof fn lemma_list_sum_reindex(g: spec_fn(int) -> int, l: Seq<usize>, n: int, p: spec_fn(int) -> bool)
    requires
        lists_exactly(l, n, p),
        0 <= n,
    ensures
        list_sum(g, l) == sum_to(|v: int| if p(v) { g(v) } else { 0 }, n),
    decreases n,
{
    if n == 0 {
        if l.len() > 0 {
            assert(l[0] < n);
        }
    } else {
        let k = n - 1;
        if p(k) {
            assert(member(l)(k));
            let i = choose|i: int| 0 <= i < l.len() && l[i] as int == k;
            let last = l.len() - 1;
            if i < last {
                assert(l[i] < l[last]);
                assert(l[last] < n);
            }
            assert(l[last] as int == k);
            let l2 = l.drop_last();
            assert forall|v: int| 0 <= v < k && p(v) implies #[trigger] member(l2)(v) by {
                assert(member(l)(v));
                let j = choose|j: int| 0 <= j < l.len() && l[j] as int == v;
                assert(j != last);
                assert(l2[j] as int == v);
            }
            assert forall|j: int| 0 <= j < l2.len() implies #[trigger] l2[j] < k && p(l2[j] as int) by {
                assert(l[j] < l[last]);
                assert(p(l[j] as int));
            }
            assert forall|a: int, b: int| 0 <= a < b < l2.len() implies l2[a] < l2[b] by {
                assert(l[a] < l[b]);
            }
            lemma_list_sum_reindex(g, l2, k, p);
        } else {
            assert forall|j: int| 0 <= j < l.len() implies #[trigger] l[j] < k && p(l[j] as int) by {
                assert(l[j] < n && p(l[j] as int));
            }
            lemma_list_sum_reindex(g, l, k, p);
        }
    }
}

/// The cut edges listed for `sources` and `targets` are exactly the pairs of a node of
/// `sources` and a node of `targets` with positive capacity.
pub proof fn lemma_cut_edge_list_law(c: Seq<Seq<int>>, sources: Seq<usize>, targets: Seq<usize>)
    ensures
        forall|i: int|
            0 <= i < cut_edge_list(c, sources, targets).len() ==> c[#[trigger] cut_edge_list(c, sources, targets)[i].0 as int][cut_edge_list(
                c,
                sources,
                targets,
            )[i].1 as int] > 0 && sources.contains(cut_edge_list(c, sources, targets)[i].0)
                && targets.contains(cut_edge_list(c, sources, targets)[i].1),
        forall|u: usize, v: usize|
            sources.contains(u) && targets.contains(v) && c[u as int][v as int] > 0 ==> #[trigger] cut_edge_list(
                c,
                sources,
                targets,
            ).contains((u, v)),
    decreases sources.len(),
{
    let l = cut_edge_list(c, sources, targets);
    if sources.len() > 0 {
        let u0 = sources[sources.len() - 1];
        let s0 = sources.drop_last();
        let l0 = cut_edge_list(c, s0, targets);
        let row = row_cut_edges(c, u0, targets);
        lemma_cut_edge_list_law(c, s0, targets);
        lemma_row_cut_edges_law(c, u0, targets);
        assert(l == l0 + row);
        assert forall|i: int| 0 <= i < l.len() implies c[#[trigger] l[i].0 as int][l[i].1 as int] > 0
            && sources.contains(l[i].0) && targets.contains(l[i].1) by {
            if i < l0.len() {
                assert(l[i] == l0[i]);
                let k = choose|k: int| 0 <= k < s0.len() && s0[k] == l0[i].0;
                assert(sources[k] == l0[i].0);
            } else {
                assert(l[i] == row[i - l0.len()]);
                assert(sources[sources.len() - 1] == u0);
            }
        }
        assert forall|u: usize, v: usize|
            sources.contains(u) && targets.contains(v) && c[u as int][v as int] > 0 implies #[trigger] l.contains(
            (u, v),
        ) by {
            let k = choose|k: int| 0 <= k < sources.len() && sources[k] == u;
            if k < sources.len() - 1 {
                assert(s0[k] == u);
                assert(l0.contains((u, v)));
                let j = choose|j: int| 0 <= j < l0.len() && l0[j] == (u, v);
                assert(l[j] == (u, v));
            } else {
                assert(row.contains((u, v)));
                let j = choose|j: int| 0 <= j < row.len() && row[j] == (u, v);
                assert(l[l0.len() + j] == (u, v));
            }
        }
    }
}

/// The edges listed from `u` to `targets` are exactly the pairs of `u` and a node of `targets`
/// with positive capacity.
pub proof fn lemma_row_cut_edges_law(c: Seq<Seq<int>>, u: usize, targets: Seq<usize>)
    ensures
        forall|i: int|
            0 <= i < row_cut_edges(c, u, targets).len() ==> #[trigger] row_cut_edges(c, u, targets)[i].0 == u
                && c[u as int][row_cut_edges(c, u, targets)[i].1 as int] > 0 && targets.contains(
                row_cut_edges(c, u, targets)[i].1,
            ),
        forall|v: usize|
            targets.contains(v) && c[u as int][v as int] > 0 ==> #[trigger] row_cut_edges(
                c,
                u,
                targets,
            ).contains((u, v)),
    decreases targets.len(),
{
    let l = row_cut_edges(c, u, targets);
    if targets.len() > 0 {
        let v0 = targets[targets.len() - 1];
        let t0 = targets.drop_last();
        let l0 = row_cut_edges(c, u, t0);
        lemma_row_cut_edges_law(c, u, t0);
        let tail: Seq<(usize, usize)> = if c[u as int][v0 as int] > 0 {
            seq![(u, v0)]
        } else {
            seq![]
        };
        assert(l == l0 + tail);
        assert forall|i: int| 0 <= i < l.len() implies #[trigger] l[i].0 == u && c[u as int][l[i].1 as int]
            > 0 && targets.contains(l[i].1) by {
            if i < l0.len() {
                assert(l[i] == l0[i]);
                assert(l0[i].0 == u && c[u as int][l0[i].1 as int] > 0 && t0.contains(l0[i].1));
                let k = choose|k: int| 0 <= k < t0.len() && t0[k] == l0[i].1;
                assert(t0[k] == targets[k]);
            } else {
                assert(tail.len() == 1);
                assert(c[u as int][v0 as int] > 0);
                assert(l[i] == tail[0]);
                assert(l[i] == (u, v0));
                assert(targets[targets.len() - 1] == v0);
            }
        }
        assert forall|v: usize| targets.contains(v) && c[u as int][v as int] > 0 implies #[trigger] l.contains(
            (u, v),
        ) by {
            let k = choose|k: int| 0 <= k < targets.len() && targets[k] == v;
            if k < targets.len() - 1 {
                assert(t0[k] == v);
                assert(l0.contains((u, v)));
                let j = choose|j: int| 0 <= j < l0.len() && l0[j] == (u, v);
                assert(l[j] == (u, v));
            } else {
                assert(l[l0.len() as int] == (u, v));
            }
        }
    }
}

/// Minimum s-t cut computation.
///
/// After computing max flow, the min cut is found by identifying all nodes
/// reachable from the source in the residual graph.
pub struct MinCut;

impl MinCut {
    /// Compute the minimum s-t cut.
    ///
    /// Returns (cut_value, reachable_nodes, unreachable_nodes, cut_edges).
    pub fn compute(network: &FlowNetwork, source: usize, sink: usize) -> (res: (
        u64,
        Vec<usize>,
        Vec<usize>,
        Vec<(usize, usize)>,
    ))
        requires
            network.wf(),
            source < network@.len(),
            sink < network@.len(),
            source != sink,
        ensures
            lists_exactly(res.1@, network@.len() as int, in_every_min_cut(network@, source as int, sink as int)),
            lists_exactly(
                res.2@,
                network@.len() as int,
                |v: int| !in_every_min_cut(network@, source as int, sink as int)(v),
            ),
            is_min_cut(network@, member(res.1@), source as int, sink as int),
            res.0 == cut_capacity(network@, member(res.1@)),
            exists|f: Seq<Seq<int>>|
                #[trigger] is_flow(network@, f, source as int, sink as int) && flow_value(f, source as int) == res.0,
            forall|g: Seq<Seq<int>>|
                is_flow(network@, g, source as int, sink as int) ==> #[trigger] flow_value(
                    g,
                    source as int,
                ) <= res.0,
            res.3@ == cut_edge_list(network@, res.1@, res.2@),
            res.0 == edges_capacity(network@, res.3@),
            forall|i: int|
                0 <= i < res.3@.len() ==> network@[#[trigger] res.3@[i].0 as int][res.3@[i].1 as int] > 0
                    && res.1@.contains(res.3@[i].0) && res.2@.contains(res.3@[i].1),
            forall|u: usize, v: usize|
                res.1@.contains(u) && res.2@.contains(v) && network@[u as int][v as int] > 0
                    ==> #[trigger] res.3@.contains((u, v)),
    {
        let (max_flow_val, flow) = FordFulkerson::max_flow(network, source, sink);
        let n = network.len();
        let ghost c = network@;
        let ghost f = mat_i64(flow@);
        let ghost s = source as int;
        let residual = ResidualGraph::compute(network, flow.as_slice());
        let (visited, _parent, _rank) = explore(&residual, source);
        let ghost side = residual_reachable(c, f, s);
        let ghost not_side = |v: int| !residual_reachable(c, f, s)(v);
        proof {
            let r = mat_u64(residual@);
            assert forall|x: int, y: int| 0 <= x < n && 0 <= y < n implies #[trigger] positive_edge(r)(
                x,
                y,
            ) == residual_edge(c, f)(x, y) by {}
            assert forall|v: int| 0 <= v < n implies #[trigger] visited@[v] == side(v) by {
                lemma_reaches_congruent(positive_edge(r), residual_edge(c, f), n as int, s, v);
            }
        }
        let mut reachable: Vec<usize> = Vec::new();
        let mut unreachable: Vec<usize> = Vec::new();
        for i in 0..n
            invariant
                n == c.len(),
                visited@.len() == n,
                forall|v: int| 0 <= v < n ==> #[trigger] visited@[v] == side(v),
                not_side == (|v: int| !residual_reachable(c, f, s)(v)),
                side == residual_reachable(c, f, s),
                lists_exactly(reachable@, i as int, side),
                lists_exactly(unreachable@, i as int, not_side),
        {
            proof {
                lemma_lists_extend(reachable@, i as int, side);
                lemma_lists_extend(unreachable@, i as int, not_side);
            }
            if visited[i] {
                reachable.push(i);
            } else {
                unreachable.push(i);
            }
        }
        // Find cut edges (from reachable to unreachable)
        let mut cut_edges: Vec<(usize, usize)> = Vec::new();
        let rl = reachable.len();
        let ul = unreachable.len();
        for ui in 0..rl
            invariant
                n == c.len(),
                c == network@,
                network.wf(),
                rl == reachable@.len(),
                ul == unreachable@.len(),
                forall|i: int| 0 <= i < rl ==> #[trigger] reachable@[i] < n,
                forall|i: int| 0 <= i < ul ==> #[trigger] unreachable@[i] < n,
                cut_edges@ == cut_edge_list(c, reachable@.subrange(0, ui as int), unreachable@),
        {
            let u = reachable[ui];
            for vi in 0..ul
                invariant
                    n == c.len(),
                    c == network@,
                    network.wf(),
                    ul == unreachable@.len(),
                    u < n,
                    ui < rl,
                    rl == reachable@.len(),
                    u == reachable@[ui as int],
                    forall|i: int| 0 <= i < ul ==> #[trigger] unreachable@[i] < n,
                    cut_edges@ == cut_edge_list(c, reachable@.subrange(0, ui as int), unreachable@)
                        + row_cut_edges(c, u, unreachable@.subrange(0, vi as int)),
            {
                let v = unreachable[vi];
                proof {
                    assert(unreachable@.subrange(0, vi + 1).drop_last() =~= unreachable@.subrange(
                        0,
                        vi as int,
                    ));
                }
                if network.capacity(u, v) > 0 {
                    cut_edges.push((u, v));
                }
                proof {
                    assert(cut_edges@ =~= cut_edge_list(c, reachable@.subrange(0, ui as int), unreachable@)
                        + row_cut_edges(c, u, unreachable@.subrange(0, vi + 1)));
                }
            }
            proof {
                assert(unreachable@.subrange(0, ul as int) =~= unreachable@);
                assert(reachable@.subrange(0, ui + 1).drop_last() =~= reachable@.subrange(0, ui as int));
            }
        }
        proof {
            assert(reachable@.subrange(0, rl as int) =~= reachable@);
            assert forall|v: int| 0 <= v < n implies #[trigger] member(reachable@)(v) == side(v) by {
                if member(reachable@)(v) {
                    let i = choose|i: int| 0 <= i < reachable@.len() && reachable@[i] as int == v;
                    assert(side(reachable@[i] as int));
                }
            }
            lemma_cut_capacity_congruent(c, member(reachable@), side);
            lemma_cut_edge_list_law(c, reachable@, unreachable@);
            assert(max_flow_val == edges_capacity(c, cut_edges@)) by {
                lemma_capacity_bounds(c);
                assert forall|i: int, j: int|
                    0 <= i < reachable@.len() && 0 <= j < unreachable@.len() implies 0 <= #[trigger] c[reachable@[i] as int][#[trigger] unreachable@[j] as int] by {
                    assert(reachable@[i] < n && unreachable@[j] < n);
                }
                lemma_cut_edge_list_capacity(c, reachable@, unreachable@);
                let ct = capacity_to(c, unreachable@);
                lemma_list_sum_reindex(ct, reachable@, n as int, side);
                assert forall|u: int| 0 <= u < n implies #[trigger] ct(u) == sum_to(
                    |v: int| if side(v) { 0 } else { c[u][v] },
                    n as int,
                ) by {
                    lemma_list_sum_reindex(row_fn(c, u), unreachable@, n as int, not_side);
                    lemma_sum_ext(
                        |v: int| if not_side(v) { row_fn(c, u)(v) } else { 0 },
                        |v: int| if side(v) { 0 } else { c[u][v] },
                        n as int,
                    );
                }
                lemma_sum_ext(
                    |u: int| if side(u) { ct(u) } else { 0 },
                    |u: int|
                        if side(u) {
                            sum_to(|v: int| if side(v) { 0 } else { c[u][v] }, n as int)
                        } else {
                            0
                        },
                    n as int,
                );
            }
            lemma_reaches_self(residual_edge(c, f), n as int, s);
            assert(member(reachable@)(s) == side(s));
            assert(member(reachable@)(sink as int) == side(sink as int));
            assert(is_flow(c, f, s, sink as int));
            let t = sink as int;
            lemma_residual_side_is_least_min_cut(c, f, s, t);
            lemma_lists_congruent(reachable@, n as int, side, in_every_min_cut(c, s, t));
            lemma_lists_congruent(unreachable@, n as int, not_side, |v: int| !in_every_min_cut(c, s, t)(v));
            assert forall|other: spec_fn(int) -> bool| is_st_cut(other, s, t) implies cut_capacity(c, member(reachable@))
                <= #[trigger] cut_capacity(c, other) by {
                assert(is_min_cut(c, side, s, t));
            }
        }
        (max_flow_val, reachable, unreachable, cut_edges)
    }
}

} // verus!
