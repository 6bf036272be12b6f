use vstd::prelude::*;
use crate::sums::{sum_to, lemma_sum_ext, lemma_sum_neg, lemma_sum_point, lemma_sum_single};
use crate::model::{
    cut_capacity, flow_value, has_augmenting_path, is_flow, is_square, net_out, row_fn, row_total,
};
use crate::theory::{
    lemma_mat_total_skew, lemma_max_flow_min_cut, lemma_no_augmenting_path_saturates,
    lemma_weak_duality, residual_reachable,
};

verus! {

/// The matrix with rows and columns exchanged: every edge reversed.
pub open spec fn transpose(m: Seq<Seq<int>>) -> Seq<Seq<int>> {
    Seq::new(m.len(), |u: int| Seq::new(m.len(), |v: int| m[v][u]))
}

/// What leaves the source of a flow arrives at its sink.
pub proof fn lemma_sink_receives_value(c: Seq<Seq<int>>, f: Seq<Seq<int>>, s: int, t: int)
    requires
        is_flow(c, f, s, t),
        s != t,
    ensures
        net_out(f, t) == -flow_value(f, s),
{
    let n = c.len() as int;
    lemma_mat_total_skew(f);
    let g = |u: int| row_total(f, u);
    let h = |u: int| if u == t { 0 } else { g(u) };
    lemma_sum_point(g, h, n, t);
    assert forall|u: int| 0 <= u < n && u != s implies #[trigger] h(u) == 0 by {
        if u != t {
            assert(net_out(f, u) == 0);
        }
    }
    lemma_sum_single(h, n, s);
}

/// Reversing every edge of a flow gives a flow from the sink back to the source, of the same
/// value, within the reversed capacities.
pub proof fn lemma_transpose_flow(c: Seq<Seq<int>>, f: Seq<Seq<int>>, s: int, t: int)
    requires
        is_flow(c, f, s, t),
        s != t,
    ensures
        is_flow(transpose(c), transpose(f), t, s),
        flow_value(transpose(f), t) == flow_value(f, s),
{
    let n = c.len() as int;
    let ct = transpose(c);
    let ft = transpose(f);
    assert forall|w: int| 0 <= w < n implies #[trigger] net_out(ft, w) == -net_out(f, w) by {
        let r = row_fn(f, w);
        lemma_sum_neg(r, n);
        assert forall|v: int| 0 <= v < n implies #[trigger] row_fn(ft, w)(v) == -r(v) by {
            assert(f[v][w] == -f[w][v]);
        }
        lemma_sum_ext(row_fn(ft, w), |v: int| -r(v), n);
    }
    assert forall|u: int, v: int| 0 <= u < n && 0 <= v < n implies #[trigger] ft[u][v] == -ft[v][u] by {
        assert(f[v][u] == -f[u][v]);
    }
    assert forall|u: int, v: int| 0 <= u < n && 0 <= v < n implies #[trigger] ft[u][v] <= ct[u][v] by {
        assert(f[v][u] <= c[v][u]);
    }
    assert forall|v: int| 0 <= v < n && v != t && v != s implies #[trigger] net_out(ft, v) == 0 by {
        assert(net_out(f, v) == 0);
    }
    lemma_sink_receives_value(c, f, s, t);
}

/// Reversal symmetry: the maximum flow from `t` to `s` with every edge reversed equals the
/// maximum flow from `s` to `t`.
pub proof fn lemma_reversal_symmetry(
    c: Seq<Seq<int>>,
    f: Seq<Seq<int>>,
    g: Seq<Seq<int>>,
    s: int,
    t: int,
)
    requires
        s != t,
        is_flow(c, f, s, t),
        !has_augmenting_path(c, f, s, t),
        is_flow(transpose(c), g, t, s),
        !has_augmenting_path(transpose(c), g, t, s),
    ensures
        flow_value(g, t) == flow_value(f, s),
{
    let ct = transpose(c);
    lemma_transpose_flow(c, f, s, t);
    lemma_max_flow_min_cut(ct, g, t, s);
    lemma_transpose_flow(ct, g, t, s);
    assert(transpose(ct) =~= c) by {
        assert forall|u: int| 0 <= u < c.len() implies #[trigger] transpose(ct)[u] =~= c[u] by {}
    }
    lemma_max_flow_min_cut(c, f, s, t);
    assert(flow_value(transpose(g), s) <= flow_value(f, s));
}

/// Adding `x` to the capacity from `a` to `b` adds `x` to the capacity of the cuts that this
/// edge leaves, and nothing to the others.
pub proof fn lemma_cut_capacity_add(
    c: Seq<Seq<int>>,
    side: spec_fn(int) -> bool,
    a: int,
    b: int,
    x: int,
)
    requires
        is_square(c, c.len() as int),
        0 <= a < c.len(),
        0 <= b < c.len(),
    ensures
        cut_capacity(c.update(a, c[a].update(b, c[a][b] + x)), side) == cut_capacity(c, side) + (
        if side(a) && !side(b) {
            x
        } else {
            0
        }),
{
    let n = c.len() as int;
    let c2 = c.update(a, c[a].update(b, c[a][b] + x));
    let d1 = |u: int|
        if side(u) {
            sum_to(|v: int| if side(v) { 0 } else { c[u][v] }, n)
        } else {
            0
        };
    let d2 = |u: int|
        if side(u) {
            sum_to(|v: int| if side(v) { 0 } else { c2[u][v] }, n)
        } else {
            0
        };
    assert forall|u: int| 0 <= u < n && u != a implies #[trigger] d1(u) == d2(u) by {
        lemma_sum_ext(
            |v: int| if side(v) { 0 } else { c[u][v] },
            |v: int| if side(v) { 0 } else { c2[u][v] },
            n,
        );
    }
    lemma_sum_point(
        |v: int| if side(v) { 0 } else { c[a][v] },
        |v: int| if side(v) { 0 } else { c2[a][v] },
        n,
        b,
    );
    lemma_sum_point(d1, d2, n, a);
}

/// Adding an edge never lowers the maximum flow, and raises it by at most the added capacity.
pub proof fn lemma_add_edge_bounds_max_flow(
    c: Seq<Seq<int>>,
    f: Seq<Seq<int>>,
    g: Seq<Seq<int>>,
    s: int,
    t: int,
    a: int,
    b: int,
    x: int,
)
    requires
        0 <= a < c.len(),
        0 <= b < c.len(),
        0 <= x,
        is_flow(c, f, s, t),
        !has_augmenting_path(c, f, s, t),
        is_flow(c.update(a, c[a].update(b, c[a][b] + x)), g, s, t),
        !has_augmenting_path(c.update(a, c[a].update(b, c[a][b] + x)), g, s, t),
    ensures
        flow_value(f, s) <= flow_value(g, s) <= flow_value(f, s) + x,
{
    let n = c.len() as int;
    let c2 = c.update(a, c[a].update(b, c[a][b] + x));
    assert forall|u: int, v: int| 0 <= u < n && 0 <= v < n implies #[trigger] f[u][v] <= c2[u][v] by {
        assert(f[u][v] <= c[u][v]);
    }
    assert forall|u: int| 0 <= u < n implies #[trigger] c2[u].len() == n by {}
    assert(is_flow(c2, f, s, t));
    lemma_max_flow_min_cut(c2, g, s, t);
    let side = residual_reachable(c, f, s);
    lemma_no_augmenting_path_saturates(c, f, s, t);
    lemma_weak_duality(c2, g, s, t, side);
    lemma_cut_capacity_add(c, side, a, b, x);
}

} // verus!
