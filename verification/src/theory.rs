use vstd::prelude::*;
use crate::sums::{
    sum_to, lemma_sum_add, lemma_sum_ge_one, lemma_sum_ext, lemma_sum_le, lemma_sum_neg, lemma_sum_single,
    lemma_sum_split, lemma_sum_zero,
};
use crate::model::{
    is_flow, is_skew, is_square, is_st_cut, is_walk, net_out, reaches, residual_edge, row_fn,
    flow_value, cut_capacity, has_augmenting_path, lists_exactly, member, mat_total, row_total,
};

verus! {

/// Sum of the entries of row `u` whose column is on `side`, over the first `k` columns.
pub open spec fn side_row(f: Seq<Seq<int>>, side: spec_fn(int) -> bool, u: int, k: int) -> int {
    sum_to(|v: int| if side(v) { f[u][v] } else { 0 }, k)
}

/// Sum of the entries of `f` with both indices on `side` and below `k`.
pub open spec fn block(f: Seq<Seq<int>>, side: spec_fn(int) -> bool, k: int) -> int {
    sum_to(|u: int| if side(u) { side_row(f, side, u, k) } else { 0 }, k)
}

/// The nodes that the residual graph of `f` reaches from `s`.
pub open spec fn residual_reachable(c: Seq<Seq<int>>, f: Seq<Seq<int>>, s: int) -> spec_fn(
    int,
) -> bool {
    |v: int| reaches(residual_edge(c, f), c.len() as int, s, v)
}

/// Within a skew-symmetric matrix, the entries with both indices on one side sum to zero.
pub proof fn lemma_skew_block(f: Seq<Seq<int>>, n: int, side: spec_fn(int) -> bool, k: int)
    requires
        is_square(f, n),
        is_skew(f, n),
        0 <= k <= n,
    ensures
        block(f, side, k) == 0,
    decreases k,
{
    if k > 0 {
        let j = k - 1;
        lemma_skew_block(f, n, side, j);
        let uk = |u: int| if side(u) { side_row(f, side, u, k) } else { 0 };
        let uj = |u: int| if side(u) { side_row(f, side, u, j) } else { 0 };
        let w = |u: int| if side(u) && side(j) { f[u][j] } else { 0 };
        let g = |v: int| if side(v) { f[j][v] } else { 0 };
        assert forall|u: int| 0 <= u < j implies #[trigger] uk(u) == uj(u) + w(u) by {}
        lemma_sum_add(uj, w, j);
        lemma_sum_ext(uk, |u: int| uj(u) + w(u), j);
        assert(f[j][j] == -f[j][j]);
        if side(j) {
            assert forall|u: int| 0 <= u < j implies #[trigger] w(u) == -g(u) by {
                assert(f[u][j] == -f[j][u]);
            }
            lemma_sum_neg(g, j);
            lemma_sum_ext(w, |u: int| -g(u), j);
        } else {
            lemma_sum_zero(w, j);
        }
    }
}

/// The value of a flow equals the net flow across any cut that separates source from sink.
pub proof fn lemma_flow_across_cut(
    c: Seq<Seq<int>>,
    f: Seq<Seq<int>>,
    s: int,
    t: int,
    side: spec_fn(int) -> bool,
)
    requires
        is_flow(c, f, s, t),
        is_st_cut(side, s, t),
    ensures
        flow_value(f, s) == cut_capacity(f, side),
{
    let n = c.len() as int;
    let a = |u: int| if side(u) { net_out(f, u) } else { 0 };
    let b = |u: int| if side(u) { side_row(f, side, u, n) } else { 0 };
    let d = |u: int|
        if side(u) {
            sum_to(|v: int| if side(v) { 0 } else { f[u][v] }, n)
        } else {
            0
        };
    assert forall|u: int| 0 <= u < n && u != s implies #[trigger] a(u) == 0 by {
        if side(u) {
            assert(u != t);
        }
    }
    lemma_sum_single(a, n, s);
    assert forall|u: int| 0 <= u < n implies #[trigger] a(u) == b(u) + d(u) by {
        let r = row_fn(f, u);
        lemma_sum_split(r, side, n);
        lemma_sum_ext(
            |v: int| if side(v) { r(v) } else { 0 },
            |v: int| if side(v) { f[u][v] } else { 0 },
            n,
        );
        lemma_sum_ext(
            |v: int| if side(v) { 0 } else { r(v) },
            |v: int| if side(v) { 0 } else { f[u][v] },
            n,
        );
    }
    lemma_sum_add(b, d, n);
    lemma_sum_ext(a, |u: int| b(u) + d(u), n);
    lemma_skew_block(f, n, side, n);
}

/// Weak duality: no flow exceeds the capacity of a cut that separates source from sink.
pub proof fn lemma_weak_duality(
    c: Seq<Seq<int>>,
    f: Seq<Seq<int>>,
    s: int,
    t: int,
    side: spec_fn(int) -> bool,
)
    requires
        is_flow(c, f, s, t),
        is_st_cut(side, s, t),
    ensures
        flow_value(f, s) <= cut_capacity(c, side),
{
    let n = c.len() as int;
    lemma_flow_across_cut(c, f, s, t, side);
    let df = |u: int|
        if side(u) {
            sum_to(|v: int| if side(v) { 0 } else { f[u][v] }, n)
        } else {
            0
        };
    let dc = |u: int|
        if side(u) {
            sum_to(|v: int| if side(v) { 0 } else { c[u][v] }, n)
        } else {
            0
        };
    assert forall|u: int| 0 <= u < n implies #[trigger] df(u) <= dc(u) by {
        if side(u) {
            lemma_sum_le(
                |v: int| if side(v) { 0 } else { f[u][v] },
                |v: int| if side(v) { 0 } else { c[u][v] },
                n,
            );
        }
    }
    lemma_sum_le(df, dc, n);
}

/// Every node of the graph reaches itself.
pub proof fn lemma_reaches_self(e: spec_fn(int, int) -> bool, n: int, s: int)
    requires
        0 <= s < n,
    ensures
        reaches(e, n, s, s),
{
    let p = seq![s];
    assert(is_walk(e, n, p));
}

/// One more edge after a reached node reaches its end.
pub proof fn lemma_reaches_step(e: spec_fn(int, int) -> bool, n: int, s: int, u: int, v: int)
    requires
        reaches(e, n, s, u),
        0 <= v < n,
        e(u, v),
    ensures
        reaches(e, n, s, v),
{
    let p = choose|p: Seq<int>| #[trigger] is_walk(e, n, p) && p[0] == s && p[p.len() - 1] == u;
    let q = p.push(v);
    assert(is_walk(e, n, q)) by {
        assert forall|k: int| 0 <= k < q.len() - 1 implies e(#[trigger] q[k], q[k + 1]) by {
            if k < p.len() - 1 {
                assert(e(p[k], p[k + 1]));
            }
        }
        assert forall|k: int| 0 <= k < q.len() implies 0 <= #[trigger] q[k] < n by {
            if k < p.len() {
                assert(0 <= p[k] < n);
            }
        }
    }
    assert(q[0] == s && q[q.len() - 1] == v);
}

proof fn lemma_walk_stays(
    e: spec_fn(int, int) -> bool,
    n: int,
    p: Seq<int>,
    side: spec_fn(int) -> bool,
    i: int,
)
    requires
        is_walk(e, n, p),
        side(p[0]),
        forall|u: int, v: int| 0 <= u < n && 0 <= v < n && side(u) && #[trigger] e(u, v) ==> side(v),
        0 <= i < p.len(),
    ensures
        side(p[i]),
    decreases i,
{
    if i > 0 {
        lemma_walk_stays(e, n, p, side, i - 1);
        assert(e(p[i - 1], p[i]));
        assert(0 <= p[i - 1] < n && 0 <= p[i] < n);
    }
}

/// A set of nodes that holds `s` and that no edge leaves holds every node reached from `s`.
pub proof fn lemma_closed_holds_reached(
    e: spec_fn(int, int) -> bool,
    n: int,
    s: int,
    side: spec_fn(int) -> bool,
    v: int,
)
    requires
        side(s),
        forall|u: int, w: int| 0 <= u < n && 0 <= w < n && side(u) && #[trigger] e(u, w) ==> side(w),
        reaches(e, n, s, v),
    ensures
        side(v),
{
    let p = choose|p: Seq<int>| #[trigger] is_walk(e, n, p) && p[0] == s && p[p.len() - 1] == v;
    lemma_walk_stays(e, n, p, side, p.len() - 1);
}

/// Edge relations that agree on the nodes reach the same nodes.
pub proof fn lemma_reaches_congruent(
    e1: spec_fn(int, int) -> bool,
    e2: spec_fn(int, int) -> bool,
    n: int,
    s: int,
    v: int,
)
    requires
        forall|u: int, w: int| 0 <= u < n && 0 <= w < n ==> #[trigger] e1(u, w) == e2(u, w),
    ensures
        reaches(e1, n, s, v) == reaches(e2, n, s, v),
{
    if reaches(e1, n, s, v) {
        let p = choose|p: Seq<int>| #[trigger] is_walk(e1, n, p) && p[0] == s && p[p.len() - 1] == v;
        assert forall|k: int| 0 <= k < p.len() - 1 implies e2(#[trigger] p[k], p[k + 1]) by {
            assert(e1(p[k], p[k + 1]));
            assert(0 <= p[k] < n && 0 <= p[k + 1] < n);
        }
        assert(is_walk(e2, n, p));
    }
    if reaches(e2, n, s, v) {
        let p = choose|p: Seq<int>| #[trigger] is_walk(e2, n, p) && p[0] == s && p[p.len() - 1] == v;
        assert forall|k: int| 0 <= k < p.len() - 1 implies e1(#[trigger] p[k], p[k + 1]) by {
            assert(e2(p[k], p[k + 1]));
            assert(0 <= p[k] < n && 0 <= p[k + 1] < n);
        }
        assert(is_walk(e1, n, p));
    }
}

/// Sides that agree on the nodes have the same cut capacity.
pub proof fn lemma_cut_capacity_congruent(
    c: Seq<Seq<int>>,
    side1: spec_fn(int) -> bool,
    side2: spec_fn(int) -> bool,
)
    requires
        forall|v: int| 0 <= v < c.len() ==> #[trigger] side1(v) == side2(v),
    ensures
        cut_capacity(c, side1) == cut_capacity(c, side2),
{
    let n = c.len() as int;
    let d1 = |u: int|
        if side1(u) {
            sum_to(|v: int| if side1(v) { 0 } else { c[u][v] }, n)
        } else {
            0
        };
    let d2 = |u: int|
        if side2(u) {
            sum_to(|v: int| if side2(v) { 0 } else { c[u][v] }, n)
        } else {
            0
        };
    assert forall|u: int| 0 <= u < n implies #[trigger] d1(u) == d2(u) by {
        lemma_sum_ext(
            |v: int| if side1(v) { 0 } else { c[u][v] },
            |v: int| if side2(v) { 0 } else { c[u][v] },
            n,
        );
    }
    lemma_sum_ext(d1, d2, n);
}

/// A flow without an augmenting path saturates every edge that leaves the nodes its residual
/// graph reaches from the source; its value is then the capacity of that cut.
pub proof fn lemma_no_augmenting_path_saturates(c: Seq<Seq<int>>, f: Seq<Seq<int>>, s: int, t: int)
    requires
        is_flow(c, f, s, t),
        !has_augmenting_path(c, f, s, t),
    ensures
        is_st_cut(residual_reachable(c, f, s), s, t),
        flow_value(f, s) == cut_capacity(c, residual_reachable(c, f, s)),
{
    let n = c.len() as int;
    let side = residual_reachable(c, f, s);
    let e = residual_edge(c, f);
    lemma_reaches_self(e, n, s);
    assert forall|u: int, v: int|
        0 <= u < n && 0 <= v < n && side(u) && !side(v) implies #[trigger] f[u][v] == c[u][v] by {
        if e(u, v) {
            lemma_reaches_step(e, n, s, u, v);
        }
    }
    lemma_flow_across_cut(c, f, s, t, side);
    let df = |u: int|
        if side(u) {
            sum_to(|v: int| if side(v) { 0 } else { f[u][v] }, n)
        } else {
            0
        };
    let dc = |u: int|
        if side(u) {
            sum_to(|v: int| if side(v) { 0 } else { c[u][v] }, n)
        } else {
            0
        };
    assert forall|u: int| 0 <= u < n implies #[trigger] df(u) == dc(u) by {
        if side(u) {
            lemma_sum_ext(
                |v: int| if side(v) { 0 } else { f[u][v] },
                |v: int| if side(v) { 0 } else { c[u][v] },
                n,
            );
        }
    }
    lemma_sum_ext(df, dc, n);
}

/// Max-flow min-cut: when a flow leaves no augmenting path, no flow has a greater value, no cut
/// that separates source from sink has a smaller capacity, and the two are equal on the cut
/// made of the nodes that its residual graph reaches from the source.
pub proof fn lemma_max_flow_min_cut(c: Seq<Seq<int>>, f: Seq<Seq<int>>, s: int, t: int)
    requires
        is_flow(c, f, s, t),
        !has_augmenting_path(c, f, s, t),
    ensures
        is_st_cut(residual_reachable(c, f, s), s, t),
        flow_value(f, s) == cut_capacity(c, residual_reachable(c, f, s)),
        forall|g: Seq<Seq<int>>| is_flow(c, g, s, t) ==> #[trigger] flow_value(g, s) <= flow_value(f, s),
        forall|side: spec_fn(int) -> bool|
            is_st_cut(side, s, t) ==> flow_value(f, s) <= #[trigger] cut_capacity(c, side),
{
    lemma_no_augmenting_path_saturates(c, f, s, t);
    assert forall|g: Seq<Seq<int>>| is_flow(c, g, s, t) implies #[trigger] flow_value(g, s) <= flow_value(f, s) by {
        lemma_weak_duality(c, g, s, t, residual_reachable(c, f, s));
    }
    assert forall|side: spec_fn(int) -> bool|
        is_st_cut(side, s, t) implies flow_value(f, s) <= #[trigger] cut_capacity(c, side) by {
        lemma_weak_duality(c, f, s, t, side);
    }
}

/// Extending a list of the nodes below `k` that satisfy `p` to the nodes below `k + 1`.
pub proof fn lemma_lists_extend(l: Seq<usize>, k: int, p: spec_fn(int) -> bool)
    requires
        lists_exactly(l, k, p),
        0 <= k <= usize::MAX,
    ensures
        p(k) ==> lists_exactly(l.push(k as usize), k + 1, p),
        !p(k) ==> lists_exactly(l, k + 1, p),
{
    if p(k) {
        let l2 = l.push(k as usize);
        assert forall|w: int| 0 <= w < k + 1 && p(w) implies #[trigger] member(l2)(w) by {
            if w == k {
                assert(l2[l2.len() - 1] as int == w);
            } else {
                assert(member(l)(w));
                let i = choose|i: int| 0 <= i < l.len() && l[i] as int == w;
                assert(l2[i] as int == w);
            }
        }
        assert forall|i: int| 0 <= i < l2.len() implies #[trigger] l2[i] < k + 1 && p(l2[i] as int) by {
            if i < l.len() {
                assert(l[i] < k && p(l[i] as int));
            }
        }
        assert forall|i: int, j: int| 0 <= i < j < l2.len() implies l2[i] < l2[j] by {
            if j < l.len() {
                assert(l[i] < l[j]);
            } else {
                assert(l[i] < k);
            }
        }
    } else {
        assert forall|i: int| 0 <= i < l.len() implies #[trigger] l[i] < k + 1 && p(l[i] as int) by {
            assert(l[i] < k && p(l[i] as int));
        }
    }
}

/// The entries of a skew-symmetric matrix add up to zero.
pub proof fn lemma_mat_total_skew(f: Seq<Seq<int>>)
    requires
        is_square(f, f.len() as int),
        is_skew(f, f.len() as int),
    ensures
        mat_total(f) == 0,
{
    let n = f.len() as int;
    let side = |x: int| true;
    lemma_skew_block(f, n, side, n);
    assert forall|u: int| 0 <= u < n implies #[trigger] row_total(f, u) == side_row(f, side, u, n) by {
        lemma_sum_ext(row_fn(f, u), |v: int| if side(v) { f[u][v] } else { 0 }, n);
    }
    lemma_sum_ext(
        |u: int| row_total(f, u),
        |u: int| if side(u) { side_row(f, side, u, n) } else { 0 },
        n,
    );
}

/// `side` separates `s` from `t` with the least capacity of any such cut.
pub open spec fn is_min_cut(c: Seq<Seq<int>>, side: spec_fn(int) -> bool, s: int, t: int) -> bool {
    &&& is_st_cut(side, s, t)
    &&& forall|other: spec_fn(int) -> bool|
        is_st_cut(other, s, t) ==> cut_capacity(c, side) <= #[trigger] cut_capacity(c, other)
}

/// The nodes on the source side of every minimum cut.
pub open spec fn in_every_min_cut(c: Seq<Seq<int>>, s: int, t: int) -> spec_fn(int) -> bool {
    |v: int| forall|side: spec_fn(int) -> bool| #[trigger] is_min_cut(c, side, s, t) ==> side(v)
}

/// Non-negative terms with a zero sum are all zero.
proof fn lemma_sum_nonneg_zero(a: spec_fn(int) -> int, k: int)
    requires
        forall|i: int| 0 <= i < k ==> #[trigger] a(i) >= 0,
        sum_to(a, k) == 0,
    ensures
        forall|i: int| 0 <= i < k ==> #[trigger] a(i) == 0,
{
    assert forall|i: int| 0 <= i < k implies #[trigger] a(i) == 0 by {
        lemma_sum_ge_one(a, k, i);
    }
}

/// Complementary slackness: a flow whose value is the capacity of a cut saturates every edge
/// that leaves the cut.
pub proof fn lemma_tight_cut_saturated(
    c: Seq<Seq<int>>,
    f: Seq<Seq<int>>,
    s: int,
    t: int,
    side: spec_fn(int) -> bool,
)
    requires
        is_flow(c, f, s, t),
        is_st_cut(side, s, t),
        flow_value(f, s) == cut_capacity(c, side),
    ensures
        forall|u: int, v: int|
            0 <= u < c.len() && 0 <= v < c.len() && side(u) && !side(v) ==> #[trigger] f[u][v]
                == c[u][v],
{
    let n = c.len() as int;
    lemma_flow_across_cut(c, f, s, t, side);
    let ic = |u: int| sum_to(|v: int| if side(v) { 0 } else { c[u][v] }, n);
    let ifl = |u: int| sum_to(|v: int| if side(v) { 0 } else { f[u][v] }, n);
    let dc = |u: int| if side(u) { ic(u) } else { 0 };
    let df = |u: int| if side(u) { ifl(u) } else { 0 };
    let gap = |u: int| dc(u) - df(u);
    assert forall|u: int| 0 <= u < n implies #[trigger] gap(u) >= 0 by {
        lemma_sum_le(
            |v: int| if side(v) { 0 } else { f[u][v] },
            |v: int| if side(v) { 0 } else { c[u][v] },
            n,
        );
    }
    let ndf = |u: int| -df(u);
    lemma_sum_neg(df, n);
    lemma_sum_add(dc, ndf, n);
    lemma_sum_ext(gap, |u: int| dc(u) + ndf(u), n);
    lemma_sum_ext(dc, |u: int|
        if side(u) {
            sum_to(|v: int| if side(v) { 0 } else { c[u][v] }, n)
        } else {
            0
        }, n);
    lemma_sum_ext(df, |u: int|
        if side(u) {
            sum_to(|v: int| if side(v) { 0 } else { f[u][v] }, n)
        } else {
            0
        }, n);
    lemma_sum_nonneg_zero(gap, n);
    assert forall|u: int, v: int|
        0 <= u < n && 0 <= v < n && side(u) && !side(v) implies #[trigger] f[u][v] == c[u][v] by {
        let ec = |w: int| if side(w) { 0 } else { c[u][w] };
        let ef = |w: int| if side(w) { 0 } else { f[u][w] };
        let g2 = |w: int| ec(w) - ef(w);
        let nef = |w: int| -ef(w);
        assert(gap(u) == 0);
        lemma_sum_neg(ef, n);
        lemma_sum_add(ec, nef, n);
        lemma_sum_ext(g2, |w: int| ec(w) + nef(w), n);
        assert forall|w: int| 0 <= w < n implies #[trigger] g2(w) >= 0 by {}
        lemma_sum_nonneg_zero(g2, n);
        assert(g2(v) == 0);
    }
}

/// The nodes that the residual graph of a maximum flow reaches from the source are exactly the
/// nodes on the source side of every minimum cut; they form a minimum cut themselves.
pub proof fn lemma_residual_side_is_least_min_cut(c: Seq<Seq<int>>, f: Seq<Seq<int>>, s: int, t: int)
    requires
        is_flow(c, f, s, t),
        !has_augmenting_path(c, f, s, t),
    ensures
        is_min_cut(c, residual_reachable(c, f, s), s, t),
        forall|v: int|
            0 <= v < c.len() ==> #[trigger] residual_reachable(c, f, s)(v) == in_every_min_cut(
                c,
                s,
                t,
            )(v),
{
    let n = c.len() as int;
    let r = residual_reachable(c, f, s);
    let e = residual_edge(c, f);
    lemma_max_flow_min_cut(c, f, s, t);
    assert(is_min_cut(c, r, s, t));
    assert forall|v: int| 0 <= v < n implies #[trigger] r(v) == in_every_min_cut(c, s, t)(v) by {
        if r(v) {
            assert forall|side: spec_fn(int) -> bool| #[trigger] is_min_cut(c, side, s, t) implies side(
                v,
            ) by {
                assert(cut_capacity(c, side) <= cut_capacity(c, r));
                lemma_weak_duality(c, f, s, t, side);
                lemma_tight_cut_saturated(c, f, s, t, side);
                assert forall|a: int, b: int|
                    0 <= a < n && 0 <= b < n && side(a) && #[trigger] e(a, b) implies side(b) by {
                    if !side(b) {
                        assert(f[a][b] == c[a][b]);
                    }
                }
                lemma_closed_holds_reached(e, n, s, side, v);
            }
        }
    }
}

/// A list of the nodes that satisfy `p` also lists those that satisfy `q`, when `p` and `q`
/// agree on the nodes.
pub proof fn lemma_lists_congruent(l: Seq<usize>, n: int, p: spec_fn(int) -> bool, q: spec_fn(int) -> bool)
    requires
        lists_exactly(l, n, p),
        forall|v: int| 0 <= v < n ==> #[trigger] p(v) == q(v),
    ensures
        lists_exactly(l, n, q),
{
    assert forall|i: int| 0 <= i < l.len() implies #[trigger] l[i] < n && q(l[i] as int) by {
        assert(l[i] < n && p(l[i] as int));
    }
    assert forall|v: int| 0 <= v < n && q(v) implies #[trigger] member(l)(v) by {
        assert(p(v));
    }
}

} // verus!
