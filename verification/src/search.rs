use vstd::prelude::*;
use crate::model::{is_square, is_walk, mat_u64, positive_edge, reaches};
use crate::theory::{lemma_closed_holds_reached, lemma_reaches_self, lemma_reaches_step};

verus! {

/// The number of `false` entries.
pub open spec fn count_false(s: Seq<bool>) -> nat
    decreases s.len(),
{
    if s.len() == 0 {
        0
    } else {
        count_false(s.drop_last()) + if s.last() {
            0nat
        } else {
            1nat
        }
    }
}

proof fn lemma_count_false_set(s: Seq<bool>, i: int)
    requires
        0 <= i < s.len(),
        !s[i],
    ensures
        count_false(s.update(i, true)) + 1 == count_false(s),
    decreases s.len(),
{
    let s2 = s.update(i, true);
    if i == s.len() - 1 {
        assert(s2.drop_last() =~= s.drop_last());
    } else {
        lemma_count_false_set(s.drop_last(), i);
        assert(s2.drop_last() =~= s.drop_last().update(i, true));
    }
}

/// `v` was reached through `parent[v]`: a node with an edge to `v`, one step closer to the
/// start.
pub open spec fn parent_ok(
    r: Seq<Seq<int>>,
    visited: Seq<bool>,
    parent: Seq<Option<usize>>,
    rank: Seq<int>,
    v: int,
) -> bool {
    match parent[v] {
        Some(p) => p < r.len() && visited[p as int] && r[p as int][v] > 0 && 0 <= rank[p as int]
            && rank[p as int] + 1 == rank[v],
        None => false,
    }
}

/// A path of distinct nodes from `s` to `t` along edges of `e` (the single node `s` when `s`
/// and `t` are the same).
pub open spec fn is_simple_path(e: spec_fn(int, int) -> bool, n: int, p: Seq<usize>, s: int, t: int) -> bool {
    &&& p.len() >= 1
    &&& p[0] as int == s
    &&& p[p.len() - 1] as int == t
    &&& forall|i: int| 0 <= i < p.len() ==> #[trigger] p[i] < n
    &&& forall|i: int| 0 <= i < p.len() - 1 ==> e(#[trigger] p[i] as int, p[i + 1] as int)
    &&& forall|i: int, j: int| 0 <= i < j < p.len() ==> p[i] != p[j]
}

/// The state of a breadth-first search: the visited nodes, the node each was first reached
/// from, and the queue of visited nodes in the order of their visit.
pub struct BfsState {
    pub visited: Seq<bool>,
    pub parent: Seq<Option<usize>>,
    pub queue: Seq<usize>,
}

/// The state made of the given parts.
pub open spec fn bfs_state(visited: Seq<bool>, parent: Seq<Option<usize>>, queue: Seq<usize>) -> BfsState {
    BfsState { visited, parent, queue }
}

/// Looks at the edge from `u` to `v`: an unvisited `v` that `u` has a positive entry to is
/// visited, reached from `u`, and queued.
pub open spec fn bfs_visit(r: Seq<Seq<int>>, st: BfsState, u: usize, v: int) -> BfsState {
    if !st.visited[v] && r[u as int][v] > 0 {
        BfsState {
            visited: st.visited.update(v, true),
            parent: st.parent.update(v, Some(u)),
            queue: st.queue.push(v as usize),
        }
    } else {
        st
    }
}

/// Looks at the edges from `u` to the nodes below `k`, in increasing order.
pub open spec fn bfs_scan(r: Seq<Seq<int>>, st: BfsState, u: usize, k: int) -> BfsState
    decreases k,
{
    if k <= 0 {
        st
    } else {
        bfs_visit(r, bfs_scan(r, st, u, k - 1), u, k - 1)
    }
}

/// Takes the queued nodes from position `head` on, one after the other, and looks at all
/// their edges; at most `fuel` of them.
pub open spec fn bfs_run(r: Seq<Seq<int>>, st: BfsState, head: int, fuel: nat) -> BfsState
    decreases fuel,
{
    if fuel == 0 || head < 0 || head >= st.queue.len() {
        st
    } else {
        bfs_run(r, bfs_scan(r, st, st.queue[head], r.len() as int), head + 1, (fuel - 1) as nat)
    }
}

/// Only `s` visited and queued.
pub open spec fn bfs_start(n: int, s: usize) -> BfsState {
    BfsState {
        visited: Seq::new(n as nat, |v: int| v == s),
        parent: Seq::new(n as nat, |v: int| None),
        queue: seq![s],
    }
}

/// The state at the end of the breadth-first search from `s` (it takes at most one step per
/// node).
pub open spec fn bfs_final(r: Seq<Seq<int>>, s: usize) -> BfsState {
    bfs_run(r, bfs_start(r.len() as int, s), 0, (r.len() + 1) as nat)
}

/// The walk back from `cur` along the recorded parents, at most `fuel` steps.
pub open spec fn back_walk(parent: Seq<Option<usize>>, cur: usize, fuel: nat) -> Seq<usize>
    decreases fuel,
{
    if fuel == 0 {
        seq![cur]
    } else {
        match parent[cur as int] {
            None => seq![cur],
            Some(p) => seq![cur] + back_walk(parent, p, (fuel - 1) as nat),
        }
    }
}

/// The path from `s` to `t` that breadth-first search finds: back from `t` along the parents
/// to `s`, then reversed; `None` when `t` is not visited.
#[verifier::opaque]
pub open spec fn bfs_path_of(r: Seq<Seq<int>>, s: usize, t: usize) -> Option<Seq<usize>> {
    let st = bfs_final(r, s);
    if !st.visited[t as int] {
        None
    } else {
        Some(back_walk(st.parent, t, r.len() as nat).reverse())
    }
}

/// Breadth-first search from `source` along the positive entries of `r`. Returns the visited
/// nodes (exactly those reached from `source`), the node each was first reached from, and
/// the number of edges on a shortest walk from `source` to each.
pub(crate) fn explore(r: &Vec<Vec<u64>>, source: usize) -> (res: (
    Vec<bool>,
    Vec<Option<usize>>,
    Ghost<Seq<int>>,
))
    requires
        is_square(mat_u64(r@), r@.len() as int),
        source < r@.len(),
    ensures
        res.0@.len() == r@.len(),
        res.1@.len() == r@.len(),
        res.2@.len() == r@.len(),
        forall|v: int|
            0 <= v < r@.len() ==> (#[trigger] res.0@[v] <==> reaches(
                positive_edge(mat_u64(r@)),
                r@.len() as int,
                source as int,
                v,
            )),
        res.0@ == bfs_final(mat_u64(r@), source).visited,
        res.1@ == bfs_final(mat_u64(r@), source).parent,
        res.0@[source as int],
        res.1@[source as int] is None,
        res.2@[source as int] == 0,
        forall|v: int| 0 <= v < r@.len() && #[trigger] res.0@[v] ==> res.2@[v] < r@.len(),
        forall|v: int|
            0 <= v < r@.len() && #[trigger] res.0@[v] && v != source ==> parent_ok(
                mat_u64(r@),
                res.0@,
                res.1@,
                res.2@,
                v,
            ),
        forall|v: int| 0 <= v < r@.len() && #[trigger] res.0@[v] ==> 0 <= res.2@[v],
        forall|u: int, w: int|
            0 <= u < r@.len() && 0 <= w < r@.len() && res.0@[u] && #[trigger] mat_u64(r@)[u][w] > 0
                ==> res.0@[w] && res.2@[w] <= res.2@[u] + 1,
{
    let n = r.len();
    let ghost rr = mat_u64(r@);
    let ghost e = positive_edge(rr);
    let mut visited: Vec<bool> = Vec::new();
    let mut parent: Vec<Option<usize>> = Vec::new();
    for i in 0..n
        invariant
            visited@.len() == i,
            parent@.len() == i,
            forall|v: int| 0 <= v < i ==> !(#[trigger] visited@[v]),
            forall|v: int| 0 <= v < i ==> (#[trigger] parent@[v]) is None,
            count_false(visited@) == i,
    {
        proof {
            assert(visited@.push(false).drop_last() =~= visited@);
        }
        visited.push(false);
        parent.push(None);
    }
    let ghost mut pos: Seq<int> = Seq::new(n as nat, |i: int| 0int);
    let ghost mut dist: Seq<int> = Seq::new(n as nat, |i: int| 0int);
    let mut queue: Vec<usize> = Vec::new();
    proof {
        lemma_count_false_set(visited@, source as int);
        lemma_reaches_self(e, n as int, source as int);
    }
    visited.set(source, true);
    queue.push(source);
    let mut head: usize = 0;
    proof {
        assert(visited@ =~= bfs_start(n as int, source).visited);
        assert(parent@ =~= bfs_start(n as int, source).parent);
        assert(queue@ =~= bfs_start(n as int, source).queue);
    }
    while head < queue.len()
        invariant
            n == r@.len(),
            rr == mat_u64(r@),
            e == positive_edge(rr),
            is_square(rr, n as int),
            source < n,
            visited@.len() == n,
            parent@.len() == n,
            pos.len() == n,
            dist.len() == n,
            1 <= queue@.len(),
            head <= queue@.len(),
            queue@.len() + count_false(visited@) == n,
            queue@[0] == source,
            dist[source as int] == 0,
            bfs_run(rr, bfs_state(visited@, parent@, queue@), head as int, (n + 1 - head) as nat)
                == bfs_final(rr, source),
            forall|i: int|
                0 <= i < queue@.len() ==> #[trigger] queue@[i] < n && visited@[queue@[i] as int]
                    && pos[queue@[i] as int] == i && dist[queue@[i] as int] <= i,
            forall|v: int|
                0 <= v < n && #[trigger] visited@[v] ==> 0 <= pos[v] < queue@.len() && queue@[pos[v]]
                    == v,
            forall|i: int, j: int|
                #![trigger queue@[i], queue@[j]]
                0 <= i <= j < queue@.len() ==> dist[queue@[i] as int] <= dist[queue@[j] as int],
            head < queue@.len() ==> forall|j: int|
                0 <= j < queue@.len() ==> dist[#[trigger] queue@[j] as int] <= dist[queue@[head as int] as int] + 1,
            parent@[source as int] is None,
            forall|v: int|
                0 <= v < n && #[trigger] visited@[v] && v != source ==> parent_ok(
                    rr,
                    visited@,
                    parent@,
                    dist,
                    v,
                ),
            forall|v: int| 0 <= v < n && #[trigger] visited@[v] ==> 0 <= dist[v],
            forall|v: int| 0 <= v < n && #[trigger] visited@[v] ==> reaches(e, n as int, source as int, v),
            forall|i: int, w: int|
                0 <= i < head && 0 <= w < n && #[trigger] rr[queue@[i] as int][w] > 0 ==> visited@[w]
                    && dist[w] <= dist[queue@[i] as int] + 1,
        decreases n - head,
    {
        let u = queue[head];
        let ghost st0 = bfs_state(visited@, parent@, queue@);
        for v in 0..n
            invariant
                n == r@.len(),
                rr == mat_u64(r@),
                e == positive_edge(rr),
                is_square(rr, n as int),
                source < n,
                visited@.len() == n,
                parent@.len() == n,
                pos.len() == n,
                dist.len() == n,
                1 <= queue@.len(),
                head < queue@.len(),
                u == queue@[head as int],
                queue@.len() + count_false(visited@) == n,
                queue@[0] == source,
                dist[source as int] == 0,
                st0.queue.len() <= queue@.len(),
                head < st0.queue.len(),
                st0.queue[head as int] == u,
                bfs_state(visited@, parent@, queue@) == bfs_scan(rr, st0, u, v as int),
                forall|i: int|
                    0 <= i < queue@.len() ==> #[trigger] queue@[i] < n && visited@[queue@[i] as int]
                        && pos[queue@[i] as int] == i && dist[queue@[i] as int] <= i,
                forall|w: int|
                    0 <= w < n && #[trigger] visited@[w] ==> 0 <= pos[w] < queue@.len()
                        && queue@[pos[w]] == w,
                forall|i: int, j: int|
                    #![trigger queue@[i], queue@[j]]
                    0 <= i <= j < queue@.len() ==> dist[queue@[i] as int] <= dist[queue@[j] as int],
                forall|j: int|
                    0 <= j < queue@.len() ==> dist[#[trigger] queue@[j] as int] <= dist[u as int] + 1,
                parent@[source as int] is None,
                forall|w: int|
                    0 <= w < n && #[trigger] visited@[w] && w != source ==> parent_ok(
                        rr,
                        visited@,
                        parent@,
                        dist,
                        w,
                    ),
                forall|w: int| 0 <= w < n && #[trigger] visited@[w] ==> 0 <= dist[w],
                forall|w: int|
                    0 <= w < n && #[trigger] visited@[w] ==> reaches(e, n as int, source as int, w),
                forall|i: int, w: int|
                    0 <= i < head && 0 <= w < n && #[trigger] rr[queue@[i] as int][w] > 0
                        ==> visited@[w] && dist[w] <= dist[queue@[i] as int] + 1,
                forall|w: int|
                    0 <= w < v && #[trigger] rr[u as int][w] > 0 ==> visited@[w] && dist[w]
                        <= dist[u as int] + 1,
        {
            proof {
                assert(rr[u as int].len() == n);
                assert(r@[u as int]@.len() == rr[u as int].len());
            }
            if !visited[v] && r[u][v] > 0 {
                proof {
                    assert(rr[u as int][v as int] > 0);
                    lemma_count_false_set(visited@, v as int);
                    assert(visited@[u as int]);
                    lemma_reaches_step(e, n as int, source as int, u as int, v as int);
                }
                let ghost old_visited = visited@;
                let ghost old_parent = parent@;
                let ghost old_pos = pos;
                let ghost old_dist = dist;
                let ghost old_queue = queue@;
                visited.set(v, true);
                parent.set(v, Some(u));
                proof {
                    pos = pos.update(v as int, queue@.len() as int);
                    dist = dist.update(v as int, old_dist[u as int] + 1);
                }
                queue.push(v);
                proof {
                    assert(old_dist[u as int] <= head);
                    assert(bfs_state(visited@, parent@, queue@) == bfs_visit(
                        rr,
                        bfs_scan(rr, st0, u, v as int),
                        u,
                        v as int,
                    ));
                    assert forall|i: int| 0 <= i < queue@.len() implies #[trigger] dist[queue@[i] as int] <= i by {
                        if i < old_queue.len() {
                            assert(old_visited[old_queue[i] as int]);
                            assert(old_queue[i] != v);
                            assert(old_dist[old_queue[i] as int] <= i);
                        }
                    }
                    assert(old_queue[head as int] == u);
                    assert(old_dist[u as int] >= 0);
                    assert forall|i: int| 0 <= i < queue@.len() implies #[trigger] queue@[i] < n
                        && visited@[queue@[i] as int] && pos[queue@[i] as int] == i by {
                        if i < old_queue.len() {
                            assert(old_visited[old_queue[i] as int]);
                            assert(old_queue[i] != v);
                        }
                    }
                    assert forall|i: int| 0 <= i < old_queue.len() implies #[trigger] dist[old_queue[i] as int]
                        == old_dist[old_queue[i] as int] by {
                        assert(old_visited[old_queue[i] as int]);
                        assert(old_queue[i] != v);
                    }
                    assert forall|i: int, j: int|
                        #![trigger queue@[i], queue@[j]]
                        0 <= i <= j < queue@.len() implies dist[queue@[i] as int] <= dist[queue@[j] as int] by {
                        if j == old_queue.len() {
                            if i < old_queue.len() {
                                assert(dist[old_queue[i] as int] == old_dist[old_queue[i] as int]);
                                assert(old_dist[old_queue[i] as int] <= old_dist[u as int] + 1);
                            }
                        } else {
                            assert(dist[old_queue[i] as int] == old_dist[old_queue[i] as int]);
                            assert(dist[old_queue[j] as int] == old_dist[old_queue[j] as int]);
                            assert(old_dist[old_queue[i] as int] <= old_dist[old_queue[j] as int]);
                        }
                    }
                    assert forall|j: int| 0 <= j < queue@.len() implies dist[#[trigger] queue@[j] as int]
                        <= dist[u as int] + 1 by {
                        if j < old_queue.len() {
                            assert(dist[old_queue[j] as int] == old_dist[old_queue[j] as int]);
                            assert(old_dist[old_queue[j] as int] <= old_dist[u as int] + 1);
                        }
                    }
                    assert forall|w: int| 0 <= w < n && #[trigger] visited@[w] && w != source
                        implies parent_ok(rr, visited@, parent@, dist, w) by {
                        if w != v {
                            assert(old_visited[w]);
                            assert(parent_ok(rr, old_visited, old_parent, old_dist, w));
                            let p = old_parent[w]->Some_0;
                            assert(old_visited[p as int]);
                            assert(p != v);
                        }
                    }
                    assert forall|w: int| 0 <= w < n && #[trigger] visited@[w] implies 0 <= pos[w]
                        < queue@.len() && queue@[pos[w]] == w by {
                        if w != v {
                            assert(old_visited[w]);
                        }
                    }
                    assert forall|w: int| 0 <= w < n && #[trigger] visited@[w] implies 0 <= dist[w] by {
                        if w != v {
                            assert(old_visited[w]);
                        }
                    }
                    assert forall|i: int, w: int|
                        0 <= i < head && 0 <= w < n && #[trigger] rr[queue@[i] as int][w] > 0
                            implies visited@[w] && dist[w] <= dist[queue@[i] as int] + 1 by {
                        assert(queue@[i] == old_queue[i]);
                        assert(old_visited[w]);
                        assert(w != v);
                        assert(dist[old_queue[i] as int] == old_dist[old_queue[i] as int]);
                    }
                    assert forall|w: int|
                        0 <= w < v + 1 && #[trigger] rr[u as int][w] > 0 implies visited@[w] && dist[w]
                            <= dist[u as int] + 1 by {
                        if w != v {
                            assert(old_visited[w]);
                        }
                    }
                }
            } else {
                proof {
                    assert(bfs_state(visited@, parent@, queue@) == bfs_visit(
                        rr,
                        bfs_scan(rr, st0, u, v as int),
                        u,
                        v as int,
                    ));
                    if rr[u as int][v as int] > 0 {
                        assert(visited@[v as int]);
                        let p = pos[v as int];
                        assert(queue@[p] == v);
                        assert(dist[queue@[p] as int] <= dist[u as int] + 1);
                    }
                }
            }
        }
        proof {
            assert(st0.queue[head as int] == u);
            assert(bfs_run(rr, st0, head as int, (n + 1 - head) as nat) == bfs_run(
                rr,
                bfs_scan(rr, st0, u, n as int),
                head + 1,
                (n + 1 - (head + 1)) as nat,
            ));
            if head + 1 < queue@.len() {
                assert forall|j: int| 0 <= j < queue@.len() implies dist[#[trigger] queue@[j] as int]
                    <= dist[queue@[head + 1] as int] + 1 by {
                    assert(dist[queue@[head as int] as int] <= dist[queue@[head + 1] as int]);
                }
            }
        }
        head = head + 1;
    }
    proof {
        assert(bfs_run(rr, bfs_state(visited@, parent@, queue@), head as int, (n + 1 - head) as nat)
            == bfs_state(visited@, parent@, queue@));
        assert(visited@[queue@[0] as int]);
        assert forall|v: int| 0 <= v < n && #[trigger] visited@[v] implies dist[v] < n by {
            assert(queue@[pos[v]] == v);
        }
        let side = |v: int| 0 <= v < n && visited@[v];
        assert forall|a: int, b: int|
            0 <= a < n && 0 <= b < n && side(a) && #[trigger] e(a, b) implies side(b) by {
            assert(visited@[a]);
            let i = pos[a];
            assert(queue@[i] == a);
            assert(rr[queue@[i] as int][b] > 0);
        }
        assert forall|v: int| 0 <= v < n implies (#[trigger] visited@[v] <==> reaches(
            e,
            n as int,
            source as int,
            v,
        )) by {
            if reaches(e, n as int, source as int, v) {
                lemma_closed_holds_reached(e, n as int, source as int, side, v);
            }
        }
        assert forall|a: int, w: int|
            0 <= a < n && 0 <= w < n && visited@[a] && #[trigger] rr[a][w] > 0 implies visited@[w]
                && dist[w] <= dist[a] + 1 by {
            let i = pos[a];
            assert(queue@[i] == a);
            assert(rr[queue@[i] as int][w] > 0);
        }
    }
    (visited, parent, Ghost(dist))
}

/// Along a walk from `s`, the `i`-th node is visited and at most `i` steps from `s`.
proof fn lemma_walk_within_dist(
    rr: Seq<Seq<int>>,
    n: int,
    visited: Seq<bool>,
    dist: Seq<int>,
    s: int,
    q: Seq<int>,
    i: int,
)
    requires
        is_walk(positive_edge(rr), n, q),
        q[0] == s,
        0 <= i < q.len(),
        visited[s],
        dist[s] == 0,
        forall|u: int, w: int|
            0 <= u < n && 0 <= w < n && visited[u] && #[trigger] rr[u][w] > 0 ==> visited[w]
                && dist[w] <= dist[u] + 1,
    ensures
        visited[q[i]],
        dist[q[i]] <= i,
    decreases i,
{
    if i > 0 {
        lemma_walk_within_dist(rr, n, visited, dist, s, q, i - 1);
        assert(positive_edge(rr)(q[i - 1], q[i]));
        assert(0 <= q[i - 1] < n && 0 <= q[i] < n);
    }
}

/// `back` walks backwards along edges of `r`, through visited nodes of strictly decreasing rank.
#[verifier::opaque]
spec fn back_chain(r: Seq<Seq<int>>, visited: Seq<bool>, rank: Seq<int>, back: Seq<usize>) -> bool {
    &&& forall|i: int| 0 <= i < back.len() ==> #[trigger] back[i] < r.len() && visited[back[i] as int]
    &&& forall|i: int| 0 <= i < back.len() - 1 ==> r[#[trigger] back[i + 1] as int][back[i] as int] > 0
    &&& forall|i: int, j: int|
        #![trigger back[i], back[j]]
        0 <= i < j < back.len() ==> rank[back[i] as int] > rank[back[j] as int]
}

proof fn lemma_back_chain_push(
    r: Seq<Seq<int>>,
    visited: Seq<bool>,
    rank: Seq<int>,
    back: Seq<usize>,
    p: usize,
)
    requires
        back_chain(r, visited, rank, back),
        back.len() >= 1,
        p < r.len(),
        visited[p as int],
        r[p as int][back[back.len() - 1] as int] > 0,
        rank[p as int] < rank[back[back.len() - 1] as int],
    ensures
        back_chain(r, visited, rank, back.push(p)),
{
    reveal(back_chain);
    let b2 = back.push(p);
    assert forall|i: int, j: int|
        #![trigger b2[i], b2[j]]
        0 <= i < j < b2.len() implies rank[b2[i] as int] > rank[b2[j] as int] by {
        if j == b2.len() - 1 && i < j - 1 {
            assert(rank[back[i] as int] > rank[back[back.len() - 1] as int]);
        }
    }
    assert forall|i: int| 0 <= i < b2.len() - 1 implies r[#[trigger] b2[i + 1] as int][b2[i] as int] > 0 by {
        if i < back.len() - 1 {
            assert(r[back[i + 1] as int][back[i] as int] > 0);
        }
    }
    assert forall|i: int| 0 <= i < b2.len() implies #[trigger] b2[i] < r.len() && visited[b2[i] as int] by {
        if i < back.len() {
            assert(back[i] < r.len() && visited[back[i] as int]);
        }
    }
}

/// The path read backwards from a walk back from `sink` to `source` is a simple path, and
/// no walk from `source` to `sink` is shorter.
proof fn lemma_path_from_back(
    rr: Seq<Seq<int>>,
    n: int,
    visited: Seq<bool>,
    rank: Seq<int>,
    back: Seq<usize>,
    path: Seq<usize>,
    source: usize,
    sink: usize,
)
    requires
        n == rr.len(),
        visited.len() == n,
        rank.len() == n,
        source < n,
        sink < n,
        visited[source as int],
        rank[source as int] == 0,
        forall|u: int, w: int|
            0 <= u < n && 0 <= w < n && visited[u] && #[trigger] rr[u][w] > 0 ==> visited[w]
                && rank[w] <= rank[u] + 1,
        back.len() >= 1,
        back[0] == sink,
        back[back.len() - 1] == source,
        back_chain(rr, visited, rank, back),
        back.len() - 1 + rank[source as int] == rank[sink as int],
        path.len() == back.len(),
        forall|j: int| 0 <= j < path.len() ==> #[trigger] path[j] == back[back.len() - 1 - j],
    ensures
        is_simple_path(positive_edge(rr), n, path, source as int, sink as int),
        forall|q: Seq<int>|
            #[trigger] is_walk(positive_edge(rr), n, q) && q[0] == source && q[q.len() - 1] == sink
                ==> path.len() <= q.len(),
{
    reveal(back_chain);
    let len = back.len();
    let e = positive_edge(rr);
    assert forall|i: int| 0 <= i < path.len() implies #[trigger] path[i] < n by {
        assert(back[len - 1 - i] < n);
    }
    assert forall|i: int| 0 <= i < path.len() - 1 implies e(#[trigger] path[i] as int, path[i + 1] as int) by {
        let k = len - 2 - i;
        assert(rr[back[k + 1] as int][back[k] as int] > 0);
        assert(path[i] == back[k + 1]);
        assert(path[i + 1] == back[k]);
    }
    assert forall|q: Seq<int>|
        #[trigger] is_walk(e, n, q) && q[0] == source && q[q.len() - 1] == sink implies path.len()
            <= q.len() by {
        lemma_walk_within_dist(rr, n, visited, rank, source as int, q, q.len() - 1);
    }
    assert forall|i: int, j: int| 0 <= i < j < path.len() implies path[i] != path[j] by {
        assert(rank[back[len - 1 - j] as int] > rank[back[len - 1 - i] as int]);
    }
    assert(path[0] == source);
    assert(path[path.len() - 1] == sink);
}

/// The walk back from `sink` along the recorded parents, up to `source`.
fn walk_back(
    parent: &Vec<Option<usize>>,
    source: usize,
    sink: usize,
    Ghost(rr): Ghost<Seq<Seq<int>>>,
    Ghost(visited): Ghost<Seq<bool>>,
    Ghost(rank): Ghost<Seq<int>>,
) -> (back: Vec<usize>)
    requires
        visited.len() == rr.len(),
        parent@.len() == rr.len(),
        rank.len() == rr.len(),
        source < rr.len(),
        sink < rr.len(),
        parent@[source as int] is None,
        forall|v: int|
            0 <= v < rr.len() && #[trigger] visited[v] && v != source ==> parent_ok(
                rr,
                visited,
                parent@,
                rank,
                v,
            ),
        forall|v: int| 0 <= v < rr.len() && #[trigger] visited[v] ==> 0 <= rank[v],
        visited[sink as int],
        rank[sink as int] < rr.len(),
    ensures
        back@.len() >= 1,
        back@[0] == sink,
        back@[back@.len() - 1] == source,
        back_chain(rr, visited, rank, back@),
        back@.len() - 1 + rank[source as int] == rank[sink as int],
        back_walk(parent@, sink, rr.len() as nat) == back@,
{
    let ghost n = rr.len() as int;
    let mut back: Vec<usize> = Vec::new();
    back.push(sink);
    let mut current = sink;
    proof {
        reveal(back_chain);
        assert(back@.drop_last() =~= Seq::<usize>::empty());
        assert(Seq::<usize>::empty() + back_walk(parent@, sink, n as nat) =~= back_walk(parent@, sink, n as nat));
    }
    while parent[current].is_some()
        invariant
            n == rr.len(),
            visited.len() == n,
            parent@.len() == n,
            rank.len() == n,
            parent@[source as int] is None,
            forall|v: int|
                0 <= v < n && #[trigger] visited[v] && v != source ==> parent_ok(
                    rr,
                    visited,
                    parent@,
                    rank,
                    v,
                ),
            forall|v: int| 0 <= v < n && #[trigger] visited[v] ==> 0 <= rank[v],
            current < n,
            visited[current as int],
            back@.len() >= 1,
            back@[0] == sink,
            back@[back@.len() - 1] == current,
            back_chain(rr, visited, rank, back@),
            back@.len() - 1 + rank[current as int] == rank[sink as int],
            rank[sink as int] < n,
            back_walk(parent@, sink, n as nat) == back@.drop_last() + back_walk(
                parent@,
                current,
                (n - (back@.len() - 1)) as nat,
            ),
        decreases rank[current as int],
    {
        let p = parent[current].unwrap();
        proof {
            assert(current != source);
            assert(parent_ok(rr, visited, parent@, rank, current as int));
            lemma_back_chain_push(rr, visited, rank, back@, p);
            let g = (n - (back@.len() - 1)) as nat;
            assert(g > 0);
            assert(back_walk(parent@, current, g) == seq![current] + back_walk(parent@, p, (g - 1) as nat));
            assert(back@.push(p).drop_last() =~= back@);
            assert(back@.drop_last() + (seq![current] + back_walk(parent@, p, (g - 1) as nat))
                =~= back@ + back_walk(parent@, p, (g - 1) as nat)) by {
                assert(back@ =~= back@.drop_last().push(current));
            }
        }
        back.push(p);
        current = p;
    }
    proof {
        let g = (n - (back@.len() - 1)) as nat;
        assert(back_walk(parent@, current, g) == seq![current]);
        assert(back@.drop_last() + seq![current] =~= back@) by {
            assert(back@ =~= back@.drop_last().push(current));
        }
    }
    back
}

/// A shortest path from `source` to `sink` along the positive entries of `r`, found by
/// breadth-first search, or `None` when `sink` cannot be reached. When `source` and `sink` are
/// the same node, the path is that node alone.
pub(crate) fn bfs_path(r: &Vec<Vec<u64>>, source: usize, sink: usize) -> (path: Option<Vec<usize>>)
    requires
        is_square(mat_u64(r@), r@.len() as int),
        source < r@.len(),
        sink < r@.len(),
    ensures
        match path {
            None => !reaches(positive_edge(mat_u64(r@)), r@.len() as int, source as int, sink as int),
            Some(p) => is_simple_path(
                positive_edge(mat_u64(r@)),
                r@.len() as int,
                p@,
                source as int,
                sink as int,
            ) && forall|q: Seq<int>|
                #[trigger] is_walk(positive_edge(mat_u64(r@)), r@.len() as int, q) && q[0] == source
                    && q[q.len() - 1] == sink ==> p@.len() <= q.len(),
        },
        path is None <==> bfs_path_of(mat_u64(r@), source, sink) is None,
        path matches Some(p) ==> bfs_path_of(mat_u64(r@), source, sink) == Some(p@),
{
    let n = r.len();
    let ghost rr = mat_u64(r@);
    let ghost e = positive_edge(rr);
    let (visited, parent, Ghost(rank)) = explore(r, source);
    if !visited[sink] {
        proof {
            reveal(bfs_path_of);
        }
        return None;
    }
    let back = walk_back(&parent, source, sink, Ghost(rr), Ghost(visited@), Ghost(rank));
    let len = back.len();
    let mut path: Vec<usize> = Vec::new();
    for i in 0..len
        invariant
            len == back@.len(),
            path@.len() == i,
            forall|j: int| 0 <= j < i ==> #[trigger] path@[j] == back@[len - 1 - j],
    {
        path.push(back[len - 1 - i]);
    }
    proof {
        lemma_path_from_back(rr, n as int, visited@, rank, back@, path@, source, sink);
        assert(path@ =~= back@.reverse());
        assert(bfs_path_of(rr, source, sink) == Some(path@)) by {
            reveal(bfs_path_of);
        }
    }
    Some(path)
}

} // verus!
