use vstd::prelude::*;
use crate::model::{lists_exactly, mat_u64, row_fn, row_total, valid_capacities};
use crate::sums::lemma_sum_zero;
use crate::theory::lemma_lists_extend;
use crate::matrix::{
    copy_u64, lemma_add_keeps_valid, lemma_capacity_bounds, lemma_row_total_update, set_u64,
    zeros_u64,
};

verus! {

/// A flow network: a directed graph on the nodes `0..n` with a capacity on each ordered
/// pair of nodes, held as an `n` by `n` matrix. Parallel edges add up their capacities.
///
/// Capacities are whole numbers. The capacities out of each node, and the two capacities
/// between any two nodes, add up to at most the largest signed 64-bit value, so that every
/// flow on the network, and every residual capacity, has an exact machine value.
#[derive(Clone, Debug)]
pub struct FlowNetwork {
    capacity: Vec<Vec<u64>>,
}

impl View for FlowNetwork {
    type V = Seq<Seq<int>>;

    /// The capacity matrix.
    closed spec fn view(&self) -> Seq<Seq<int>> {
        mat_u64(self.capacity@)
    }
}

impl FlowNetwork {
    /// The network is well formed: a square matrix of capacities that fit (see `valid_capacities`).
    pub open spec fn wf(&self) -> bool {
        valid_capacities(self@)
    }

    /// The rows behind the view.
    proof fn lemma_rows(&self)
        requires
            self.wf(),
        ensures
            forall|u: int| 0 <= u < self@.len() ==> (#[trigger] self.capacity@[u])@.len() == self@.len(),
            forall|u: int, v: int|
                0 <= u < self@.len() && 0 <= v < self@.len() ==> #[trigger] self.capacity@[u]@[v]
                    as int == self@[u][v],
            self.capacity@.len() == self@.len(),
    {
        assert forall|u: int| 0 <= u < self@.len() implies (#[trigger] self.capacity@[u])@.len()
            == self@.len() by {
            assert(self@[u].len() == self@.len());
        }
        assert forall|u: int, v: int| 0 <= u < self@.len() && 0 <= v < self@.len() implies #[trigger] self.capacity@[u]@[v]
                    as int == self@[u][v] by {
            assert(self@[u].len() == self@.len());
        }
    }

    /// Create a new flow network with `n` nodes (no edges).
    pub fn new(n: usize) -> (net: Self)
        ensures
            net.wf(),
            net@.len() == n,
            forall|u: int, v: int| 0 <= u < n && 0 <= v < n ==> #[trigger] net@[u][v] == 0,
    {
        let net = FlowNetwork { capacity: zeros_u64(n) };
        proof {
            let c = net@;
            assert forall|u: int| 0 <= u < n implies #[trigger] row_total(c, u) <= i64::MAX by {
                lemma_sum_zero(row_fn(c, u), n as int);
            }
        }
        net
    }

    /// A network with the given capacity matrix.
    pub(crate) fn from_rows(rows: Vec<Vec<u64>>) -> (net: Self)
        requires
            valid_capacities(mat_u64(rows@)),
        ensures
            net.wf(),
            net@ == mat_u64(rows@),
    {
        FlowNetwork { capacity: rows }
    }

    /// A copy of the capacity matrix.
    pub(crate) fn copy_rows(&self) -> (rows: Vec<Vec<u64>>)
        requires
            self.wf(),
        ensures
            mat_u64(rows@) == self@,
    {
        proof {
            self.lemma_rows();
        }
        let n = self.capacity.len();
        let rows = copy_u64(self.capacity.as_slice(), n);
        assert(mat_u64(rows@) =~= self@) by {
            assert forall|u: int| 0 <= u < n implies #[trigger] mat_u64(rows@)[u] =~= self@[u] by {
            }
        }
        rows
    }

    /// Add a directed edge from `u` to `v` with the given capacity. The capacity adds to that
    /// of any edge from `u` to `v` already present.
    pub fn add_edge(&mut self, u: usize, v: usize, capacity: u64)
        requires
            old(self).wf(),
            u < old(self)@.len(),
            v < old(self)@.len(),
            row_total(old(self)@, u as int) + capacity <= i64::MAX,
            u != v ==> old(self)@[u as int][v as int] + capacity + old(self)@[v as int][u as int]
                <= i64::MAX,
        ensures
            final(self).wf(),
            final(self)@ == old(self)@.update(
                u as int,
                old(self)@[u as int].update(v as int, old(self)@[u as int][v as int] + capacity),
            ),
            row_total(final(self)@, u as int) == row_total(old(self)@, u as int) + capacity,
            forall|w: int|
                0 <= w < old(self)@.len() && w != u ==> #[trigger] row_total(final(self)@, w)
                    == row_total(old(self)@, w),
    {
        proof {
            self.lemma_rows();
            lemma_capacity_bounds(self@);
            lemma_row_total_update(self@, u as int, v as int, self@[u as int][v as int] + capacity);
            lemma_add_keeps_valid(self@, u as int, v as int, capacity as int);
        }
        let cur = self.capacity[u][v];
        set_u64(&mut self.capacity, u, v, cur + capacity);
    }

    /// Add an undirected edge: a directed edge each way, both with the given capacity.
    pub fn add_undirected_edge(&mut self, u: usize, v: usize, capacity: u64)
        requires
            old(self).wf(),
            u < old(self)@.len(),
            v < old(self)@.len(),
            u != v ==> row_total(old(self)@, u as int) + capacity <= i64::MAX && row_total(
                old(self)@,
                v as int,
            ) + capacity <= i64::MAX && old(self)@[u as int][v as int] + old(self)@[v as int][u as int]
                + 2 * capacity <= i64::MAX,
            u == v ==> row_total(old(self)@, u as int) + 2 * capacity <= i64::MAX,
        ensures
            final(self).wf(),
            ({
                let once = old(self)@.update(
                    u as int,
                    old(self)@[u as int].update(v as int, old(self)@[u as int][v as int] + capacity),
                );
                final(self)@ == once.update(
                    v as int,
                    once[v as int].update(u as int, once[v as int][u as int] + capacity),
                )
            }),
    {
        self.add_edge(u, v, capacity);
        self.add_edge(v, u, capacity);
    }

    /// Number of nodes.
    pub fn len(&self) -> (n: usize)
        ensures
            n == self@.len(),
    {
        self.capacity.len()
    }

    /// Returns true if the network has no nodes.
    pub fn is_empty(&self) -> (b: bool)
        ensures
            b == (self@.len() == 0),
    {
        self.capacity.len() == 0
    }

    /// Get capacity of edge (u, v).
    pub fn capacity(&self, u: usize, v: usize) -> (c: u64)
        requires
            self.wf(),
            u < self@.len(),
            v < self@.len(),
        ensures
            c == self@[u as int][v as int],
    {
        proof {
            self.lemma_rows();
        }
        self.capacity[u][v]
    }

    /// Get the capacity matrix.
    pub fn capacity_matrix(&self) -> (m: &[Vec<u64>])
        ensures
            mat_u64(m@) == self@,
    {
        self.capacity.as_slice()
    }

    /// Get neighbors of node `u` (nodes with positive capacity from u), in increasing order.
    pub fn neighbors(&self, u: usize) -> (out: Vec<usize>)
        requires
            self.wf(),
            u < self@.len(),
        ensures
            lists_exactly(out@, self@.len() as int, |v: int| self@[u as int][v] > 0),
    {
        proof {
            self.lemma_rows();
        }
        let n = self.capacity.len();
        let ghost p = |v: int| self@[u as int][v] > 0;
        let mut out: Vec<usize> = Vec::new();
        for v in 0..n
            invariant
                n == self@.len(),
                u < n,
                self.wf(),
                p == (|w: int| self@[u as int][w] > 0),
                lists_exactly(out@, v as int, p),
        {
            proof {
                self.lemma_rows();
                lemma_lists_extend(out@, v as int, p);
            }
            if self.capacity[u][v] > 0 {
                assert(p(v as int));
                out.push(v);
            } else {
                assert(!p(v as int));
            }
        }
        out
    }
}

} // verus!
