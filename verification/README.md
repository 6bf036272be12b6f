# network-flow

Maximum flow (Edmonds-Karp), minimum s-t cut, residual graphs and greedy multi-commodity
flow, written in Verus: every public function carries a contract that the verifier proves.

Capacities are whole numbers (`u64`); flows are skew-symmetric matrices of `i64`
(`flow[u][v] == -flow[v][u]`). A network keeps the capacities out of each node, and the two
capacities between any two nodes, within the `i64` range, so every flow value and residual
capacity is exact.

## Layout

- `src/sums.rs`: finite sums `g(0) + ... + g(k - 1)` and their algebra.
- `src/model.rs`: the mathematical model: flows, flow values, residual edges, reachability,
  cut capacities.
- `src/theory.rs`: the laws: flow across a cut, weak duality, the max-flow min-cut theorem,
  complementary slackness, and the least minimum cut.
- `src/laws.rs`: reversal symmetry and the effect of adding an edge on the maximum flow.
- `src/matrix.rs`: capacity bounds and small matrix helpers.
- `src/network.rs`: `FlowNetwork`.
- `src/search.rs`: breadth-first search and shortest augmenting paths.
- `src/max_flow.rs`: `FordFulkerson` (Edmonds-Karp).
- `src/residual.rs`: `ResidualGraph` (residual capacities and the flow check).
- `src/min_cut.rs`: `MinCut`.
- `src/multi.rs`: `MultiCommodityFlow`.
- `tests/`: tests on concrete networks.

## What is proved

- `FordFulkerson::max_flow` returns the flow that Edmonds-Karp computes (augmenting along the
  shortest residual paths that breadth-first search finds, in increasing node order). That
  flow has no augmenting path; its value is at least that of every flow and at most the
  capacity of every s-t cut (max-flow = min-cut).
- The path search returns a shortest path: no walk from source to sink along positive
  residual capacities has fewer edges.
- `MinCut::compute` returns the nodes on the source side of every minimum cut (in increasing
  order), the others, the cut edges, and the cut value, which is the capacity of that cut,
  the sum of the cut edges' capacities, and the maximum flow value.
- `ResidualGraph::compute` returns `max(c(u,v) - f(u,v), 0)` for every pair; `is_valid_flow`
  returns exactly whether capacities and conservation hold.
- `MultiCommodityFlow::route` routes each commodity through the capacity that the earlier
  ones left: the whole demand, or else a maximum flow of that remaining network. The
  commodities' positive flows on any edge add up to at most its capacity, and routing a prefix
  of the commodities gives the prefix of the results. When a demand is below the maximum flow,
  the last augmenting path is cut down to the demand.
- Laws (`src/theory.rs`, `src/laws.rs`): weak duality, flow across a cut, complementary
  slackness, the least minimum cut, reversal symmetry, and the bounds on the maximum flow when
  an edge is added.
