use network_flow::{FlowNetwork, FordFulkerson, MinCut, MultiCommodityFlow, ResidualGraph};

fn diamond() -> FlowNetwork {
    // 0 --5--> 1 --5--> 3
    // 0 --5--> 2 --5--> 3
    let mut net = FlowNetwork::new(4);
    net.add_edge(0, 1, 5);
    net.add_edge(0, 2, 5);
    net.add_edge(1, 3, 5);
    net.add_edge(2, 3, 5);
    net
}

fn textbook() -> FlowNetwork {
    let mut net = FlowNetwork::new(6);
    net.add_edge(0, 1, 16);
    net.add_edge(0, 2, 13);
    net.add_edge(1, 2, 10);
    net.add_edge(1, 3, 12);
    net.add_edge(2, 1, 4);
    net.add_edge(2, 4, 14);
    net.add_edge(3, 2, 9);
    net.add_edge(3, 5, 20);
    net.add_edge(4, 3, 7);
    net.add_edge(4, 5, 4);
    net
}

#[test]
fn test_simple_max_flow() {
    // 0 --10--> 1 --10--> 2
    let mut net = FlowNetwork::new(3);
    net.add_edge(0, 1, 10);
    net.add_edge(1, 2, 10);
    let (flow_val, _) = FordFulkerson::max_flow(&net, 0, 2);
    assert_eq!(flow_val, 10);
}

#[test]
fn test_bottleneck_flow() {
    // 0 --10--> 1 --5--> 2
    let mut net = FlowNetwork::new(3);
    net.add_edge(0, 1, 10);
    net.add_edge(1, 2, 5);
    let (flow_val, _) = FordFulkerson::max_flow(&net, 0, 2);
    assert_eq!(flow_val, 5);
}

#[test]
fn test_parallel_paths() {
    let net = diamond();
    let (flow_val, _) = FordFulkerson::max_flow(&net, 0, 3);
    assert_eq!(flow_val, 10);
}

#[test]
fn test_no_path() {
    let mut net = FlowNetwork::new(3);
    net.add_edge(0, 1, 10);
    // No edge 1->2
    let (flow_val, _) = FordFulkerson::max_flow(&net, 0, 2);
    assert_eq!(flow_val, 0);
}

#[test]
fn test_min_cut() {
    let net = diamond();
    let (cut_val, reachable, _, cut_edges) = MinCut::compute(&net, 0, 3);
    assert_eq!(cut_val, 10);
    assert!(reachable.contains(&0));
}

#[test]
fn test_residual_graph() {
    let mut net = FlowNetwork::new(2);
    net.add_edge(0, 1, 10);
    let flow = vec![vec![7, 7], vec![-7, -7]];
    let residual = ResidualGraph::compute(&net, &flow);
    assert_eq!(residual[0][1], 3);
}

#[test]
fn test_valid_flow() {
    let mut net = FlowNetwork::new(3);
    net.add_edge(0, 1, 10);
    net.add_edge(1, 2, 10);
    let (_, flow) = FordFulkerson::max_flow(&net, 0, 2);
    assert!(ResidualGraph::is_valid_flow(&net, &flow, 0, 2));
}

#[test]
fn test_network_neighbors() {
    let mut net = FlowNetwork::new(3);
    net.add_edge(0, 1, 5);
    net.add_edge(0, 2, 3);
    let neighbors = net.neighbors(0);
    assert_eq!(neighbors.len(), 2);
    assert!(neighbors.contains(&1));
    assert!(neighbors.contains(&2));
}

#[test]
fn test_network_capacity() {
    let mut net = FlowNetwork::new(2);
    net.add_edge(0, 1, 7);
    assert_eq!(net.capacity(0, 1), 7);
}

#[test]
fn test_multi_commodity() {
    let net = diamond();
    let mcf = MultiCommodityFlow::new(net);
    let commodities = vec![(0, 3, 10)];
    let (results, total) = mcf.route(&commodities);
    assert_eq!(total, 10);
    assert_eq!(results.len(), 1);
}

#[test]
fn test_multi_commodity_competing() {
    let mut net = FlowNetwork::new(4);
    net.add_edge(0, 2, 5);
    net.add_edge(1, 2, 5);
    net.add_edge(2, 3, 6); // bottleneck
    let mcf = MultiCommodityFlow::new(net);
    let commodities = vec![(0, 3, 5), (1, 3, 5)];
    let (_, total) = mcf.route(&commodities);
    // First gets 5, second gets 1 (bottleneck 6 - 5 = 1)
    assert_eq!(total, 6);
}

#[test]
fn test_empty_network() {
    let net = FlowNetwork::new(0);
    assert!(net.is_empty());
}

#[test]
fn test_add_edge_accumulates() {
    let mut net = FlowNetwork::new(2);
    net.add_edge(0, 1, 3);
    net.add_edge(0, 1, 4);
    assert_eq!(net.capacity(0, 1), 7);
}

// ---------------------------------------------------------------------------------------

#[test]
fn max_flow_equals_min_cut_on_textbook_network() {
    let net = textbook();
    let (flow_val, _) = FordFulkerson::max_flow(&net, 0, 5);
    assert_eq!(flow_val, 23);
    let (cut_val, reachable, unreachable, cut_edges) = MinCut::compute(&net, 0, 5);
    assert_eq!(cut_val, 23);
    assert_eq!(reachable, vec![0, 1, 2, 4]);
    assert_eq!(unreachable, vec![3, 5]);
    assert_eq!(cut_edges, vec![(1, 3), (4, 3), (4, 5)]);
    let sum: u64 = cut_edges.iter().map(|&(u, v)| net.capacity(u, v)).sum();
    assert_eq!(sum, 23);
}

#[test]
fn max_flow_matrix_is_a_flow() {
    let net = textbook();
    let (flow_val, flow) = FordFulkerson::max_flow(&net, 0, 5);
    let n = net.len();
    for u in 0..n {
        for v in 0..n {
            assert_eq!(flow[u][v], -flow[v][u]);
            assert!(flow[u][v] <= net.capacity(u, v) as i64);
        }
    }
    for v in 1..n - 1 {
        let net_out: i64 = flow[v].iter().sum();
        assert_eq!(net_out, 0);
    }
    let out_of_source: i64 = flow[0].iter().sum();
    assert_eq!(out_of_source, flow_val as i64);
    assert!(ResidualGraph::is_valid_flow(&net, &flow, 0, 5));
}

#[test]
fn max_flow_leaves_no_path_in_residual_graph() {
    let net = textbook();
    let (_, flow) = FordFulkerson::max_flow(&net, 0, 5);
    let residual = ResidualGraph::compute(&net, &flow);
    // Nodes reached from the source along positive residual capacities.
    let mut seen = vec![false; 6];
    seen[0] = true;
    let mut stack = vec![0usize];
    while let Some(u) = stack.pop() {
        for v in 0..6 {
            if residual[u][v] > 0 && !seen[v] {
                seen[v] = true;
                stack.push(v);
            }
        }
    }
    assert!(!seen[5]);
    assert_eq!(seen, vec![true, true, true, false, true, false]);
}

#[test]
fn quick_start_example() {
    let net = diamond();
    let (max_flow, _) = FordFulkerson::max_flow(&net, 0, 3);
    assert_eq!(max_flow, 10);
    let (cut_value, reachable, unreachable, cut_edges) = MinCut::compute(&net, 0, 3);
    assert_eq!(cut_value, 10);
    assert_eq!(reachable, vec![0]);
    assert_eq!(unreachable, vec![1, 2, 3]);
    assert_eq!(cut_edges, vec![(0, 1), (0, 2)]);
}

#[test]
fn flow_against_an_edge_counts_back() {
    // A flow from 1 to 0 on an edge 0 -> 1 leaves 0 -> 1 with more room.
    let mut net = FlowNetwork::new(2);
    net.add_edge(0, 1, 10);
    let flow = vec![vec![0, -4], vec![4, 0]];
    let residual = ResidualGraph::compute(&net, &flow);
    assert_eq!(residual, vec![vec![0, 14], vec![0, 0]]);
}

#[test]
fn residual_of_an_over_capacity_flow_is_zero() {
    let mut net = FlowNetwork::new(2);
    net.add_edge(0, 1, 10);
    let flow = vec![vec![0, 12], vec![-12, 0]];
    let residual = ResidualGraph::compute(&net, &flow);
    assert_eq!(residual[0][1], 0);
    assert_eq!(residual[1][0], 12);
}

#[test]
fn residual_graph_of_the_readme() {
    let mut net = FlowNetwork::new(2);
    net.add_edge(0, 1, 10);
    let (value, flow) = FordFulkerson::max_flow(&net, 0, 1);
    assert_eq!(value, 10);
    let residual = ResidualGraph::compute(&net, &flow);
    assert_eq!(residual, vec![vec![0, 0], vec![10, 0]]);
    assert!(ResidualGraph::is_valid_flow(&net, &flow, 0, 1));
}

#[test]
fn over_capacity_flow_is_invalid() {
    let mut net = FlowNetwork::new(3);
    net.add_edge(0, 1, 10);
    net.add_edge(1, 2, 10);
    let flow = vec![vec![0, 11, 0], vec![-11, 0, 11], vec![0, -11, 0]];
    assert!(!ResidualGraph::is_valid_flow(&net, &flow, 0, 2));
}

#[test]
fn unbalanced_flow_is_invalid() {
    let mut net = FlowNetwork::new(3);
    net.add_edge(0, 1, 10);
    net.add_edge(1, 2, 10);
    let flow = vec![vec![0, 5, 0], vec![-5, 0, 3], vec![0, -3, 0]];
    assert!(!ResidualGraph::is_valid_flow(&net, &flow, 0, 2));
    let balanced = vec![vec![0, 5, 0], vec![-5, 0, 5], vec![0, -5, 0]];
    assert!(ResidualGraph::is_valid_flow(&net, &balanced, 0, 2));
}

#[test]
fn neighbors_in_increasing_order() {
    let mut net = FlowNetwork::new(5);
    net.add_edge(2, 4, 1);
    net.add_edge(2, 0, 2);
    net.add_edge(2, 3, 0);
    net.add_edge(2, 1, 7);
    assert_eq!(net.neighbors(2), vec![0, 1, 4]);
    assert_eq!(net.neighbors(3), Vec::<usize>::new());
}

#[test]
fn undirected_edge_goes_both_ways() {
    let mut net = FlowNetwork::new(3);
    net.add_undirected_edge(0, 2, 4);
    assert_eq!(net.capacity(0, 2), 4);
    assert_eq!(net.capacity(2, 0), 4);
    assert_eq!(net.len(), 3);
    assert!(!net.is_empty());
    let (to_two, _) = FordFulkerson::max_flow(&net, 0, 2);
    let (to_zero, _) = FordFulkerson::max_flow(&net, 2, 0);
    assert_eq!(to_two, 4);
    assert_eq!(to_zero, 4);
}

#[test]
fn capacity_matrix_holds_the_edges() {
    let mut net = FlowNetwork::new(2);
    net.add_edge(1, 0, 9);
    assert_eq!(net.capacity_matrix(), &[vec![0, 0], vec![9, 0]][..]);
}

#[test]
fn multi_commodity_stops_at_demand() {
    let net = diamond();
    let mcf = MultiCommodityFlow::new(net);
    let (results, total) = mcf.route(&[(0, 3, 3)]);
    assert_eq!(total, 3);
    assert_eq!(results[0].0, 3);
    let flow = &results[0].1;
    let out_of_source: i64 = flow[0].iter().sum();
    assert_eq!(out_of_source, 3);
}

#[test]
fn multi_commodity_shares_capacity() {
    // Flow already routed on an edge gives no room to later commodities, in either direction.
    let mut net = FlowNetwork::new(2);
    net.add_edge(0, 1, 5);
    let mcf = MultiCommodityFlow::new(net);
    let (results, total) = mcf.route(&[(0, 1, 5), (1, 0, 5), (0, 1, 2)]);
    assert_eq!(results.iter().map(|r| r.0).collect::<Vec<_>>(), vec![5, 0, 0]);
    assert_eq!(total, 5);
}

#[test]
fn multi_commodity_flows_fit_together() {
    let mut net = FlowNetwork::new(4);
    net.add_edge(0, 2, 5);
    net.add_edge(1, 2, 5);
    net.add_edge(2, 3, 6);
    net.add_edge(3, 0, 4);
    let mcf = MultiCommodityFlow::new(net.clone());
    let (results, _) = mcf.route(&[(0, 3, 5), (1, 3, 5), (3, 2, 9)]);
    for u in 0..4 {
        for v in 0..4 {
            let used: i64 = results.iter().map(|r| r.1[u][v].max(0)).sum();
            assert!(used <= net.capacity(u, v) as i64);
        }
    }
    assert_eq!(results[2].0, 0);
}

#[test]
fn multi_commodity_later_commodities_get_less() {
    let mut net = FlowNetwork::new(4);
    net.add_edge(0, 2, 5);
    net.add_edge(1, 2, 5);
    net.add_edge(2, 3, 6);
    let mcf = MultiCommodityFlow::new(net);
    let (results, total) = mcf.route(&[(0, 3, 5), (1, 3, 5)]);
    assert_eq!(results[0].0, 5);
    assert_eq!(results[1].0, 1);
    assert_eq!(total, 6);
}

#[test]
fn zero_demand_routes_nothing() {
    let net = diamond();
    let mcf = MultiCommodityFlow::new(net);
    let (results, total) = mcf.route(&[(0, 3, 0)]);
    assert_eq!(total, 0);
    assert!(results[0].1.iter().all(|row| row.iter().all(|&x| x == 0)));
}

#[test]
fn routing_a_prefix_gives_the_prefix_of_the_results() {
    let mut net = FlowNetwork::new(4);
    net.add_edge(0, 2, 5);
    net.add_edge(1, 2, 5);
    net.add_edge(2, 3, 6);
    let cs = vec![(0, 3, 4), (1, 3, 5), (0, 2, 3)];
    let mcf = MultiCommodityFlow::new(net);
    let (all, _) = mcf.route(&cs);
    for k in 0..=cs.len() {
        let (prefix, _) = mcf.route(&cs[..k]);
        assert_eq!(prefix, all[..k].to_vec());
    }
}

#[test]
fn reversed_network_has_the_same_max_flow() {
    let net = textbook();
    let n = net.len();
    let mut rev = FlowNetwork::new(n);
    for u in 0..n {
        for v in 0..n {
            let c = net.capacity(u, v);
            if c > 0 {
                rev.add_edge(v, u, c);
            }
        }
    }
    let (forward, _) = FordFulkerson::max_flow(&net, 0, 5);
    let (backward, _) = FordFulkerson::max_flow(&rev, 5, 0);
    assert_eq!(forward, backward);
}

#[test]
fn adding_an_edge_raises_max_flow_by_at_most_its_capacity() {
    let net = textbook();
    let (before, _) = FordFulkerson::max_flow(&net, 0, 5);
    for &(a, b, c) in &[(4, 5, 3), (0, 3, 10), (3, 0, 8), (1, 3, 1)] {
        let mut more = net.clone();
        more.add_edge(a, b, c);
        let (after, _) = FordFulkerson::max_flow(&more, 0, 5);
        assert!(before <= after && after <= before + c);
    }
}

#[test]
fn shortest_augmenting_path_is_taken_first() {
    // 0 -> 3 directly, and 0 -> 1 -> 2 -> 3; with a limit of one unit the direct edge is used.
    let mut net = FlowNetwork::new(4);
    net.add_edge(0, 1, 1);
    net.add_edge(1, 2, 1);
    net.add_edge(2, 3, 1);
    net.add_edge(0, 3, 1);
    let mcf = MultiCommodityFlow::new(net);
    let (results, _) = mcf.route(&[(0, 3, 1)]);
    assert_eq!(results[0].1[0][3], 1);
    assert_eq!(results[0].1[0][1], 0);
}
