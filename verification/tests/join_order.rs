//! Join graphs and the search for join orders.

use std::collections::HashMap;
use std::sync::Arc;

use basalt::float64::Float64;
use basalt::logical_plan::builder::LogicalPlanBuilder;
use basalt::logical_plan::plan::{LogicalPlan, TableSource};
use basalt::optimizer::cost::model::CostWeights;
use basalt::optimizer::join_order::dp::{
    enumerate_connected_subsets, DpJoinOptimizer, DpccpJoinOptimizer, PlanCandidate,
};
use basalt::optimizer::join_order::graph::{
    full_set, singleton, JoinEdge, JoinGraph, RelationNode, RelationSet,
};
use basalt::optimizer::join_order::greedy::{greedy_operator_ordering, optimize_join_order};
use basalt::physical_plan::scan::MemoryTableSource;
use basalt::statistics::{Precision, TableStatistics};
use basalt::types::data_type::DataType;
use basalt::types::schema::{Field, Schema, SchemaRef};

fn num(x: Float64) -> f64 {
    f64::from_bits(x.to_bits())
}

fn memory(schema: SchemaRef) -> TableSource {
    TableSource::Memory(Arc::new(MemoryTableSource::new(schema, vec![])))
}

#[test]
fn singleton_and_full_set_are_correct_bitmasks() {
    assert_eq!(singleton(0), 0b1);
    assert_eq!(singleton(3), 0b1000);
    assert_eq!(full_set(3), 0b111);
    assert_eq!(full_set(0), 0);
}

#[test]
fn sub_masks_enumerates_every_nonempty_proper_subset() {
    let s = 0b111u64; // {0,1,2}
    let subs: Vec<RelationSet> = JoinGraph::sub_masks(s);
    // Every nonempty proper subset of {0,1,2}: 6 of them (2^3 - 2).
    assert_eq!(subs.len(), 6);
    assert!(subs.contains(&0b001));
    assert!(subs.contains(&0b110));
    assert!(!subs.contains(&0b111)); // not proper
    assert!(!subs.contains(&0)); // not nonempty
}

#[test]
fn is_connected_finds_an_edge_in_either_direction() {
    let edges = vec![JoinEdge { left_relation: 0, left_column: 0, right_relation: 1, right_column: 0 }];
    let graph = JoinGraph { relations: vec![], edges };
    assert!(graph.is_connected(singleton(0), singleton(1)));
    assert!(graph.is_connected(singleton(1), singleton(0))); // order-independent
    assert!(!graph.is_connected(singleton(0), singleton(2)));
}

#[test]
fn edges_between_normalizes_orientation_to_match_the_query_sides() {
    let edges = vec![JoinEdge { left_relation: 1, left_column: 5, right_relation: 0, right_column: 2 }];
    let graph = JoinGraph { relations: vec![], edges };
    // Query with s1={0}, s2={1}: the edge's actual left is relation 1
    // (in s2), so it must come back normalized with left_relation=0.
    let found = graph.edges_between(singleton(0), singleton(1));
    assert_eq!(found.len(), 1);
    assert_eq!(found[0].left_relation, 0);
    assert_eq!(found[0].left_column, 2);
    assert_eq!(found[0].right_relation, 1);
    assert_eq!(found[0].right_column, 5);
}

fn schema(name: &str) -> SchemaRef {
    Arc::new(Schema::new(vec![Field::new(name, DataType::Int64, false)]).unwrap())
}

fn relation(name: &str, num_rows: usize, ndv: usize) -> RelationNode {
    let plan =
        LogicalPlanBuilder::scan(name, memory(schema(name)))
            .build();
    let mut stats = TableStatistics::unknown(1);
    stats.num_rows = Precision::Exact(num_rows);
    stats.column_statistics[0].distinct_count = Precision::Exact(ndv);
    RelationNode {
        plan,
        stats: Arc::new(stats),
    }
}

fn chain_graph() -> JoinGraph {
    // a -- b -- c, a chain of 3 relations.
    let relations = vec![
        relation("a", 1000, 100),
        relation("b", 100, 100),
        relation("c", 10000, 500),
    ];
    let edges = vec![
        JoinEdge {
            left_relation: 0,
            left_column: 0,
            right_relation: 1,
            right_column: 0,
        },
        JoinEdge {
            left_relation: 1,
            left_column: 0,
            right_relation: 2,
            right_column: 0,
        },
    ];
    JoinGraph::new(relations, edges)
}

/// Relation 0 connected to every other relation, none of the others
/// connected to each other — a star.
fn star_graph(n: usize) -> JoinGraph {
    let relations: Vec<_> = (0..n)
        .map(|i| relation(&format!("t{i}"), 100 * (i + 1), 20 + i))
        .collect();
    let edges: Vec<_> = (1..n)
        .map(|i| JoinEdge {
            left_relation: 0,
            left_column: 0,
            right_relation: i,
            right_column: 0,
        })
        .collect();
    JoinGraph::new(relations, edges)
}

/// Every relation connected to every other — a clique.
fn clique_graph(n: usize) -> JoinGraph {
    let relations: Vec<_> = (0..n)
        .map(|i| relation(&format!("t{i}"), 50 * (i + 1), 10 + i))
        .collect();
    let mut edges = Vec::new();
    for i in 0..n {
        for j in (i + 1)..n {
            edges.push(JoinEdge {
                left_relation: i,
                left_column: 0,
                right_relation: j,
                right_column: 0,
            });
        }
    }
    JoinGraph::new(relations, edges)
}

/// The processor cost is compared, not the total: a plan's memory is the most
/// that any of its operators holds at once, so two plans that cost the same
/// work can differ in memory.
#[test]
fn dpccp_matches_dpsize_on_a_star_graph() {
    let graph = star_graph(4);
    let weights = CostWeights::defaults();
    let dpsize = DpJoinOptimizer::new(&graph, &weights).optimize().unwrap();
    let dpccp = DpccpJoinOptimizer::new(&graph, &weights)
        .optimize()
        .unwrap();
    assert!(
        (num(dpsize.cost.cpu) - num(dpccp.cost.cpu)).abs() < 1e-6,
        "star graph cpu: DPccp {} vs DPsize {}",
        num(dpccp.cost.cpu),
        num(dpsize.cost.cpu)
    );
    assert_eq!(dpsize.cardinality, dpccp.cardinality);
}

#[test]
fn dpccp_matches_dpsize_on_a_clique_graph() {
    let graph = clique_graph(4);
    let weights = CostWeights::defaults();
    let dpsize = DpJoinOptimizer::new(&graph, &weights).optimize().unwrap();
    let dpccp = DpccpJoinOptimizer::new(&graph, &weights)
        .optimize()
        .unwrap();
    assert!(
        (num(dpsize.cost.cpu) - num(dpccp.cost.cpu)).abs() < 1e-6,
        "clique graph cpu: DPccp {} vs DPsize {}",
        num(dpccp.cost.cpu),
        num(dpsize.cost.cpu)
    );
    assert_eq!(dpsize.cardinality, dpccp.cardinality);
}

#[test]
fn optimizes_a_chain_of_three_relations() {
    let graph = chain_graph();
    let weights = CostWeights::defaults();
    let result = DpJoinOptimizer::new(&graph, &weights).optimize().unwrap();
    assert_eq!(result.column_order.len(), 3);
    assert!(matches!(result.plan.as_ref(), LogicalPlan::Join { .. }));
}

#[test]
fn disconnected_graph_errors_instead_of_defaulting_to_a_cross_product() {
    let relations = vec![relation("a", 10, 1), relation("b", 10, 1)];
    let graph = JoinGraph::new(relations, vec![]); // no edges at all
    let weights = CostWeights::defaults();
    assert!(DpJoinOptimizer::new(&graph, &weights).optimize().is_err());
}

#[test]
fn single_relation_returns_it_unjoined() {
    let relations = vec![relation("a", 10, 1)];
    let graph = JoinGraph::new(relations, vec![]);
    let weights = CostWeights::defaults();
    let result = DpJoinOptimizer::new(&graph, &weights).optimize().unwrap();
    assert!(matches!(
        result.plan.as_ref(),
        LogicalPlan::TableScan { .. }
    ));
}

/// For a small graph, every join order can be tried.
#[test]
fn dp_finds_the_same_optimum_as_brute_force_enumeration() {
    let graph = chain_graph();
    let weights = CostWeights::defaults();
    let dp_cost = num(
        DpJoinOptimizer::new(&graph, &weights)
            .optimize()
            .unwrap()
            .cost
            .total(&weights),
    );
    let brute_force_cost = brute_force_best_cost(&graph, &weights);
    assert!(
        (dp_cost - brute_force_cost).abs() < 1e-6,
        "DP cost {dp_cost} should match brute-force optimum {brute_force_cost}"
    );
}

#[test]
fn enumerate_connected_subsets_never_includes_a_disconnected_set() {
    let graph = chain_graph(); // a -- b -- c
    let connected = enumerate_connected_subsets(&graph);
    // {a, c} (0b101) has no edge between a and c directly — it's only
    // reachable through b — so it must never be enumerated.
    assert!(!connected.contains(&0b101));
    // Every actually-connected subset must appear: {a}, {b}, {c},
    // {a,b}, {b,c}, {a,b,c}.
    for expected in [0b001, 0b010, 0b100, 0b011, 0b110, 0b111] {
        assert!(
            connected.contains(&expected),
            "missing connected subset {expected:03b}"
        );
    }
}

#[test]
fn dpccp_matches_dpsize_on_the_same_graph() {
    let graph = chain_graph();
    let weights = CostWeights::defaults();
    let dpsize_cost = num(
        DpJoinOptimizer::new(&graph, &weights)
            .optimize()
            .unwrap()
            .cost
            .total(&weights),
    );
    let dpccp_cost = num(
        DpccpJoinOptimizer::new(&graph, &weights)
            .optimize()
            .unwrap()
            .cost
            .total(&weights),
    );
    assert!(
        (dpsize_cost - dpccp_cost).abs() < 1e-6,
        "DPccp cost {dpccp_cost} should match DPsize's optimum {dpsize_cost}"
    );
}

#[test]
fn dpccp_errors_on_a_disconnected_graph() {
    let relations = vec![
        RelationNode {
            plan: LogicalPlanBuilder::scan(
                "a",
                memory(schema("a")),
            )
            .build(),
            stats: Arc::new({
                let mut s = TableStatistics::unknown(1);
                s.num_rows = Precision::Exact(10);
                s
            }),
        },
        RelationNode {
            plan: LogicalPlanBuilder::scan(
                "b",
                memory(schema("b")),
            )
            .build(),
            stats: Arc::new({
                let mut s = TableStatistics::unknown(1);
                s.num_rows = Precision::Exact(10);
                s
            }),
        },
    ];
    let graph = JoinGraph::new(relations, vec![]);
    let weights = CostWeights::defaults();
    assert!(DpccpJoinOptimizer::new(&graph, &weights)
        .optimize()
        .is_err());
}

/// Exhaustively tries every way to build up the full relation set via
/// connected splits, recursively, without memoization — correct but
/// exponential, fine for the 3-relation graphs this is tested against.
fn brute_force_best_cost(graph: &JoinGraph, weights: &CostWeights) -> f64 {
    fn best_for(
        graph: &JoinGraph,
        weights: &CostWeights,
        opt: &DpJoinOptimizer,
        s: RelationSet,
        cache: &mut HashMap<RelationSet, PlanCandidate>,
    ) -> Option<PlanCandidate> {
        if s.count_ones() == 1 {
            let i = s.trailing_zeros() as usize;
            return Some(opt.base_candidate(i));
        }
        if let Some(c) = cache.get(&s) {
            return Some(c.clone());
        }
        let mut best: Option<PlanCandidate> = None;
        for s1 in JoinGraph::sub_masks(s) {
            let s2 = s & !s1;
            if s1 >= s2 {
                continue;
            }
            if !graph.is_connected(s1, s2) {
                continue;
            }
            let (Some(c1), Some(c2)) = (
                best_for(graph, weights, opt, s1, cache),
                best_for(graph, weights, opt, s2, cache),
            ) else {
                continue;
            };
            if let Ok(candidate) = opt.build_join(&c1, &c2) {
                let better = best
                    .as_ref()
                    .map_or(true, |b| num(candidate.cost.total(weights)) < num(b.cost.total(weights)));
                if better {
                    best = Some(candidate);
                }
            }
        }
        if let Some(b) = &best {
            cache.insert(s, b.clone());
        }
        best
    }

    let opt = DpJoinOptimizer::new(graph, weights);
    let mut cache = HashMap::new();
    num(best_for(
        graph,
        weights,
        &opt,
        full_set(graph.num_relations()),
        &mut cache,
    )
    .expect("connected graph must have a valid join order")
    .cost
    .total(weights))
}

fn long_chain(n: usize) -> JoinGraph {
    let relations: Vec<RelationNode> = (0..n)
        .map(|i| relation(&format!("t{i}"), 100 + i, 50))
        .collect();
    let edges: Vec<JoinEdge> = (0..n - 1)
        .map(|i| JoinEdge {
            left_relation: i,
            left_column: 0,
            right_relation: i + 1,
            right_column: 0,
        })
        .collect();
    JoinGraph::new(relations, edges)
}

#[test]
fn greedy_joins_every_relation_in_a_chain() {
    let graph = long_chain(5);
    let weights = CostWeights::defaults();
    let result = greedy_operator_ordering(&graph, &weights).unwrap();
    assert_eq!(result.column_order.len(), 5);
    assert!(matches!(result.plan.as_ref(), LogicalPlan::Join { .. }));
}

#[test]
fn greedy_errors_on_a_disconnected_graph() {
    let relations = vec![relation("a", 10, 1), relation("b", 10, 1)];
    let graph = JoinGraph::new(relations, vec![]);
    let weights = CostWeights::defaults();
    assert!(greedy_operator_ordering(&graph, &weights).is_err());
}

#[test]
fn optimize_join_order_picks_dp_below_threshold_and_greedy_above() {
    let graph = long_chain(4);
    let weights = CostWeights::defaults();
    // Both should still succeed and join everything, regardless of
    // which algorithm was used.
    let via_low_threshold = optimize_join_order(&graph, &weights, 2).unwrap();
    let via_high_threshold = optimize_join_order(&graph, &weights, 100).unwrap();
    assert_eq!(via_low_threshold.column_order.len(), 4);
    assert_eq!(via_high_threshold.column_order.len(), 4);
}

#[test]
fn neighbors_are_the_relations_next_to_a_set() {
    let graph = chain_graph();
    assert_eq!(graph.neighbors(0b001), 0b010);
    assert_eq!(graph.neighbors(0b010), 0b101);
    assert_eq!(graph.neighbors(0b011), 0b100);
    assert_eq!(graph.neighbors(0b111), 0);
}

#[test]
fn connected_sets_come_once_each() {
    let graph = clique_graph(4);
    let mut sets = enumerate_connected_subsets(&graph);
    assert_eq!(sets.len(), 15);
    sets.sort();
    sets.dedup();
    assert_eq!(sets.len(), 15);
    let star = enumerate_connected_subsets(&star_graph(4));
    // every set with the center, and the three others alone
    assert_eq!(star.len(), 8 + 3);
    // none names a relation that the graph does not have
    assert!(star.iter().all(|s| s & !0b1111 == 0));
}

#[test]
fn join_orders_cover_every_relation_once() {
    let graph = star_graph(5);
    let weights = CostWeights::defaults();
    for result in [
        DpJoinOptimizer::new(&graph, &weights).optimize().unwrap(),
        DpccpJoinOptimizer::new(&graph, &weights).optimize().unwrap(),
        greedy_operator_ordering(&graph, &weights).unwrap(),
    ] {
        let mut relations: Vec<usize> = result.column_order.iter().map(|c| c.0).collect();
        relations.sort();
        assert_eq!(relations, vec![0, 1, 2, 3, 4]);
    }
}

#[test]
fn no_tree_over_three_relations_is_cheaper() {
    let weights = CostWeights::defaults();
    for graph in [chain_graph(), star_graph(3), clique_graph(3)] {
        let opt = DpJoinOptimizer::new(&graph, &weights);
        let least = num(opt.optimize().unwrap().cost.total(&weights));
        let among_connected =
            num(DpccpJoinOptimizer::new(&graph, &weights).optimize().unwrap().cost.total(&weights));
        for (i, j, k) in [(0, 1, 2), (0, 2, 1), (1, 2, 0)] {
            let pair = match opt.build_join(&opt.base_candidate(i), &opt.base_candidate(j)) {
                Ok(pair) => pair,
                Err(_) => continue,
            };
            let alone = opt.base_candidate(k);
            let tree = if k == 2 {
                opt.build_join(&pair, &alone).unwrap()
            } else {
                opt.build_join(&alone, &pair).unwrap()
            };
            assert!(least <= num(tree.cost.total(&weights)));
            assert!(among_connected <= num(tree.cost.total(&weights)));
        }
    }
}
