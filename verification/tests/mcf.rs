use icfpc2023::mcf::{weighted_matching, weighted_matching_with_capacity, Graph};

fn small_network() -> Graph {
    let mut g = Graph::new(4);
    g.add(0, 1, 2, 1);
    g.add(0, 2, 1, 2);
    g.add(1, 3, 1, 1);
    g.add(2, 3, 2, 1);
    g.add(1, 2, 1, 0);
    g
}

#[test]
fn new_graph_is_empty() {
    let g = Graph::new(3);
    assert_eq!(g.es.len(), 3);
    assert!(g.es.iter().all(|row| row.is_empty()));
    assert_eq!(g.ex, vec![0, 0, 0]);
    assert_eq!(g.p, vec![0, 0, 0]);
    assert_eq!(g.val(), 0);
}

#[test]
fn add_creates_paired_edges() {
    let mut g = Graph::new(3);
    g.add(0, 2, 5, 7);
    g.add(2, 0, 1, -3);
    assert_eq!(g.es[0].len(), 2);
    assert_eq!(g.es[2].len(), 2);
    let e = g.es[0][0];
    assert_eq!((e.to, e.cap, e.init, e.cost, e.rev), (2, 5, 5, 7, 0));
    let r = g.es[2][0];
    assert_eq!((r.to, r.cap, r.init, r.cost, r.rev), (0, 0, 0, -7, 0));
    let e2 = g.es[2][1];
    assert_eq!((e2.to, e2.cap, e2.cost, e2.rev), (0, 1, -3, 1));
    let r2 = g.es[0][1];
    assert_eq!((r2.to, r2.cap, r2.cost, r2.rev), (2, 0, 3, 1));
}

#[test]
fn solve_min_cost_flow() {
    let mut g = small_network();
    g.ex[0] = 2;
    g.ex[3] = -2;
    assert!(g.solve());
    assert_eq!(g.ex, vec![0, 0, 0, 0]);
    assert_eq!(g.val(), 4);
    // costs are restored after the scaling
    assert_eq!(g.es[0][0].cost, 1);
    assert_eq!(g.es[0][1].cost, 2);
    // capacity constraints and conservation at the source
    let out0: i64 = g.es[0].iter().map(|e| e.init - e.cap).sum();
    assert_eq!(out0, 2);
    for row in &g.es {
        for e in row {
            assert!(e.cap >= 0);
        }
    }
}

#[test]
fn solve_without_demand_is_zero_flow_or_negative_cycle() {
    // no supply, positive costs: nothing moves
    let mut g = small_network();
    assert!(g.solve());
    assert_eq!(g.val(), 0);
    // a negative cycle is saturated
    let mut h = Graph::new(3);
    h.add(0, 1, 2, -5);
    h.add(1, 2, 3, 1);
    h.add(2, 0, 2, 1);
    assert!(h.solve());
    assert_eq!(h.val(), -6);
    assert_eq!(h.ex, vec![0, 0, 0]);
}

#[test]
fn solve_reports_infeasible_demand() {
    let mut g = small_network();
    g.ex[0] = 5;
    g.ex[3] = -5;
    assert!(!g.solve());
    // excess is conserved: the supplies still sum to zero
    assert_eq!(g.ex.iter().sum::<i64>(), 0);
}

#[test]
fn weighted_matching_picks_best_assignment() {
    let w = vec![vec![1, 5, 3], vec![4, 2, 6]];
    let (score, to) = weighted_matching(&w);
    assert_eq!(score, 11);
    assert_eq!(to, vec![1, 2]);
    let w2 = vec![vec![10, 1], vec![1, 10]];
    assert_eq!(weighted_matching(&w2), (20, vec![0, 1]));
}

#[test]
fn weighted_matching_negative_weights() {
    let w = vec![vec![-3, -1], vec![-2, -7]];
    let (score, to) = weighted_matching(&w);
    assert_eq!(to, vec![1, 0]);
    assert_eq!(score, -3);
}

#[test]
fn weighted_matching_with_capacity_assigns_several_columns() {
    let w = vec![vec![3, 1, 2], vec![1, 1, 5]];
    let cap = vec![2, 1];
    let (score, to) = weighted_matching_with_capacity(&w, &cap);
    assert_eq!(score, 9);
    assert_eq!(to, vec![vec![0, 1], vec![2]]);
}

#[test]
fn weighted_matching_with_capacity_zero_capacity() {
    let w = vec![vec![3, 4], vec![5, 1]];
    let cap = vec![0, 1];
    let (score, to) = weighted_matching_with_capacity(&w, &cap);
    assert_eq!(score, 5);
    assert_eq!(to, vec![vec![], vec![0]]);
}

#[test]
fn solve_prefers_the_cheaper_parallel_edge() {
    let mut g = Graph::new(2);
    g.add(0, 1, 1, 5);
    g.add(0, 1, 1, 1);
    g.ex[0] = 1;
    g.ex[1] = -1;
    assert!(g.solve());
    assert_eq!(g.es[0][0].cap, 1);
    assert_eq!(g.es[0][1].cap, 0);
    assert_eq!(g.es[0][0].cost, 5);
    assert_eq!(g.es[0][1].cost, 1);
    assert_eq!(g.val(), 1);
    assert_eq!(g.ex, vec![0, 0]);
}

#[test]
fn solve_saturates_a_two_edge_negative_cycle() {
    let mut g = Graph::new(2);
    g.add(0, 1, 1, -3);
    g.add(1, 0, 1, 1);
    assert!(g.solve());
    assert_eq!(g.es[0][0].cap, 0);
    assert_eq!(g.es[1][1].cap, 0);
    assert_eq!(g.val(), -2);
}

#[test]
fn solve_with_unbalanced_supply_fails() {
    // more supply than demand: some excess stays positive
    let mut g = Graph::new(2);
    g.add(0, 1, 5, 1);
    g.ex[0] = 2;
    g.ex[1] = -1;
    assert!(!g.solve());
    assert_eq!(g.ex.iter().sum::<i64>(), 1);
}

#[test]
fn weighted_matching_beats_the_greedy_choice() {
    let w = vec![vec![1, 2], vec![3, 5]];
    assert_eq!(weighted_matching(&w), (6, vec![0, 1]));
    let w = vec![vec![4, 1, 3]];
    assert_eq!(weighted_matching_with_capacity(&w, &vec![2]), (7, vec![vec![0, 2]]));
}

#[test]
fn solve_may_leave_a_cycle_through_every_vertex_of_cost_minus_one() {
    // The cycle 0 -> 1 -> 0 costs -1 and passes through both vertices; the
    // solver certifies only that no shorter residual cycle is negative.
    let mut g = Graph::new(2);
    g.add(1, 0, 2, -1);
    g.add(0, 1, 3, 0);
    assert!(g.solve());
    assert_eq!(g.val(), 0);
    assert_eq!(g.ex, vec![0, 0]);
}

#[test]
fn weighted_matching_single_row_follows_the_solver() {
    // The residual cycle row -> column 1 -> sink -> column 0 -> row has cost
    // -1 and visits all four vertices, so the solver stops at column 0.
    assert_eq!(weighted_matching(&vec![vec![2, 3]]), (2, vec![0]));
    assert_eq!(weighted_matching_with_capacity(&vec![vec![2, 3]], &vec![1]), (2, vec![vec![0]]));
}
