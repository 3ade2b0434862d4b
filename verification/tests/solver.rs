use independent_set::graph::Graph;
use independent_set::matrix::AdjMatrix;
use independent_set::solve::{branch, Solution};

fn build_graph(n: usize, edges: &[(usize, usize)]) -> Graph {
    let mut g = Graph::empty();
    for i in 0..n {
        g.add_vertex(format!("{}", i));
    }
    for &(v, u) in edges {
        g.add_edge(v, u);
    }
    g
}

fn solve(g: &mut Graph) -> Solution {
    let mut current = Solution::new(g);
    let mut best = Solution::max(g);
    branch(g, &mut current, &mut best);
    best
}

/// Minimum vertex cover size over all subsets, by brute force.
fn brute_force_min_cover(n: usize, edges: &[(usize, usize)]) -> usize {
    let mut best = n;
    for mask in 0u32..(1u32 << n) {
        let covered = edges
            .iter()
            .all(|&(v, u)| mask & (1 << v) != 0 || mask & (1 << u) != 0);
        if covered {
            let size = mask.count_ones() as usize;
            if size < best {
                best = size;
            }
        }
    }
    best
}

#[test]
fn four_cycle_maximum_independent_set() {
    let edges = [(0, 1), (1, 2), (2, 3), (3, 0)];
    let mut g = build_graph(4, &edges);
    let best = solve(&mut g);
    // Minimum cover of the 4-cycle has two vertices, so the maximum
    // independent set (its complement) also has two.
    assert_eq!(best.size(), 2);
    let independent: Vec<usize> = (0..4).filter(|&v| !best.in_sol(v)).collect();
    assert_eq!(independent.len(), 2);
    for &a in &independent {
        for &b in &independent {
            if a != b {
                assert!(!g.has_edge(a, b));
            }
        }
    }
}

#[test]
fn star_resolved_by_reduction() {
    let edges = [(0, 1), (0, 2), (0, 3), (0, 4)];
    let mut g = build_graph(5, &edges);
    let best = solve(&mut g);
    // The centre alone covers every edge; all four leaves are independent.
    assert_eq!(best.size(), 1);
    assert!(best.in_sol(0));
    for v in 1..5 {
        assert!(!best.in_sol(v));
    }
}

#[test]
fn optimality_on_all_small_graphs() {
    for n in 0..6usize {
        let mut m = AdjMatrix::new(n);
        loop {
            let mut edges: Vec<(usize, usize)> = Vec::new();
            for i in 0..n {
                for j in (i + 1)..n {
                    if m.has_edge(i, j) {
                        edges.push((i, j));
                    }
                }
            }
            let mut g = build_graph(n, &edges);
            let best = solve(&mut g);
            assert_eq!(best.size(), brute_force_min_cover(n, &edges));
            // The reported bits are a real cover with the reported size.
            let pop = (0..n).filter(|&v| best.in_sol(v)).count();
            assert_eq!(pop, best.size());
            for &(a, b) in &edges {
                assert!(best.in_sol(a) || best.in_sol(b));
            }
            if !m.advance() {
                break;
            }
        }
    }
}

#[test]
fn restoration_after_search() {
    let edges = [(0, 1), (1, 2), (2, 3), (3, 4), (4, 0), (1, 3)];
    let mut g = build_graph(5, &edges);
    let valid_before = g.valid.clone();
    let degrees_before = g.degrees.clone();
    let vertices_before = g.vertices;
    let mut current = Solution::new(&g);
    let mut best = Solution::max(&g);
    branch(&mut g, &mut current, &mut best);
    assert_eq!(g.valid, valid_before);
    assert_eq!(g.degrees, degrees_before);
    assert_eq!(g.vertices, vertices_before);
    assert_eq!(current.size(), 0);
    for v in 0..5 {
        assert!(!current.in_sol(v));
    }
}

#[test]
fn determinism_of_best_bits() {
    let edges = [(0, 1), (1, 2), (2, 3), (3, 4), (4, 5), (5, 0), (0, 3), (1, 4)];
    let mut g1 = build_graph(6, &edges);
    let mut g2 = build_graph(6, &edges);
    let best1 = solve(&mut g1);
    let best2 = solve(&mut g2);
    assert_eq!(best1.size(), best2.size());
    for v in 0..6 {
        assert_eq!(best1.in_sol(v), best2.in_sol(v));
    }
}

#[test]
fn isolated_vertex_keeps_optimum() {
    // A triangle alone, and a triangle plus one isolated vertex: the
    // minimum cover size is the same.
    let edges = [(0, 1), (1, 2), (2, 0)];
    let mut g3 = build_graph(3, &edges);
    let mut g4 = build_graph(4, &edges);
    let best3 = solve(&mut g3);
    let best4 = solve(&mut g4);
    assert_eq!(best3.size(), best4.size());
}

#[test]
fn pendant_reduction_keeps_optimum() {
    // A path of three vertices: the pendant rule includes the middle
    // vertex, which is the unique minimum cover.
    let edges = [(0, 1), (1, 2)];
    let mut g = build_graph(3, &edges);
    let best = solve(&mut g);
    assert_eq!(best.size(), 1);
    assert!(best.in_sol(1));
}

#[test]
fn best_untouched_without_improvement() {
    // A second search against an already optimal bound finds nothing
    // strictly better, so it must leave `best` bit-identical.
    let edges = [(0, 1), (1, 2), (2, 3), (3, 0), (0, 2)];
    let mut g = build_graph(4, &edges);
    let mut current = Solution::new(&g);
    let mut best = Solution::max(&g);
    branch(&mut g, &mut current, &mut best);
    let bits: Vec<bool> = (0..4).map(|v| best.in_sol(v)).collect();
    let size = best.size();
    branch(&mut g, &mut current, &mut best);
    assert_eq!(best.size(), size);
    for v in 0..4 {
        assert_eq!(best.in_sol(v), bits[v]);
    }
}

#[test]
fn solution_bookkeeping() {
    let g = build_graph(3, &[]);
    let mut s = Solution::new(&g);
    assert_eq!(s.size(), 0);
    s.include_vertex(1);
    assert_eq!(s.size(), 1);
    assert!(s.in_sol(1));
    assert!(!s.in_sol(0));
    s.exclude(1);
    assert_eq!(s.size(), 0);
    let m = Solution::max(&g);
    assert_eq!(m.size(), 3);
    assert!(m.in_sol(0) && m.in_sol(1) && m.in_sol(2));
}
