use independent_set::graph::Graph;
use independent_set::profile::{advance_border_solution, Profile, ProfileSearcher};

fn path_graph(n: usize) -> Graph {
    let mut g = Graph::empty();
    for i in 0..n {
        g.add_vertex(format!("v{}", i));
    }
    for i in 0..n - 1 {
        g.add_edge(i, i + 1);
    }
    g
}

#[test]
fn border_pattern_odometer() {
    let mut border = vec![false, false];
    // Patterns in binary-counter order: 00, 10, 01, 11, then wrap.
    assert!(advance_border_solution(&mut border));
    assert_eq!(border, vec![true, false]);
    assert!(advance_border_solution(&mut border));
    assert_eq!(border, vec![false, true]);
    assert!(advance_border_solution(&mut border));
    assert_eq!(border, vec![true, true]);
    assert!(!advance_border_solution(&mut border));
    assert_eq!(border, vec![false, false]);
}

#[test]
fn search_profile_of_path() {
    // Path 0-1-2 with border {0}.  With the border vertex removed the
    // rest is a path of two (cover 1); with it kept but excluded, vertex
    // 1 is forced in, which also covers everything (cover 1).
    let g = path_graph(3);
    let searcher = ProfileSearcher::new(g, vec![0]);
    let p = searcher.search();
    assert_eq!(p.0.len(), 2);
    assert_eq!(p.0, vec![1, 1]);
}

#[test]
fn search_profile_of_star_border_center() {
    // Star with centre 0 and three leaves, border {0}.  Excluding the
    // centre forces all three leaves in; deactivating it leaves an
    // edgeless graph with an empty cover.
    let mut g = Graph::empty();
    for i in 0..4 {
        g.add_vertex(format!("s{}", i));
    }
    g.add_edge(0, 1);
    g.add_edge(0, 2);
    g.add_edge(0, 3);
    let searcher = ProfileSearcher::new(g, vec![0]);
    let p = searcher.search();
    assert_eq!(p.0, vec![3, 0]);
}

#[test]
fn profile_equivalence_by_offset() {
    let a = Profile(vec![2, 3, 4, 3]);
    let b = Profile(vec![5, 6, 7, 6]);
    let c = Profile(vec![2, 3, 4, 4]);
    let d = Profile(vec![2, 3, 4]);
    assert!(a.equivalent(&b));
    assert!(b.equivalent(&a));
    assert!(a.equivalent(&a));
    assert!(!a.equivalent(&c));
    assert!(!a.equivalent(&d));
    let e = Profile(vec![]);
    assert!(e.equivalent(&Profile(vec![])));
    assert!(!e.equivalent(&a));
}
