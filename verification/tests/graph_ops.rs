use independent_set::graph::Graph;

fn path_graph(n: usize) -> Graph {
    let mut g = Graph::empty();
    for i in 0..n {
        g.add_vertex(format!("v{}", i));
    }
    for i in 0..n.saturating_sub(1) {
        g.add_edge(i, i + 1);
    }
    g
}

#[test]
fn edge_count_on_path() {
    // A 4-vertex path has three edges; deactivating one endpoint leaves
    // two edges with both endpoints active.
    let mut g = path_graph(4);
    assert_eq!(g.num_edges(), 3);
    g.invalidate_vertex(0);
    assert_eq!(g.num_edges(), 2);
    g.revalidate_vertex(0);
    assert_eq!(g.num_edges(), 3);
}

#[test]
fn degrees_track_activation() {
    let mut g = path_graph(3);
    assert_eq!(g.degree(0), 1);
    assert_eq!(g.degree(1), 2);
    assert_eq!(g.degree(2), 1);
    g.invalidate_vertex(2);
    assert_eq!(g.degree(1), 1);
    assert_eq!(g.vertices, 2);
    g.revalidate_vertex(2);
    assert_eq!(g.degree(1), 2);
    assert_eq!(g.vertices, 3);
}

#[test]
fn deactivate_reactivate_is_exact_mirror() {
    let mut g = path_graph(5);
    g.add_edge(0, 3);
    let valid_before = g.valid.clone();
    let degrees_before = g.degrees.clone();
    g.invalidate_vertex(1);
    g.invalidate_vertex(3);
    g.revalidate_vertex(3);
    g.revalidate_vertex(1);
    assert_eq!(g.valid, valid_before);
    assert_eq!(g.degrees, degrees_before);
}

#[test]
fn double_toggle_is_no_op() {
    let mut g = path_graph(3);
    g.invalidate_vertex(1);
    let degrees_after = g.degrees.clone();
    let vertices_after = g.vertices;
    g.invalidate_vertex(1);
    assert_eq!(g.degrees, degrees_after);
    assert_eq!(g.vertices, vertices_after);
    g.revalidate_vertex(1);
    g.revalidate_vertex(1);
    assert_eq!(g.vertices, 3);
}

#[test]
fn adjacency_ignores_activation() {
    let mut g = path_graph(3);
    assert!(g.has_edge(0, 1));
    assert!(g.has_edge(1, 0));
    assert!(!g.has_edge(0, 2));
    g.invalidate_vertex(1);
    assert!(g.has_edge(0, 1));
}

#[test]
fn labels_and_ids() {
    let mut g = Graph::empty();
    g.add_vertex(String::from("left"));
    g.add_vertex(String::from("right"));
    assert_eq!(g.size(), 2);
    assert_eq!(g.name_id(String::from("left")), 0);
    assert_eq!(g.name_id(String::from("right")), 1);
    assert_eq!(g.id_name(0), "left");
    assert_eq!(g.id_name(1), "right");
}

#[test]
fn clone_is_structural() {
    let mut g = path_graph(4);
    g.invalidate_vertex(2);
    let h = g.clone();
    assert_eq!(h.valid, g.valid);
    assert_eq!(h.degrees, g.degrees);
    assert_eq!(h.vertices, g.vertices);
    assert_eq!(h.neighbors, g.neighbors);
}
