use independent_set::matrix::AdjMatrix;

#[test]
fn set_and_read_cells() {
    let mut m = AdjMatrix::new(3);
    assert!(!m.has_edge(0, 1));
    m.set_edge(0, 1, true);
    assert!(m.has_edge(0, 1));
    assert!(!m.has_edge(0, 2));
    m.set_edge(0, 1, false);
    assert!(!m.has_edge(0, 1));
}

#[test]
fn advance_enumerates_all_triangles() {
    // Three vertices have three upper cells, so eight matrices in all;
    // `advance` returns false exactly once, on the all-set matrix.
    let mut m = AdjMatrix::new(3);
    let mut seen = Vec::new();
    loop {
        let code = (m.has_edge(0, 1) as u32) | (m.has_edge(0, 2) as u32) << 1
            | (m.has_edge(1, 2) as u32) << 2;
        seen.push(code);
        if !m.advance() {
            break;
        }
    }
    assert_eq!(seen.len(), 8);
    let mut sorted = seen.clone();
    sorted.sort();
    sorted.dedup();
    assert_eq!(sorted.len(), 8);
    // Afterwards the triangle is entirely clear again.
    assert!(!m.has_edge(0, 1) && !m.has_edge(0, 2) && !m.has_edge(1, 2));
}

#[test]
fn advance_order_is_row_major_counter() {
    let mut m = AdjMatrix::new(3);
    // First step sets the first cell of the first row.
    assert!(m.advance());
    assert!(m.has_edge(0, 1));
    assert!(!m.has_edge(0, 2) && !m.has_edge(1, 2));
    // Second step clears it and sets the next cell.
    assert!(m.advance());
    assert!(!m.has_edge(0, 1));
    assert!(m.has_edge(0, 2));
}

#[test]
fn empty_and_single_vertex_matrices_do_not_advance() {
    let mut m0 = AdjMatrix::new(0);
    assert!(!m0.advance());
    let mut m1 = AdjMatrix::new(1);
    assert!(!m1.advance());
}

#[test]
fn bipartite_block_enumeration() {
    // Split 1 | {1, 2}: two block cells, four assignments.
    let mut m = AdjMatrix::new(3);
    let mut count = 1usize;
    while m.next_bipartite(1) {
        count += 1;
    }
    assert_eq!(count, 4);
    assert!(!m.has_edge(0, 1) && !m.has_edge(0, 2));
    // Cells outside the block are never touched.
    let mut n = AdjMatrix::new(3);
    n.set_edge(1, 2, true);
    n.next_bipartite(1);
    assert!(n.has_edge(1, 2));
}
