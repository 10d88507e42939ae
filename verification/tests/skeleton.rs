use wythoff::skeleton::{extract_edges, insert_edge, VertexTable};

#[test]
fn first_flag_makes_the_first_vertex() {
    let mut t = VertexTable::new();
    assert_eq!(t.flag_count(), 0);
    assert_eq!(t.vertex_count(), 0);
    assert_eq!(t.enter(None), 0);
    assert_eq!(t.flag_count(), 1);
    assert_eq!(t.vertex_count(), 1);
    assert_eq!(t.vertex_of(0), 0);
    assert_eq!(t.flag_of(0), 0);
}

#[test]
fn hit_reuses_the_vertex_and_miss_appends_one() {
    let mut t = VertexTable::new();
    let hits = [None, None, Some(0), None, Some(1), Some(2), Some(0)];
    let vertices: Vec<usize> = hits.iter().map(|h| t.enter(*h)).collect();
    assert_eq!(vertices, vec![0, 1, 0, 2, 1, 2, 0]);
    assert_eq!(t.flag_vertices(), &vertices);
    assert_eq!(t.flag_count(), 7);
    assert_eq!(t.vertex_count(), 3);
    assert_eq!(t.flag_of(0), 0);
    assert_eq!(t.flag_of(1), 1);
    assert_eq!(t.flag_of(2), 3);
    for v in 0..t.vertex_count() {
        assert_eq!(t.vertex_of(t.flag_of(v)), v);
    }
    for s in 0..t.flag_count() {
        assert!(t.flag_of(t.vertex_of(s)) <= s);
    }
}

#[test]
fn edge_is_stored_with_the_smaller_vertex_first() {
    let mut edges: Vec<(usize, usize)> = Vec::new();
    assert!(insert_edge(&mut edges, 5, 2));
    assert!(insert_edge(&mut edges, 1, 7));
    assert_eq!(edges, vec![(2, 5), (1, 7)]);
}

#[test]
fn self_pairs_and_repeats_are_not_stored() {
    let mut edges: Vec<(usize, usize)> = Vec::new();
    assert!(!insert_edge(&mut edges, 3, 3));
    assert!(insert_edge(&mut edges, 0, 1));
    assert!(!insert_edge(&mut edges, 0, 1));
    assert!(!insert_edge(&mut edges, 1, 0));
    assert!(insert_edge(&mut edges, 1, 2));
    assert!(!insert_edge(&mut edges, 0, 0));
    assert_eq!(edges, vec![(0, 1), (1, 2)]);
}

// Six flags round a triangle: flags 2k and 2k + 1 lie at corner k, and each
// flag is adjacent to the other flag of its corner and to one flag of the
// next or the previous corner.
fn triangle() -> (Vec<usize>, Vec<Vec<usize>>) {
    let flag_vertex = vec![0, 0, 1, 1, 2, 2];
    let neighbours = vec![vec![1, 5], vec![0, 2], vec![1, 3], vec![2, 4], vec![3, 5], vec![0, 4]];
    (flag_vertex, neighbours)
}

#[test]
fn edges_of_a_triangle() {
    let (flag_vertex, neighbours) = triangle();
    let edges = extract_edges(&flag_vertex, &neighbours, None);
    assert_eq!(edges, vec![(0, 2), (0, 1), (1, 2)]);
}

#[test]
fn edges_hold_no_self_pair_and_no_repeat() {
    let flag_vertex = vec![0, 1, 0, 2, 1, 3, 3, 2];
    let neighbours: Vec<Vec<usize>> =
        (0..8).map(|s| (0..8).filter(|f| *f != s && (s + f) % 3 != 0).collect()).collect();
    let edges = extract_edges(&flag_vertex, &neighbours, None);
    for (i, e) in edges.iter().enumerate() {
        assert!(e.0 < e.1);
        assert!(e.1 < 4);
        for f in &edges[i + 1..] {
            assert_ne!(e, f);
            assert_ne!(*e, (f.1, f.0));
        }
    }
    for s in 0..8 {
        for f in &neighbours[s] {
            let (a, b) = (flag_vertex[s], flag_vertex[*f]);
            if a != b {
                assert!(edges.contains(&(a.min(b), a.max(b))));
            }
        }
    }
}

#[test]
fn cap_limits_the_neighbours_examined() {
    let flag_vertex = vec![0, 1, 2, 3];
    let neighbours = vec![vec![1, 2, 3], vec![], vec![], vec![]];
    assert_eq!(extract_edges(&flag_vertex, &neighbours, None), vec![(0, 1), (0, 2), (0, 3)]);
    assert_eq!(extract_edges(&flag_vertex, &neighbours, Some(2)), vec![(0, 1), (0, 2)]);
    assert_eq!(extract_edges(&flag_vertex, &neighbours, Some(0)), Vec::new());
    assert_eq!(extract_edges(&flag_vertex, &neighbours, Some(3)), vec![(0, 1), (0, 2), (0, 3)]);
    assert_eq!(extract_edges(&flag_vertex, &neighbours, Some(9)), vec![(0, 1), (0, 2), (0, 3)]);
}

#[test]
fn no_flags_no_edges() {
    assert_eq!(extract_edges(&Vec::new(), &Vec::new(), None), Vec::new());
    assert_eq!(extract_edges(&vec![0, 0], &vec![vec![1], vec![0]], Some(4)), Vec::new());
}

#[test]
fn extraction_twice_gives_the_same_skeleton() {
    let (flag_vertex, neighbours) = triangle();
    let first = extract_edges(&flag_vertex, &neighbours, Some(2));
    let second = extract_edges(&flag_vertex, &neighbours, Some(2));
    assert_eq!(first, second);
    // Offering every edge again to the list found adds nothing.
    let mut again = first.clone();
    for s in 0..flag_vertex.len() {
        for f in &neighbours[s] {
            assert!(!insert_edge(&mut again, flag_vertex[s], flag_vertex[*f]));
        }
    }
    assert_eq!(again, first);
    // Entering the flags again, each with its own vertex as the hit, adds no
    // vertex.
    let mut t = VertexTable::new();
    for h in [None, Some(0), None, Some(1), None, Some(2)] {
        t.enter(h);
    }
    assert_eq!(t.flag_vertices(), &flag_vertex);
    let count = t.vertex_count();
    for s in 0..flag_vertex.len() {
        let v = t.enter(Some(flag_vertex[s]));
        assert_eq!(v, flag_vertex[s]);
    }
    assert_eq!(t.vertex_count(), count);
}
