use nalgebra::{DMatrix, DVector};
use wythoff::cache::{regroup, render, split_tokens};
use wythoff::matching::{is_adjacent, is_same_domain, shared_vertices};
use wythoff::search::{Outcome, Search};
use wythoff::skeleton::{extract_edges, VertexTable};

type Flag = DMatrix<f32>;

fn matrix(rows: &[&[u8]]) -> Vec<Vec<u8>> {
    rows.iter().map(|r| r.to_vec()).collect()
}

fn a3() -> Vec<Vec<u8>> {
    matrix(&[&[1, 3, 2], &[3, 1, 3], &[2, 3, 1]])
}

fn b3() -> Vec<Vec<u8>> {
    matrix(&[&[1, 4, 2], &[4, 1, 3], &[2, 3, 1]])
}

fn b4() -> Vec<Vec<u8>> {
    matrix(&[&[1, 4, 2, 2], &[4, 1, 3, 2], &[2, 3, 1, 3], &[2, 2, 3, 1]])
}

/// The mirror normals of a Coxeter matrix as the columns of a matrix, or
/// `None` when the matrix belongs to no finite arrangement.
fn mirrors(coxmat: &[Vec<u8>]) -> Option<DMatrix<f32>> {
    let d = coxmat.len();
    let gram = DMatrix::from_fn(d, d, |r, c| {
        if r == c {
            1.0
        } else {
            (std::f32::consts::PI / coxmat[r][c] as f32).cos()
        }
    });
    gram.cholesky().map(|c| c.l().transpose())
}

fn from_mirrors(m: &DMatrix<f32>) -> Flag {
    let d = m.nrows();
    DMatrix::from_fn(d, d, |r, c| {
        (-1f32).powi(r as i32) * m.clone().remove_row(r).remove_column(c).determinant()
    })
}

fn reflect(flag: &Flag, v: &DVector<f32>) -> Flag {
    let mut vertices = flag.clone();
    for mut c in vertices.column_iter_mut() {
        let k = 2.0 * c.dot(v) / v.norm_squared();
        c -= k * v;
    }
    vertices
}

fn compare(a: &Flag, b: &Flag) -> usize {
    let close: Vec<Vec<bool>> = a
        .column_iter()
        .map(|p| b.column_iter().map(|q| (p - q).norm_squared() < 0.00001).collect())
        .collect();
    shared_vertices(&close)
}

fn generate(start: Flag, mirrors: &DMatrix<f32>) -> (Vec<Flag>, usize) {
    let dim = mirrors.ncols();
    let mut flags = vec![start];
    let mut search = Search::new(dim);
    let mut probes = 0;
    while let Some(frame) = search.current() {
        let candidate = reflect(&flags[frame.flag], &mirrors.column(frame.mirror).into_owned());
        probes += 1;
        if flags.iter().any(|f| is_same_domain(compare(&candidate, f), dim)) {
            search.advance(Outcome::Known);
        } else {
            flags.push(candidate);
            search.advance(Outcome::Fresh);
        }
        assert_eq!(search.found(), flags.len());
    }
    (flags, probes)
}

fn flags_of(coxmat: &[Vec<u8>]) -> Vec<Flag> {
    match mirrors(coxmat) {
        Some(m) => generate(from_mirrors(&m), &m).0,
        None => Vec::new(),
    }
}

fn rings_to_point(flag: &Flag, rings: &[bool]) -> DVector<f32> {
    let mut sum = DVector::zeros(flag.nrows());
    for (c, r) in flag.column_iter().zip(rings.iter()) {
        if *r {
            sum += c;
        }
    }
    sum.normalize()
}

fn skeleton(flags: &[Flag], rings: &[bool]) -> (Vec<DVector<f32>>, Vec<(usize, usize)>) {
    let dim = rings.len();
    let mut table = VertexTable::new();
    let mut vertices: Vec<DVector<f32>> = Vec::new();
    for flag in flags {
        let p = rings_to_point(flag, rings);
        let hit = vertices.iter().position(|q| (q - &p).norm_squared() < 0.0001);
        let v = table.enter(hit);
        if hit.is_none() {
            vertices.push(p);
        }
        assert!(v < vertices.len());
    }
    assert_eq!(table.vertex_count(), vertices.len());
    assert_eq!(table.flag_count(), flags.len());
    let neighbours: Vec<Vec<usize>> = flags
        .iter()
        .map(|s| {
            (0..flags.len())
                .filter(|f| is_adjacent(compare(s, &flags[*f]), dim))
                .take(dim)
                .collect()
        })
        .collect();
    let edges = extract_edges(table.flag_vertices(), &neighbours, Some(dim));
    (vertices, edges)
}

#[test]
fn a3_has_twenty_four_flags() {
    let m = mirrors(&a3()).unwrap();
    let (flags, probes) = generate(from_mirrors(&m), &m);
    assert_eq!(flags.len(), 24);
    assert_eq!(probes, 3 * 24);
    for (i, f) in flags.iter().enumerate() {
        for g in &flags[i + 1..] {
            assert!(compare(f, g) < 3);
        }
    }
}

#[test]
fn b3_has_forty_eight_flags() {
    assert_eq!(flags_of(&b3()).len(), 48);
}

#[test]
fn b4_has_three_hundred_and_eighty_four_flags() {
    assert_eq!(flags_of(&b4()).len(), 384);
}

#[test]
fn every_flag_matches_itself_in_all_vertices() {
    for f in flags_of(&a3()) {
        assert_eq!(compare(&f, &f), 3);
    }
    for f in flags_of(&b4()).iter().take(40) {
        assert_eq!(compare(f, f), 4);
    }
}

#[test]
fn reflecting_twice_gives_the_flag_back() {
    let m = mirrors(&b3()).unwrap();
    let flags = generate(from_mirrors(&m), &m).0;
    let odd = DVector::from_vec(vec![0.3f32, -1.7, 2.2]);
    for f in &flags {
        for k in 0..3 {
            let v = m.column(k).into_owned();
            let back = reflect(&reflect(f, &v), &v);
            assert_eq!(compare(&back, f), 3);
            for (p, q) in back.column_iter().zip(f.column_iter()) {
                assert!((p - q).norm_squared() < 0.00001);
            }
        }
        let back = reflect(&reflect(f, &odd), &odd);
        for (p, q) in back.column_iter().zip(f.column_iter()) {
            assert!((p - q).norm_squared() < 0.00001);
        }
    }
}

#[test]
fn each_flag_has_one_neighbour_per_mirror() {
    let flags = flags_of(&a3());
    for s in &flags {
        let adjacent = flags.iter().filter(|f| is_adjacent(compare(s, f), 3)).count();
        assert_eq!(adjacent, 3);
    }
}

#[test]
fn a3_with_one_ring_is_a_tetrahedron() {
    let (vertices, edges) = skeleton(&flags_of(&a3()), &[true, false, false]);
    assert_eq!(vertices.len(), 4);
    assert_eq!(edges.len(), 6);
}

#[test]
fn a3_with_all_rings_has_a_vertex_per_flag() {
    let (vertices, edges) = skeleton(&flags_of(&a3()), &[true, true, true]);
    assert_eq!(vertices.len(), 24);
    assert_eq!(edges.len(), 36);
}

#[test]
fn b3_gives_cube_and_octahedron() {
    let flags = flags_of(&b3());
    let (vertices, edges) = skeleton(&flags, &[true, false, false]);
    assert_eq!((vertices.len(), edges.len()), (8, 12));
    let (vertices, edges) = skeleton(&flags, &[false, false, true]);
    assert_eq!((vertices.len(), edges.len()), (6, 12));
}

#[test]
fn b4_with_one_ring_is_a_tesseract() {
    let (vertices, edges) = skeleton(&flags_of(&b4()), &[true, false, false, false]);
    assert_eq!((vertices.len(), edges.len()), (16, 32));
}

#[test]
fn skeleton_edges_join_distinct_vertices_once() {
    let (vertices, edges) = skeleton(&flags_of(&b3()), &[true, true, false]);
    for (i, e) in edges.iter().enumerate() {
        assert!(e.0 < e.1);
        assert!(e.1 < vertices.len());
        assert!(!edges[i + 1..].contains(e));
    }
}

#[test]
fn skeleton_is_the_same_on_a_second_run() {
    let flags = flags_of(&b3());
    let (v1, e1) = skeleton(&flags, &[false, true, false]);
    let (v2, e2) = skeleton(&flags, &[false, true, false]);
    assert_eq!(v1.len(), v2.len());
    assert_eq!(e1, e2);
}

#[test]
fn generated_flags_survive_the_cache() {
    let flags = flags_of(&a3());
    let written: Vec<Vec<String>> =
        flags.iter().map(|f| f.iter().map(|v| format!("{}", v)).collect()).collect();
    let text = render(&written);
    let numbers: Vec<f32> = split_tokens(&text).iter().flat_map(|t| t.parse::<f32>()).collect();
    let read: Vec<Flag> =
        regroup(&numbers, 3).into_iter().map(|c| DMatrix::from_vec(3, 3, c)).collect();
    assert_eq!(read.len(), flags.len());
    for r in &read {
        assert!(flags.iter().any(|f| compare(r, f) == 3));
    }
    for (r, f) in read.iter().zip(flags.iter()) {
        assert_eq!(compare(r, f), 3);
    }
}

#[test]
fn indefinite_gram_matrix_yields_no_flags() {
    let hyperbolic = matrix(&[&[1, 5, 2], &[5, 1, 5], &[2, 5, 1]]);
    assert!(mirrors(&hyperbolic).is_none());
    assert_eq!(flags_of(&hyperbolic).len(), 0);
    let degenerate = matrix(&[&[1, 2, 2], &[2, 1, 1], &[2, 1, 1]]);
    assert!(mirrors(&degenerate).is_none());
    assert_eq!(flags_of(&degenerate).len(), 0);
}
