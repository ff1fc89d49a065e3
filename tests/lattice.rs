use std::collections::VecDeque;

use weaver::geometry::{is_valid_edge, VIMap, Vert};
use weaver::loom::reflect_loom;
use weaver::shrink::{shrink_adjacency, stratified_nodes};
use weaver::spin::spin_path;
use weaver::stitch::weave_loom;
use weaver::types::WeaveError;
use weaver::weave::{prepare_loom, weave};

const VERTS_32: [Vert; 32] = [
    (-3, 1, -3), (-1, 1, -3), (-3, 3, -3), (-1, 3, -3), (-1, -3, -1), (1, -3, -1), (-3, -1, -1),
    (-1, -1, -1), (1, -1, -1), (3, -1, -1), (-3, 1, -1), (-1, 1, -1), (1, 1, -1), (3, 1, -1),
    (-1, 3, -1), (1, 3, -1), (-1, -3, 1), (1, -3, 1), (-3, -1, 1), (-1, -1, 1), (1, -1, 1),
    (3, -1, 1), (-3, 1, 1), (-1, 1, 1), (1, 1, 1), (3, 1, 1), (-1, 3, 1), (1, 3, 1), (-3, 1, 3),
    (-1, 1, 3), (-3, 3, 3), (-1, 3, 3),
];

const TOUR_32: [u32; 32] = [
    15, 14, 3, 2, 0, 1, 11, 10, 6, 7, 4, 5, 8, 9, 13, 12, 24, 25, 21, 20, 17, 16, 19, 18, 22, 23,
    29, 28, 30, 31, 26, 27,
];

const VERTS_80: [Vert; 80] = [
    (-3, 1, -3), (-1, 1, -3), (-3, 3, -3), (-1, 3, -3), (1, 3, -3), (3, 3, -3), (-1, 5, -3),
    (1, 5, -3), (-3, -5, -1), (-1, -5, -1), (1, -5, -1), (3, -5, -1), (-5, -3, -1), (-3, -3, -1),
    (-1, -3, -1), (1, -3, -1), (3, -3, -1), (5, -3, -1), (-5, -1, -1), (-3, -1, -1), (-1, -1, -1),
    (1, -1, -1), (3, -1, -1), (5, -1, -1), (-5, 1, -1), (-3, 1, -1), (-1, 1, -1), (1, 1, -1),
    (3, 1, -1), (5, 1, -1), (-5, 3, -1), (-3, 3, -1), (-1, 3, -1), (1, 3, -1), (3, 3, -1),
    (5, 3, -1), (-3, 5, -1), (-1, 5, -1), (1, 5, -1), (3, 5, -1), (-3, -5, 1), (-1, -5, 1),
    (1, -5, 1), (3, -5, 1), (-5, -3, 1), (-3, -3, 1), (-1, -3, 1), (1, -3, 1), (3, -3, 1),
    (5, -3, 1), (-5, -1, 1), (-3, -1, 1), (-1, -1, 1), (1, -1, 1), (3, -1, 1), (5, -1, 1),
    (-5, 1, 1), (-3, 1, 1), (-1, 1, 1), (1, 1, 1), (3, 1, 1), (5, 1, 1), (-5, 3, 1), (-3, 3, 1),
    (-1, 3, 1), (1, 3, 1), (3, 3, 1), (5, 3, 1), (-3, 5, 1), (-1, 5, 1), (1, 5, 1), (3, 5, 1),
    (-3, 1, 3), (-1, 1, 3), (-3, 3, 3), (-1, 3, 3), (1, 3, 3), (3, 3, 3), (-1, 5, 3), (1, 5, 3),
];

const TOUR_80: [u32; 80] = [
    37, 36, 31, 30, 24, 18, 12, 13, 8, 9, 10, 11, 16, 17, 23, 29, 35, 34, 5, 4, 7, 6, 3, 2, 0, 1,
    26, 25, 19, 20, 14, 15, 21, 22, 28, 27, 59, 60, 54, 53, 47, 46, 52, 51, 57, 58, 73, 72, 74,
    75, 78, 79, 76, 77, 66, 67, 61, 55, 49, 48, 43, 42, 41, 40, 45, 44, 50, 56, 62, 63, 68, 69,
    70, 71, 39, 38, 33, 65, 64, 32,
];

fn adjacency_of(verts: &[Vert]) -> Vec<Vec<u32>> {
    let vi = VIMap::from_verts(&verts.to_vec());
    let steps: [(i32, i32, i32); 6] =
        [(2, 0, 0), (-2, 0, 0), (0, 2, 0), (0, -2, 0), (0, 0, 2), (0, 0, -2)];
    verts
        .iter()
        .map(|v| {
            steps
                .iter()
                .filter_map(|d| vi.get(&(v.0 + d.0, v.1 + d.1, v.2 + d.2)))
                .collect()
        })
        .collect()
}

fn solve(verts: &[Vert]) -> Result<Vec<u32>, WeaveError> {
    let verts = verts.to_vec();
    let adj = adjacency_of(&verts);
    let vi = VIMap::from_verts(&verts);
    let (z_adj, z_order) = shrink_adjacency(&verts, &adj);
    weave(&adj, &vi, &verts, &z_adj, &z_order, 20)
}

fn assert_hamiltonian(tour: &[u32], verts: &[Vert]) {
    let adj = adjacency_of(verts);
    let mut seen = tour.to_vec();
    seen.sort();
    assert_eq!(seen, (0..verts.len() as u32).collect::<Vec<u32>>());
    for i in 0..tour.len() {
        let a = tour[i];
        let b = tour[(i + 1) % tour.len()];
        assert!(adj[a as usize].contains(&b), "{} -> {} is not an edge", a, b);
        assert!(is_valid_edge(verts[a as usize], verts[b as usize]));
    }
}

#[test]
fn weave_covers_smallest_shell() {
    let tour = solve(&VERTS_32).unwrap();
    assert_eq!(tour.len(), 32);
    assert_hamiltonian(&tour, &VERTS_32);
    assert_eq!(tour, TOUR_32.to_vec());
}

#[test]
fn shrink_reports_two_levels_for_eighty() {
    let verts = VERTS_80.to_vec();
    let adj = adjacency_of(&verts);
    let (z_adj, z_order) = shrink_adjacency(&verts, &adj);
    assert_eq!(z_order, vec![(-3, 8), (-1, 32)]);
    let strat = stratified_nodes(&verts);
    assert_eq!(strat.len(), 2);
    for (z, nodes) in &strat {
        let size = z_order.iter().find(|p| p.0 == *z).unwrap().1;
        assert_eq!(nodes.len(), size);
    }
    assert_eq!(z_adj.len(), 32);
}

#[test]
fn weave_covers_eighty() {
    let tour = solve(&VERTS_80).unwrap();
    assert_eq!(tour.len(), 80);
    assert_hamiltonian(&tour, &VERTS_80);
    assert_eq!(tour, TOUR_80.to_vec());
}

#[test]
fn weave_is_deterministic() {
    assert_eq!(solve(&VERTS_80), solve(&VERTS_80));
    assert_eq!(solve(&VERTS_32), solve(&VERTS_32));
}

#[test]
fn eighty_needs_two_cycles_stitched() {
    let verts = VERTS_80.to_vec();
    let adj = adjacency_of(&verts);
    let vi = VIMap::from_verts(&verts);
    let (z_adj, z_order) = shrink_adjacency(&verts, &adj);
    let loom = prepare_loom(&vi, &verts, &z_adj, &z_order).unwrap();
    assert_eq!(loom.len(), 2);
    assert_eq!(loom[1], VecDeque::from(vec![32, 33, 65, 64]));
}

#[test]
fn stratifier_levels_hold_exactly_their_edges() {
    let verts = VERTS_32.to_vec();
    let adj = adjacency_of(&verts);
    let (z_adj, _) = shrink_adjacency(&verts, &adj);
    for (a, nbrs) in &z_adj {
        assert_eq!(verts[*a as usize].2, -1);
        let expected: Vec<u32> = adj[*a as usize]
            .iter()
            .copied()
            .filter(|b| verts[*b as usize].2 == -1)
            .collect();
        assert_eq!(nbrs, &expected);
    }
    assert_eq!(z_adj.len(), 12);
}

#[test]
fn spun_path_visits_the_level_once() {
    let verts = VERTS_32.to_vec();
    let adj = adjacency_of(&verts);
    let (z_adj, _) = shrink_adjacency(&verts, &adj);
    let path = spin_path(&z_adj, &verts).unwrap();
    assert_eq!(path.len(), 12);
    assert_eq!(path[0], 15);
    let mut sorted = path.clone();
    sorted.sort();
    assert_eq!(sorted, (4..16).collect::<Vec<u32>>());
}

#[test]
fn reflected_loom_is_symmetric_in_height() {
    let verts = VERTS_32.to_vec();
    let vi = VIMap::from_verts(&verts);
    let mut loom = vec![VecDeque::from(vec![2u32, 14, 15])];
    reflect_loom(&mut loom, &verts, &vi).unwrap();
    let t: Vec<u32> = loom[0].iter().copied().collect();
    assert_eq!(t, vec![2, 14, 15, 27, 26, 30]);
    for k in 0..t.len() {
        assert_eq!(verts[t[k] as usize].2, -verts[t[t.len() - 1 - k] as usize].2);
    }
}

#[test]
fn weave_loom_rejects_an_empty_loom() {
    let verts = VERTS_32.to_vec();
    let adj = adjacency_of(&verts);
    let vi = VIMap::from_verts(&verts);
    assert_eq!(weave_loom(vec![], &adj, &verts, &vi, 20), Err(WeaveError::EmptyLoom));
}

#[test]
fn weave_loom_reports_unjoinable_cycles() {
    let verts = VERTS_32.to_vec();
    let adj = adjacency_of(&verts);
    let vi = VIMap::from_verts(&verts);
    let a = VecDeque::from(vec![0u32, 1, 3, 2]);
    let b = VecDeque::from(vec![28u32, 29, 31, 30]);
    assert_eq!(weave_loom(vec![a, b], &adj, &verts, &vi, 20), Err(WeaveError::UnjoinableCycles));
}

#[test]
fn weave_loom_splices_parallel_squares() {
    let verts = VERTS_32.to_vec();
    let adj = adjacency_of(&verts);
    let vi = VIMap::from_verts(&verts);
    let a = VecDeque::from(vec![0u32, 1, 3, 2]);
    let b = VecDeque::from(vec![10u32, 11, 14]);
    let t = weave_loom(vec![a, b], &adj, &verts, &vi, 20);
    assert!(t.is_ok() || t == Err(WeaveError::UnjoinableCycles));
}

#[test]
fn weave_reports_missing_level_points() {
    let mut verts = VERTS_32.to_vec();
    verts.truncate(16);
    let adj = adjacency_of(&verts);
    let vi = VIMap::from_verts(&verts);
    let (z_adj, z_order) = shrink_adjacency(&verts, &adj);
    assert_eq!(weave(&adj, &vi, &verts, &z_adj, &z_order, 20), Err(WeaveError::MalformedInput));
}
