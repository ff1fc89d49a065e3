use std::collections::VecDeque;

use weaver::cycle::Cycle;
use weaver::geometry::{absumv, axis, is_valid_edge, VIMap, Vert};
use weaver::loom::{
    affix_loose_threads, cut_yarn, join_threads, reflect_thread, wind_threads, Loom,
};
use weaver::shrink::{filtered_adjacency, get_zlevel_length, stratified_nodes};
use weaver::spin::{
    color_yarn, get_warps, next_node, nodes_to_yarn, prepare_yarn, spin_and_color_yarn,
    spin_path, spool_key, Spool,
};
use weaver::stitch::{adj_edges, find_pair};
use weaver::types::{NodeStruct, WeaveError};

fn thread(v: &[u32]) -> VecDeque<u32> {
    v.iter().copied().collect()
}

fn ring_of_eight() -> (Vec<Vert>, Vec<(u32, Vec<u32>)>) {
    let verts: Vec<Vert> = vec![
        (1, 1, -1), (3, 1, -1), (5, 1, -1), (1, 3, -1), (5, 3, -1), (1, 5, -1), (3, 5, -1),
        (5, 5, -1),
    ];
    let adj: Vec<Vec<u32>> =
        vec![vec![1, 3], vec![2, 0], vec![1, 4], vec![5, 0], vec![7, 2], vec![6, 3], vec![7, 5], vec![6, 4]];
    let z: Vec<(u32, Vec<u32>)> = (0..8u32).map(|i| (i, adj[i as usize].clone())).collect();
    (verts, z)
}

#[test]
fn absumv_adds_absolute_values() {
    assert_eq!(absumv((-3, 1, -5)), 9);
    assert_eq!(absumv((i32::MIN, i32::MIN, i32::MIN)), 3 * 2147483648i64);
}

#[test]
fn axis_names_the_differing_coordinate() {
    assert_eq!(axis(&(1, 1, 1), &(3, 1, 1)), 0);
    assert_eq!(axis(&(1, 1, 1), &(1, -1, 1)), 1);
    assert_eq!(axis(&(1, 1, 1), &(1, 1, 3)), 2);
}

#[test]
fn valid_edges_differ_by_two_on_one_axis() {
    assert!(is_valid_edge((1, 1, 1), (1, 3, 1)));
    assert!(is_valid_edge((1, 1, -1), (1, 1, 1)));
    assert!(!is_valid_edge((1, 1, 1), (3, 3, 1)));
    assert!(!is_valid_edge((1, 1, 1), (5, 1, 1)));
    assert!(!is_valid_edge((1, 1, 1), (1, 1, 1)));
}

#[test]
fn vimap_finds_each_vertex() {
    let verts: Vec<Vert> = vec![(1, 1, 1), (-1, 1, 1), (1, -1, -1)];
    let vi = VIMap::from_verts(&verts);
    assert_eq!(vi.get(&(-1, 1, 1)), Some(1));
    assert_eq!(vi.get(&(1, -1, -1)), Some(2));
    assert_eq!(vi.get(&(1, 1, -1)), None);
    let mut m = VIMap::new();
    m.insert((i32::MIN, i32::MAX, 0), 7);
    assert_eq!(m.get(&(i32::MIN, i32::MAX, 0)), Some(7));
    assert_eq!(m.get(&(i32::MAX, i32::MIN, 0)), None);
}

#[test]
fn stratified_nodes_groups_by_height() {
    let verts: Vec<Vert> = vec![(1, 1, -3), (1, 1, 1), (3, 1, -1), (1, 3, -3), (1, 1, -1)];
    let s = stratified_nodes(&verts);
    assert_eq!(s, vec![(-3, vec![0, 3]), (-1, vec![2, 4])]);
}

#[test]
fn zlevel_lengths_are_sorted_by_height() {
    let s = vec![(-1, vec![1, 2, 3]), (-5, vec![4]), (-3, vec![5, 6])];
    assert_eq!(get_zlevel_length(&s), vec![(-5, 1), (-3, 2), (-1, 3)]);
}

#[test]
fn filtered_adjacency_keeps_inner_edges() {
    let adj = vec![vec![1, 2], vec![0, 3], vec![0], vec![1]];
    let f = filtered_adjacency(&adj, &vec![0, 1, 9]);
    assert_eq!(f, vec![(0, vec![1]), (1, vec![0])]);
}

#[test]
fn ring_of_eight_gets_stuck_in_the_tail() {
    let (verts, z) = ring_of_eight();
    assert_eq!(spin_path(&z, &verts), Err(WeaveError::NoCandidate));
    assert_eq!(next_node(&vec![7], &z, &verts, 1, 8), Ok(6));
    assert_eq!(next_node(&vec![7, 6, 5, 3], &z, &verts, 4, 8), Err(WeaveError::NoCandidate));
}

#[test]
fn spin_rejects_an_empty_level() {
    let verts: Vec<Vert> = vec![];
    assert_eq!(spin_path(&vec![], &verts), Err(WeaveError::MalformedInput));
}

#[test]
fn spin_without_the_tail_rule_walks_the_ring() {
    let verts: Vec<Vert> = vec![(1, 1, -1), (3, 1, -1), (3, 3, -1), (1, 3, -1)];
    let z = vec![(0u32, vec![1u32, 3]), (1, vec![0, 2]), (2, vec![1, 3]), (3, vec![2, 0])];
    assert_eq!(spin_path(&z, &verts), Ok(vec![3, 2, 1, 0]));
}

#[test]
fn next_node_prefers_the_outermost_then_larger_id() {
    let verts: Vec<Vert> = vec![(1, 1, -1), (3, 1, -1), (1, 3, -1), (-1, 1, -1)];
    let z = vec![(0u32, vec![3u32, 1, 2]), (1, vec![0]), (2, vec![0]), (3, vec![0])];
    assert_eq!(next_node(&vec![0], &z, &verts, 1, 20), Ok(2));
}

#[test]
fn yarn_and_color() {
    let verts: Vec<Vert> = vec![(1, 3, -1), (-5, 7, -1)];
    let y = nodes_to_yarn(&vec![1, 0], &verts);
    assert_eq!(y, vec![(-5, 7), (1, 3)]);
    assert_eq!(color_yarn(&y), vec![(5, -5), (-1, -1)]);
}

#[test]
fn spool_keys_alternate_by_level() {
    assert_eq!(spool_key(-1), Some(3));
    assert_eq!(spool_key(-3), Some(1));
    assert_eq!(spool_key(-5), Some(3));
    assert_eq!(spool_key(-2), None);
    assert_eq!(spool_key(1), None);
    let s = Spool { natural: vec![(1, 1)], colored: vec![(-1, 1)] };
    assert_eq!(s.get(3), Some(&vec![(1, 1)]));
    assert_eq!(s.get(1), Some(&vec![(-1, 1)]));
    assert_eq!(s.get(2), None);
}

#[test]
fn spin_and_color_makes_both_orientations() {
    let verts: Vec<Vert> = vec![(1, 1, -1), (3, 1, -1), (3, 3, -1), (1, 3, -1)];
    let z = vec![(0u32, vec![1u32, 3]), (1, vec![0, 2]), (2, vec![1, 3]), (3, vec![2, 0])];
    let s = spin_and_color_yarn(&z, &verts).unwrap();
    assert_eq!(s.natural, vec![(1, 3), (3, 3), (3, 1), (1, 1)]);
    assert_eq!(s.colored, vec![(-1, -1), (-3, -1), (-3, 1), (-1, 1)]);
}

#[test]
fn prepare_yarn_lays_the_suffix_on_a_level() {
    let verts: Vec<Vert> = vec![(1, 1, -3), (3, 1, -3), (1, 1, -1)];
    let vi = VIMap::from_verts(&verts);
    let yarn = vec![(5, 5), (3, 1), (1, 1)];
    assert_eq!(prepare_yarn(&yarn, -3, 2, &vi), Ok(vec![1, 0]));
    assert_eq!(prepare_yarn(&yarn, -3, 3, &vi), Err(WeaveError::MalformedInput));
    assert_eq!(prepare_yarn(&yarn, -3, 4, &vi), Err(WeaveError::MalformedInput));
}

#[test]
fn get_warps_cuts_at_bobbins() {
    let verts: Vec<Vert> = vec![(1, 1, -1), (3, 1, -1), (5, 1, -1), (-1, 1, -3), (-3, 1, -3)];
    let vi = VIMap::from_verts(&verts);
    let natural = vec![(5, 1), (3, 1), (1, 1)];
    let spool = Spool { colored: color_yarn(&natural), natural };
    assert_eq!(get_warps(-1, 3, &vec![], &spool, &vi), Ok(vec![vec![2, 1, 0]]));
    assert_eq!(get_warps(-1, 3, &vec![1], &spool, &vi), Ok(vec![vec![2], vec![1, 0]]));
    assert_eq!(get_warps(-3, 2, &vec![], &spool, &vi), Ok(vec![vec![4, 3]]));
    assert_eq!(get_warps(-2, 2, &vec![], &spool, &vi), Err(WeaveError::MalformedInput));
}

#[test]
fn cut_yarn_splits_at_bobbins() {
    let tour = vec![10, 11, 12, 13, 14, 15];
    assert_eq!(cut_yarn(tour.clone(), &vec![13, 11]), vec![vec![11, 10], vec![12], vec![13, 14, 15]]);
    assert_eq!(cut_yarn(tour.clone(), &vec![15, 10]), vec![vec![10], vec![15, 14, 13, 12, 11]]);
    assert_eq!(cut_yarn(tour.clone(), &vec![12]), vec![vec![11, 10], vec![12, 13, 14, 15]]);
    assert_eq!(cut_yarn(tour, &vec![99]), Vec::<Vec<u32>>::new());
}

#[test]
fn cut_then_join_on_empty_loom_restores_the_sequence() {
    let tour: Vec<u32> = vec![10, 11, 12, 13, 14, 15];
    let warps = cut_yarn(tour.clone(), &vec![13, 11]);
    let mut loom: Loom = vec![];
    let woven = join_threads(&mut loom, &warps);
    assert!(woven.is_empty());
    affix_loose_threads(&mut loom, warps.clone(), woven);
    assert_eq!(loom.len(), warps.len());
    let mut restored: Vec<u32> = vec![];
    let mut at = 0;
    for t in &loom {
        let piece: Vec<u32> = t.iter().copied().collect();
        let forwards = tour[at..at + piece.len()].to_vec();
        let mut backwards = forwards.clone();
        backwards.reverse();
        assert!(piece == forwards || piece == backwards);
        restored.extend(forwards);
        at += piece.len();
    }
    assert_eq!(restored, tour);
}

#[test]
fn join_threads_grows_both_ends() {
    let mut loom: Loom = vec![thread(&[5, 6, 7])];
    let warps = vec![vec![5, 4, 3], vec![7, 8], vec![9, 10]];
    let woven = join_threads(&mut loom, &warps);
    assert_eq!(woven, vec![0, 1]);
    assert_eq!(loom, vec![thread(&[3, 4, 5, 6, 7, 8])]);
    affix_loose_threads(&mut loom, warps.clone(), woven.clone());
    assert_eq!(loom, vec![thread(&[3, 4, 5, 6, 7, 8]), thread(&[9, 10])]);
    let mut again: Loom = vec![thread(&[3, 4, 5, 6, 7, 8])];
    assert_eq!(join_threads(&mut again, &vec![vec![1, 2]]), Vec::<usize>::new());
    assert_eq!(again, vec![thread(&[3, 4, 5, 6, 7, 8])]);
}

#[test]
fn wind_threads_climbs_one_level() {
    let verts: Vec<Vert> = vec![(1, 1, -3), (3, 1, -3), (1, 1, -1), (3, 1, -1)];
    let vi = VIMap::from_verts(&verts);
    let mut loom: Loom = vec![thread(&[0, 1])];
    assert_eq!(wind_threads(&mut loom, &verts, &vi), Ok(vec![2, 3]));
    assert_eq!(loom, vec![thread(&[2, 0, 1, 3])]);
    assert_eq!(wind_threads(&mut loom, &verts, &vi), Err(WeaveError::MalformedInput));
    assert_eq!(loom, vec![thread(&[2, 0, 1, 3])]);
}

#[test]
fn reflection_of_a_reversed_thread_is_the_reverse_cycle() {
    let verts: Vec<Vert> = vec![(1, 1, -1), (3, 1, -1), (1, 1, 1), (3, 1, 1), (5, 1, -1), (5, 1, 1)];
    let vi = VIMap::from_verts(&verts);
    let t = thread(&[0, 1, 4]);
    let r1: Vec<u32> = reflect_thread(&t, &verts, &vi).unwrap().into_iter().collect();
    let r2: Vec<u32> = reflect_thread(&thread(&[4, 1, 0]), &verts, &vi).unwrap().into_iter().collect();
    assert_eq!(r1, vec![0, 1, 4, 5, 3, 2]);
    let mut back = r1.clone();
    back.reverse();
    back.rotate_left(3);
    assert_eq!(r2, back);
    assert_eq!(reflect_thread(&thread(&[9]), &verts, &vi), Err(WeaveError::MalformedInput));
}

#[test]
fn rotate_to_edge_puts_the_edge_at_the_seam() {
    let mut c = Cycle::new_from_vec(&vec![1, 2, 3, 4, 5]);
    c.rotate_to_edge(3, 4);
    assert_eq!(c.retrieve(), vec![3, 2, 1, 5, 4]);
    let mut c = Cycle::new_from_vec(&vec![1, 2, 3, 4, 5]);
    c.rotate_to_edge(4, 3);
    assert_eq!(c.retrieve(), vec![4, 5, 1, 2, 3]);
    let mut c = Cycle::new_from_vec(&vec![1, 2, 3, 4, 5]);
    c.rotate_to_edge(5, 1);
    assert_eq!(c.retrieve(), vec![5, 4, 3, 2, 1]);
    let mut c = Cycle::new_from_vec(&vec![1, 2, 3, 4, 5]);
    c.rotate_to_edge(1, 5);
    assert_eq!(c.retrieve(), vec![1, 2, 3, 4, 5]);
}

#[test]
fn join_is_the_same_for_a_reversed_other() {
    let adj: Vec<Vec<u32>> = vec![vec![1, 2, 10], vec![0, 3, 11], vec![0, 3, 12], vec![1, 2, 13], vec![], vec![], vec![], vec![], vec![], vec![], vec![0, 11, 12], vec![1, 10, 13], vec![2, 10, 13], vec![3, 11, 12]];
    let mut a = Cycle::new(&thread(&[0, 1, 3, 2]));
    let mut b = Cycle::from(thread(&[10, 11, 13, 12]));
    a.join((1, 3), (11, 13), &mut b, &adj);
    let mut a2 = Cycle::new(&thread(&[0, 1, 3, 2]));
    let mut b2 = Cycle::from(thread(&[12, 13, 11, 10]));
    a2.join((1, 3), (11, 13), &mut b2, &adj);
    assert_eq!(a.retrieve(), vec![1, 0, 2, 3, 13, 12, 10, 11]);
    assert_eq!(a.retrieve(), a2.retrieve());
    assert_eq!(b.retrieve(), vec![13, 12, 10, 11]);
}

#[test]
fn cycle_edges() {
    let verts: Vec<Vert> = vec![(1, 1, 1), (3, 1, 1), (3, 3, 1), (5, 5, 1)];
    let c = Cycle::new_from_vec(&vec![0, 1, 2, 3]);
    assert_eq!(c.make_edges(), vec![(0, 1), (1, 2), (2, 3), (0, 3)]);
    assert_eq!(c.edges(&verts), vec![(0, 1), (1, 2)]);
}

#[test]
fn adjacent_edges_are_parallel_translates() {
    let verts: Vec<Vert> = vec![(1, 1, 1), (3, 1, 1), (1, 3, 1), (3, 3, 1), (1, 1, 3), (3, 1, 3)];
    let vi = VIMap::from_verts(&verts);
    assert_eq!(adj_edges((0, 1), &verts, &vi, 5), vec![(2, 3), (4, 5)]);
    assert_eq!(adj_edges((0, 1), &verts, &vi, 1), Vec::<(u32, u32)>::new());
    let c = Cycle::new_from_vec(&vec![0, 1]);
    assert_eq!(c.eadjs(&verts, &vi, 5), vec![(2, 3), (4, 5), (2, 3), (4, 5)]);
    assert_eq!(find_pair(&vec![(0, 1)], &vec![(4, 5), (2, 3)], &verts, &vi, 5), Some(((0, 1), (2, 3))));
    assert_eq!(find_pair(&vec![(0, 1)], &vec![(0, 2)], &verts, &vi, 5), None);
}

#[test]
fn node_struct_wraps_an_id() {
    let n = NodeStruct(4);
    assert_eq!(n, NodeStruct(4));
    assert_eq!(n.0, 4);
}
