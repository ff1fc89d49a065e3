use itertools::Itertools;
use vstd::prelude::*;

use crate::geometry::{Vert, Verts};

verus! {

/// The neighbours of each vertex id.
pub type Adjacency = Vec<Vec<u32>>;

/// An adjacency restricted to some vertices: each entry is a vertex and its
/// neighbours among them.
pub type SubAdjacency = Vec<(u32, Vec<u32>)>;

/// The vertices of each level below `z = 0`.
pub type ZlevelNodes = Vec<(i32, Vec<u32>)>;

/// The size of each level below `z = 0`, lowest first.
pub type ZOrder = Vec<(i32, usize)>;

pub open spec fn adj_view(adj: Seq<Vec<u32>>) -> Seq<Seq<u32>> {
    adj.map_values(|v: Vec<u32>| v@)
}

pub open spec fn sub_view(z: Seq<(u32, Vec<u32>)>) -> Seq<(u32, Seq<u32>)> {
    z.map_values(|e: (u32, Vec<u32>)| (e.0, e.1@))
}

/// The ids among the first `n` vertices whose height is `z`, ascending.
pub open spec fn ids_at(verts: Seq<Vert>, z: i32, n: int) -> Seq<u32>
    decreases n,
{
    if n <= 0 {
        seq![]
    } else if verts[n - 1].2 == z {
        ids_at(verts, z, n - 1).push((n - 1) as u32)
    } else {
        ids_at(verts, z, n - 1)
    }
}

/// The heights below zero among the first `n` vertices, in order of first
/// appearance.
pub open spec fn levels_of(verts: Seq<Vert>, n: int) -> Seq<i32>
    decreases n,
{
    if n <= 0 {
        seq![]
    } else {
        let l = levels_of(verts, n - 1);
        let z = verts[n - 1].2;
        if z < 0 && !l.contains(z) {
            l.push(z)
        } else {
            l
        }
    }
}

pub proof fn lemma_ids_at(verts: Seq<Vert>, z: i32, n: int, b: u32)
    requires
        0 <= n <= verts.len() <= u32::MAX + 1,
    ensures
        ids_at(verts, z, n).contains(b) <==> b < n && verts[b as int].2 == z,
    decreases n,
{
    if n > 0 {
        lemma_ids_at(verts, z, n - 1, b);
        let s = ids_at(verts, z, n - 1);
        if verts[n - 1].2 == z {
            assert(s.push((n - 1) as u32)[s.len() as int] == (n - 1) as u32);
            if s.contains(b) {
                let k = choose|k: int| 0 <= k < s.len() && s[k] == b;
                assert(s.push((n - 1) as u32)[k] == b);
            }
        }
    }
}

pub proof fn lemma_levels_of(verts: Seq<Vert>, n: int, z: i32)
    requires
        0 <= n <= verts.len(),
    ensures
        levels_of(verts, n).contains(z) <==> z < 0 && exists|i: int| 0 <= i < n && verts[i].2 == z,
        levels_of(verts, n).no_duplicates(),
    decreases n,
{
    if n > 0 {
        lemma_levels_of(verts, n - 1, z);
        let l = levels_of(verts, n - 1);
        let w = verts[n - 1].2;
        lemma_levels_of(verts, n - 1, w);
        if w < 0 && !l.contains(w) {
            assert(l.push(w)[l.len() as int] == w);
            if l.contains(z) {
                let k = choose|k: int| 0 <= k < l.len() && l[k] == z;
                assert(l.push(w)[k] == z);
            }
        }
        if exists|i: int| 0 <= i < n && verts[i].2 == z {
            let i = choose|i: int| 0 <= i < n && verts[i].2 == z;
            if i < n - 1 {
            }
        }
    }
}

fn level_known(levels: &Vec<i32>, z: i32) -> (r: bool)
    ensures
        r == levels@.contains(z),
{
    let mut i: usize = 0;
    while i < levels.len()
        invariant
            i <= levels@.len(),
            forall|j: int| 0 <= j < i ==> levels@[j] != z,
        decreases levels@.len() - i,
    {
        if levels[i] == z {
            return true;
        }
        i += 1;
    }
    false
}

fn ids_of_level(verts: &Verts, z: i32) -> (r: Vec<u32>)
    requires
        verts@.len() <= u32::MAX + 1,
    ensures
        r@ == ids_at(verts@, z, verts@.len() as int),
{
    let mut r: Vec<u32> = Vec::new();
    let mut i: usize = 0;
    while i < verts.len()
        invariant
            i <= verts@.len() <= u32::MAX + 1,
            r@ == ids_at(verts@, z, i as int),
        decreases verts@.len() - i,
    {
        if verts[i].2 == z {
            r.push(i as u32);
        }
        i += 1;
    }
    r
}

/// Groups the vertex ids below `z = 0` by height: one entry for each height,
/// in order of first appearance, with the ids of that height ascending.
pub fn stratified_nodes(verts: &Verts) -> (r: ZlevelNodes)
    requires
        verts@.len() <= u32::MAX + 1,
    ensures
        r@.len() == levels_of(verts@, verts@.len() as int).len(),
        forall|k: int|
            0 <= k < r@.len() ==> (#[trigger] r@[k]).0 == levels_of(verts@, verts@.len() as int)[k]
                && r@[k].1@ == ids_at(verts@, r@[k].0, verts@.len() as int),
{
    let mut levels: Vec<i32> = Vec::new();
    let mut i: usize = 0;
    while i < verts.len()
        invariant
            i <= verts@.len(),
            levels@ == levels_of(verts@, i as int),
        decreases verts@.len() - i,
    {
        let z = verts[i].2;
        if z < 0 && !level_known(&levels, z) {
            levels.push(z);
        }
        i += 1;
    }
    let mut r: ZlevelNodes = Vec::new();
    let mut k: usize = 0;
    while k < levels.len()
        invariant
            k <= levels@.len(),
            verts@.len() <= u32::MAX + 1,
            levels@ == levels_of(verts@, verts@.len() as int),
            r@.len() == k,
            forall|j: int|
                0 <= j < k ==> (#[trigger] r@[j]).0 == levels@[j] && r@[j].1@ == ids_at(
                    verts@,
                    r@[j].0,
                    verts@.len() as int,
                ),
        decreases levels@.len() - k,
    {
        let z = levels[k];
        r.push((z, ids_of_level(verts, z)));
        k += 1;
    }
    r
}

/// The entry of `node`, with its neighbours among `nodes`, where the
/// adjacency has one.
pub open spec fn filtered_upto(adj: Seq<Seq<u32>>, nodes: Seq<u32>, k: int) -> Seq<(u32, Seq<u32>)>
    decreases k,
{
    if k <= 0 {
        seq![]
    } else {
        let n = nodes[k - 1];
        let rest = filtered_upto(adj, nodes, k - 1);
        if n < adj.len() {
            rest.push((n, adj[n as int].filter(|b: u32| nodes.contains(b))))
        } else {
            rest
        }
    }
}

/// The adjacency induced on `nodes`.
pub fn filtered_adjacency(adj: &Adjacency, nodes: &Vec<u32>) -> (r: SubAdjacency)
    ensures
        sub_view(r@) == filtered_upto(adj_view(adj@), nodes@, nodes@.len() as int),
{
    let ghost a = adj_view(adj@);
    let mut r: SubAdjacency = Vec::new();
    let mut k: usize = 0;
    while k < nodes.len()
        invariant
            k <= nodes@.len(),
            a == adj_view(adj@),
            sub_view(r@) == filtered_upto(a, nodes@, k as int),
        decreases nodes@.len() - k,
    {
        let n = nodes[k];
        if (n as usize) < adj.len() {
            let nb = &adj[n as usize];
            assert(a[n as int] == nb@);
            let ghost keep = |b: u32| nodes@.contains(b);
            let mut f: Vec<u32> = Vec::new();
            let mut j: usize = 0;
            while j < nb.len()
                invariant
                    j <= nb@.len(),
                    keep == (|b: u32| nodes@.contains(b)),
                    f@ == nb@.subrange(0, j as int).filter(keep),
                decreases nb@.len() - j,
            {
                let b = nb[j];
                proof {
                    assert(nb@.subrange(0, j + 1) =~= nb@.subrange(0, j as int).push(b));
                    nb@.subrange(0, j as int).lemma_filter_push(b, keep);
                }
                if crate::loom::seq_contains(nodes, b) {
                    f.push(b);
                }
                j += 1;
            }
            assert(nb@.subrange(0, nb@.len() as int) =~= nb@);
            r.push((n, f));
        }
        k += 1;
        assert(sub_view(r@) =~= filtered_upto(a, nodes@, k as int));
    }
    r
}

/// Heights ordered by their value.
pub open spec fn level_leq() -> spec_fn((i32, usize), (i32, usize)) -> bool {
    |a: (i32, usize), b: (i32, usize)| a.0 <= b.0
}

/// Relies on `Itertools::sorted_by_key`: the same items, ordered by height.
#[verifier::external_body]
fn sort_by_level(v: Vec<(i32, usize)>) -> (r: Vec<(i32, usize)>)
    ensures
        r@.to_multiset() == v@.to_multiset(),
        vstd::relations::sorted_by(r@, level_leq()),
{
    v.into_iter().sorted_by_key(|&(level, _)| level).collect()
}

pub open spec fn level_sizes(s: Seq<(i32, Vec<u32>)>) -> Seq<(i32, usize)> {
    s.map_values(|e: (i32, Vec<u32>)| (e.0, e.1@.len() as usize))
}

/// The size of each level, ordered by height.
pub fn get_zlevel_length(stratified: &ZlevelNodes) -> (r: ZOrder)
    ensures
        r@.to_multiset() == level_sizes(stratified@).to_multiset(),
        vstd::relations::sorted_by(r@, level_leq()),
{
    let mut v: Vec<(i32, usize)> = Vec::new();
    let mut i: usize = 0;
    while i < stratified.len()
        invariant
            i <= stratified@.len(),
            v@ == level_sizes(stratified@.subrange(0, i as int)),
        decreases stratified@.len() - i,
    {
        v.push((stratified[i].0, stratified[i].1.len()));
        i += 1;
        assert(v@ =~= level_sizes(stratified@.subrange(0, i as int)));
    }
    assert(stratified@.subrange(0, stratified@.len() as int) =~= stratified@);
    sort_by_level(v)
}

/// The entries of an induced adjacency that hold the edge `a -> b`.
pub open spec fn has_edge(f: Seq<(u32, Seq<u32>)>, a: u32, b: u32) -> bool {
    exists|k: int| 0 <= k < f.len() && (#[trigger] f[k]).0 == a && f[k].1.contains(b)
}

proof fn lemma_filtered_edges(adj: Seq<Seq<u32>>, nodes: Seq<u32>, k: int, a: u32, b: u32)
    requires
        0 <= k <= nodes.len(),
    ensures
        has_edge(filtered_upto(adj, nodes, k), a, b) <==> (nodes.subrange(0, k).contains(a) && a
            < adj.len() && adj[a as int].contains(b) && nodes.contains(b)),
    decreases k,
{
    broadcast use vstd::seq_lib::group_filter_ensures;

    let keep = |x: u32| nodes.contains(x);
    if k > 0 {
        lemma_filtered_edges(adj, nodes, k - 1, a, b);
        let rest = filtered_upto(adj, nodes, k - 1);
        let n = nodes[k - 1];
        let pre = nodes.subrange(0, k - 1);
        assert(nodes.subrange(0, k) =~= pre.push(n));
        assert(nodes.subrange(0, k).contains(a) <==> (pre.contains(a) || n == a)) by {
            if nodes.subrange(0, k).contains(a) && n != a {
                let j = choose|j: int| 0 <= j < k && nodes.subrange(0, k)[j] == a;
                assert(pre[j] == a);
            }
            if pre.contains(a) {
                let j = choose|j: int| 0 <= j < k - 1 && pre[j] == a;
                assert(nodes.subrange(0, k)[j] == a);
            }
            if n == a {
                assert(nodes.subrange(0, k)[k - 1] == a);
            }
        }
        if n < adj.len() {
            let f = adj[n as int].filter(keep);
            let all = rest.push((n, f));
            assert(filtered_upto(adj, nodes, k) == all);
            if n == a {
                if adj[a as int].contains(b) && nodes.contains(b) {
                    let i = choose|i: int| 0 <= i < adj[a as int].len() && adj[a as int][i] == b;
                    adj[a as int].lemma_filter_contains(keep, i);
                    assert(all[rest.len() as int] == (n, f));
                }
                if f.contains(b) {
                    let i = choose|i: int| 0 <= i < f.len() && f[i] == b;
                    adj[a as int].lemma_filter_pred(keep, i);
                    adj[a as int].lemma_filter_contains_rev(keep, b);
                }
            }
            if has_edge(all, a, b) {
                let j = choose|j: int| 0 <= j < all.len() && (#[trigger] all[j]).0 == a && all[j].1.contains(b);
                if j < rest.len() {
                    assert(rest[j] == all[j]);
                } else {
                    assert(all[j] == (n, f));
                    assert(n == a);
                    assert(f.contains(b));
                    let i = choose|i: int| 0 <= i < f.len() && f[i] == b;
                    adj[a as int].lemma_filter_pred(keep, i);
                    adj[a as int].lemma_filter_contains_rev(keep, b);
                }
            }
            if has_edge(rest, a, b) {
                let j = choose|j: int| 0 <= j < rest.len() && (#[trigger] rest[j]).0 == a && rest[j].1.contains(b);
                assert(all[j] == rest[j]);
            }
        }
    }
}

/// An induced level adjacency holds exactly the edges of the full adjacency
/// whose two ends lie at that height.
pub proof fn lemma_slab_edges(adj: Seq<Seq<u32>>, verts: Seq<Vert>, z: i32, a: u32, b: u32)
    requires
        verts.len() <= u32::MAX + 1,
    ensures
        ({
            let ids = ids_at(verts, z, verts.len() as int);
            has_edge(filtered_upto(adj, ids, ids.len() as int), a, b) <==> (a < adj.len()
                && adj[a as int].contains(b) && a < verts.len() && verts[a as int].2 == z && b
                < verts.len() && verts[b as int].2 == z)
        }),
{
    let ids = ids_at(verts, z, verts.len() as int);
    lemma_filtered_edges(adj, ids, ids.len() as int, a, b);
    assert(ids.subrange(0, ids.len() as int) =~= ids);
    lemma_ids_at(verts, z, verts.len() as int, a);
    lemma_ids_at(verts, z, verts.len() as int, b);
}

/// The size of each level below zero, in order of first appearance.
pub open spec fn level_pairs(verts: Seq<Vert>) -> Seq<(i32, usize)> {
    let l = levels_of(verts, verts.len() as int);
    Seq::new(l.len(), |k: int| (l[k], ids_at(verts, l[k], verts.len() as int).len() as usize))
}

/// The adjacency induced on the level `z = -1`, and the size of each level
/// below zero, ordered by height.
pub fn shrink_adjacency(verts: &Verts, adj: &Adjacency) -> (r: (SubAdjacency, ZOrder))
    requires
        verts@.len() <= u32::MAX + 1,
        exists|i: int| 0 <= i < verts@.len() && verts@[i].2 == -1,
    ensures
        ({
            let ids = ids_at(verts@, -1i32, verts@.len() as int);
            sub_view(r.0@) == filtered_upto(adj_view(adj@), ids, ids.len() as int)
        }),
        r.1@.to_multiset() == level_pairs(verts@).to_multiset(),
        vstd::relations::sorted_by(r.1@, level_leq()),
{
    let stratified = stratified_nodes(verts);
    proof {
        lemma_levels_of(verts@, verts@.len() as int, -1i32);
    }
    let ghost l = levels_of(verts@, verts@.len() as int);
    let mut k: usize = 0;
    while k < stratified.len() && stratified[k].0 != -1
        invariant
            k <= stratified@.len() == l.len(),
            l.contains(-1i32),
            forall|j: int| 0 <= j < k ==> l[j] != -1,
            forall|j: int| 0 <= j < stratified@.len() ==> (#[trigger] stratified@[j]).0 == l[j],
        decreases stratified@.len() - k,
    {
        k += 1;
    }
    assert(k < stratified@.len()) by {
        if k >= stratified@.len() {
            let j = choose|j: int| 0 <= j < l.len() && l[j] == -1;
        }
    }
    let zadj = filtered_adjacency(adj, &stratified[k].1);
    let order = get_zlevel_length(&stratified);
    assert(level_sizes(stratified@) =~= level_pairs(verts@));
    (zadj, order)
}

} // verus!
