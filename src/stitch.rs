use vstd::multiset::Multiset;
use vstd::prelude::*;

use crate::cycle::{
    canon, lattice_edge, rotl, spec_edges, spec_join, spec_make_edges, spec_rotate_to_edge, Cycle,
    Edge,
};
use crate::geometry::{axis, axis_of, VIMap, Vert, Verts};
use crate::loom::{thread_views, Loom};
use crate::shrink::{adj_view, Adjacency};
use crate::types::WeaveError;

verus! {

/// `v` moved by `d` along axis `ax`, if the new coordinate stays within
/// `[-max_xyz, max_xyz]`.
pub open spec fn shifted(v: Vert, ax: int, d: int, max_xyz: i32) -> Option<Vert> {
    let c = if ax == 0 {
        v.0 as int + d
    } else if ax == 1 {
        v.1 as int + d
    } else {
        v.2 as int + d
    };
    if -(max_xyz as int) <= c <= max_xyz as int {
        Some(
            if ax == 0 {
                (c as i32, v.1, v.2)
            } else if ax == 1 {
                (v.0, c as i32, v.2)
            } else {
                (v.0, v.1, c as i32)
            },
        )
    } else {
        None
    }
}

/// The edge `e` moved by `d` along axis `ax`, if both moved ends are vertices.
pub open spec fn partner(verts: Seq<Vert>, vi_map: VIMap, max_xyz: i32, e: Edge, ax: int, d: int) -> Option<Edge> {
    match (shifted(verts[e.0 as int], ax, d, max_xyz), shifted(verts[e.1 as int], ax, d, max_xyz)) {
        (Some(a), Some(b)) => match (vi_map.lookup(a), vi_map.lookup(b)) {
            (Some(x), Some(y)) => Some(canon(x, y)),
            _ => None,
        },
        _ => None,
    }
}

pub open spec fn opt_seq(o: Option<Edge>) -> Seq<Edge> {
    match o {
        Some(e) => seq![e],
        None => seq![],
    }
}

/// The two axes other than `ax`, ascending.
pub open spec fn other_axes(ax: usize) -> (int, int) {
    if ax == 0 {
        (1, 2)
    } else if ax == 1 {
        (0, 2)
    } else {
        (0, 1)
    }
}

/// The lattice edges parallel to `e` at distance two: its translates by
/// `+2` and `-2` along each of the two other axes, those that exist.
pub open spec fn spec_adj_edges(verts: Seq<Vert>, vi_map: VIMap, max_xyz: i32, e: Edge) -> Seq<Edge> {
    if e.0 >= verts.len() || e.1 >= verts.len() {
        seq![]
    } else {
        let (p, q) = other_axes(axis_of(verts[e.0 as int], verts[e.1 as int]));
        opt_seq(partner(verts, vi_map, max_xyz, e, p, 2)) + opt_seq(
            partner(verts, vi_map, max_xyz, e, p, -2),
        ) + opt_seq(partner(verts, vi_map, max_xyz, e, q, 2)) + opt_seq(
            partner(verts, vi_map, max_xyz, e, q, -2),
        )
    }
}

fn shift(v: Vert, ax: usize, d: i64, max_xyz: i32) -> (r: Option<Vert>)
    requires
        d == 2 || d == -2,
    ensures
        r == shifted(v, ax as int, d as int, max_xyz),
{
    let c: i64 = if ax == 0 {
        v.0 as i64 + d
    } else if ax == 1 {
        v.1 as i64 + d
    } else {
        v.2 as i64 + d
    };
    if -(max_xyz as i64) <= c && c <= max_xyz as i64 {
        let c = c as i32;
        Some(
            if ax == 0 {
                (c, v.1, v.2)
            } else if ax == 1 {
                (v.0, c, v.2)
            } else {
                (v.0, v.1, c)
            },
        )
    } else {
        None
    }
}

fn shifted_edge(verts: &Verts, vi_map: &VIMap, max_xyz: i32, e: Edge, ax: usize, d: i64) -> (r: Option<Edge>)
    requires
        e.0 < verts@.len(),
        e.1 < verts@.len(),
        d == 2 || d == -2,
    ensures
        r == partner(verts@, *vi_map, max_xyz, e, ax as int, d as int),
{
    let a = shift(verts[e.0 as usize], ax, d, max_xyz);
    let b = shift(verts[e.1 as usize], ax, d, max_xyz);
    match (a, b) {
        (Some(a), Some(b)) => match (vi_map.get(&a), vi_map.get(&b)) {
            (Some(x), Some(y)) => Some(
                if x < y {
                    (x, y)
                } else {
                    (y, x)
                },
            ),
            _ => None,
        },
        _ => None,
    }
}

fn push_opt(r: &mut Vec<Edge>, o: Option<Edge>)
    ensures
        final(r)@ == old(r)@ + opt_seq(o),
{
    match o {
        Some(e) => {
            r.push(e);
            assert(final(r)@ =~= old(r)@ + opt_seq(o));
        },
        None => {
            assert(old(r)@ + opt_seq(o) =~= old(r)@);
        },
    }
}

/// The lattice edges parallel to `e` at distance two.
pub fn adj_edges(e: Edge, verts: &Verts, vi_map: &VIMap, max_xyz: i32) -> (r: Vec<Edge>)
    ensures
        r@ == spec_adj_edges(verts@, *vi_map, max_xyz, e),
{
    let mut r: Vec<Edge> = Vec::new();
    if (e.0 as usize) >= verts.len() || (e.1 as usize) >= verts.len() {
        return r;
    }
    let ax = axis(&verts[e.0 as usize], &verts[e.1 as usize]);
    let (p, q): (usize, usize) = if ax == 0 {
        (1, 2)
    } else if ax == 1 {
        (0, 2)
    } else {
        (0, 1)
    };
    push_opt(&mut r, shifted_edge(verts, vi_map, max_xyz, e, p, 2));
    push_opt(&mut r, shifted_edge(verts, vi_map, max_xyz, e, p, -2));
    push_opt(&mut r, shifted_edge(verts, vi_map, max_xyz, e, q, 2));
    push_opt(&mut r, shifted_edge(verts, vi_map, max_xyz, e, q, -2));
    assert(r@ =~= spec_adj_edges(verts@, *vi_map, max_xyz, e));
    r
}

/// The edges parallel to the first `k` edges of `es`, in order.
pub open spec fn adj_edges_upto(verts: Seq<Vert>, vi_map: VIMap, max_xyz: i32, es: Seq<Edge>, k: int) -> Seq<Edge>
    decreases k,
{
    if k <= 0 {
        seq![]
    } else {
        adj_edges_upto(verts, vi_map, max_xyz, es, k - 1) + spec_adj_edges(verts, vi_map, max_xyz, es[k - 1])
    }
}

impl Cycle {
    /// The lattice edges parallel, at distance two, to the cycle's edges.
    pub fn eadjs(&self, verts: &Verts, vi_map: &VIMap, max_xyz: i32) -> (r: Vec<Edge>)
        ensures
            r@ == adj_edges_upto(
                verts@,
                *vi_map,
                max_xyz,
                spec_edges(self@, verts@),
                spec_edges(self@, verts@).len() as int,
            ),
    {
        let es = self.edges(verts);
        let mut r: Vec<Edge> = Vec::new();
        let mut i: usize = 0;
        while i < es.len()
            invariant
                i <= es@.len(),
                r@ == adj_edges_upto(verts@, *vi_map, max_xyz, es@, i as int),
            decreases es@.len() - i,
        {
            let a = adj_edges(es[i], verts, vi_map, max_xyz);
            let mut j: usize = 0;
            let ghost base = r@;
            while j < a.len()
                invariant
                    j <= a@.len(),
                    r@ == base + a@.subrange(0, j as int),
                decreases a@.len() - j,
            {
                r.push(a[j]);
                j += 1;
                assert(r@ =~= base + a@.subrange(0, j as int));
            }
            assert(a@.subrange(0, a@.len() as int) =~= a@);
            i += 1;
        }
        r
    }
}

/// The first of `cands[j..]` that is in `oe`.
pub open spec fn first_in(cands: Seq<Edge>, oe: Seq<Edge>, j: int) -> Option<Edge>
    decreases cands.len() - j,
{
    if j < 0 || j >= cands.len() {
        None
    } else if oe.contains(cands[j]) {
        Some(cands[j])
    } else {
        first_in(cands, oe, j + 1)
    }
}

/// The first edge of `me[i..]` with a parallel neighbour in `oe`, and the
/// first such neighbour.
pub open spec fn first_pair(
    verts: Seq<Vert>,
    vi_map: VIMap,
    max_xyz: i32,
    me: Seq<Edge>,
    oe: Seq<Edge>,
    i: int,
) -> Option<(Edge, Edge)>
    decreases me.len() - i,
{
    if i < 0 || i >= me.len() {
        None
    } else {
        match first_in(spec_adj_edges(verts, vi_map, max_xyz, me[i]), oe, 0) {
            Some(p) => Some((me[i], p)),
            None => first_pair(verts, vi_map, max_xyz, me, oe, i + 1),
        }
    }
}

proof fn lemma_first_in(cands: Seq<Edge>, oe: Seq<Edge>, j: int)
    ensures
        first_in(cands, oe, j) matches Some(p) ==> oe.contains(p),
    decreases cands.len() - j,
{
    if 0 <= j < cands.len() {
        lemma_first_in(cands, oe, j + 1);
    }
}

proof fn lemma_first_pair(verts: Seq<Vert>, vi_map: VIMap, max_xyz: i32, me: Seq<Edge>, oe: Seq<Edge>, i: int)
    ensures
        first_pair(verts, vi_map, max_xyz, me, oe, i) matches Some((e, p)) ==> me.contains(e)
            && oe.contains(p),
    decreases me.len() - i,
{
    if 0 <= i < me.len() {
        lemma_first_in(spec_adj_edges(verts, vi_map, max_xyz, me[i]), oe, 0);
        lemma_first_pair(verts, vi_map, max_xyz, me, oe, i + 1);
    }
}

/// Both ends of an edge of a cycle are vertices of it.
proof fn lemma_edge_ends(s: Seq<u32>, verts: Seq<Vert>, e: Edge)
    requires
        spec_edges(s, verts).contains(e),
    ensures
        s.contains(e.0),
        s.contains(e.1),
{
    let keep = |x: Edge| lattice_edge(verts, x);
    spec_make_edges(s).lemma_filter_contains_rev(keep, e);
    let i = choose|i: int| 0 <= i < spec_make_edges(s).len() && spec_make_edges(s)[i] == e;
    let j = (i + 1) % (s.len() as int);
    assert(0 <= j < s.len());
    assert(e == canon(s[i], s[j]));
}

fn edge_in(es: &Vec<Edge>, e: Edge) -> (r: bool)
    ensures
        r == es@.contains(e),
{
    let mut i: usize = 0;
    while i < es.len()
        invariant
            i <= es@.len(),
            forall|k: int| 0 <= k < i ==> es@[k] != e,
        decreases es@.len() - i,
    {
        if es[i].0 == e.0 && es[i].1 == e.1 {
            return true;
        }
        i += 1;
    }
    false
}

/// The pair of parallel edges across which two cycles are spliced.
pub fn find_pair(me: &Vec<Edge>, oe: &Vec<Edge>, verts: &Verts, vi_map: &VIMap, max_xyz: i32) -> (r: Option<
    (Edge, Edge),
>)
    ensures
        r == first_pair(verts@, *vi_map, max_xyz, me@, oe@, 0),
{
    let mut i: usize = 0;
    while i < me.len()
        invariant
            i <= me@.len(),
            first_pair(verts@, *vi_map, max_xyz, me@, oe@, i as int) == first_pair(
                verts@,
                *vi_map,
                max_xyz,
                me@,
                oe@,
                0,
            ),
        decreases me@.len() - i,
    {
        let cands = adj_edges(me[i], verts, vi_map, max_xyz);
        let mut j: usize = 0;
        while j < cands.len()
            invariant
                i < me@.len(),
                j <= cands@.len(),
                cands@ == spec_adj_edges(verts@, *vi_map, max_xyz, me@[i as int]),
                first_in(cands@, oe@, j as int) == first_in(cands@, oe@, 0),
                first_pair(verts@, *vi_map, max_xyz, me@, oe@, i as int) == first_pair(
                    verts@,
                    *vi_map,
                    max_xyz,
                    me@,
                    oe@,
                    0,
                ),
            decreases cands@.len() - j,
        {
            if edge_in(oe, cands[j]) {
                return Some((me[i], cands[j]));
            }
            j += 1;
        }
        i += 1;
    }
    None
}

/// One splice: `other` is joined to `main` across the first pair of
/// parallel edges.
pub open spec fn spec_stitch(
    main: Seq<u32>,
    other: Seq<u32>,
    adj: Seq<Seq<u32>>,
    verts: Seq<Vert>,
    vi_map: VIMap,
    max_xyz: i32,
) -> Result<Seq<u32>, WeaveError> {
    match first_pair(verts, vi_map, max_xyz, spec_edges(main, verts), spec_edges(other, verts), 0) {
        None => Err(WeaveError::UnjoinableCycles),
        Some((e, p)) => if e.1 >= adj.len() {
            Err(WeaveError::MalformedInput)
        } else {
            Ok(spec_join(main, e, p, other, adj))
        },
    }
}

/// The first cycle with the next `k - 1` spliced into it in turn.
pub open spec fn stitch_upto(
    cycles: Seq<Seq<u32>>,
    k: int,
    adj: Seq<Seq<u32>>,
    verts: Seq<Vert>,
    vi_map: VIMap,
    max_xyz: i32,
) -> Result<Seq<u32>, WeaveError>
    decreases k,
{
    if k <= 0 {
        Err(WeaveError::EmptyLoom)
    } else if k == 1 {
        Ok(cycles[0])
    } else {
        match stitch_upto(cycles, k - 1, adj, verts, vi_map, max_xyz) {
            Ok(m) => spec_stitch(m, cycles[k - 1], adj, verts, vi_map, max_xyz),
            Err(e) => Err(e),
        }
    }
}

proof fn lemma_stitch_err(
    cycles: Seq<Seq<u32>>,
    k: int,
    m: int,
    adj: Seq<Seq<u32>>,
    verts: Seq<Vert>,
    vi_map: VIMap,
    max_xyz: i32,
)
    requires
        1 <= k <= m,
        stitch_upto(cycles, k, adj, verts, vi_map, max_xyz) is Err,
    ensures
        stitch_upto(cycles, m, adj, verts, vi_map, max_xyz) == stitch_upto(
            cycles,
            k,
            adj,
            verts,
            vi_map,
            max_xyz,
        ),
    decreases m - k,
{
    if m > k {
        lemma_stitch_err(cycles, k, m - 1, adj, verts, vi_map, max_xyz);
    }
}

/// Splices all the cycles of the loom into the first one, in order, and
/// gives the tour.
pub fn weave_loom(warp_wefts: Loom, adj: &Adjacency, verts: &Verts, vi_map: &VIMap, max_xyz: i32) -> (r:
    Result<Vec<u32>, WeaveError>)
    ensures
        r matches Ok(t) ==> stitch_upto(
            thread_views(warp_wefts@),
            warp_wefts@.len() as int,
            adj_view(adj@),
            verts@,
            *vi_map,
            max_xyz,
        ) == Ok::<Seq<u32>, WeaveError>(t@),
        r matches Err(e) ==> stitch_upto(
            thread_views(warp_wefts@),
            warp_wefts@.len() as int,
            adj_view(adj@),
            verts@,
            *vi_map,
            max_xyz,
        ) == Err::<Seq<u32>, WeaveError>(e),
{
    let ghost cs = thread_views(warp_wefts@);
    let ghost a = adj_view(adj@);
    if warp_wefts.len() == 0 {
        return Err(WeaveError::EmptyLoom);
    }
    let mut weaver = Cycle::new(&warp_wefts[0]);
    let mut k: usize = 1;
    while k < warp_wefts.len()
        invariant
            1 <= k <= warp_wefts@.len(),
            cs == thread_views(warp_wefts@),
            a == adj_view(adj@),
            stitch_upto(cs, k as int, a, verts@, *vi_map, max_xyz) == Ok::<Seq<u32>, WeaveError>(weaver@),
        decreases warp_wefts@.len() - k,
    {
        let mut other = Cycle::new(&warp_wefts[k]);
        assert(cs[k as int] == other@);
        let me = weaver.edges(verts);
        let oe = other.edges(verts);
        match find_pair(&me, &oe, verts, vi_map, max_xyz) {
            None => {
                proof {
                    lemma_stitch_err(cs, k + 1, warp_wefts@.len() as int, a, verts@, *vi_map, max_xyz);
                }
                return Err(WeaveError::UnjoinableCycles);
            },
            Some((e, p)) => {
                proof {
                    lemma_first_pair(verts@, *vi_map, max_xyz, me@, oe@, 0);
                    lemma_edge_ends(weaver@, verts@, e);
                    lemma_edge_ends(other@, verts@, p);
                }
                if (e.1 as usize) >= adj.len() {
                    proof {
                        lemma_stitch_err(cs, k + 1, warp_wefts@.len() as int, a, verts@, *vi_map, max_xyz);
                    }
                    return Err(WeaveError::MalformedInput);
                }
                weaver.join(e, p, &mut other, adj);
            },
        }
        k += 1;
    }
    Ok(weaver.retrieve())
}

/// The vertices of the first `k` cycles, counted with multiplicity.
pub open spec fn vertices_upto(cycles: Seq<Seq<u32>>, k: int) -> Multiset<u32>
    decreases k,
{
    if k <= 0 {
        Multiset::empty()
    } else {
        vertices_upto(cycles, k - 1).add(cycles[k - 1].to_multiset())
    }
}

proof fn lemma_rotate_keeps_vertices(s: Seq<u32>, left: u32, right: u32)
    requires
        s.contains(left),
        s.contains(right),
    ensures
        spec_rotate_to_edge(s, left, right).to_multiset() == s.to_multiset(),
{
    let n = s.len() as int;
    s.index_of_first_ensures(left);
    s.index_of_first_ensures(right);
    if n > 0 && left == s.last() && right == s[0] {
        s.lemma_reverse_to_multiset();
    } else if n > 0 && left == s[0] && right == s.last() {
    } else {
        let ixl = s.index_of_first(left)->Some_0;
        let ixr = s.index_of_first(right)->Some_0;
        let k = if ixl < ixr { ixr } else { ixl };
        let u = rotl(s, k);
        assert(s =~= s.subrange(0, k) + s.subrange(k, n));
        vstd::seq_lib::lemma_seq_union_to_multiset_commutative(s.subrange(0, k), s.subrange(k, n));
        assert(u.to_multiset() == s.to_multiset());
        if ixl < ixr {
            u.lemma_reverse_to_multiset();
        }
    }
}

proof fn lemma_stitch_step_keeps_vertices(
    m: Seq<u32>,
    o: Seq<u32>,
    adj: Seq<Seq<u32>>,
    verts: Seq<Vert>,
    vi_map: VIMap,
    max_xyz: i32,
)
    requires
        spec_stitch(m, o, adj, verts, vi_map, max_xyz) is Ok,
    ensures
        spec_stitch(m, o, adj, verts, vi_map, max_xyz)->Ok_0.to_multiset() == m.to_multiset().add(
            o.to_multiset(),
        ),
{
    let me = spec_edges(m, verts);
    let oe = spec_edges(o, verts);
    lemma_first_pair(verts, vi_map, max_xyz, me, oe, 0);
    let (e, p) = first_pair(verts, vi_map, max_xyz, me, oe, 0)->Some_0;
    lemma_edge_ends(m, verts, e);
    lemma_edge_ends(o, verts, p);
    lemma_rotate_keeps_vertices(m, e.0, e.1);
    lemma_rotate_keeps_vertices(o, p.0, p.1);
    lemma_rotate_keeps_vertices(o, p.1, p.0);
    let reversed = !adj[e.1 as int].contains(p.0);
    let (a, b) = if reversed {
        (p.1, p.0)
    } else {
        (p.0, p.1)
    };
    vstd::seq_lib::lemma_multiset_commutative(
        spec_rotate_to_edge(m, e.0, e.1),
        spec_rotate_to_edge(o, a, b),
    );
}

/// Splicing keeps every vertex: the stitched tour holds the vertices of the
/// cycles spliced into it, each as often as they do.
pub proof fn lemma_stitch_keeps_vertices(
    cycles: Seq<Seq<u32>>,
    k: int,
    adj: Seq<Seq<u32>>,
    verts: Seq<Vert>,
    vi_map: VIMap,
    max_xyz: i32,
)
    requires
        1 <= k <= cycles.len(),
        stitch_upto(cycles, k, adj, verts, vi_map, max_xyz) is Ok,
    ensures
        stitch_upto(cycles, k, adj, verts, vi_map, max_xyz)->Ok_0.to_multiset() == vertices_upto(
            cycles,
            k,
        ),
    decreases k,
{
    if k == 1 {
        let c0 = cycles[0].to_multiset();
        assert(vertices_upto(cycles, 0) == Multiset::<u32>::empty());
        assert(vertices_upto(cycles, 1) == Multiset::<u32>::empty().add(c0));
        assert(Multiset::<u32>::empty().add(c0) =~= c0) by {
            broadcast use vstd::multiset::group_multiset_axioms;

        }
    } else {
        lemma_stitch_keeps_vertices(cycles, k - 1, adj, verts, vi_map, max_xyz);
        let m = stitch_upto(cycles, k - 1, adj, verts, vi_map, max_xyz)->Ok_0;
        lemma_stitch_step_keeps_vertices(m, cycles[k - 1], adj, verts, vi_map, max_xyz);
    }
}

} // verus!
