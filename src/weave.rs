use vstd::prelude::*;

use crate::geometry::{VIMap, Vert, Verts};
use crate::loom::{
    affix_loose_threads, join_threads, join_upto, loose_upto, mirrorable, new_bobbins,
    nonempty_all, reflect_loom, reflected, thread_views, views, wind_threads, windable, wound,
    Bobbins, Loom, Subtours,
};
use crate::shrink::{adj_view, sub_view, Adjacency, SubAdjacency, ZOrder};
use crate::spin::{
    flat, get_warps, greedy, is_max_key, spec_warps, spin_and_color_yarn, turnable, turned,
    Spool,
};
use crate::stitch::{lemma_stitch_keeps_vertices, stitch_upto, vertices_upto, weave_loom};
use crate::types::WeaveError;

verus! {

/// The threads and the bobbins between two levels.
pub type LoomState = (Seq<Seq<u32>>, Seq<u32>);

/// One level woven in: its warps joined to the threads' ends, the rest
/// added as threads, and, below the level `z = -1`, every thread wound up a
/// level.
pub open spec fn level_step(
    st: LoomState,
    zlevel: i32,
    order: int,
    natural: Seq<(i32, i32)>,
    verts: Seq<Vert>,
    vi_map: VIMap,
) -> Option<LoomState> {
    match spec_warps(zlevel, order, st.1, natural, vi_map) {
        None => None,
        Some(ws) => if !nonempty_all(ws) {
            None
        } else {
            let (joined, woven) = join_upto(st.0, ws, st.0.len() as int);
            let l2 = joined + loose_upto(ws, woven, ws.len() as int);
            if zlevel == -1 {
                Some((l2, st.1))
            } else if windable(verts, vi_map, l2) {
                Some(
                    (
                        Seq::new(l2.len(), |i: int| wound(verts, vi_map, l2[i])),
                        new_bobbins(verts, vi_map, l2, l2.len() as int),
                    ),
                )
            } else {
                None
            }
        },
    }
}

/// The state after the first `k` levels of `z_order`.
pub open spec fn levels_upto(
    z_order: Seq<(i32, usize)>,
    k: int,
    natural: Seq<(i32, i32)>,
    verts: Seq<Vert>,
    vi_map: VIMap,
) -> Option<LoomState>
    decreases k,
{
    if k <= 0 {
        Some((seq![], seq![]))
    } else {
        match levels_upto(z_order, k - 1, natural, verts, vi_map) {
            None => None,
            Some(st) => level_step(st, z_order[k - 1].0, z_order[k - 1].1 as int, natural, verts, vi_map),
        }
    }
}

/// The loom after all levels, each thread closed across `z = 0`.
pub open spec fn spec_prepare(
    z_order: Seq<(i32, usize)>,
    natural: Seq<(i32, i32)>,
    verts: Seq<Vert>,
    vi_map: VIMap,
) -> Option<Seq<Seq<u32>>> {
    match levels_upto(z_order, z_order.len() as int, natural, verts, vi_map) {
        None => None,
        Some(st) => if forall|i: int| 0 <= i < st.0.len() ==> mirrorable(verts, vi_map, #[trigger] st.0[i]) {
            Some(Seq::new(st.0.len(), |i: int| reflected(verts, vi_map, st.0[i])))
        } else {
            None
        },
    }
}

proof fn lemma_levels_none(
    z_order: Seq<(i32, usize)>,
    k: int,
    m: int,
    natural: Seq<(i32, i32)>,
    verts: Seq<Vert>,
    vi_map: VIMap,
)
    requires
        0 <= k <= m,
        levels_upto(z_order, k, natural, verts, vi_map) is None,
    ensures
        levels_upto(z_order, m, natural, verts, vi_map) is None,
    decreases m - k,
{
    if m > k {
        lemma_levels_none(z_order, k, m - 1, natural, verts, vi_map);
    }
}

fn all_nonempty(warps: &Subtours) -> (r: bool)
    ensures
        r == nonempty_all(views(warps@)),
{
    let mut i: usize = 0;
    while i < warps.len()
        invariant
            i <= warps@.len(),
            forall|k: int| 0 <= k < i ==> #[trigger] warps@[k]@.len() > 0,
        decreases warps@.len() - i,
    {
        if warps[i].len() == 0 {
            assert(views(warps@)[i as int].len() == 0);
            return false;
        }
        i += 1;
    }
    assert forall|k: int| 0 <= k < views(warps@).len() implies #[trigger] views(warps@)[k].len() > 0 by {
        assert(warps@[k]@.len() > 0);
    }
    true
}

/// Weaves the levels of `z_order` from the lowest up with the spool, and
/// closes every thread across `z = 0`.
pub fn weave_levels(spool: &Spool, vi_map: &VIMap, verts: &Verts, z_order: &ZOrder) -> (r: Result<
    Loom,
    WeaveError,
>)
    requires
        spool.colored@ == turned(spool.natural@),
    ensures
        r matches Ok(l) ==> spec_prepare(z_order@, spool.natural@, verts@, *vi_map) == Some(
            thread_views(l@),
        ),
        r is Err ==> r == Err::<Loom, WeaveError>(WeaveError::MalformedInput) && spec_prepare(
            z_order@,
            spool.natural@,
            verts@,
            *vi_map,
        ) is None,
{
    let ghost natural = spool.natural@;
    let mut bobbins: Bobbins = Vec::new();
    let mut loom: Loom = Vec::new();
    let mut k: usize = 0;
    while k < z_order.len()
        invariant
            k <= z_order@.len(),
            natural == spool.natural@,
            spool.colored@ == turned(spool.natural@),
            levels_upto(z_order@, k as int, natural, verts@, *vi_map) == Some::<LoomState>(
                (thread_views(loom@), bobbins@),
            ),
        decreases z_order@.len() - k,
    {
        let (zlevel, order) = z_order[k];
        let ghost st = (thread_views(loom@), bobbins@);
        let warps = match get_warps(zlevel, order, &bobbins, spool, vi_map) {
            Ok(w) => w,
            Err(e) => {
                proof {
                    lemma_levels_none(z_order@, k + 1, z_order@.len() as int, natural, verts@, *vi_map);
                }
                return Err(e);
            },
        };
        if !all_nonempty(&warps) {
            proof {
                lemma_levels_none(z_order@, k + 1, z_order@.len() as int, natural, verts@, *vi_map);
            }
            return Err(WeaveError::MalformedInput);
        }
        let ghost ws = views(warps@);
        let woven = join_threads(&mut loom, &warps);
        let ghost joined = thread_views(loom@);
        affix_loose_threads(&mut loom, warps, woven);
        let ghost l2 = thread_views(loom@);
        assert(l2 == joined + loose_upto(ws, woven@, ws.len() as int));
        if zlevel != -1 {
            match wind_threads(&mut loom, verts, vi_map) {
                Ok(b) => {
                    bobbins = b;
                    assert(thread_views(loom@) =~= Seq::new(l2.len(), |i: int| wound(verts@, *vi_map, l2[i])));
                },
                Err(e) => {
                    proof {
                        lemma_levels_none(z_order@, k + 1, z_order@.len() as int, natural, verts@, *vi_map);
                    }
                    return Err(e);
                },
            }
        }
        k += 1;
    }
    let ghost fin = thread_views(loom@);
    let ghost before = loom@;
    match reflect_loom(&mut loom, verts, vi_map) {
        Ok(()) => {
            assert(thread_views(loom@) =~= Seq::new(fin.len(), |i: int| reflected(verts@, *vi_map, fin[i])));
            Ok(loom)
        },
        Err(e) => {
            proof {
                let i = choose|i: int| 0 <= i < before.len() && !mirrorable(verts@, *vi_map, #[trigger] before[i]@);
                assert(fin[i] == before[i]@);
            }
            Err(e)
        },
    }
}

/// `p` is the level's whole greedy walk.
pub open spec fn spun(z: Seq<(u32, Seq<u32>)>, verts: Seq<Vert>, p: Seq<u32>) -> bool {
    p.len() == z.len() && greedy(z, verts, p)
}

/// The closed threads woven from the greedy walk `p`.
pub open spec fn loom_of(
    z_order: Seq<(i32, usize)>,
    verts: Seq<Vert>,
    vi_map: VIMap,
    p: Seq<u32>,
) -> Option<Seq<Seq<u32>>> {
    if turnable(flat(verts, p)) {
        spec_prepare(z_order, flat(verts, p), verts, vi_map)
    } else {
        None
    }
}

/// The spinner could not finish its walk: the level is empty, its largest
/// id has no vertex, or the walk got stuck.
pub open spec fn spin_fails(z: Seq<(u32, Seq<u32>)>, verts: Seq<Vert>, e: WeaveError) -> bool {
    ||| (e == WeaveError::MalformedInput && (z.len() == 0 || exists|m: u32|
        is_max_key(z, m) && m >= verts.len()))
    ||| (e == WeaveError::NoCandidate && exists|q: Seq<u32>|
        greedy(z, verts, q) && q.len() < z.len() && forall|m: u32|
            !crate::spin::admissible(z, verts, q, z.len() as int, m))
}

/// Spins the level `z = -1`, weaves all the levels below zero and closes
/// each thread across `z = 0`.
pub fn prepare_loom(vi_map: &VIMap, verts: &Verts, z_adj: &SubAdjacency, z_order: &ZOrder) -> (r:
    Result<Loom, WeaveError>)
    ensures
        r matches Ok(l) ==> exists|p: Seq<u32>|
            spun(sub_view(z_adj@), verts@, p) && #[trigger] loom_of(z_order@, verts@, *vi_map, p)
                == Some(thread_views(l@)),
        r matches Err(e) ==> spin_fails(sub_view(z_adj@), verts@, e) || (e
            == WeaveError::MalformedInput && exists|p: Seq<u32>|
            spun(sub_view(z_adj@), verts@, p) && #[trigger] loom_of(z_order@, verts@, *vi_map, p)
                is None),
{
    let spool = spin_and_color_yarn(z_adj, verts);
    let spool = match spool {
        Ok(s) => s,
        Err(e) => {
            proof {
                if e == WeaveError::MalformedInput && !(z_adj@.len() == 0 || exists|m: u32|
                    is_max_key(sub_view(z_adj@), m) && m >= verts@.len()) {
                    let q = choose|q: Seq<u32>|
                        q.len() == z_adj@.len() && greedy(sub_view(z_adj@), verts@, q) && !turnable(
                            #[trigger] flat(verts@, q),
                        );
                    assert(loom_of(z_order@, verts@, *vi_map, q) is None);
                }
            }
            return Err(e);
        },
    };
    let ghost p = choose|p: Seq<u32>|
        p.len() == z_adj@.len() && greedy(sub_view(z_adj@), verts@, p) && #[trigger] flat(verts@, p)
            == spool.natural@ && turned(spool.natural@) == spool.colored@;
    let r = weave_levels(&spool, vi_map, verts, z_order);
    assert(loom_of(z_order@, verts@, *vi_map, p) == spec_prepare(z_order@, spool.natural@, verts@, *vi_map));
    r
}

/// `t` is the tour that the tables give: the level's greedy walk, woven
/// and closed, with its cycles spliced into the first.
pub open spec fn woven_tour(
    adj: Seq<Seq<u32>>,
    vi_map: VIMap,
    verts: Seq<Vert>,
    z: Seq<(u32, Seq<u32>)>,
    z_order: Seq<(i32, usize)>,
    max_xyz: i32,
    t: Seq<u32>,
) -> bool {
    exists|p: Seq<u32>|
        spun(z, verts, p) && match #[trigger] loom_of(z_order, verts, vi_map, p) {
            Some(ls) => stitch_upto(ls, ls.len() as int, adj, verts, vi_map, max_xyz) == Ok::<
                Seq<u32>,
                WeaveError,
            >(t),
            None => false,
        }
}

/// A Hamiltonian cycle of the lattice: the bottom-level walk is spun,
/// woven through the levels, closed across `z = 0`, and the resulting
/// cycles are spliced into one.
pub fn weave(
    adj: &Adjacency,
    vi_map: &VIMap,
    verts: &Verts,
    z_adj: &SubAdjacency,
    z_order: &ZOrder,
    max_xyz: i32,
) -> (r: Result<Vec<u32>, WeaveError>)
    ensures
        r matches Ok(t) ==> woven_tour(
            adj_view(adj@),
            *vi_map,
            verts@,
            sub_view(z_adj@),
            z_order@,
            max_xyz,
            t@,
        ),
        r matches Err(e) ==> spin_fails(sub_view(z_adj@), verts@, e) || exists|p: Seq<u32>|
            spun(sub_view(z_adj@), verts@, p) && match #[trigger] loom_of(
                z_order@,
                verts@,
                *vi_map,
                p,
            ) {
                Some(ls) => stitch_upto(
                    ls,
                    ls.len() as int,
                    adj_view(adj@),
                    verts@,
                    *vi_map,
                    max_xyz,
                ) == Err::<Seq<u32>, WeaveError>(e),
                None => e == WeaveError::MalformedInput,
            },
{
    let loom = prepare_loom(vi_map, verts, z_adj, z_order)?;
    weave_loom(loom, adj, verts, vi_map, max_xyz)
}

/// The tables determine the tour: two tours that both satisfy them are the
/// same.
pub proof fn lemma_weave_deterministic(
    adj: Seq<Seq<u32>>,
    vi_map: VIMap,
    verts: Seq<Vert>,
    z: Seq<(u32, Seq<u32>)>,
    z_order: Seq<(i32, usize)>,
    max_xyz: i32,
    t1: Seq<u32>,
    t2: Seq<u32>,
)
    requires
        woven_tour(adj, vi_map, verts, z, z_order, max_xyz, t1),
        woven_tour(adj, vi_map, verts, z, z_order, max_xyz, t2),
    ensures
        t1 == t2,
{
    let p1 = choose|p: Seq<u32>|
        spun(z, verts, p) && match #[trigger] loom_of(z_order, verts, vi_map, p) {
            Some(ls) => stitch_upto(ls, ls.len() as int, adj, verts, vi_map, max_xyz) == Ok::<
                Seq<u32>,
                WeaveError,
            >(t1),
            None => false,
        };
    let p2 = choose|p: Seq<u32>|
        spun(z, verts, p) && match #[trigger] loom_of(z_order, verts, vi_map, p) {
            Some(ls) => stitch_upto(ls, ls.len() as int, adj, verts, vi_map, max_xyz) == Ok::<
                Seq<u32>,
                WeaveError,
            >(t2),
            None => false,
        };
    crate::spin::lemma_greedy_unique(z, verts, p1, p2);
}

/// A woven tour holds the vertices of the closed threads it was stitched
/// from, each as often as they do.
pub proof fn lemma_weave_keeps_vertices(
    adj: Seq<Seq<u32>>,
    vi_map: VIMap,
    verts: Seq<Vert>,
    z: Seq<(u32, Seq<u32>)>,
    z_order: Seq<(i32, usize)>,
    max_xyz: i32,
    t: Seq<u32>,
) -> (ls: Seq<Seq<u32>>)
    requires
        woven_tour(adj, vi_map, verts, z, z_order, max_xyz, t),
    ensures
        exists|p: Seq<u32>| spun(z, verts, p) && #[trigger] loom_of(z_order, verts, vi_map, p) == Some(ls),
        t.to_multiset() == vertices_upto(ls, ls.len() as int),
{
    let p = choose|p: Seq<u32>|
        spun(z, verts, p) && match #[trigger] loom_of(z_order, verts, vi_map, p) {
            Some(ls) => stitch_upto(ls, ls.len() as int, adj, verts, vi_map, max_xyz) == Ok::<
                Seq<u32>,
                WeaveError,
            >(t),
            None => false,
        };
    let ls = loom_of(z_order, verts, vi_map, p)->Some_0;
    lemma_stitch_keeps_vertices(ls, ls.len() as int, adj, verts, vi_map, max_xyz);
    ls
}

} // verus!
