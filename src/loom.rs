use itertools::Itertools;
use std::collections::VecDeque;
use vstd::prelude::*;

use crate::geometry::{VIMap, Vert, Verts};
use crate::types::WeaveError;

verus! {

/// An open path of vertex ids that is grown at both ends.
pub type Thread = VecDeque<u32>;

/// The threads woven so far.
pub type Loom = Vec<Thread>;

/// The vertex ids at the ends of the threads.
pub type Bobbins = Vec<u32>;

/// Pieces of a slab's path, cut at bobbins.
pub type Subtours = Vec<Vec<u32>>;

/// The indices of the warps that were joined to a thread.
pub type Woven = Vec<usize>;

/// The order in which bobbin positions are sorted.
pub open spec fn ascending() -> spec_fn(usize, usize) -> bool {
    |a: usize, b: usize| a <= b
}

/// Relies on `Itertools::sorted`: the same items in ascending order.
#[verifier::external_body]
fn sorted_positions(v: Vec<usize>) -> (r: Vec<usize>)
    ensures
        r@ == v@.sort_by(ascending()),
{
    v.into_iter().sorted().collect()
}

/// Whether `x` occurs in `s`.
pub fn seq_contains(s: &Vec<u32>, x: u32) -> (r: bool)
    ensures
        r == s@.contains(x),
{
    let mut i: usize = 0;
    while i < s.len()
        invariant
            i <= s@.len(),
            forall|j: int| 0 <= j < i ==> s@[j] != x,
        decreases s@.len() - i,
    {
        if s[i] == x {
            return true;
        }
        i += 1;
    }
    false
}

/// The first index at which `x` occurs in `s`.
pub fn first_position(s: &Vec<u32>, x: u32) -> (r: Option<usize>)
    ensures
        r matches Some(p) ==> s@.index_of_first(x) == Some(p as int),
        r is None ==> s@.index_of_first(x) is None,
{
    let mut i: usize = 0;
    while i < s.len()
        invariant
            i <= s@.len(),
            forall|j: int| 0 <= j < i ==> s@[j] != x,
        decreases s@.len() - i,
    {
        if s[i] == x {
            proof {
                s@.index_of_first_ensures(x);
                let f = s@.index_of_first(x)->Some_0;
                assert(!(f < i) && !(i < f));
            }
            return Some(i);
        }
        i += 1;
    }
    proof {
        s@.index_of_first_ensures(x);
    }
    None
}

/// The positions in `tour` of the bobbins that occur there (the first
/// occurrence of each), in the order of `bobbins`.
pub open spec fn bobbin_positions(tour: Seq<u32>, bobbins: Seq<u32>) -> Seq<usize>
    decreases bobbins.len(),
{
    if bobbins.len() == 0 {
        seq![]
    } else {
        let rest = bobbin_positions(tour, bobbins.drop_last());
        match tour.index_of_first(bobbins.last()) {
            Some(p) => rest.push(p as usize),
            None => rest,
        }
    }
}

/// A piece, turned so that it starts at a bobbin where it can.
pub open spec fn orient(s: Seq<u32>, bobbins: Seq<u32>) -> Seq<u32> {
    if bobbins.contains(s[0]) {
        s
    } else {
        s.reverse()
    }
}

/// The piece `tour[lo..hi]`, oriented, or nothing when it is empty.
pub open spec fn piece(tour: Seq<u32>, lo: int, hi: int, bobbins: Seq<u32>) -> Seq<Seq<u32>> {
    if 0 <= lo < hi <= tour.len() {
        seq![orient(tour.subrange(lo, hi), bobbins)]
    } else {
        seq![]
    }
}

/// The pieces of `tour` after position `prev`, cut at the sorted positions
/// `pos`: each piece ends at a bobbin, except that where the last bobbin is
/// not the last vertex, the piece before it stops short of it and the rest
/// of the tour, from that bobbin on, is a piece of its own.
pub open spec fn cut_from(tour: Seq<u32>, pos: Seq<usize>, prev: int, bobbins: Seq<u32>) -> Seq<
    Seq<u32>,
>
    decreases pos.len(),
{
    if pos.len() == 0 {
        seq![]
    } else if pos.len() == 1 && pos[0] + 1 != tour.len() {
        piece(tour, prev + 1, pos[0] as int, bobbins) + piece(
            tour,
            pos[0] as int,
            tour.len() as int,
            bobbins,
        )
    } else {
        piece(tour, prev + 1, pos[0] + 1, bobbins) + cut_from(
            tour,
            pos.drop_first(),
            pos[0] as int,
            bobbins,
        )
    }
}

/// What `cut_yarn` returns.
pub open spec fn spec_cut(tour: Seq<u32>, bobbins: Seq<u32>) -> Seq<Seq<u32>> {
    cut_from(tour, bobbin_positions(tour, bobbins).sort_by(ascending()), -1, bobbins)
}

pub open spec fn views(v: Seq<Vec<u32>>) -> Seq<Seq<u32>> {
    v.map_values(|w: Vec<u32>| w@)
}

/// A copy of `s[lo..hi]`.
pub fn slice_of(s: &Vec<u32>, lo: usize, hi: usize) -> (r: Vec<u32>)
    requires
        lo <= hi <= s@.len(),
    ensures
        r@ == s@.subrange(lo as int, hi as int),
{
    let mut r: Vec<u32> = Vec::new();
    let mut i: usize = lo;
    while i < hi
        invariant
            lo <= i <= hi <= s@.len(),
            r@ == s@.subrange(lo as int, i as int),
        decreases hi - i,
    {
        r.push(s[i]);
        i += 1;
        assert(r@ =~= s@.subrange(lo as int, i as int));
    }
    r
}

/// `s` read backwards.
pub fn reversed(s: &Vec<u32>) -> (r: Vec<u32>)
    ensures
        r@ == s@.reverse(),
{
    let mut r: Vec<u32> = Vec::new();
    let mut i: usize = s.len();
    while i > 0
        invariant
            i <= s@.len(),
            r@.len() == s@.len() - i,
            forall|k: int| 0 <= k < r@.len() ==> r@[k] == s@[s@.len() - 1 - k],
        decreases i,
    {
        i -= 1;
        r.push(s[i]);
    }
    assert(r@ =~= s@.reverse());
    r
}

fn push_piece(out: &mut Subtours, tour: &Vec<u32>, lo: usize, hi: usize, bobbins: &Vec<u32>)
    requires
        lo <= tour@.len(),
        hi <= tour@.len(),
    ensures
        views(final(out)@) == views(old(out)@) + piece(tour@, lo as int, hi as int, bobbins@),
{
    if lo < hi {
        let s = slice_of(tour, lo, hi);
        let p = if seq_contains(bobbins, s[0]) {
            s
        } else {
            reversed(&s)
        };
        out.push(p);
        assert(views(final(out)@) =~= views(old(out)@) + piece(tour@, lo as int, hi as int, bobbins@));
    } else {
        assert(views(old(out)@) + piece(tour@, lo as int, hi as int, bobbins@) =~= views(old(out)@));
    }
}

/// Cuts `tour` at the bobbins that lie on it, turning each piece so that
/// it starts at a bobbin where it can; empty pieces are dropped.
pub fn cut_yarn(tour: Vec<u32>, subset: &Bobbins) -> (r: Subtours)
    ensures
        views(r@) == spec_cut(tour@, subset@),
{
    let mut found: Vec<usize> = Vec::new();
    let mut i: usize = 0;
    while i < subset.len()
        invariant
            i <= subset@.len(),
            found@ == bobbin_positions(tour@, subset@.subrange(0, i as int)),
            forall|k: int| 0 <= k < found@.len() ==> found@[k] < tour@.len(),
        decreases subset@.len() - i,
    {
        let b = subset[i];
        let ghost before = subset@.subrange(0, i as int);
        assert(subset@.subrange(0, i + 1).drop_last() =~= before);
        proof {
            tour@.index_of_first_ensures(b);
        }
        match first_position(&tour, b) {
            Some(p) => {
                found.push(p);
            },
            None => {},
        }
        i += 1;
    }
    assert(subset@.subrange(0, subset@.len() as int) =~= subset@);
    let ghost unsorted = found@;
    let pos = sorted_positions(found);
    proof {
        let leq = ascending();
        assert(vstd::relations::total_ordering(leq));
        unsorted.lemma_sort_by_ensures(leq);
        assert forall|k: int| 0 <= k < pos@.len() implies pos@[k] < tour@.len() by {
            assert(pos@.contains(pos@[k]));
        }
    }
    let n = pos.len();
    let mut out: Subtours = Vec::new();
    let mut start: usize = 0;
    let mut e: usize = 0;
    assert(pos@.subrange(0, n as int) =~= pos@);
    while e < n
        invariant
            n == pos@.len(),
            e <= n,
            start <= tour@.len(),
            forall|k: int| 0 <= k < n ==> pos@[k] < tour@.len(),
            pos@ == unsorted.sort_by(ascending()),
            unsorted == bobbin_positions(tour@, subset@),
            views(out@) + cut_from(tour@, pos@.subrange(e as int, n as int), start - 1, subset@)
                == spec_cut(tour@, subset@),
        decreases n - e,
    {
        let ghost rest = pos@.subrange(e as int, n as int);
        let ghost before = views(out@);
        let idx = pos[e];
        let tl = tour.len();
        assert(pos@[e as int] < tour@.len());
        assert(idx < tl);
        assert(rest.drop_first() =~= pos@.subrange(e + 1, n as int));
        if e + 1 == n && idx + 1 != tl {
            push_piece(&mut out, &tour, start, idx, subset);
            push_piece(&mut out, &tour, idx, tour.len(), subset);
            assert(views(out@) =~= before + cut_from(tour@, rest, start - 1, subset@));
            assert(pos@.subrange(n as int, n as int) =~= Seq::<usize>::empty());
        } else {
            push_piece(&mut out, &tour, start, idx + 1, subset);
            assert(views(out@) + cut_from(tour@, pos@.subrange(e + 1, n as int), idx as int, subset@)
                =~= before + cut_from(tour@, rest, start - 1, subset@));
            start = idx + 1;
        }
        e += 1;
    }
    assert(views(out@) =~= spec_cut(tour@, subset@));
    out
}

pub open spec fn thread_views(l: Seq<Thread>) -> Seq<Seq<u32>> {
    l.map_values(|t: Thread| t@)
}

/// Whether `x` occurs in `s`.
pub fn index_contains(s: &Vec<usize>, x: usize) -> (r: bool)
    ensures
        r == s@.contains(x),
{
    let mut i: usize = 0;
    while i < s.len()
        invariant
            i <= s@.len(),
            forall|j: int| 0 <= j < i ==> s@[j] != x,
        decreases s@.len() - i,
    {
        if s[i] == x {
            return true;
        }
        i += 1;
    }
    false
}

/// A copy of a thread.
pub fn copy_thread(t: &Thread) -> (r: Thread)
    ensures
        r@ == t@,
{
    let mut r: Thread = VecDeque::new();
    let mut i: usize = 0;
    while i < t.len()
        invariant
            i <= t@.len(),
            r@ == t@.subrange(0, i as int),
        decreases t@.len() - i,
    {
        r.push_back(t[i]);
        i += 1;
        assert(r@ =~= t@.subrange(0, i as int));
    }
    assert(r@ =~= t@);
    r
}

/// Joins warps `j..` to `thread` in turn: a warp not yet woven that starts
/// at the thread's front is laid, reversed and without its first vertex,
/// before it; one that starts at its back is laid after it. Gives the thread
/// and the woven indices.
pub open spec fn join_from(thread: Seq<u32>, warps: Seq<Seq<u32>>, woven: Seq<usize>, j: int) -> (
    Seq<u32>,
    Seq<usize>,
)
    decreases warps.len() - j,
{
    if j < 0 || j >= warps.len() {
        (thread, woven)
    } else if woven.contains(j as usize) || thread.len() == 0 {
        join_from(thread, warps, woven, j + 1)
    } else if thread[0] == warps[j][0] {
        join_from(warps[j].drop_first().reverse() + thread, warps, woven.push(j as usize), j + 1)
    } else if thread.last() == warps[j][0] {
        join_from(thread + warps[j].drop_first(), warps, woven.push(j as usize), j + 1)
    } else {
        join_from(thread, warps, woven, j + 1)
    }
}

/// The first `t` threads after joining, and the warps woven so far.
pub open spec fn join_upto(loom: Seq<Seq<u32>>, warps: Seq<Seq<u32>>, t: int) -> (
    Seq<Seq<u32>>,
    Seq<usize>,
)
    decreases t,
{
    if t <= 0 {
        (seq![], seq![])
    } else {
        let (done, woven) = join_upto(loom, warps, t - 1);
        let (th, w) = join_from(loom[t - 1], warps, woven, 0);
        (done.push(th), w)
    }
}

pub open spec fn nonempty_all(warps: Seq<Seq<u32>>) -> bool {
    forall|k: int| 0 <= k < warps.len() ==> #[trigger] warps[k].len() > 0
}

/// Joins the warps to the ends of the threads of `loom`, each warp at most
/// once, and gives the indices of the warps that were used.
pub fn join_threads(loom: &mut Loom, warps: &Subtours) -> (r: Woven)
    requires
        nonempty_all(views(warps@)),
    ensures
        (thread_views(final(loom)@), r@) == join_upto(
            thread_views(old(loom)@),
            views(warps@),
            old(loom)@.len() as int,
        ),
{
    let ghost ws = views(warps@);
    let ghost l0 = thread_views(loom@);
    let mut woven: Woven = Vec::new();
    let mut done: Loom = Vec::new();
    let mut t: usize = 0;
    while t < loom.len()
        invariant
            t <= loom@.len(),
            l0 == thread_views(loom@),
            ws == views(warps@),
            nonempty_all(ws),
            (thread_views(done@), woven@) == join_upto(l0, ws, t as int),
        decreases loom@.len() - t,
    {
        let ghost w0 = woven@;
        let mut thread = copy_thread(&loom[t]);
        let mut j: usize = 0;
        while j < warps.len()
            invariant
                j <= warps@.len(),
                ws == views(warps@),
                nonempty_all(ws),
                join_from(thread@, ws, woven@, j as int) == join_from(l0[t as int], ws, w0, 0),
            decreases warps@.len() - j,
        {
            let warp = &warps[j];
            assert(ws[j as int] == warp@);
            assert(warp@.len() > 0);
            if !index_contains(&woven, j) && thread.len() > 0 {
                let last = thread.len() - 1;
                if thread[0] == warp[0] {
                    let ghost old_t = thread@;
                    let mut k: usize = 1;
                    while k < warp.len()
                        invariant
                            1 <= k <= warp@.len(),
                            thread@ == warp@.subrange(1, k as int).reverse() + old_t,
                        decreases warp@.len() - k,
                    {
                        thread.push_front(warp[k]);
                        k += 1;
                        assert(warp@.subrange(1, k as int).reverse() =~= seq![warp@[k - 1]]
                            + warp@.subrange(1, k - 1).reverse());
                        assert(thread@ =~= warp@.subrange(1, k as int).reverse() + old_t);
                    }
                    assert(warp@.subrange(1, warp@.len() as int) =~= warp@.drop_first());
                    woven.push(j);
                } else if thread[last] == warp[0] {
                    let ghost old_t = thread@;
                    let mut k: usize = 1;
                    while k < warp.len()
                        invariant
                            1 <= k <= warp@.len(),
                            thread@ == old_t + warp@.subrange(1, k as int),
                        decreases warp@.len() - k,
                    {
                        thread.push_back(warp[k]);
                        k += 1;
                        assert(thread@ =~= old_t + warp@.subrange(1, k as int));
                    }
                    assert(warp@.subrange(1, warp@.len() as int) =~= warp@.drop_first());
                    woven.push(j);
                }
            }
            j += 1;
        }
        done.push(thread);
        assert(thread_views(done@) =~= join_upto(l0, ws, t + 1).0);
        t += 1;
    }
    assert(thread_views(done@) =~= join_upto(l0, ws, loom@.len() as int).0);
    *loom = done;
    woven
}

/// The warps among the first `k` whose indices are not in `woven`, as threads.
pub open spec fn loose_upto(warps: Seq<Seq<u32>>, woven: Seq<usize>, k: int) -> Seq<Seq<u32>>
    decreases k,
{
    if k <= 0 {
        seq![]
    } else if woven.contains((k - 1) as usize) {
        loose_upto(warps, woven, k - 1)
    } else {
        loose_upto(warps, woven, k - 1).push(warps[k - 1])
    }
}

/// Adds each warp that was not woven into a thread as a thread of its own.
pub fn affix_loose_threads(loom: &mut Loom, warps: Subtours, woven: Woven)
    ensures
        thread_views(final(loom)@) == thread_views(old(loom)@) + loose_upto(
            views(warps@),
            woven@,
            warps@.len() as int,
        ),
{
    let ghost l0 = thread_views(loom@);
    let ghost ws = views(warps@);
    let mut i: usize = 0;
    while i < warps.len()
        invariant
            i <= warps@.len(),
            ws == views(warps@),
            thread_views(loom@) == l0 + loose_upto(ws, woven@, i as int),
        decreases warps@.len() - i,
    {
        let ghost before = thread_views(loom@);
        let used = index_contains(&woven, i);
        assert(((i + 1 - 1) as usize) == i);
        if !used {
            let w = &warps[i];
            let mut t: Thread = VecDeque::new();
            let mut k: usize = 0;
            while k < w.len()
                invariant
                    k <= w@.len(),
                    t@ == w@.subrange(0, k as int),
                decreases w@.len() - k,
            {
                t.push_back(w[k]);
                k += 1;
                assert(t@ =~= w@.subrange(0, k as int));
            }
            assert(t@ =~= ws[i as int]);
            loom.push(t);
            assert(thread_views(loom@) =~= before.push(ws[i as int]));
            assert(loose_upto(ws, woven@, i + 1) == loose_upto(ws, woven@, i as int).push(ws[i as int]));
            assert(thread_views(loom@) =~= l0 + loose_upto(ws, woven@, i + 1));
        } else {
            assert(loose_upto(ws, woven@, i + 1) == loose_upto(ws, woven@, i as int));
        }
        i += 1;
    }
}

/// The id of the vertex two above `n`, if the tables hold one.
pub open spec fn upper(verts: Seq<Vert>, vi_map: VIMap, n: u32) -> Option<u32> {
    if n < verts.len() && verts[n as int].2 <= i32::MAX - 2 {
        let v = verts[n as int];
        vi_map.lookup((v.0, v.1, (v.2 + 2) as i32))
    } else {
        None
    }
}

/// Every thread has ends, and each end has a vertex above it.
pub open spec fn windable(verts: Seq<Vert>, vi_map: VIMap, l: Seq<Seq<u32>>) -> bool {
    forall|i: int|
        0 <= i < l.len() ==> #[trigger] l[i].len() > 0 && upper(verts, vi_map, l[i][0]) is Some
            && upper(verts, vi_map, l[i].last()) is Some
}

/// A thread extended at both ends by the vertices above them.
pub open spec fn wound(verts: Seq<Vert>, vi_map: VIMap, t: Seq<u32>) -> Seq<u32> {
    seq![upper(verts, vi_map, t[0])->Some_0] + t + seq![upper(verts, vi_map, t.last())->Some_0]
}

/// The new ends of the first `k` threads, front then back.
pub open spec fn new_bobbins(verts: Seq<Vert>, vi_map: VIMap, l: Seq<Seq<u32>>, k: int) -> Seq<u32>
    decreases k,
{
    if k <= 0 {
        seq![]
    } else {
        let w = wound(verts, vi_map, l[k - 1]);
        new_bobbins(verts, vi_map, l, k - 1) + seq![w[0], w.last()]
    }
}

fn upper_node(verts: &Verts, vi_map: &VIMap, n: u32) -> (r: Option<u32>)
    ensures
        r == upper(verts@, *vi_map, n),
{
    if (n as usize) < verts.len() {
        let v = verts[n as usize];
        if v.2 <= i32::MAX - 2 {
            return vi_map.get(&(v.0, v.1, v.2 + 2));
        }
    }
    None
}

/// Extends every thread at both ends by the vertex two above each end, and
/// gives the new ends; the loom is left as it was where one is missing.
pub fn wind_threads(loom: &mut Loom, verts: &Verts, vi_map: &VIMap) -> (r: Result<
    Bobbins,
    WeaveError,
>)
    ensures
        r is Ok <==> windable(verts@, *vi_map, thread_views(old(loom)@)),
        r matches Ok(b) ==> {
            &&& final(loom)@.len() == old(loom)@.len()
            &&& forall|i: int|
                0 <= i < old(loom)@.len() ==> #[trigger] final(loom)@[i]@ == wound(
                    verts@,
                    *vi_map,
                    old(loom)@[i]@,
                )
            &&& b@ == new_bobbins(verts@, *vi_map, thread_views(old(loom)@), old(loom)@.len() as int)
        },
        r is Err ==> r == Err::<Bobbins, WeaveError>(WeaveError::MalformedInput) && final(loom)@
            == old(loom)@,
{
    let ghost l0 = thread_views(loom@);
    let mut bobbins: Bobbins = Vec::new();
    let mut out: Loom = Vec::new();
    let mut i: usize = 0;
    while i < loom.len()
        invariant
            i <= loom@.len(),
            l0 == thread_views(loom@),
            windable(verts@, *vi_map, l0.subrange(0, i as int)),
            out@.len() == i,
            forall|k: int| 0 <= k < i ==> #[trigger] out@[k]@ == wound(verts@, *vi_map, l0[k]),
            bobbins@ == new_bobbins(verts@, *vi_map, l0, i as int),
        decreases loom@.len() - i,
    {
        let t = &loom[i];
        assert(l0[i as int] == t@);
        if t.len() == 0 {
            assert(!windable(verts@, *vi_map, l0));
            return Err(WeaveError::MalformedInput);
        }
        let left = upper_node(verts, vi_map, t[0]);
        let right = upper_node(verts, vi_map, t[t.len() - 1]);
        match (left, right) {
            (Some(a), Some(b)) => {
                let mut w = copy_thread(t);
                w.push_front(a);
                w.push_back(b);
                assert(w@ =~= wound(verts@, *vi_map, l0[i as int]));
                out.push(w);
                bobbins.push(a);
                bobbins.push(b);
                assert(bobbins@ =~= new_bobbins(verts@, *vi_map, l0, i + 1));
                assert(windable(verts@, *vi_map, l0.subrange(0, i + 1))) by {
                    assert forall|k: int| 0 <= k < i + 1 implies #[trigger] l0.subrange(0, i + 1)[k]
                        == l0.subrange(0, i as int + 0)[k] || k == i by {}
                }
            },
            _ => {
                assert(!windable(verts@, *vi_map, l0)) by {
                    assert(l0[i as int].len() > 0);
                }
                return Err(WeaveError::MalformedInput);
            },
        }
        i += 1;
    }
    assert(l0.subrange(0, loom@.len() as int) =~= l0);
    *loom = out;
    Ok(bobbins)
}

/// The id of the mirror image of `n` through `z = 0`, if the tables hold one.
pub open spec fn mirror(verts: Seq<Vert>, vi_map: VIMap, n: u32) -> Option<u32> {
    if n < verts.len() && verts[n as int].2 != i32::MIN {
        let v = verts[n as int];
        vi_map.lookup((v.0, v.1, (-v.2) as i32))
    } else {
        None
    }
}

pub open spec fn mirrorable(verts: Seq<Vert>, vi_map: VIMap, t: Seq<u32>) -> bool {
    forall|k: int| 0 <= k < t.len() ==> #[trigger] mirror(verts, vi_map, t[k]) is Some
}

/// A thread followed by the mirror images of its vertices, last first.
pub open spec fn reflected(verts: Seq<Vert>, vi_map: VIMap, t: Seq<u32>) -> Seq<u32> {
    t + Seq::new(t.len(), |k: int| mirror(verts, vi_map, t[t.len() - 1 - k])->Some_0)
}

fn mirror_node(verts: &Verts, vi_map: &VIMap, n: u32) -> (r: Option<u32>)
    ensures
        r == mirror(verts@, *vi_map, n),
{
    if (n as usize) < verts.len() {
        let v = verts[n as usize];
        if v.2 != i32::MIN {
            return vi_map.get(&(v.0, v.1, -v.2));
        }
    }
    None
}

/// Read front to back, the heights of `s` are symmetric about zero.
pub open spec fn z_symmetric(verts: Seq<Vert>, s: Seq<u32>) -> bool {
    forall|k: int|
        #![trigger s[k]]
        0 <= k < s.len() ==> verts[s[k] as int].2 == -verts[s[s.len() - 1 - k] as int].2
}

/// Closes a thread across `z = 0`: appends the mirror images of its
/// vertices in reverse order. Read front to back, the heights of the result
/// are symmetric about zero.
pub fn reflect_thread(t: &Thread, verts: &Verts, vi_map: &VIMap) -> (r: Result<Thread, WeaveError>)
    ensures
        r is Ok <==> mirrorable(verts@, *vi_map, t@),
        r matches Ok(u) ==> u@ == reflected(verts@, *vi_map, t@),
        r matches Ok(u) ==> vi_map.indexes(verts@) ==> z_symmetric(verts@, u@),
        r is Err ==> r == Err::<Thread, WeaveError>(WeaveError::MalformedInput),
{
    let n = t.len();
    let mut u = copy_thread(t);
    let mut i: usize = n;
    while i > 0
        invariant
            i <= n == t@.len(),
            mirrorable(verts@, *vi_map, t@.subrange(i as int, n as int)),
            u@.len() == n + (n - i),
            u@.subrange(0, n as int) == t@,
            forall|k: int| 0 <= k < n - i ==> #[trigger] u@[n + k] == mirror(verts@, *vi_map, t@[n - 1 - k])->Some_0,
        decreases i,
    {
        i -= 1;
        match mirror_node(verts, vi_map, t[i]) {
            Some(m) => {
                let ghost before = u@;
                u.push_back(m);
                assert(u@.subrange(0, n as int) =~= before.subrange(0, n as int));
                assert(mirrorable(verts@, *vi_map, t@.subrange(i as int, n as int))) by {
                    assert forall|k: int| 0 <= k < n - i implies #[trigger] mirror(verts@, *vi_map, t@.subrange(i as int, n as int)[k]) is Some by {
                        if k > 0 {
                            assert(t@.subrange(i as int, n as int)[k] == t@.subrange(i + 1, n as int)[k - 1]);
                        }
                    }
                }
            },
            None => {
                assert(!mirrorable(verts@, *vi_map, t@));
                return Err(WeaveError::MalformedInput);
            },
        }
    }
    assert(t@.subrange(0, n as int) =~= t@);
    assert forall|k: int| 0 <= k < n implies u@[k] == t@[k] by {
        assert(u@.subrange(0, n as int)[k] == u@[k]);
    }
    assert forall|k: int| n <= k < 2 * n implies u@[k] == reflected(verts@, *vi_map, t@)[k] by {
        assert(u@[n + (k - n)] == mirror(verts@, *vi_map, t@[n - 1 - (k - n)])->Some_0);
    }
    assert(u@ =~= reflected(verts@, *vi_map, t@));
    proof {
        if vi_map.indexes(verts@) {
            assert forall|k: int| 0 <= k < u@.len() implies #[trigger] verts@[u@[k] as int].2 == -verts@[u@[u@.len() - 1 - k] as int].2 by {
                let j = if k < n { k } else { u@.len() - 1 - k };
                let m = mirror(verts@, *vi_map, t@[j])->Some_0;
                assert(u@[n + (n - 1 - j)] == m);
                let v = verts@[t@[j] as int];
                assert(vi_map.lookup((v.0, v.1, (-v.2) as i32)) == Some(m));
                assert(verts@[m as int] == (v.0, v.1, (-v.2) as i32));
            }
        }
    }
    Ok(u)
}

/// Closes every thread across `z = 0` (see `reflect_thread`); the loom is
/// left as it was where a mirror image is missing.
pub fn reflect_loom(loom: &mut Loom, verts: &Verts, vi_map: &VIMap) -> (r: Result<(), WeaveError>)
    ensures
        r is Ok <==> forall|i: int|
            0 <= i < old(loom)@.len() ==> mirrorable(verts@, *vi_map, #[trigger] old(loom)@[i]@),
        r is Ok ==> final(loom)@.len() == old(loom)@.len() && forall|i: int|
            0 <= i < old(loom)@.len() ==> #[trigger] final(loom)@[i]@ == reflected(
                verts@,
                *vi_map,
                old(loom)@[i]@,
            ),
        r is Err ==> r == Err::<(), WeaveError>(WeaveError::MalformedInput) && final(loom)@ == old(
            loom,
        )@,
{
    let mut out: Loom = Vec::new();
    let mut i: usize = 0;
    while i < loom.len()
        invariant
            i <= loom@.len(),
            out@.len() == i,
            forall|k: int| 0 <= k < i ==> mirrorable(verts@, *vi_map, #[trigger] loom@[k]@),
            forall|k: int| 0 <= k < i ==> #[trigger] out@[k]@ == reflected(verts@, *vi_map, loom@[k]@),
        decreases loom@.len() - i,
    {
        match reflect_thread(&loom[i], verts, vi_map) {
            Ok(u) => {
                out.push(u);
            },
            Err(e) => {
                return Err(e);
            },
        }
        i += 1;
    }
    *loom = out;
    Ok(())
}

/// The pieces `ps` are the slices `tour[b[i]..b[i + 1]]`, each read forwards
/// or backwards, and the boundaries `b` run from `b[0]` to the end of the tour.
pub open spec fn tiles(tour: Seq<u32>, ps: Seq<Seq<u32>>, b: Seq<int>) -> bool {
    &&& b.len() == ps.len() + 1
    &&& b[b.len() - 1] == tour.len()
    &&& forall|i: int| 0 <= i < b.len() ==> 0 <= #[trigger] b[i] <= tour.len()
    &&& forall|i: int| 0 <= i < ps.len() ==> #[trigger] laid(tour, ps, b, i)
}

/// Piece `i` is the slice between boundaries `i` and `i + 1`, read either way.
pub open spec fn laid(tour: Seq<u32>, ps: Seq<Seq<u32>>, b: Seq<int>, i: int) -> bool {
    &&& b[i] < b[i + 1]
    &&& (ps[i] == tour.subrange(b[i], b[i + 1]) || ps[i] == tour.subrange(b[i], b[i + 1]).reverse())
}

proof fn lemma_tiles_prepend(tour: Seq<u32>, ps: Seq<Seq<u32>>, b: Seq<int>, lo: int, bobbins: Seq<u32>)
    requires
        tiles(tour, ps, b),
        0 <= lo < b[0],
    ensures
        tiles(tour, piece(tour, lo, b[0], bobbins) + ps, seq![lo] + b),
{
    let q = piece(tour, lo, b[0], bobbins) + ps;
    let c = seq![lo] + b;
    assert(0 <= b[0] <= tour.len());
    assert(piece(tour, lo, b[0], bobbins).len() == 1);
    assert(q.len() == ps.len() + 1);
    assert(c.len() == b.len() + 1);
    assert(c[c.len() - 1] == b[b.len() - 1]);
    assert forall|i: int| 0 <= i < c.len() implies 0 <= #[trigger] c[i] <= tour.len() by {
        if i > 0 {
            assert(c[i] == b[i - 1]);
        }
    }
    assert forall|i: int| 0 <= i < q.len() implies #[trigger] laid(tour, q, c, i) by {
        if i > 0 {
            assert(q[i] == ps[i - 1]);
            assert(c[i] == b[i - 1] && c[i + 1] == b[i]);
            let k = i - 1;
            assert(0 <= k < ps.len());
            assert(laid(tour, ps, b, k));
        } else {
            assert(c[1] == b[0]);
            assert(q[0] == orient(tour.subrange(lo, b[0]), bobbins));
        }
    }
    assert(c.len() == q.len() + 1);
    assert(c[c.len() - 1] == tour.len());
}

proof fn lemma_cut_from_tiles(tour: Seq<u32>, pos: Seq<usize>, prev: int, bobbins: Seq<u32>)
    requires
        pos.len() > 0,
        vstd::relations::sorted_by(pos, ascending()),
        pos.no_duplicates(),
        forall|k: int| 0 <= k < pos.len() ==> #[trigger] pos[k] < tour.len(),
        -1 <= prev < pos[0],
    ensures
        exists|b: Seq<int>| b.len() > 0 && b[0] == prev + 1 && tiles(tour, cut_from(tour, pos, prev, bobbins), b),
    decreases pos.len(),
{
    let n = tour.len() as int;
    let p0 = pos[0] as int;
    let cut = cut_from(tour, pos, prev, bobbins);
    if pos.len() == 1 && p0 + 1 != n {
        let tail = piece(tour, p0, n, bobbins);
        let b1 = seq![p0, n];
        assert(laid(tour, tail, b1, 0));
        assert(tiles(tour, tail, b1));
        if prev + 1 < p0 {
            lemma_tiles_prepend(tour, tail, b1, prev + 1, bobbins);
            let w = seq![prev + 1] + b1;
            assert(cut == piece(tour, prev + 1, p0, bobbins) + tail);
            assert(tiles(tour, cut, w) && w[0] == prev + 1);
        } else {
            assert(cut =~= tail);
            assert(tiles(tour, cut, b1) && b1[0] == prev + 1);
        }
    } else {
        let rest = pos.drop_first();
        if rest.len() == 0 {
            let b1 = seq![n];
            assert(p0 == n - 1);
            assert(tiles(tour, seq![], b1));
            assert(cut == piece(tour, prev + 1, p0 + 1, bobbins) + cut_from(tour, rest, p0, bobbins));
            if prev < p0 {
                lemma_tiles_prepend(tour, seq![], b1, prev + 1, bobbins);
                let w = seq![prev + 1] + b1;
                assert(cut =~= piece(tour, prev + 1, p0 + 1, bobbins) + seq![]);
                assert(tiles(tour, cut, w) && w[0] == prev + 1);
            } else {
                assert(cut =~= seq![]);
                assert(tiles(tour, cut, b1) && b1[0] == prev + 1);
            }
        } else {
            assert(vstd::relations::sorted_by(rest, ascending())) by {
                assert forall|i: int, j: int| 0 <= i < j < rest.len() implies #[trigger] ascending()(rest[i], rest[j]) by {
                    assert(ascending()(pos[i + 1], pos[j + 1]));
                }
            }
            assert(ascending()(pos[0], pos[1]));
            assert(rest[0] == pos[1]);
            assert(pos[0] != pos[1]);
            assert(rest.no_duplicates()) by {
                assert forall|i: int, j: int| 0 <= i < j < rest.len() implies rest[i] != rest[j] by {
                    assert(rest[i] == pos[i + 1] && rest[j] == pos[j + 1]);
                }
            }
            lemma_cut_from_tiles(tour, rest, p0, bobbins);
            let tl = cut_from(tour, rest, p0, bobbins);
            let b1 = choose|b: Seq<int>| b.len() > 0 && b[0] == p0 + 1 && tiles(tour, tl, b);
            assert(cut == piece(tour, prev + 1, p0 + 1, bobbins) + tl);
            if prev < p0 {
                lemma_tiles_prepend(tour, tl, b1, prev + 1, bobbins);
                let w = seq![prev + 1] + b1;
                assert(tiles(tour, cut, w) && w[0] == prev + 1);
            } else {
                assert(cut =~= tl);
                assert(tiles(tour, cut, b1) && b1[0] == prev + 1);
            }
        }
    }
}

/// Where a bobbin lies on the tour, the pieces that `cut_yarn` returns,
/// each read back in its own direction, lay the tour out end to end.
pub proof fn lemma_cut_restores(tour: Seq<u32>, bobbins: Seq<u32>)
    requires
        tour.len() <= usize::MAX,
        bobbins.no_duplicates(),
        exists|k: int| 0 <= k < bobbins.len() && tour.contains(#[trigger] bobbins[k]),
    ensures
        exists|b: Seq<int>| b.len() > 0 && b[0] == 0 && tiles(tour, spec_cut(tour, bobbins), b),
{
    let found = bobbin_positions(tour, bobbins);
    lemma_positions(tour, bobbins);
    let pos = found.sort_by(ascending());
    found.lemma_sort_by_ensures(ascending());
    found.to_multiset_ensures();
    pos.to_multiset_ensures();
    assert(pos.len() > 0) by {
        assert(found.contains(found[0]));
        assert(pos.to_multiset().count(found[0]) > 0);
    }
    assert forall|k: int| 0 <= k < pos.len() implies #[trigger] pos[k] < tour.len() by {
        assert(pos.contains(pos[k]));
        assert(found.to_multiset().count(pos[k]) > 0);
    }
    found.lemma_multiset_has_no_duplicates();
    assert forall|x: usize| pos.to_multiset().contains(x) implies pos.to_multiset().count(x) == 1 by {
        assert(found.to_multiset().contains(x));
    }
    pos.lemma_multiset_has_no_duplicates_conv();
    lemma_cut_from_tiles(tour, pos, -1, bobbins);
}

proof fn lemma_positions(tour: Seq<u32>, bobbins: Seq<u32>)
    requires
        tour.len() <= usize::MAX,
    ensures
        bobbins.no_duplicates() ==> bobbin_positions(tour, bobbins).no_duplicates(),
        forall|k: int| 0 <= k < bobbin_positions(tour, bobbins).len() ==> bobbins.contains(
            tour[#[trigger] bobbin_positions(tour, bobbins)[k] as int],
        ),
        (exists|k: int| 0 <= k < bobbins.len() && tour.contains(#[trigger] bobbins[k])) ==> bobbin_positions(tour, bobbins).len() > 0,
        forall|k: int| 0 <= k < bobbin_positions(tour, bobbins).len() ==> #[trigger] bobbin_positions(tour, bobbins)[k] < tour.len(),
    decreases bobbins.len(),
{
    if bobbins.len() > 0 {
        let rest = bobbins.drop_last();
        lemma_positions(tour, rest);
        tour.index_of_first_ensures(bobbins.last());
        if exists|k: int| 0 <= k < bobbins.len() && tour.contains(#[trigger] bobbins[k]) {
            let k = choose|k: int| 0 <= k < bobbins.len() && tour.contains(#[trigger] bobbins[k]);
            if k < bobbins.len() - 1 {
                assert(rest[k] == bobbins[k]);
            }
        }
        let r = bobbin_positions(tour, rest);
        let all = bobbin_positions(tour, bobbins);
        match tour.index_of_first(bobbins.last()) {
            Some(p) => {
                assert(all == r.push(p as usize));
                assert(0 <= p < tour.len() && tour[p] == bobbins.last());
                assert(all[r.len() as int] as int == p);
            },
            None => {
                assert(all == r);
            },
        }
        assert forall|k: int| 0 <= k < all.len() implies #[trigger] all[k] < tour.len() && bobbins.contains(tour[all[k] as int]) by {
            if k < r.len() {
                assert(all[k] == r[k]);
                let j = choose|j: int| 0 <= j < rest.len() && rest[j] == tour[r[k] as int];
                assert(bobbins[j] == rest[j]);
            } else {
                assert(bobbins[bobbins.len() - 1] == bobbins.last());
            }
        }
        if bobbins.no_duplicates() {
            assert(rest.no_duplicates()) by {
                assert forall|i: int, j: int| 0 <= i < j < rest.len() implies rest[i] != rest[j] by {
                    assert(rest[i] == bobbins[i] && rest[j] == bobbins[j]);
                }
            }
            assert forall|i: int, j: int| 0 <= i < j < all.len() implies all[i] != all[j] by {
                if j >= r.len() {
                    assert(all[i] == r[i]);
                    assert(tour[all[j] as int] == bobbins.last());
                    let m = choose|m: int| 0 <= m < rest.len() && rest[m] == tour[r[i] as int];
                    assert(bobbins[m] == rest[m]);
                    assert(bobbins[bobbins.len() - 1] == bobbins.last());
                } else {
                    assert(all[i] == r[i] && all[j] == r[j]);
                }
            }
        }
    }
}

/// Joining warps to an empty loom joins none of them, so every warp becomes
/// a thread of its own, in order.
pub proof fn lemma_join_empty_loom(warps: Seq<Seq<u32>>)
    ensures
        join_upto(seq![], warps, 0) == (Seq::<Seq<u32>>::empty(), Seq::<usize>::empty()),
        loose_upto(warps, seq![], warps.len() as int) == warps,
{
    lemma_loose_none(warps, warps.len() as int);
}

proof fn lemma_loose_none(warps: Seq<Seq<u32>>, k: int)
    requires
        0 <= k <= warps.len(),
    ensures
        loose_upto(warps, seq![], k) == warps.subrange(0, k),
    decreases k,
{
    if k > 0 {
        lemma_loose_none(warps, k - 1);
        assert(warps.subrange(0, k) =~= warps.subrange(0, k - 1).push(warps[k - 1]));
    } else {
        assert(warps.subrange(0, 0) =~= Seq::<Seq<u32>>::empty());
    }
}

/// Joining again warps that were all woven already leaves the thread as it
/// is.
pub proof fn lemma_join_woven_idempotent(thread: Seq<u32>, warps: Seq<Seq<u32>>, woven: Seq<usize>, j: int)
    requires
        0 <= j,
        forall|k: int| j <= k < warps.len() ==> #[trigger] woven.contains(k as usize),
    ensures
        join_from(thread, warps, woven, j) == (thread, woven),
    decreases warps.len() - j,
{
    if j < warps.len() {
        lemma_join_woven_idempotent(thread, warps, woven, j + 1);
    }
}

} // verus!
