use vstd::prelude::*;

use crate::geometry::{absum, absumv, axis, axis_of, VIMap, Vert, Verts};
use crate::loom::{cut_yarn, spec_cut, views, Bobbins, Subtours};
use crate::shrink::{sub_view, SubAdjacency};
use crate::types::WeaveError;

verus! {

/// The `(x, y)` points of a path through one level.
pub type Yarn = Vec<(i32, i32)>;

/// The vertices that carry an entry in an induced adjacency.
pub open spec fn keys(z: Seq<(u32, Seq<u32>)>) -> Seq<u32> {
    z.map_values(|e: (u32, Seq<u32>)| e.0)
}

/// The neighbours of `n` in its first entry, if it has one.
pub open spec fn nbrs(z: Seq<(u32, Seq<u32>)>, n: u32) -> Seq<u32> {
    match keys(z).index_of_first(n) {
        Some(k) => z[k].1,
        None => seq![],
    }
}

/// `n` may follow `path`: it neighbours the last vertex, is not yet on the
/// path, and, within the last five steps of `order`, turns to another axis.
pub open spec fn admissible(
    z: Seq<(u32, Seq<u32>)>,
    verts: Seq<Vert>,
    path: Seq<u32>,
    order: int,
    n: u32,
) -> bool {
    let curr = path.last();
    &&& nbrs(z, curr).contains(n)
    &&& !path.contains(n)
    &&& n < verts.len()
    &&& (path.len() + 5 < order || path.len() < 2 || axis_of(
        verts[path[path.len() - 2] as int],
        verts[curr as int],
    ) != axis_of(verts[curr as int], verts[n as int]))
}

/// `a` is preferred to `b`: farther out, or as far and a larger id.
pub open spec fn outranks(verts: Seq<Vert>, a: u32, b: u32) -> bool {
    absum(verts[a as int]) > absum(verts[b as int]) || (absum(verts[a as int]) == absum(
        verts[b as int],
    ) && a > b)
}

/// `n` is the admissible vertex that outranks every other.
pub open spec fn is_best(
    z: Seq<(u32, Seq<u32>)>,
    verts: Seq<Vert>,
    path: Seq<u32>,
    order: int,
    n: u32,
) -> bool {
    &&& admissible(z, verts, path, order, n)
    &&& forall|m: u32|
        m != n && #[trigger] admissible(z, verts, path, order, m) ==> outranks(verts, n, m)
}

/// `m` is the largest key of `z`.
pub open spec fn is_max_key(z: Seq<(u32, Seq<u32>)>, m: u32) -> bool {
    keys(z).contains(m) && forall|k: int| 0 <= k < z.len() ==> (#[trigger] z[k]).0 <= m
}

/// `path` is a prefix of the greedy walk: it starts at the largest key and
/// each later vertex is the best one after the vertices before it.
pub open spec fn greedy(z: Seq<(u32, Seq<u32>)>, verts: Seq<Vert>, path: Seq<u32>) -> bool {
    &&& path.len() >= 1
    &&& is_max_key(z, path[0])
    &&& path[0] < verts.len()
    &&& forall|i: int|
        1 <= i < path.len() ==> is_best(z, verts, path.subrange(0, i), z.len() as int, #[trigger] path[i])
}

fn entry_of(z: &SubAdjacency, n: u32) -> (r: Option<usize>)
    ensures
        r matches Some(k) ==> k < z@.len() && keys(sub_view(z@)).index_of_first(n) == Some(k as int),
        r is None ==> keys(sub_view(z@)).index_of_first(n) is None,
{
    let ghost ks = keys(sub_view(z@));
    let mut i: usize = 0;
    while i < z.len()
        invariant
            i <= z@.len() == ks.len(),
            ks == keys(sub_view(z@)),
            forall|j: int| 0 <= j < i ==> ks[j] != n,
        decreases z@.len() - i,
    {
        assert(ks[i as int] == z@[i as int].0);
        if z[i].0 == n {
            proof {
                ks.index_of_first_ensures(n);
                let f = ks.index_of_first(n)->Some_0;
                assert(!(f < i) && !(i < f));
            }
            return Some(i);
        }
        i += 1;
    }
    proof {
        ks.index_of_first_ensures(n);
    }
    None
}

/// The next vertex of the greedy walk after `path`.
pub fn next_node(path: &Vec<u32>, z_adj: &SubAdjacency, verts: &Verts, idx: usize, order: usize) -> (r:
    Result<u32, WeaveError>)
    requires
        path@.len() >= 1,
        idx == path@.len(),
        path@.last() < verts@.len(),
        path@.len() < 2 || path@[path@.len() - 2] < verts@.len(),
    ensures
        r matches Ok(n) ==> is_best(sub_view(z_adj@), verts@, path@, order as int, n),
        r is Err ==> r == Err::<u32, WeaveError>(WeaveError::NoCandidate) && forall|m: u32|
            !admissible(sub_view(z_adj@), verts@, path@, order as int, m),
{
    let ghost z = sub_view(z_adj@);
    let curr = path[path.len() - 1];
    let entry = entry_of(z_adj, curr);
    let k = match entry {
        Some(k) => k,
        None => {
            return Err(WeaveError::NoCandidate);
        },
    };
    let cands = &z_adj[k].1;
    assert(z[k as int] == (z_adj@[k as int].0, cands@));
    assert(nbrs(z, curr) == cands@);
    let tail = !(order > 5 && idx < order - 5) && path.len() >= 2;
    let prev_axis = if tail {
        axis(&verts[path[path.len() - 2] as usize], &verts[curr as usize])
    } else {
        0
    };
    let mut best: Option<u32> = None;
    let mut best_score: i64 = 0;
    let mut j: usize = 0;
    while j < cands.len()
        invariant
            j <= cands@.len(),
            z == sub_view(z_adj@),
            nbrs(z, curr) == cands@,
            path@.len() >= 1,
            curr == path@.last(),
            curr < verts@.len(),
            path@.len() < 2 || path@[path@.len() - 2] < verts@.len(),
            idx == path@.len(),
            tail == !(path@.len() + 5 < order || path@.len() < 2),
            tail ==> prev_axis == axis_of(verts@[path@[path@.len() - 2] as int], verts@[curr as int]),
            best matches Some(b) ==> admissible(z, verts@, path@, order as int, b) && best_score
                == absum(verts@[b as int]),
            forall|m: u32|
                #[trigger] admissible(z, verts@, path@, order as int, m) && cands@.subrange(
                    0,
                    j as int,
                ).contains(m) ==> (best matches Some(b) && (b == m || outranks(verts@, b, m))),
        decreases cands@.len() - j,
    {
        let c = cands[j];
        let ok = (c as usize) < verts.len() && !crate::loom::seq_contains(path, c) && (!tail || axis(
            &verts[curr as usize],
            &verts[c as usize],
        ) != prev_axis);
        proof {
            assert(cands@.contains(c));
            assert(ok == admissible(z, verts@, path@, order as int, c));
        }
        let ghost old_best = best;
        if ok {
            let score = absumv(verts[c as usize]);
            let better = match best {
                None => true,
                Some(b) => score > best_score || (score == best_score && c > b),
            };
            if better {
                best = Some(c);
                best_score = score;
            }
        }
        proof {
            assert forall|m: u32|
                #[trigger] admissible(z, verts@, path@, order as int, m) && cands@.subrange(
                    0,
                    j + 1,
                ).contains(m) implies (best matches Some(b) && (b == m || outranks(verts@, b, m))) by {
                let i = choose|i: int| 0 <= i < j + 1 && #[trigger] cands@.subrange(0, j + 1)[i] == m;
                if i < j {
                    assert(cands@.subrange(0, j as int)[i] == m);
                }
            }
        }
        j += 1;
    }
    assert(cands@.subrange(0, cands@.len() as int) =~= cands@);
    match best {
        Some(b) => Ok(b),
        None => Err(WeaveError::NoCandidate),
    }
}

/// Each neighbour listed in `z` has an entry of its own.
pub open spec fn closed(z: Seq<(u32, Seq<u32>)>) -> bool {
    forall|k: int, m: u32| 0 <= k < z.len() && #[trigger] z[k].1.contains(m) ==> keys(z).contains(m)
}

/// A greedy walk as long as the level visits each of its vertices once.
pub proof fn lemma_greedy_hamiltonian(z: Seq<(u32, Seq<u32>)>, verts: Seq<Vert>, p: Seq<u32>)
    requires
        greedy(z, verts, p),
        p.len() == z.len(),
    ensures
        p.no_duplicates(),
        closed(z) ==> forall|i: int| 0 <= i < p.len() ==> keys(z).contains(#[trigger] p[i]),
        closed(z) && keys(z).no_duplicates() ==> p.to_set() == keys(z).to_set(),
{
    assert forall|i: int, j: int| 0 <= i < j < p.len() implies p[i] != p[j] by {
        assert(is_best(z, verts, p.subrange(0, j), z.len() as int, p[j]));
        assert(p.subrange(0, j)[i] == p[i]);
    }
    if closed(z) {
        assert forall|i: int| 0 <= i < p.len() implies keys(z).contains(#[trigger] p[i]) by {
            if i > 0 {
                let q = p.subrange(0, i);
                assert(is_best(z, verts, q, z.len() as int, p[i]));
                let curr = q.last();
                keys(z).index_of_first_ensures(curr);
                match keys(z).index_of_first(curr) {
                    Some(k) => {
                        assert(z[k].1.contains(p[i]));
                    },
                    None => {},
                }
            }
        }
        if keys(z).no_duplicates() {
            p.unique_seq_to_set();
            keys(z).unique_seq_to_set();
            assert(p.to_set().subset_of(keys(z).to_set())) by {
                assert forall|x: u32| p.to_set().contains(x) implies keys(z).to_set().contains(x) by {
                    let i = choose|i: int| 0 <= i < p.len() && p[i] == x;
                    assert(keys(z).contains(p[i]));
                }
            }
            vstd::set_lib::lemma_subset_equality(p.to_set(), keys(z).to_set());
        }
    }
}

/// The greedy walk through a level: it starts at the largest vertex id and
/// takes, at each step, the admissible neighbour farthest out (the larger id
/// on a tie), turning to another axis in the last five steps.
pub fn spin_path(z_adj: &SubAdjacency, verts: &Verts) -> (r: Result<Vec<u32>, WeaveError>)
    ensures
        r == Err::<Vec<u32>, WeaveError>(WeaveError::MalformedInput) <==> (z_adj@.len() == 0 || exists|m: u32|
            is_max_key(sub_view(z_adj@), m) && m >= verts@.len()),
        r matches Ok(p) ==> p@.len() == z_adj@.len() && greedy(sub_view(z_adj@), verts@, p@),
        r matches Ok(p) ==> p@.no_duplicates(),
        r matches Ok(p) ==> forall|k: int| 0 <= k < p@.len() ==> #[trigger] p@[k] < verts@.len(),
        r matches Ok(p) ==> closed(sub_view(z_adj@)) ==> forall|i: int|
            0 <= i < p@.len() ==> keys(sub_view(z_adj@)).contains(#[trigger] p@[i]),
        r matches Ok(p) ==> closed(sub_view(z_adj@)) && keys(sub_view(z_adj@)).no_duplicates()
            ==> p@.to_set() == keys(sub_view(z_adj@)).to_set(),
        r == Err::<Vec<u32>, WeaveError>(WeaveError::NoCandidate) ==> exists|q: Seq<u32>|
            greedy(sub_view(z_adj@), verts@, q) && q.len() < z_adj@.len() && forall|m: u32|
                !admissible(sub_view(z_adj@), verts@, q, z_adj@.len() as int, m),
        r matches Err(e) ==> e == WeaveError::MalformedInput || e == WeaveError::NoCandidate,
{
    let ghost z = sub_view(z_adj@);
    let order = z_adj.len();
    if order == 0 {
        return Err(WeaveError::MalformedInput);
    }
    let mut start: u32 = z_adj[0].0;
    assert(keys(z)[0] == start);
    let mut i: usize = 1;
    while i < order
        invariant
            1 <= i <= order == z_adj@.len() == z.len(),
            z == sub_view(z_adj@),
            keys(z).contains(start),
            forall|k: int| 0 <= k < i ==> (#[trigger] z[k]).0 <= start,
        decreases order - i,
    {
        assert(z[i as int].0 == z_adj@[i as int].0);
        assert(keys(z)[i as int] == z_adj@[i as int].0);
        if z_adj[i].0 > start {
            start = z_adj[i].0;
        }
        i += 1;
    }
    assert(keys(z)[0] == z[0].0);
    assert(is_max_key(z, start));
    proof {
        assert forall|m: u32| is_max_key(z, m) implies m == start by {
            let a = choose|a: int| 0 <= a < keys(z).len() && keys(z)[a] == m;
            let b = choose|b: int| 0 <= b < keys(z).len() && keys(z)[b] == start;
            assert(z[a].0 <= start && z[b].0 <= m);
        }
    }
    if (start as usize) >= verts.len() {
        return Err(WeaveError::MalformedInput);
    }
    let mut path: Vec<u32> = vec![start];
    let mut idx: usize = 1;
    while idx < order
        invariant
            1 <= idx <= order == z.len(),
            z == sub_view(z_adj@),
            path@.len() == idx,
            greedy(z, verts@, path@),
            forall|k: int| 0 <= k < path@.len() ==> #[trigger] path@[k] < verts@.len(),
        decreases order - idx,
    {
        match next_node(&path, z_adj, verts, idx, order) {
            Ok(n) => {
                let ghost before = path@;
                path.push(n);
                assert(path@.subrange(0, idx as int) =~= before);
                assert forall|i: int| 1 <= i < path@.len() implies is_best(z, verts@, path@.subrange(0, i), z.len() as int, #[trigger] path@[i]) by {
                    if i < idx {
                        assert(path@.subrange(0, i) =~= before.subrange(0, i));
                    }
                }
            },
            Err(e) => {
                assert(greedy(z, verts@, path@));
                return Err(e);
            },
        }
        idx += 1;
    }
    proof {
        lemma_greedy_hamiltonian(z, verts@, path@);
    }
    Ok(path)
}

proof fn lemma_greedy_prefix(z: Seq<(u32, Seq<u32>)>, verts: Seq<Vert>, p: Seq<u32>, q: Seq<u32>, i: int)
    requires
        greedy(z, verts, p),
        greedy(z, verts, q),
        1 <= i <= p.len(),
        i <= q.len(),
    ensures
        p.subrange(0, i) == q.subrange(0, i),
    decreases i,
{
    if i == 1 {
        let a = choose|a: int| 0 <= a < keys(z).len() && keys(z)[a] == p[0];
        let b = choose|b: int| 0 <= b < keys(z).len() && keys(z)[b] == q[0];
        assert(z[a].0 <= q[0] && z[b].0 <= p[0]);
        assert(p.subrange(0, 1) =~= q.subrange(0, 1));
    } else {
        lemma_greedy_prefix(z, verts, p, q, i - 1);
        assert(is_best(z, verts, p.subrange(0, i - 1), z.len() as int, p[i - 1]));
        assert(is_best(z, verts, q.subrange(0, i - 1), z.len() as int, q[i - 1]));
        assert(p.subrange(0, i) =~= p.subrange(0, i - 1).push(p[i - 1]));
        assert(q.subrange(0, i) =~= q.subrange(0, i - 1).push(q[i - 1]));
    }
}

/// Two greedy walks of one length are the same walk.
pub proof fn lemma_greedy_unique(z: Seq<(u32, Seq<u32>)>, verts: Seq<Vert>, p: Seq<u32>, q: Seq<u32>)
    requires
        greedy(z, verts, p),
        greedy(z, verts, q),
        p.len() == q.len(),
    ensures
        p == q,
{
    lemma_greedy_prefix(z, verts, p, q, p.len() as int);
    assert(p =~= p.subrange(0, p.len() as int));
    assert(q =~= q.subrange(0, q.len() as int));
}

/// The `(x, y)` points of a path.
pub open spec fn flat(verts: Seq<Vert>, path: Seq<u32>) -> Seq<(i32, i32)> {
    Seq::new(path.len(), |k: int| (verts[path[k] as int].0, verts[path[k] as int].1))
}

/// Drops the heights of the vertices of a path.
pub fn nodes_to_yarn(path: &Vec<u32>, verts: &Verts) -> (r: Yarn)
    requires
        forall|k: int| 0 <= k < path@.len() ==> #[trigger] path@[k] < verts@.len(),
    ensures
        r@ == flat(verts@, path@),
{
    let mut r: Yarn = Vec::new();
    let mut i: usize = 0;
    while i < path.len()
        invariant
            i <= path@.len(),
            forall|k: int| 0 <= k < path@.len() ==> #[trigger] path@[k] < verts@.len(),
            r@ == flat(verts@, path@.subrange(0, i as int)),
        decreases path@.len() - i,
    {
        let v = verts[path[i] as usize];
        r.push((v.0, v.1));
        i += 1;
        assert(r@ =~= flat(verts@, path@.subrange(0, i as int)));
    }
    assert(path@.subrange(0, path@.len() as int) =~= path@);
    r
}

/// The turn by half a revolution that maps `(x, y)` to `(-x, 2 - y)`.
pub open spec fn turned(a: Seq<(i32, i32)>) -> Seq<(i32, i32)> {
    Seq::new(a.len(), |k: int| ((-a[k].0) as i32, (2 - a[k].1) as i32))
}

/// Every point of `a` can be turned without leaving `i32`.
pub open spec fn turnable(a: Seq<(i32, i32)>) -> bool {
    forall|k: int| 0 <= k < a.len() ==> #[trigger] a[k].0 > i32::MIN && a[k].1 >= 2 - i32::MAX
}

/// The yarn turned by half a revolution about the point `(0, 1)`.
pub fn color_yarn(a: &Yarn) -> (r: Yarn)
    requires
        turnable(a@),
    ensures
        r@ == turned(a@),
{
    let mut r: Yarn = Vec::new();
    let mut i: usize = 0;
    while i < a.len()
        invariant
            i <= a@.len(),
            turnable(a@),
            r@ == turned(a@.subrange(0, i as int)),
        decreases a@.len() - i,
    {
        let p = a[i];
        assert(a@[i as int] == p);
        r.push((-p.0, 2 - p.1));
        i += 1;
        assert(r@ =~= turned(a@.subrange(0, i as int)));
    }
    assert(a@.subrange(0, a@.len() as int) =~= a@);
    r
}

/// The level's path in its two orientations: key 3 holds it as spun, key 1
/// turned by half a revolution.
pub struct Spool {
    pub natural: Yarn,
    pub colored: Yarn,
}

/// The spool key of a level: 3 for `z = -1, -5, ...`, 1 for `z = -3, -7, ...`;
/// other heights have none.
pub open spec fn yarn_key(zlevel: i32) -> Option<u32> {
    if zlevel < 0 && (-zlevel) % 4 == 1 {
        Some(3)
    } else if zlevel < 0 && (-zlevel) % 4 == 3 {
        Some(1)
    } else {
        None
    }
}

impl Spool {
    pub open spec fn spec_get(&self, key: u32) -> Option<Seq<(i32, i32)>> {
        if key == 3 {
            Some(self.natural@)
        } else if key == 1 {
            Some(self.colored@)
        } else {
            None
        }
    }

    /// The yarn under `key`.
    pub fn get(&self, key: u32) -> (r: Option<&Yarn>)
        ensures
            r matches Some(y) ==> self.spec_get(key) == Some(y@),
            r is None ==> self.spec_get(key) is None,
    {
        if key == 3 {
            Some(&self.natural)
        } else if key == 1 {
            Some(&self.colored)
        } else {
            None
        }
    }
}

/// The spool key of a level.
pub fn spool_key(zlevel: i32) -> (r: Option<u32>)
    ensures
        r == yarn_key(zlevel),
{
    if zlevel >= 0 {
        return None;
    }
    let m: i64 = (-(zlevel as i64)) % 4;
    if m == 1 {
        Some(3)
    } else if m == 3 {
        Some(1)
    } else {
        None
    }
}

/// The `(x, y)` points of the level's greedy walk.
pub fn spin_yarn(z_adj: &SubAdjacency, verts: &Verts) -> (r: Result<Yarn, WeaveError>)
    ensures
        r matches Ok(y) ==> exists|p: Seq<u32>|
            p.len() == z_adj@.len() && greedy(sub_view(z_adj@), verts@, p) && #[trigger] flat(verts@, p)
                == y@,
        r == Err::<Yarn, WeaveError>(WeaveError::MalformedInput) <==> (z_adj@.len() == 0 || exists|m: u32|
            is_max_key(sub_view(z_adj@), m) && m >= verts@.len()),
        r == Err::<Yarn, WeaveError>(WeaveError::NoCandidate) ==> exists|q: Seq<u32>|
            greedy(sub_view(z_adj@), verts@, q) && q.len() < z_adj@.len() && forall|m: u32|
                !admissible(sub_view(z_adj@), verts@, q, z_adj@.len() as int, m),
        r matches Err(e) ==> e == WeaveError::MalformedInput || e == WeaveError::NoCandidate,
{
    let path = match spin_path(z_adj, verts) {
        Ok(p) => p,
        Err(e) => {
            return Err(e);
        },
    };
    let y = nodes_to_yarn(&path, verts);
    assert(flat(verts@, path@) == y@);
    Ok(y)
}

/// Spins the level's path and turns it: the natural yarn and its turned
/// copy.
pub fn spin_and_color_yarn(z_adj: &SubAdjacency, verts: &Verts) -> (r: Result<Spool, WeaveError>)
    ensures
        r matches Ok(s) ==> exists|p: Seq<u32>|
            p.len() == z_adj@.len() && greedy(sub_view(z_adj@), verts@, p) && #[trigger] flat(verts@, p)
                == s.natural@ && turned(s.natural@) == s.colored@,
        r matches Ok(s) ==> turnable(s.natural@),
        r matches Err(e) ==> e == WeaveError::NoCandidate || e == WeaveError::MalformedInput,
        (r matches Err(e) && e == WeaveError::NoCandidate) ==> exists|q: Seq<u32>|
            greedy(sub_view(z_adj@), verts@, q) && q.len() < z_adj@.len() && forall|m: u32|
                !admissible(sub_view(z_adj@), verts@, q, z_adj@.len() as int, m),
        (r matches Err(e) && e == WeaveError::MalformedInput) ==> (z_adj@.len() == 0 || (exists|m: u32|
            is_max_key(sub_view(z_adj@), m) && m >= verts@.len()) || exists|p: Seq<u32>|
            p.len() == z_adj@.len() && greedy(sub_view(z_adj@), verts@, p) && !turnable(
                #[trigger] flat(verts@, p),
            )),
{
    let natural = spin_yarn(z_adj, verts)?;
    let ghost z = sub_view(z_adj@);
    let ghost path = choose|p: Seq<u32>|
        p.len() == z_adj@.len() && greedy(z, verts@, p) && #[trigger] flat(verts@, p) == natural@;
    let mut i: usize = 0;
    while i < natural.len()
        invariant
            i <= natural@.len(),
            z == sub_view(z_adj@),
            natural@ == flat(verts@, path),
            path.len() == z_adj@.len(),
            greedy(z, verts@, path),
            turnable(natural@.subrange(0, i as int)),
        decreases natural@.len() - i,
    {
        let p = natural[i];
        if p.0 == i32::MIN || p.1 < 2 - i32::MAX {
            assert(!turnable(natural@));
            assert(flat(verts@, path) == natural@);
            return Err(WeaveError::MalformedInput);
        }
        assert(turnable(natural@.subrange(0, i + 1))) by {
            assert forall|k: int| 0 <= k < i + 1 implies #[trigger] natural@.subrange(0, i + 1)[k].0 > i32::MIN
                && natural@.subrange(0, i + 1)[k].1 >= 2 - i32::MAX by {
                if k < i {
                    assert(natural@.subrange(0, i as int)[k] == natural@[k]);
                }
            }
        }
        i += 1;
    }
    assert(natural@.subrange(0, natural@.len() as int) =~= natural@);
    let colored = color_yarn(&natural);
    Ok(Spool { natural, colored })
}

/// The vertices of level `zlevel` under the last `order` points of `yarn`,
/// if the map holds them all.
pub open spec fn node_yarn(yarn: Seq<(i32, i32)>, zlevel: i32, order: int, vi_map: VIMap) -> Option<
    Seq<u32>,
> {
    let s = yarn.len() - order;
    if order > yarn.len() || exists|k: int|
        s <= k < yarn.len() && #[trigger] vi_map.lookup((yarn[k].0, yarn[k].1, zlevel)) is None {
        None
    } else {
        Some(Seq::new(order as nat, |k: int| vi_map.lookup((yarn[s + k].0, yarn[s + k].1, zlevel))->Some_0))
    }
}

/// Lays the last `order` points of a yarn on level `zlevel`.
pub fn prepare_yarn(yarn: &Yarn, zlevel: i32, order: usize, vi_map: &VIMap) -> (r: Result<
    Vec<u32>,
    WeaveError,
>)
    ensures
        r matches Ok(t) ==> node_yarn(yarn@, zlevel, order as int, *vi_map) == Some(t@),
        r is Err ==> r == Err::<Vec<u32>, WeaveError>(WeaveError::MalformedInput) && node_yarn(
            yarn@,
            zlevel,
            order as int,
            *vi_map,
        ) is None,
{
    if order > yarn.len() {
        return Err(WeaveError::MalformedInput);
    }
    let s = yarn.len() - order;
    let mut r: Vec<u32> = Vec::new();
    let mut i: usize = s;
    while i < yarn.len()
        invariant
            s == yarn@.len() - order,
            s <= i <= yarn@.len(),
            r@.len() == i - s,
            forall|k: int| 0 <= k < r@.len() ==> Some(#[trigger] r@[k]) == vi_map.lookup((yarn@[s + k].0, yarn@[s + k].1, zlevel)),
        decreases yarn@.len() - i,
    {
        let p = yarn[i];
        match vi_map.get(&(p.0, p.1, zlevel)) {
            Some(n) => {
                r.push(n);
            },
            None => {
                assert(vi_map.lookup((yarn@[i as int].0, yarn@[i as int].1, zlevel)) is None);
                return Err(WeaveError::MalformedInput);
            },
        }
        i += 1;
    }
    assert forall|k: int| s <= k < yarn@.len() implies #[trigger] vi_map.lookup((yarn@[k].0, yarn@[k].1, zlevel)) is Some by {
        assert(Some(r@[k - s]) == vi_map.lookup((yarn@[s + (k - s)].0, yarn@[s + (k - s)].1, zlevel)));
    }
    assert(r@ =~= node_yarn(yarn@, zlevel, order as int, *vi_map)->Some_0);
    Ok(r)
}

/// The yarn that a spool holds under `key`, given its natural yarn.
pub open spec fn spool_yarn(natural: Seq<(i32, i32)>, key: u32) -> Seq<(i32, i32)> {
    if key == 3 {
        natural
    } else {
        turned(natural)
    }
}

/// The warps of a level: its node yarn whole on the lowest level, else cut
/// at the bobbins.
pub open spec fn spec_warps(
    zlevel: i32,
    order: int,
    bobbins: Seq<u32>,
    natural: Seq<(i32, i32)>,
    vi_map: VIMap,
) -> Option<Seq<Seq<u32>>> {
    match yarn_key(zlevel) {
        None => None,
        Some(key) => match node_yarn(spool_yarn(natural, key), zlevel, order, vi_map) {
            None => None,
            Some(t) => if bobbins.len() == 0 {
                Some(seq![t])
            } else {
                Some(spec_cut(t, bobbins))
            },
        },
    }
}

/// The pieces of level `zlevel` to be joined to the loom.
pub fn get_warps(zlevel: i32, order: usize, bobbins: &Bobbins, spool: &Spool, vi_map: &VIMap) -> (r:
    Result<Subtours, WeaveError>)
    requires
        spool.colored@ == turned(spool.natural@),
    ensures
        r matches Ok(w) ==> spec_warps(zlevel, order as int, bobbins@, spool.natural@, *vi_map) == Some(
            views(w@),
        ),
        r is Err ==> r == Err::<Subtours, WeaveError>(WeaveError::MalformedInput) && spec_warps(
            zlevel,
            order as int,
            bobbins@,
            spool.natural@,
            *vi_map,
        ) is None,
{
    let key = match spool_key(zlevel) {
        Some(k) => k,
        None => {
            return Err(WeaveError::MalformedInput);
        },
    };
    let yarn = match spool.get(key) {
        Some(y) => y,
        None => {
            return Err(WeaveError::MalformedInput);
        },
    };
    assert(yarn@ == spool_yarn(spool.natural@, key));
    let node_yarn = prepare_yarn(yarn, zlevel, order, vi_map)?;
    if bobbins.len() == 0 {
        let w = vec![node_yarn];
        assert(views(w@) =~= seq![node_yarn@]);
        Ok(w)
    } else {
        Ok(cut_yarn(node_yarn, bobbins))
    }
}

} // verus!
