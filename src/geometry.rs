use std::collections::HashMap;
use vstd::prelude::*;

verus! {

/// A lattice point `(x, y, z)`.
pub type Vert = (i32, i32, i32);

/// The vertex table: the coordinates of each vertex id.
pub type Verts = Vec<Vert>;

pub open spec fn abs(a: i32) -> int {
    if a < 0 {
        -(a as int)
    } else {
        a as int
    }
}

/// `|x| + |y| + |z|`.
pub open spec fn absum(v: Vert) -> int {
    abs(v.0) + abs(v.1) + abs(v.2)
}

/// The axis on which two lattice neighbours differ.
pub open spec fn axis_of(a: Vert, b: Vert) -> usize {
    if a.0 != b.0 {
        0
    } else if a.1 != b.1 {
        1
    } else {
        2
    }
}

pub open spec fn differ_by_two(a: i32, b: i32) -> bool {
    a as int - b as int == 2 || b as int - a as int == 2
}

/// `a` and `b` differ by exactly two on exactly one axis.
pub open spec fn spec_valid_edge(a: Vert, b: Vert) -> bool {
    ||| (differ_by_two(a.0, b.0) && a.1 == b.1 && a.2 == b.2)
    ||| (a.0 == b.0 && differ_by_two(a.1, b.1) && a.2 == b.2)
    ||| (a.0 == b.0 && a.1 == b.1 && differ_by_two(a.2, b.2))
}

/// The sum of the absolute values of the coordinates.
pub fn absumv(v: Vert) -> (r: i64)
    ensures
        r == absum(v),
{
    let x: i64 = if v.0 < 0 { -(v.0 as i64) } else { v.0 as i64 };
    let y: i64 = if v.1 < 0 { -(v.1 as i64) } else { v.1 as i64 };
    let z: i64 = if v.2 < 0 { -(v.2 as i64) } else { v.2 as i64 };
    x + y + z
}

/// The index of the first coordinate in which `a` and `b` differ (2 when
/// only `z` is left).
pub fn axis(a: &Vert, b: &Vert) -> (r: usize)
    ensures
        r == axis_of(*a, *b),
        r < 3,
{
    if a.0 != b.0 {
        0
    } else if a.1 != b.1 {
        1
    } else {
        2
    }
}

fn two_apart(a: i32, b: i32) -> (r: bool)
    ensures
        r == differ_by_two(a, b),
{
    let d: i64 = a as i64 - b as i64;
    d == 2 || d == -2
}

/// Whether `a` and `b` are lattice neighbours.
pub fn is_valid_edge(a: Vert, b: Vert) -> (r: bool)
    ensures
        r == spec_valid_edge(a, b),
{
    (two_apart(a.0, b.0) && a.1 == b.1 && a.2 == b.2) || (a.0 == b.0 && two_apart(a.1, b.1) && a.2
        == b.2) || (a.0 == b.0 && a.1 == b.1 && two_apart(a.2, b.2))
}

/// The key under which a point is stored in a `VIMap`: each coordinate is
/// shifted to be non-negative and given 32 bits of its own.
pub open spec fn coord_key(v: Vert) -> int {
    (v.0 as int + 0x8000_0000) * 0x1_0000_0000_0000_0000 + (v.1 as int + 0x8000_0000)
        * 0x1_0000_0000 + (v.2 as int + 0x8000_0000)
}

pub proof fn lemma_coord_key_injective(a: Vert, b: Vert)
    requires
        coord_key(a) == coord_key(b),
    ensures
        a == b,
{
}

fn key_of(v: &Vert) -> (r: u128)
    ensures
        r as int == coord_key(*v),
{
    let x: u128 = (v.0 as i64 + 0x8000_0000) as u128;
    let y: u128 = (v.1 as i64 + 0x8000_0000) as u128;
    let z: u128 = (v.2 as i64 + 0x8000_0000) as u128;
    x * 0x1_0000_0000_0000_0000 + y * 0x1_0000_0000 + z
}

/// The map from coordinates to vertex ids.
pub struct VIMap {
    map: HashMap<u128, u32>,
}

impl View for VIMap {
    type V = Map<u128, u32>;

    closed spec fn view(&self) -> Map<u128, u32> {
        self.map@
    }
}

impl VIMap {
    /// The id stored for `v`, if any.
    pub open spec fn lookup(&self, v: Vert) -> Option<u32> {
        if self@.contains_key(coord_key(v) as u128) {
            Some(self@[coord_key(v) as u128])
        } else {
            None
        }
    }

    /// The map sends each vertex of the table to its id, and holds nothing else.
    pub open spec fn indexes(&self, verts: Seq<Vert>) -> bool {
        &&& forall|i: int| 0 <= i < verts.len() ==> #[trigger] self.lookup(verts[i]) == Some(i as u32)
        &&& forall|v: Vert| #[trigger] self.lookup(v) matches Some(id) ==> id < verts.len() && verts[id as int] == v
    }

    /// An empty map.
    pub fn new() -> (r: VIMap)
        ensures
            forall|v: Vert| #[trigger] r.lookup(v) == None::<u32>,
    {
        VIMap { map: HashMap::new() }
    }

    /// Records `id` as the vertex at `v`.
    pub fn insert(&mut self, v: Vert, id: u32)
        ensures
            final(self).lookup(v) == Some(id),
            forall|w: Vert| w != v ==> #[trigger] final(self).lookup(w) == old(self).lookup(w),
    {
        let k = key_of(&v);
        self.map.insert(k, id);
        proof {
            assert forall|w: Vert| w != v implies #[trigger] final(self).lookup(w) == old(self).lookup(w) by {
                if coord_key(w) == coord_key(v) {
                    lemma_coord_key_injective(w, v);
                }
            }
        }
    }

    /// The id of the vertex at `v`.
    pub fn get(&self, v: &Vert) -> (r: Option<u32>)
        ensures
            r == self.lookup(*v),
    {
        let k = key_of(v);
        match self.map.get(&k) {
            Some(id) => Some(*id),
            None => None,
        }
    }

    /// The map of a vertex table whose points are pairwise distinct.
    pub fn from_verts(verts: &Verts) -> (r: VIMap)
        requires
            verts@.len() <= u32::MAX as int + 1,
            forall|i: int, j: int| 0 <= i < j < verts@.len() ==> verts@[i] != verts@[j],
        ensures
            r.indexes(verts@),
    {
        let mut r = VIMap::new();
        let mut i: usize = 0;
        while i < verts.len()
            invariant
                i <= verts@.len() <= u32::MAX as int + 1,
                forall|a: int, b: int| 0 <= a < b < verts@.len() ==> verts@[a] != verts@[b],
                forall|k: int| 0 <= k < i ==> #[trigger] r.lookup(verts@[k]) == Some(k as u32),
                forall|v: Vert| #[trigger] r.lookup(v) matches Some(id) ==> id < i && verts@[id as int] == v,
            decreases verts@.len() - i,
        {
            let v = verts[i];
            proof {
                assert forall|k: int| 0 <= k < i implies verts@[k] != v by {}
            }
            r.insert(v, i as u32);
            i += 1;
        }
        r
    }
}

} // verus!
