use vstd::prelude::*;

use crate::geometry::{is_valid_edge, spec_valid_edge, Vert, Verts};
use crate::loom::{first_position, reversed, Thread};
use crate::shrink::{adj_view, Adjacency};

verus! {

/// An edge as a pair of vertex ids, the smaller first.
pub type Edge = (u32, u32);

/// A closed walk: its last vertex is joined back to its first.
pub struct Cycle {
    data: Vec<u32>,
}

impl View for Cycle {
    type V = Seq<u32>;

    closed spec fn view(&self) -> Seq<u32> {
        self.data@
    }
}

/// The edge between `a` and `b`, smaller id first.
pub open spec fn canon(a: u32, b: u32) -> Edge {
    if a < b {
        (a, b)
    } else {
        (b, a)
    }
}

/// `s` turned left by `k`: `s[k..] + s[..k]`.
pub open spec fn rotl(s: Seq<u32>, k: int) -> Seq<u32> {
    s.subrange(k, s.len() as int) + s.subrange(0, k)
}

/// What `rotate_to_edge` leaves: reversed where `left, right` closes the
/// walk, unchanged where it already starts at `left` and ends at `right`;
/// else turned to start at `right` and reversed where `left` comes first,
/// or turned to start at `left` where `right` comes first.
pub open spec fn spec_rotate_to_edge(s: Seq<u32>, left: u32, right: u32) -> Seq<u32> {
    if s.len() > 0 && left == s.last() && right == s[0] {
        s.reverse()
    } else if s.len() > 0 && left == s[0] && right == s.last() {
        s
    } else {
        let ixl = s.index_of_first(left)->Some_0;
        let ixr = s.index_of_first(right)->Some_0;
        if ixl < ixr {
            rotl(s, ixr).reverse()
        } else {
            rotl(s, ixl)
        }
    }
}

/// The edges between consecutive vertices, the closing one last.
pub open spec fn spec_make_edges(s: Seq<u32>) -> Seq<Edge> {
    Seq::new(s.len(), |i: int| canon(s[i], s[(i + 1) % (s.len() as int)]))
}

/// Both ends are vertices of the table and lattice neighbours.
pub open spec fn lattice_edge(verts: Seq<Vert>, e: Edge) -> bool {
    e.0 < verts.len() && e.1 < verts.len() && spec_valid_edge(verts[e.0 as int], verts[e.1 as int])
}

/// The lattice edges among the consecutive pairs of `s`.
pub open spec fn spec_edges(s: Seq<u32>, verts: Seq<Vert>) -> Seq<Edge> {
    spec_make_edges(s).filter(|e: Edge| lattice_edge(verts, e))
}

/// The walk that `join` leaves.
pub open spec fn spec_join(
    s: Seq<u32>,
    edge: Edge,
    oedge: Edge,
    o: Seq<u32>,
    adj: Seq<Seq<u32>>,
) -> Seq<u32> {
    let reversed = !adj[edge.1 as int].contains(oedge.0);
    let (a, b) = if reversed {
        (oedge.1, oedge.0)
    } else {
        (oedge.0, oedge.1)
    };
    spec_rotate_to_edge(s, edge.0, edge.1) + spec_rotate_to_edge(o, a, b)
}

/// What `join` leaves in the other cycle.
pub open spec fn spec_join_other(edge: Edge, oedge: Edge, o: Seq<u32>, adj: Seq<Seq<u32>>) -> Seq<u32> {
    if !adj[edge.1 as int].contains(oedge.0) {
        spec_rotate_to_edge(o, oedge.1, oedge.0)
    } else {
        spec_rotate_to_edge(o, oedge.0, oedge.1)
    }
}

/// `left` and `right` follow each other in `s`, in either order, or one
/// ends `s` and the other starts it.
pub open spec fn consecutive(s: Seq<u32>, left: u32, right: u32) -> bool {
    ||| exists|i: int|
        0 <= i < s.len() - 1 && ((#[trigger] s[i] == left && s[i + 1] == right) || (s[i] == right
            && s[i + 1] == left))
    ||| (s.len() > 0 && s.last() == left && s[0] == right)
    ||| (s.len() > 0 && s[0] == left && s.last() == right)
}

proof fn lemma_first_index(s: Seq<u32>, i: int)
    requires
        s.no_duplicates(),
        0 <= i < s.len(),
    ensures
        s.index_of_first(s[i]) == Some(i),
{
    s.index_of_first_ensures(s[i]);
    let f = s.index_of_first(s[i])->Some_0;
    assert(!(f < i) && !(i < f));
}

/// After `rotate_to_edge` on two consecutive vertices of a walk without
/// repeats, the walk starts at `left` and ends at `right`; it is the walk
/// reversed exactly where `left, right` was the closing pair.
pub proof fn lemma_rotate_to_edge_ends(s: Seq<u32>, left: u32, right: u32)
    requires
        s.no_duplicates(),
        s.len() >= 2,
        consecutive(s, left, right),
    ensures
        ({
            let t = spec_rotate_to_edge(s, left, right);
            &&& t.len() == s.len()
            &&& t[0] == left
            &&& t.last() == right
            &&& (left == s.last() && right == s[0]) ==> t == s.reverse()
        }),
{
    let n = s.len() as int;
    if left == s.last() && right == s[0] {
    } else if left == s[0] && right == s.last() {
    } else {
        let i = choose|i: int|
            0 <= i < s.len() - 1 && ((#[trigger] s[i] == left && s[i + 1] == right) || (s[i] == right
                && s[i + 1] == left));
        if s[i] == left && s[i + 1] == right {
            lemma_first_index(s, i);
            lemma_first_index(s, i + 1);
            let u = rotl(s, i + 1);
            assert(u[0] == s[i + 1]);
            assert(u[n - 1] == s[i]);
        } else {
            lemma_first_index(s, i);
            lemma_first_index(s, i + 1);
            let u = rotl(s, i + 1);
            assert(u[0] == s[i + 1]);
            assert(u[n - 1] == s[i]);
        }
    }
}

fn rotated_left(s: &Vec<u32>, k: usize) -> (r: Vec<u32>)
    requires
        k <= s@.len(),
    ensures
        r@ == rotl(s@, k as int),
{
    let mut r: Vec<u32> = Vec::new();
    let mut i: usize = k;
    while i < s.len()
        invariant
            k <= i <= s@.len(),
            r@ == s@.subrange(k as int, i as int),
        decreases s@.len() - i,
    {
        r.push(s[i]);
        i += 1;
        assert(r@ =~= s@.subrange(k as int, i as int));
    }
    let mut j: usize = 0;
    while j < k
        invariant
            j <= k <= s@.len(),
            r@ == s@.subrange(k as int, s@.len() as int) + s@.subrange(0, j as int),
        decreases k - j,
    {
        r.push(s[j]);
        j += 1;
        assert(r@ =~= s@.subrange(k as int, s@.len() as int) + s@.subrange(0, j as int));
    }
    r
}

impl Cycle {
    /// A cycle through the vertices of a thread, in order.
    pub fn new(data: &Thread) -> (r: Cycle)
        ensures
            r@ == data@,
    {
        let mut v: Vec<u32> = Vec::new();
        let mut i: usize = 0;
        while i < data.len()
            invariant
                i <= data@.len(),
                v@ == data@.subrange(0, i as int),
            decreases data@.len() - i,
        {
            v.push(data[i]);
            i += 1;
            assert(v@ =~= data@.subrange(0, i as int));
        }
        assert(v@ =~= data@);
        Cycle { data: v }
    }

    /// A cycle through the given vertices, in order.
    pub fn new_from_vec(data: &Vec<u32>) -> (r: Cycle)
        ensures
            r@ == data@,
    {
        let mut v: Vec<u32> = Vec::new();
        let mut i: usize = 0;
        while i < data.len()
            invariant
                i <= data@.len(),
                v@ == data@.subrange(0, i as int),
            decreases data@.len() - i,
        {
            v.push(data[i]);
            i += 1;
            assert(v@ =~= data@.subrange(0, i as int));
        }
        assert(v@ =~= data@);
        Cycle { data: v }
    }

    /// A cycle that takes over a thread.
    pub fn from(vecdata: Thread) -> (r: Cycle)
        ensures
            r@ == vecdata@,
    {
        Cycle::new(&vecdata)
    }

    /// The vertices of the cycle, in order.
    pub fn retrieve(&self) -> (r: Vec<u32>)
        ensures
            r@ == self@,
    {
        self.data.clone()
    }

    /// Turns (and where needed reverses) the cycle so that it starts at
    /// `left`; where `left` and `right` are consecutive, `right` then closes
    /// it (see `lemma_rotate_to_edge_ends`).
    pub fn rotate_to_edge(&mut self, left: u32, right: u32)
        requires
            old(self)@.contains(left),
            old(self)@.contains(right),
        ensures
            final(self)@ == spec_rotate_to_edge(old(self)@, left, right),
    {
        let n = self.data.len();
        if left == self.data[n - 1] && right == self.data[0] {
            self.data = reversed(&self.data);
        } else if left == self.data[0] && right == self.data[n - 1] {
        } else {
            let ixl = first_position(&self.data, left);
            let ixr = first_position(&self.data, right);
            proof {
                self.data@.index_of_first_ensures(left);
                self.data@.index_of_first_ensures(right);
            }
            match (ixl, ixr) {
                (Some(l), Some(r)) => {
                    if l < r {
                        let t = rotated_left(&self.data, r);
                        self.data = reversed(&t);
                    } else {
                        self.data = rotated_left(&self.data, l);
                    }
                },
                _ => {},
            }
        }
    }

    /// Splices `other` into this cycle across the parallel edges `edge` (of
    /// this cycle) and `oedge` (of `other`): both are turned so that the
    /// edges close them, `oedge` oriented so that its first end neighbours
    /// the second end of `edge` where it can, and `other` is appended.
    pub fn join(&mut self, edge: Edge, oedge: Edge, other: &mut Cycle, adj: &Adjacency)
        requires
            old(self)@.contains(edge.0),
            old(self)@.contains(edge.1),
            old(other)@.contains(oedge.0),
            old(other)@.contains(oedge.1),
            edge.1 < adj@.len(),
        ensures
            final(self)@ == spec_join(old(self)@, edge, oedge, old(other)@, adj_view(adj@)),
            final(other)@ == spec_join_other(edge, oedge, old(other)@, adj_view(adj@)),
    {
        self.rotate_to_edge(edge.0, edge.1);
        let nb = &adj[edge.1 as usize];
        assert(adj_view(adj@)[edge.1 as int] == nb@);
        let rev = !crate::loom::seq_contains(nb, oedge.0);
        other.rotate_to_edge(
            if rev {
                oedge.1
            } else {
                oedge.0
            },
            if rev {
                oedge.0
            } else {
                oedge.1
            },
        );
        let mut i: usize = 0;
        let ghost base = self.data@;
        while i < other.data.len()
            invariant
                i <= other.data@.len(),
                self.data@ == base + other.data@.subrange(0, i as int),
            decreases other.data@.len() - i,
        {
            self.data.push(other.data[i]);
            i += 1;
            assert(self.data@ =~= base + other.data@.subrange(0, i as int));
        }
        assert(other.data@.subrange(0, other.data@.len() as int) =~= other.data@);
    }

    /// The edges between consecutive vertices, the closing one last.
    pub fn make_edges(&self) -> (r: Vec<Edge>)
        ensures
            r@ == spec_make_edges(self@),
    {
        let n = self.data.len();
        let mut r: Vec<Edge> = Vec::new();
        let mut i: usize = 0;
        while i < n
            invariant
                n == self.data@.len(),
                i <= n,
                r@ == spec_make_edges(self.data@).subrange(0, i as int),
            decreases n - i,
        {
            let a = self.data[i];
            let b = if i + 1 < n {
                self.data[i + 1]
            } else {
                self.data[0]
            };
            proof {
                if i + 1 < n {
                    vstd::arithmetic::div_mod::lemma_small_mod((i + 1) as nat, n as nat);
                } else {
                    vstd::arithmetic::div_mod::lemma_mod_self_0(n as int);
                }
            }
            r.push(if a < b {
                (a, b)
            } else {
                (b, a)
            });
            i += 1;
            assert(r@ =~= spec_make_edges(self.data@).subrange(0, i as int));
        }
        assert(r@ =~= spec_make_edges(self.data@));
        r
    }

    /// The consecutive pairs that are lattice edges.
    pub fn edges(&self, verts: &Verts) -> (r: Vec<Edge>)
        ensures
            r@ == spec_edges(self@, verts@),
    {
        let all = self.make_edges();
        let ghost keep = |e: Edge| lattice_edge(verts@, e);
        let mut r: Vec<Edge> = Vec::new();
        let mut i: usize = 0;
        while i < all.len()
            invariant
                i <= all@.len(),
                keep == (|e: Edge| lattice_edge(verts@, e)),
                r@ == all@.subrange(0, i as int).filter(keep),
            decreases all@.len() - i,
        {
            let e = all[i];
            proof {
                assert(all@.subrange(0, i + 1) =~= all@.subrange(0, i as int).push(e));
                all@.subrange(0, i as int).lemma_filter_push(e, keep);
            }
            if (e.0 as usize) < verts.len() && (e.1 as usize) < verts.len() && is_valid_edge(
                verts[e.0 as usize],
                verts[e.1 as usize],
            ) {
                r.push(e);
            }
            i += 1;
        }
        assert(all@.subrange(0, all@.len() as int) =~= all@);
        r
    }
}

} // verus!
