//! Indexed triangle meshes.
//!
//! A mesh is assembled from a list of triangles whose corners are given by
//! value. Equal corners are stored once, in the order in which they first
//! occur, and each face refers to its corners by 16-bit index.

use crate::distinct::{
    lemma_take_push, lemma_unique_counts, lemma_unique_grows, lemma_unique_no_duplicates,
    lemma_unique_short, push_unique, unique,
};
use std::collections::HashMap;
use vstd::prelude::*;

verus! {

/// Three indices into the vertices of a mesh.
pub type Face = [u16; 3];

/// The largest number of vertices that a mesh can hold.
pub const MAX_VERTS: usize = 65535;

/// A vertex: a position and a texture coordinate, each number by its bits.
///
/// Two vertices are equal when all five bit patterns are equal.
#[derive(Clone, Copy, Debug)]
pub struct Vert {
    pub pos: [u32; 3],
    pub map: [u32; 2],
}

/// Vertices without repetition, and faces that index into them.
#[derive(Debug)]
pub struct Mesh {
    pub verts: Vec<Vert>,
    pub faces: Vec<Face>,
}

/// A mesh would need more vertices than a 16-bit index can tell apart.
#[derive(Clone, Copy, Debug)]
pub struct IndexOverflow;

/// The five numbers of a vertex: `x, y, z, u, v`.
pub open spec fn key(v: Vert) -> Seq<u32> {
    seq![v.pos[0], v.pos[1], v.pos[2], v.map[0], v.map[1]]
}

/// The keys of a sequence of vertices.
pub open spec fn keys(vs: Seq<Vert>) -> Seq<Seq<u32>> {
    Seq::new(vs.len(), |i: int| key(vs[i]))
}

/// The corners of a list of triangles, one after the other.
pub open spec fn corners(tris: Seq<[Vert; 3]>) -> Seq<Seq<u32>> {
    Seq::new(3 * tris.len(), |k: int| key(tris[k / 3][k % 3]))
}

/// `mesh` is the indexed mesh of the triangles `tris`: its vertices are the
/// distinct corners in the order of their first occurrence, and face `t`
/// indexes the corners of triangle `t`.
pub open spec fn indexes(mesh: Mesh, tris: Seq<[Vert; 3]>) -> bool {
    &&& mesh.wf()
    &&& keys(mesh.verts@) == unique(corners(tris))
    &&& mesh.faces@.len() == tris.len()
    &&& forall|t: int, c: int|
        0 <= t < tris.len() && 0 <= c < 3 ==> #[trigger] mesh.corner(t, c) == key(tris[t][c])
}

impl Mesh {
    /// The mesh is well formed: no vertex occurs twice, there are at most
    /// `MAX_VERTS` of them, and every index of every face points at one.
    pub open spec fn wf(&self) -> bool {
        &&& self.verts@.len() <= MAX_VERTS
        &&& keys(self.verts@).no_duplicates()
        &&& forall|t: int, c: int|
            0 <= t < self.faces@.len() && 0 <= c < 3 ==> (#[trigger] self.faces@[t][c])
                < self.verts@.len()
    }

    /// The corner `c` of the face `t`, looked up among the vertices.
    pub open spec fn corner(&self, t: int, c: int) -> Seq<u32> {
        key(self.verts@[self.faces@[t][c] as int])
    }

    /// Builds the indexed mesh of a list of triangles.
    ///
    /// The vertices are the distinct corners in the order of their first
    /// occurrence; face `t` indexes the corners of triangle `t`. The mesh is
    /// refused when there are more than `MAX_VERTS` distinct corners.
    pub fn from_verts(verts: &[[Vert; 3]]) -> (r: Result<Mesh, IndexOverflow>)
        ensures
            r is Err <==> unique(corners(verts@)).len() > MAX_VERTS,
            match r {
                Ok(mesh) => indexes(mesh, verts@),
                Err(_) => true,
            },
    {
        Self::make_indices(verts)
    }

    fn make_indices(tris: &[[Vert; 3]]) -> (r: Result<Mesh, IndexOverflow>)
        ensures
            r is Err <==> unique(corners(tris@)).len() > MAX_VERTS,
            match r {
                Ok(mesh) => indexes(mesh, tris@),
                Err(_) => true,
            },
    {
        let ghost all = corners(tris@);
        let mut found = Interner::new();
        let mut faces: Vec<Face> = Vec::new();
        let mut t: usize = 0;
        proof {
            assert(all.take(0) =~= Seq::empty());
            assert(keys(found.verts@) =~= Seq::empty());
        }
        while t < tris.len()
            invariant
                0 <= t <= tris@.len(),
                all == corners(tris@),
                found.wf(),
                keys(found.verts@) == unique(all.take(3 * t)),
                found.verts@.len() <= MAX_VERTS,
                faces@.len() == t,
                forall|s: int, c: int|
                    0 <= s < t && 0 <= c < 3 ==> (#[trigger] faces@[s][c]) < found.verts@.len()
                        && key(found.verts@[faces@[s][c] as int]) == key(tris@[s][c]),
            decreases tris@.len() - t,
        {
            let tri = tris[t];
            proof {
                lemma_unique_no_duplicates(all.take(3 * t));
            }
            let a = match found.intern(tri[0]) {
                Ok(i) => i,
                Err(e) => {
                    proof {
                        lemma_take_push(all, 3 * t);
                        lemma_unique_grows(all, 3 * t + 1);
                    }
                    return Err(e);
                },
            };
            proof {
                lemma_take_push(all, 3 * t);
            }
            let b = match found.intern(tri[1]) {
                Ok(i) => i,
                Err(e) => {
                    proof {
                        lemma_take_push(all, 3 * t + 1);
                        lemma_unique_grows(all, 3 * t + 2);
                    }
                    return Err(e);
                },
            };
            proof {
                lemma_take_push(all, 3 * t + 1);
            }
            let c = match found.intern(tri[2]) {
                Ok(i) => i,
                Err(e) => {
                    proof {
                        lemma_take_push(all, 3 * t + 2);
                        lemma_unique_grows(all, 3 * t + 3);
                    }
                    return Err(e);
                },
            };
            proof {
                lemma_take_push(all, 3 * t + 2);
            }
            let face: Face = [a, b, c];
            faces.push(face);
            t = t + 1;
        }
        proof {
            assert(all.take(3 * t) =~= all);
            lemma_unique_no_duplicates(all);
        }
        Ok(Mesh { verts: found.verts, faces })
    }
}

/// Whether two vertices hold the same five bit patterns.
pub fn same_vert(a: &Vert, b: &Vert) -> (r: bool)
    ensures
        r == (key(*a) == key(*b)),
{
    let r = a.pos[0] == b.pos[0] && a.pos[1] == b.pos[1] && a.pos[2] == b.pos[2] && a.map[0]
        == b.map[0] && a.map[1] == b.map[1];
    proof {
        if key(*a) == key(*b) {
            assert(key(*a)[0] == key(*b)[0]);
            assert(key(*a)[1] == key(*b)[1]);
            assert(key(*a)[2] == key(*b)[2]);
            assert(key(*a)[3] == key(*b)[3]);
            assert(key(*a)[4] == key(*b)[4]);
        }
        if r {
            assert(key(*a) =~= key(*b));
        }
    }
    r
}

/// The bucket that a vertex falls into: its position and the first of its
/// texture coordinates, as one number.
pub open spec fn bucket_of(k: Seq<u32>) -> u128 {
    (k[0] * 0x1_0000_0000_0000_0000_0000_0000 + k[1] * 0x1_0000_0000_0000_0000 + k[2]
        * 0x1_0000_0000 + k[3]) as u128
}

/// Computes the bucket of a vertex.
fn bucket(v: &Vert) -> (r: u128)
    ensures
        r == bucket_of(key(*v)),
{
    (v.pos[0] as u128) * 0x1_0000_0000_0000_0000_0000_0000 + (v.pos[1] as u128)
        * 0x1_0000_0000_0000_0000 + (v.pos[2] as u128) * 0x1_0000_0000 + (v.map[0] as u128)
}

/// Distinct vertices in the order in which they came, and for each bucket
/// the indices of the vertices in it.
struct Interner {
    verts: Vec<Vert>,
    buckets: HashMap<u128, Vec<u16>>,
}

impl Interner {
    /// No vertex is held twice, and the buckets hold exactly the indices of
    /// the vertices that fall into them.
    spec fn wf(&self) -> bool {
        &&& self.verts@.len() <= MAX_VERTS
        &&& keys(self.verts@).no_duplicates()
        &&& forall|i: int|
            0 <= i < self.verts@.len() ==> {
                let b = #[trigger] bucket_of(key(self.verts@[i]));
                self.buckets@.dom().contains(b) && self.buckets@[b]@.contains(i as u16)
            }
        &&& forall|b: u128, j: int|
            self.buckets@.dom().contains(b) && 0 <= j < self.buckets@[b]@.len() ==> {
                let i = #[trigger] self.buckets@[b]@[j];
                i < self.verts@.len() && bucket_of(key(self.verts@[i as int])) == b
            }
    }

    /// Nothing is held yet.
    fn new() -> (r: Interner)
        ensures
            r.wf(),
            r.verts@.len() == 0,
    {
        broadcast use vstd::std_specs::hash::group_hash_axioms;

        Interner { verts: Vec::new(), buckets: HashMap::new() }
    }

    /// The index of `v` among the vertices, which grow by `v` where `v` is
    /// new.
    fn intern(&mut self, v: Vert) -> (r: Result<u16, IndexOverflow>)
        requires
            old(self).wf(),
        ensures
            final(self).wf(),
            r is Err <==> push_unique(keys(old(self).verts@), key(v)).len() > MAX_VERTS,
            match r {
                Ok(i) => {
                    &&& keys(final(self).verts@) == push_unique(keys(old(self).verts@), key(v))
                    &&& i < final(self).verts@.len()
                    &&& key(final(self).verts@[i as int]) == key(v)
                    &&& forall|j: int|
                        0 <= j < old(self).verts@.len() ==> final(self).verts@[j] == old(
                            self,
                        ).verts@[j]
                    &&& final(self).verts@.len() >= old(self).verts@.len()
                },
                Err(_) => *final(self) == *old(self),
            },
    {
        broadcast use vstd::std_specs::hash::group_hash_axioms;

        let b = bucket(&v);
        match self.buckets.get(&b) {
            Some(list) => {
                let mut j: usize = 0;
                while j < list.len()
                    invariant
                        0 <= j <= list@.len(),
                        *self == *old(self),
                        self.wf(),
                        b == bucket_of(key(v)),
                        self.buckets@.dom().contains(b),
                        *list == self.buckets@[b],
                        forall|k: int|
                            0 <= k < j ==> key(self.verts@[list@[k] as int]) != key(v),
                    decreases list@.len() - j,
                {
                    let i = list[j];
                    proof {
                        assert(self.buckets@[b]@[j as int] == i);
                    }
                    if same_vert(&self.verts[i as usize], &v) {
                        proof {
                            assert(keys(self.verts@)[i as int] == key(v));
                            assert(keys(self.verts@).contains(key(v)));
                        }
                        return Ok(i);
                    }
                    j = j + 1;
                }
            },
            None => {},
        }
        proof {
            assert(!keys(self.verts@).contains(key(v))) by {
                if keys(self.verts@).contains(key(v)) {
                    let i = choose|i: int|
                        0 <= i < keys(self.verts@).len() && keys(self.verts@)[i] == key(v);
                    assert(key(self.verts@[i]) == key(v));
                    assert(bucket_of(key(self.verts@[i])) == b);
                    let list = self.buckets@[b]@;
                    let k = choose|k: int| 0 <= k < list.len() && list[k] == i as u16;
                    assert(key(self.verts@[list[k] as int]) != key(v));
                }
            }
        }
        if self.verts.len() >= MAX_VERTS {
            return Err(IndexOverflow);
        }
        let at = self.verts.len() as u16;
        self.verts.push(v);
        let mut list = match self.buckets.remove(&b) {
            Some(list) => list,
            None => Vec::new(),
        };
        let ghost before = list@;
        list.push(at);
        self.buckets.insert(b, list);
        proof {
            assert(keys(self.verts@) =~= keys(old(self).verts@).push(key(v)));
            assert forall|i: int| 0 <= i < self.verts@.len() implies {
                let c = #[trigger] bucket_of(key(self.verts@[i]));
                self.buckets@.dom().contains(c) && self.buckets@[c]@.contains(i as u16)
            } by {
                let c = bucket_of(key(self.verts@[i]));
                if i < old(self).verts@.len() {
                    assert(self.verts@[i] == old(self).verts@[i]);
                    assert(old(self).buckets@[c]@.contains(i as u16));
                    if c == b {
                        let k = choose|k: int| 0 <= k < before.len() && before[k] == i as u16;
                        assert(self.buckets@[c]@[k] == i as u16);
                    }
                } else {
                    assert(self.buckets@[c]@[before.len() as int] == i as u16);
                }
            }
            assert forall|c: u128, j: int|
                self.buckets@.dom().contains(c) && 0 <= j < self.buckets@[c]@.len() implies {
                let i = #[trigger] self.buckets@[c]@[j];
                i < self.verts@.len() && bucket_of(key(self.verts@[i as int])) == c
            } by {
                if c == b {
                    if j < before.len() {
                        assert(old(self).buckets@[c]@[j] == before[j]);
                    }
                } else {
                    assert(old(self).buckets@[c]@[j] == self.buckets@[c]@[j]);
                }
            }
        }
        Ok(at)
    }
}

/// Round trip: the mesh of `N` triangles that have `M` distinct corners has
/// `M` vertices and `N` faces, every index of a face points at a vertex, and
/// the vertices that the faces point at are the corners of the triangles.
pub proof fn lemma_round_trip(mesh: Mesh, tris: Seq<[Vert; 3]>)
    requires
        indexes(mesh, tris),
    ensures
        mesh.verts@.len() == corners(tris).to_set().len(),
        mesh.verts@.len() <= 3 * tris.len(),
        mesh.faces@.len() == tris.len(),
        forall|t: int, c: int|
            0 <= t < tris.len() && 0 <= c < 3 ==> (#[trigger] mesh.faces@[t][c]) < mesh.verts@.len()
                && key(mesh.verts@[mesh.faces@[t][c] as int]) == key(tris[t][c]),
{
    let all = corners(tris);
    lemma_unique_counts(all);
    assert(keys(mesh.verts@).len() == mesh.verts@.len());
    lemma_unique_short(all);
    assert forall|t: int, c: int| 0 <= t < tris.len() && 0 <= c < 3 implies (
    #[trigger] mesh.faces@[t][c]) < mesh.verts@.len() && key(
        mesh.verts@[mesh.faces@[t][c] as int],
    ) == key(tris[t][c]) by {
        assert(mesh.corner(t, c) == key(tris[t][c]));
    }
}

} // verus!
