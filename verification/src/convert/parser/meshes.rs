//! From geometries to meshes.
//!
//! The index stream of a geometry is cut into chunks of one stride each. A
//! chunk refers to one corner: the slot of the vertex input holds an index
//! into the positions, three numbers each, and the slot of the texture input
//! an index into the texture coordinates, two numbers each. Three corners
//! make a triangle; the triangles are then indexed.

use super::{Element, Error, ErrorModel, Value};
use crate::convert::format::document::{
    views, Document, Geometry, GeometryModel, Input, InputModel, Source, SourceModel,
};
use crate::convert::mesh::{corners, indexes, Mesh, Vert, MAX_VERTS};
use crate::distinct::unique;
use crate::convert::numeric::{
    position, position_of, pure_numerics, texture, texture_of, Numerics,
};
use crate::convert::strings::{ends_with, is_suffix};
use vstd::prelude::*;

verus! {

/// The numbers of the last source whose id ends in `-positions`.
pub open spec fn positions_of(sources: Seq<SourceModel>) -> Seq<u32>
    decreases sources.len(),
{
    if sources.len() == 0 {
        Seq::empty()
    } else if is_suffix("-positions"@, sources.last().id) {
        sources.last().floats
    } else {
        positions_of(sources.drop_last())
    }
}

/// Whether a source holds texture coordinates.
pub open spec fn is_map(id: Seq<char>) -> bool {
    !is_suffix("-positions"@, id) && is_suffix("-map-0"@, id)
}

/// The numbers of the last source that holds texture coordinates.
pub open spec fn maps_of(sources: Seq<SourceModel>) -> Seq<u32>
    decreases sources.len(),
{
    if sources.len() == 0 {
        Seq::empty()
    } else if is_map(sources.last().id) {
        sources.last().floats
    } else {
        maps_of(sources.drop_last())
    }
}

/// The offset of the last input whose source ends in `-vertices`.
pub open spec fn vertices_input(inputs: Seq<InputModel>) -> Option<usize>
    decreases inputs.len(),
{
    if inputs.len() == 0 {
        None
    } else if is_suffix("-vertices"@, inputs.last().source) {
        Some(inputs.last().offset)
    } else {
        vertices_input(inputs.drop_last())
    }
}

/// Whether an input is that of the texture coordinates.
pub open spec fn is_map_input(source: Seq<char>) -> bool {
    !is_suffix("-vertices"@, source) && is_suffix("-map-0"@, source)
}

/// The offset of the last input of texture coordinates.
pub open spec fn map_input(inputs: Seq<InputModel>) -> Option<usize>
    decreases inputs.len(),
{
    if inputs.len() == 0 {
        None
    } else if is_map_input(inputs.last().source) {
        Some(inputs.last().offset)
    } else {
        map_input(inputs.drop_last())
    }
}

/// The number of slots of a chunk: one more than the largest offset, never
/// less than one, and never more than a `usize` holds.
pub open spec fn stride_of(inputs: Seq<InputModel>) -> int
    decreases inputs.len(),
{
    if inputs.len() == 0 {
        1
    } else {
        let rest = stride_of(inputs.drop_last());
        let here = if inputs.last().offset < usize::MAX {
            inputs.last().offset + 1
        } else {
            usize::MAX as int
        };
        if here > rest {
            here
        } else {
            rest
        }
    }
}

/// What the chunks of a geometry are looked up in.
pub struct Lookup {
    pub positions: Seq<u32>,
    pub maps: Seq<u32>,
    pub indxs: Seq<u32>,
    pub vertices: usize,
    pub map: usize,
    pub stride: int,
}

impl Lookup {
    /// The corner that the chunk starting at `start` refers to; `None` where
    /// a slot lies outside the chunk or an index outside its array.
    pub open spec fn corner<N: Numerics>(self, n: &N, start: int) -> Option<Vert> {
        let vi = start + self.vertices;
        let mi = start + self.map;
        if self.vertices < self.stride && self.map < self.stride && vi < self.indxs.len() && mi
            < self.indxs.len() {
            let p = 3 * (self.indxs[vi] as int);
            let m = 2 * (self.indxs[mi] as int);
            if p + 2 < self.positions.len() && m + 1 < self.maps.len() {
                Some(
                    Vert {
                        pos: position_of(
                            n,
                            [self.positions[p], self.positions[p + 1], self.positions[p + 2]],
                        ),
                        map: texture_of(n, [self.maps[m], self.maps[m + 1]]),
                    },
                )
            } else {
                None
            }
        } else {
            None
        }
    }

    /// The corners of the chunks from `start` on; `None` where one of them
    /// fails.
    pub open spec fn corners_from<N: Numerics>(self, n: &N, start: int) -> Option<Seq<Vert>>
        decreases self.indxs.len() - start,
    {
        if start >= self.indxs.len() || self.stride <= 0 {
            Some(Seq::empty())
        } else {
            match self.corner(n, start) {
                Some(c) => if self.indxs.len() - start <= self.stride {
                    Some(seq![c])
                } else {
                    match self.corners_from(n, start + self.stride) {
                        Some(rest) => Some(seq![c] + rest),
                        None => None,
                    }
                },
                None => None,
            }
        }
    }
}

impl Lookup {
    /// The triangles that the chunks give, or why there is no mesh of them:
    /// a chunk that fails, or more distinct corners than a mesh can hold.
    pub open spec fn triangles<N: Numerics>(self, n: &N) -> Result<Seq<[Vert; 3]>, ErrorModel> {
        match self.corners_from(n, 0) {
            None => Err(ErrorModel::Index),
            Some(cs) => if unique(corners(triangles_of(cs))).len() > MAX_VERTS {
                Err(ErrorModel::IndexOverflow)
            } else {
                Ok(triangles_of(cs))
            },
        }
    }
}

/// The triangles that a run of corners makes; corners left over are dropped.
pub open spec fn triangles_of(cs: Seq<Vert>) -> Seq<[Vert; 3]> {
    Seq::new((cs.len() / 3) as nat, |t: int| [cs[3 * t], cs[3 * t + 1], cs[3 * t + 2]])
}

/// How the chunks of a geometry are looked up, or why they cannot be.
pub open spec fn lookup_of(g: GeometryModel) -> Result<Lookup, ErrorModel> {
    match (vertices_input(g.triangles.inputs), map_input(g.triangles.inputs)) {
        (None, _) => Err(ErrorModel::NoVertices),
        (Some(_), None) => Err(ErrorModel::NoTextureMap),
        (Some(vertices), Some(map)) => Ok(
            Lookup {
                positions: positions_of(g.sources),
                maps: maps_of(g.sources),
                indxs: g.triangles.indxs,
                vertices,
                map,
                stride: stride_of(g.triangles.inputs),
            },
        ),
    }
}

/// The triangles of a geometry, or why it has no mesh.
pub open spec fn geometry_triangles<N: Numerics>(n: &N, g: GeometryModel) -> Result<
    Seq<[Vert; 3]>,
    ErrorModel,
> {
    match lookup_of(g) {
        Err(e) => Err(e),
        Ok(lookup) => lookup.triangles(n),
    }
}

/// The first failure among the geometries.
pub open spec fn meshes_error<N: Numerics>(n: &N, geometry: Seq<GeometryModel>) -> Option<
    ErrorModel,
>
    decreases geometry.len(),
{
    if geometry.len() == 0 {
        None
    } else {
        match meshes_error(n, geometry.drop_last()) {
            Some(e) => Some(e),
            None => match geometry_triangles(n, geometry.last()) {
                Err(e) => Some(e),
                Ok(_) => None,
            },
        }
    }
}

/// `el` is the mesh of the geometry `g` under its name.
pub open spec fn is_mesh_of<N: Numerics>(n: &N, el: Element, g: GeometryModel) -> bool {
    &&& el.name@ == g.name
    &&& el.val is Mesh
    &&& geometry_triangles(n, g) is Ok
    &&& indexes(el.val->Mesh_0, geometry_triangles(n, g)->Ok_0)
}

/// `r` is what the geometries `geometry` give: the mesh of each under its
/// name, or the first failure among them.
pub open spec fn meshes_result<N: Numerics>(
    n: &N,
    geometry: Seq<GeometryModel>,
    r: Result<Vec<Element>, Error>,
) -> bool {
    match r {
        Ok(out) => {
            &&& meshes_error(n, geometry) is None
            &&& out@.len() == geometry.len()
            &&& forall|i: int| 0 <= i < out@.len() ==> is_mesh_of(n, #[trigger] out@[i], geometry[i])
        },
        Err(e) => meshes_error(n, geometry) is Some && e.is_model(
            meshes_error(n, geometry)->Some_0,
        ),
    }
}

/// Finds the sources of positions and of texture coordinates.
fn select_sources(sources: &Vec<Source>) -> (r: (Option<usize>, Option<usize>))
    ensures
        match r.0 {
            Some(i) => i < sources@.len() && sources@[i as int].floats@ == positions_of(
                views(sources@),
            ),
            None => positions_of(views(sources@)) == Seq::<u32>::empty(),
        },
        match r.1 {
            Some(i) => i < sources@.len() && sources@[i as int].floats@ == maps_of(
                views(sources@),
            ),
            None => maps_of(views(sources@)) == Seq::<u32>::empty(),
        },
{
    let mut positions: Option<usize> = None;
    let mut maps: Option<usize> = None;
    let mut i: usize = 0;
    let ghost all = views(sources@);
    proof {
        assert(all.take(0) =~= Seq::empty());
    }
    while i < sources.len()
        invariant
            0 <= i <= sources@.len(),
            all == views(sources@),
            match positions {
                Some(p) => p < i && sources@[p as int].floats@ == positions_of(all.take(i as int)),
                None => positions_of(all.take(i as int)) == Seq::<u32>::empty(),
            },
            match maps {
                Some(p) => p < i && sources@[p as int].floats@ == maps_of(all.take(i as int)),
                None => maps_of(all.take(i as int)) == Seq::<u32>::empty(),
            },
        decreases sources@.len() - i,
    {
        proof {
            assert(all.take(i + 1).drop_last() =~= all.take(i as int));
            assert(all.take(i + 1).last() == sources@[i as int]@);
        }
        let id = sources[i].id.as_str();
        if ends_with(id, "-positions") {
            positions = Some(i);
        } else if ends_with(id, "-map-0") {
            maps = Some(i);
        }
        i = i + 1;
    }
    proof {
        assert(all.take(i as int) =~= all);
    }
    (positions, maps)
}

/// Finds the offsets of the two inputs and the stride.
fn select_inputs(inputs: &Vec<Input>) -> (r: (Option<usize>, Option<usize>, usize))
    ensures
        r.0 == vertices_input(views(inputs@)),
        r.1 == map_input(views(inputs@)),
        r.2 == stride_of(views(inputs@)),
        r.2 >= 1,
{
    let mut vertices: Option<usize> = None;
    let mut maps: Option<usize> = None;
    let mut stride: usize = 1;
    let mut i: usize = 0;
    let ghost all = views(inputs@);
    proof {
        assert(all.take(0) =~= Seq::empty());
    }
    while i < inputs.len()
        invariant
            0 <= i <= inputs@.len(),
            all == views(inputs@),
            vertices == vertices_input(all.take(i as int)),
            maps == map_input(all.take(i as int)),
            stride == stride_of(all.take(i as int)),
            stride >= 1,
        decreases inputs@.len() - i,
    {
        proof {
            assert(all.take(i + 1).drop_last() =~= all.take(i as int));
            assert(all.take(i + 1).last() == inputs@[i as int]@);
        }
        let input = &inputs[i];
        if ends_with(input.source.as_str(), "-vertices") {
            vertices = Some(input.offset);
        } else if ends_with(input.source.as_str(), "-map-0") {
            maps = Some(input.offset);
        }
        let here = if input.offset < usize::MAX {
            input.offset + 1
        } else {
            usize::MAX
        };
        if here > stride {
            stride = here;
        }
        i = i + 1;
    }
    proof {
        assert(all.take(i as int) =~= all);
    }
    (vertices, maps, stride)
}

/// Looks up the corner of the chunk that starts at `start`.
fn corner_at<N: Numerics>(
    n: &N,
    positions: &[u32],
    maps: &[u32],
    indxs: &[u32],
    vertices: usize,
    map: usize,
    stride: usize,
    start: usize,
) -> (r: Option<Vert>)
    requires
        pure_numerics(n),
        start < indxs@.len(),
    ensures
        r == (Lookup {
            positions: positions@,
            maps: maps@,
            indxs: indxs@,
            vertices,
            map,
            stride: stride as int,
        }).corner(n, start as int),
{
    let left = indxs.len() - start;
    if vertices >= stride || map >= stride || vertices >= left || map >= left {
        return None;
    }
    let p = indxs[start + vertices] as u64 * 3;
    let m = indxs[start + map] as u64 * 2;
    if p + 2 >= positions.len() as u64 || m + 1 >= maps.len() as u64 {
        return None;
    }
    let p = p as usize;
    let m = m as usize;
    let pos = position(n, [positions[p], positions[p + 1], positions[p + 2]]);
    let uv = texture(n, [maps[m], maps[m + 1]]);
    Some(Vert { pos, map: uv })
}

/// Cuts a run of corners into triangles.
fn group(cs: &Vec<Vert>) -> (r: Vec<[Vert; 3]>)
    ensures
        r@ == triangles_of(cs@),
{
    let mut tris: Vec<[Vert; 3]> = Vec::new();
    let mut i: usize = 0;
    while cs.len() - i >= 3
        invariant
            0 <= i <= cs@.len(),
            i == 3 * tris@.len(),
            tris@.len() <= cs@.len() / 3,
            forall|t: int| 0 <= t < tris@.len() ==> #[trigger] tris@[t] == triangles_of(cs@)[t],
        decreases cs@.len() - i,
    {
        let tri: [Vert; 3] = [cs[i], cs[i + 1], cs[i + 2]];
        tris.push(tri);
        i = i + 3;
    }
    proof {
        assert(tris@ =~= triangles_of(cs@));
    }
    tris
}

/// Assembles a mesh from a raw index stream.
///
/// Every chunk of `stride` indices refers to one corner: the index at the
/// slot `vertices` picks three numbers of `positions`, the index at the slot
/// `map` two numbers of `maps`. Position and texture coordinate are
/// post-processed by `n`. A slot outside its chunk or an index outside its
/// array fails with `Error::Index`. Three corners make a triangle, and the
/// triangles are indexed as `Mesh::from_verts` says.
pub fn from_triangles<N: Numerics>(
    positions: &[u32],
    maps: &[u32],
    indxs: &[u32],
    vertices: usize,
    map: usize,
    stride: usize,
    n: &N,
) -> (r: Result<Mesh, Error>)
    requires
        pure_numerics(n),
        stride >= 1,
    ensures
        match (Lookup {
            positions: positions@,
            maps: maps@,
            indxs: indxs@,
            vertices,
            map,
            stride: stride as int,
        }).triangles(n) {
            Ok(tris) => r is Ok && indexes(r->Ok_0, tris),
            Err(e) => r is Err && r->Err_0.is_model(e),
        },
{
    let ghost lookup = Lookup {
        positions: positions@,
        maps: maps@,
        indxs: indxs@,
        vertices,
        map,
        stride: stride as int,
    };
    let mut cs: Vec<Vert> = Vec::new();
    let mut start: usize = 0;
    while start < indxs.len()
        invariant
            pure_numerics(n),
            0 <= start <= indxs@.len(),
            stride >= 1,
            lookup == (Lookup {
                positions: positions@,
                maps: maps@,
                indxs: indxs@,
                vertices,
                map,
                stride: stride as int,
            }),
            lookup.corners_from(n, 0) == match lookup.corners_from(n, start as int) {
                Some(rest) => Some(cs@ + rest),
                None => None,
            },
        decreases indxs@.len() - start,
    {
        let ghost before = cs@;
        match corner_at(n, positions, maps, indxs, vertices, map, stride, start) {
            Some(c) => {
                cs.push(c);
            },
            None => {
                proof {
                    assert(lookup.corners_from(n, start as int) is None);
                }
                return Err(Error::Index);
            },
        }
        let next = if indxs.len() - start <= stride {
            indxs.len()
        } else {
            start + stride
        };
        proof {
            if indxs.len() - start <= stride {
                assert(lookup.corners_from(n, next as int) == Some(Seq::<Vert>::empty()));
                assert(before + seq![cs@.last()] =~= cs@ + Seq::<Vert>::empty());
            } else {
                match lookup.corners_from(n, next as int) {
                    Some(rest) => {
                        assert(before + (seq![cs@.last()] + rest) =~= cs@ + rest);
                    },
                    None => {},
                }
            }
        }
        start = next;
    }
    proof {
        assert(cs@ + Seq::<Vert>::empty() =~= cs@);
    }
    let tris = group(&cs);
    match Mesh::from_verts(tris.as_slice()) {
        Ok(mesh) => Ok(mesh),
        Err(e) => Err(Error::IndexOverflow(e)),
    }
}

/// Assembles the mesh of one geometry: its positions are the numbers of the
/// source whose id ends in `-positions`, its texture coordinates those of
/// the source whose id ends in `-map-0`, and its inputs name the slots and
/// the stride.
pub fn geometry_mesh<N: Numerics>(g: &Geometry, n: &N) -> (r: Result<Mesh, Error>)
    requires
        pure_numerics(n),
    ensures
        match geometry_triangles(n, g@) {
            Ok(tris) => r is Ok && indexes(r->Ok_0, tris),
            Err(e) => r is Err && r->Err_0.is_model(e),
        },
{
    let none: Vec<u32> = Vec::new();
    let (positions_at, maps_at) = select_sources(&g.sources);
    let positions: &[u32] = match positions_at {
        Some(i) => g.sources[i].floats.as_slice(),
        None => none.as_slice(),
    };
    let maps: &[u32] = match maps_at {
        Some(i) => g.sources[i].floats.as_slice(),
        None => none.as_slice(),
    };
    let (vertices, map, stride) = select_inputs(&g.triangles.inputs);
    let vertices = match vertices {
        Some(v) => v,
        None => {
            return Err(Error::NoVertices);
        },
    };
    let map = match map {
        Some(m) => m,
        None => {
            return Err(Error::NoTextureMap);
        },
    };
    from_triangles(positions, maps, g.triangles.indxs.as_slice(), vertices, map, stride, n)
}

/// Assembles the meshes of all geometries of a document, each under the name
/// of its geometry. The first geometry that fails makes the whole fail.
pub fn parse_meshes<N: Numerics>(doc: &Document, n: &N) -> (r: Result<Vec<Element>, Error>)
    requires
        pure_numerics(n),
    ensures
        meshes_result(n, doc@.geometry, r),
{
    let mut out: Vec<Element> = Vec::new();
    let mut i: usize = 0;
    let ghost all = doc@.geometry;
    proof {
        assert(all.take(0) =~= Seq::empty());
    }
    while i < doc.geometry.len()
        invariant
            pure_numerics(n),
            0 <= i <= doc.geometry@.len(),
            all == views(doc.geometry@),
            meshes_error(n, all.take(i as int)) is None,
            out@.len() == i,
            forall|j: int| 0 <= j < i ==> is_mesh_of(n, #[trigger] out@[j], all[j]),
        decreases doc.geometry@.len() - i,
    {
        proof {
            assert(all.take(i + 1).drop_last() =~= all.take(i as int));
            assert(all.take(i + 1).last() == doc.geometry@[i as int]@);
        }
        let g = &doc.geometry[i];
        match geometry_mesh(g, n) {
            Ok(mesh) => {
                out.push(Element { name: g.name.clone(), val: Value::Mesh(mesh) });
            },
            Err(e) => {
                proof {
                    lemma_meshes_error_stays(n, all, i + 1);
                }
                return Err(e);
            },
        }
        i = i + 1;
    }
    proof {
        assert(all.take(i as int) =~= all);
    }
    Ok(out)
}

/// A failure among the first geometries is the failure of all of them.
proof fn lemma_meshes_error_stays<N: Numerics>(n: &N, geometry: Seq<GeometryModel>, k: int)
    requires
        0 <= k <= geometry.len(),
        meshes_error(n, geometry.take(k)) is Some,
    ensures
        meshes_error(n, geometry) == meshes_error(n, geometry.take(k)),
    decreases geometry.len() - k,
{
    if k == geometry.len() {
        assert(geometry.take(k) =~= geometry);
    } else {
        assert(geometry.take(k + 1).drop_last() =~= geometry.take(k));
        lemma_meshes_error_stays(n, geometry, k + 1);
    }
}

} // verus!
