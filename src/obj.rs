//! The OBJ object graph that a decoded document maps onto, and the mapping.
//!
//! Coordinates are carried as IEEE-754 bit patterns: a `Vertex` holds the
//! 32-bit patterns read from the BMF stream, which widen exactly to 64-bit
//! floats when the graph is written out.
use crate::mesh::{Face, Vertex, BMF};
use vstd::prelude::*;

verus! {

/// A reference to a vertex, with an optional texture-coordinate index and an
/// optional normal index.
pub type VTNIndex = (usize, Option<usize>, Option<usize>);

#[derive(Debug, Clone, Copy, PartialEq, Eq)]
pub enum Primitive {
    Point(VTNIndex),
    Line(VTNIndex, VTNIndex),
    Triangle(VTNIndex, VTNIndex, VTNIndex),
}

/// A texture vertex; each coordinate is the bit pattern of a 64-bit float.
#[derive(Debug, Clone, Copy, PartialEq, Eq)]
pub struct TexVertex {
    pub u: u64,
    pub v: u64,
    pub w: u64,
}

#[derive(Debug, Clone, PartialEq)]
pub struct Shape {
    pub primitive: Primitive,
    pub groups: Vec<String>,
    pub smoothing_groups: Vec<u32>,
}

#[derive(Debug, Clone, PartialEq)]
pub struct Geometry {
    pub material_name: Option<String>,
    pub shapes: Vec<Shape>,
}

#[derive(Debug, Clone, PartialEq)]
pub struct Object {
    pub name: String,
    pub vertices: Vec<Vertex>,
    pub tex_vertices: Vec<TexVertex>,
    pub normals: Vec<Vertex>,
    pub geometry: Vec<Geometry>,
}

#[derive(Debug, Clone, PartialEq)]
pub struct ObjSet {
    pub material_library: Option<String>,
    pub objects: Vec<Object>,
}

/// A bare reference to vertex `i`: no texture coordinate, no normal.
pub open spec fn bare_ref(i: u32) -> VTNIndex {
    (i as usize, None, None)
}

/// The triangle that a face becomes: its indices unchanged.
pub open spec fn triangle_of(f: Face) -> Primitive {
    Primitive::Triangle(bare_ref(f.a), bare_ref(f.b), bare_ref(f.c))
}

/// The shape that a face becomes: its triangle, in no group and no
/// smoothing group.
pub open spec fn is_shape_of(sh: Shape, f: Face) -> bool {
    &&& sh.primitive == triangle_of(f)
    &&& sh.groups@.len() == 0
    &&& sh.smoothing_groups@.len() == 0
}

/// A triangle none of whose corners refers to a texture coordinate or a normal.
pub open spec fn is_bare_triangle(p: Primitive) -> bool {
    match p {
        Primitive::Triangle(a, b, c) => {
            &&& a.1 is None && a.2 is None
            &&& b.1 is None && b.2 is None
            &&& c.1 is None && c.2 is None
        },
        _ => false,
    }
}

/// Maps a decoded document onto the OBJ graph: one unnamed object holding the
/// document's vertices unchanged, no texture vertices and no normals (the
/// document's normals are dropped), and one geometry without material whose
/// shapes are the document's faces, in order, as bare triangles.
pub fn bmf_to_obj(bmf: &BMF) -> (r: ObjSet)
    ensures
        r.material_library is None,
        r.objects@.len() == 1,
        r.objects@[0].name@ == Seq::<char>::empty(),
        r.objects@[0].vertices@ == bmf.vertices.vertices@,
        r.objects@[0].tex_vertices@.len() == 0,
        r.objects@[0].normals@.len() == 0,
        r.objects@[0].geometry@.len() == 1,
        r.objects@[0].geometry@[0].material_name is None,
        r.objects@[0].geometry@[0].shapes@.len() == bmf.group.faces.faces@.len(),
        forall|i: int|
            0 <= i < bmf.group.faces.faces@.len() ==> is_shape_of(
                #[trigger] r.objects@[0].geometry@[0].shapes@[i],
                bmf.group.faces.faces@[i],
            ),
        forall|i: int|
            0 <= i < r.objects@[0].geometry@[0].shapes@.len() ==> is_bare_triangle(
                #[trigger] r.objects@[0].geometry@[0].shapes@[i].primitive,
            ),
{
    let src = &bmf.vertices.vertices;
    let mut vertices: Vec<Vertex> = Vec::new();
    let mut i: usize = 0;
    while i < src.len()
        invariant
            i <= src@.len(),
            vertices@ == src@.subrange(0, i as int),
        decreases src@.len() - i,
    {
        vertices.push(src[i]);
        i = i + 1;
        assert(vertices@ =~= src@.subrange(0, i as int));
    }
    assert(vertices@ =~= src@);
    let faces = &bmf.group.faces.faces;
    let mut shapes: Vec<Shape> = Vec::new();
    let mut j: usize = 0;
    while j < faces.len()
        invariant
            j <= faces@.len(),
            shapes@.len() == j,
            forall|k: int| 0 <= k < j ==> is_shape_of(#[trigger] shapes@[k], faces@[k]),
        decreases faces@.len() - j,
    {
        let f = faces[j];
        let primitive = Primitive::Triangle(
            (f.a as usize, None, None),
            (f.b as usize, None, None),
            (f.c as usize, None, None),
        );
        shapes.push(Shape { primitive, groups: Vec::new(), smoothing_groups: Vec::new() });
        j = j + 1;
    }
    let geometry = Geometry { material_name: None, shapes };
    let mut geometries: Vec<Geometry> = Vec::new();
    geometries.push(geometry);
    let object = Object {
        name: String::new(),
        vertices,
        tex_vertices: Vec::new(),
        normals: Vec::new(),
        geometry: geometries,
    };
    let mut objects: Vec<Object> = Vec::new();
    objects.push(object);
    ObjSet { material_library: None, objects }
}

} // verus!
