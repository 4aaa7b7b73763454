//! Conversion of BMF binary meshes into a Wavefront OBJ object graph.
//!
//! `decode` reads the fixed, length-prefixed BMF layout from a byte slice and
//! is proved against the byte encoding in `encoding`; `obj` maps a decoded
//! document onto the OBJ object graph.
pub mod decode;
pub mod encoding;
pub mod mesh;
pub mod obj;

pub use mesh::{Face, Faces, Group, Normals, Vertex, Vertices, BMF};
pub use decode::{
    as_face_le, as_vertex_le, load_bmf, read_face_block, read_group, read_vertex_block, LoadError,
};
pub use obj::{bmf_to_obj, Geometry, ObjSet, Object, Primitive, Shape, TexVertex, VTNIndex};
