//! The in-memory BMF document and its mathematical view.
use vstd::prelude::*;

verus! {

/// A point or a direction. Each coordinate is the IEEE-754 bit pattern of a
/// 32-bit float, exactly as it stood on the wire.
#[derive(Debug, Clone, Copy, PartialEq, Eq)]
pub struct Vertex {
    pub x: u32,
    pub y: u32,
    pub z: u32,
}

/// A triangle given by three vertex indices, as decoded (no renumbering).
#[derive(Debug, Clone, Copy, PartialEq, Eq)]
pub struct Face {
    pub a: u32,
    pub b: u32,
    pub c: u32,
}

/// A counted block: header marker, element count, the elements, footer marker.
pub struct BlockView<T> {
    pub header: u32,
    pub len: u32,
    pub items: Seq<T>,
    pub footer: u32,
}

/// A block with zero markers and no elements.
pub open spec fn empty_block<T>() -> BlockView<T> {
    BlockView { header: 0, len: 0, items: Seq::empty(), footer: 0 }
}

impl<T> BlockView<T> {
    /// The count field agrees with the number of elements.
    pub open spec fn wf(self) -> bool {
        self.items.len() == self.len as nat
    }
}

pub struct GroupView {
    pub header: u32,
    pub faces: BlockView<Face>,
    pub normals: BlockView<Vertex>,
    pub footer: u32,
}

impl GroupView {
    pub open spec fn wf(self) -> bool {
        self.faces.wf() && self.normals.wf()
    }
}

pub struct BMFView {
    pub header: u32,
    pub vertices: BlockView<Vertex>,
    pub group: GroupView,
    pub footer: u32,
}

impl BMFView {
    pub open spec fn wf(self) -> bool {
        self.vertices.wf() && self.group.wf()
    }
}

#[derive(Debug, Clone, PartialEq)]
pub struct Vertices {
    pub header: u32,
    pub len: u32,
    pub vertices: Vec<Vertex>,
    pub footer: u32,
}

impl View for Vertices {
    type V = BlockView<Vertex>;

    open spec fn view(&self) -> BlockView<Vertex> {
        BlockView { header: self.header, len: self.len, items: self.vertices@, footer: self.footer }
    }
}

impl Vertices {
    /// An empty block with zero markers.
    pub fn new() -> (r: Vertices)
        ensures
            r@ == empty_block::<Vertex>(),
            r@.wf(),
    {
        Vertices { header: 0, len: 0, vertices: Vec::new(), footer: 0 }
    }
}

#[derive(Debug, Clone, PartialEq)]
pub struct Faces {
    pub header: u32,
    pub len: u32,
    pub faces: Vec<Face>,
    pub footer: u32,
}

impl View for Faces {
    type V = BlockView<Face>;

    open spec fn view(&self) -> BlockView<Face> {
        BlockView { header: self.header, len: self.len, items: self.faces@, footer: self.footer }
    }
}

impl Faces {
    /// An empty block with zero markers.
    pub fn new() -> (r: Faces)
        ensures
            r@ == empty_block::<Face>(),
            r@.wf(),
    {
        Faces { header: 0, len: 0, faces: Vec::new(), footer: 0 }
    }
}

#[derive(Debug, Clone, PartialEq)]
pub struct Normals {
    pub header: u32,
    pub len: u32,
    pub normals: Vec<Vertex>,
    pub footer: u32,
}

impl View for Normals {
    type V = BlockView<Vertex>;

    open spec fn view(&self) -> BlockView<Vertex> {
        BlockView { header: self.header, len: self.len, items: self.normals@, footer: self.footer }
    }
}

impl Normals {
    /// An empty block with zero markers.
    pub fn new() -> (r: Normals)
        ensures
            r@ == empty_block::<Vertex>(),
            r@.wf(),
    {
        Normals { header: 0, len: 0, normals: Vec::new(), footer: 0 }
    }
}

#[derive(Debug, Clone, PartialEq)]
pub struct Group {
    pub header: u32,
    pub faces: Faces,
    pub normals: Normals,
    pub footer: u32,
}

impl View for Group {
    type V = GroupView;

    open spec fn view(&self) -> GroupView {
        GroupView {
            header: self.header,
            faces: self.faces@,
            normals: self.normals@,
            footer: self.footer,
        }
    }
}

impl Group {
    /// An empty group with zero markers.
    pub fn new() -> (r: Group)
        ensures
            r@.header == 0,
            r@.footer == 0,
            r@.faces == empty_block::<Face>(),
            r@.normals == empty_block::<Vertex>(),
            r@.wf(),
    {
        Group { header: 0, faces: Faces::new(), normals: Normals::new(), footer: 0 }
    }
}

/// A whole BMF document: one vertices block and one group.
#[derive(Debug, Clone, PartialEq)]
pub struct BMF {
    pub header: u32,
    pub vertices: Vertices,
    pub group: Group,
    pub footer: u32,
}

impl View for BMF {
    type V = BMFView;

    open spec fn view(&self) -> BMFView {
        BMFView {
            header: self.header,
            vertices: self.vertices@,
            group: self.group@,
            footer: self.footer,
        }
    }
}

impl BMF {
    /// An empty document with zero markers.
    pub fn new() -> (r: BMF)
        ensures
            r@.header == 0,
            r@.footer == 0,
            r@.vertices == empty_block::<Vertex>(),
            r@.group.header == 0,
            r@.group.footer == 0,
            r@.group.faces == empty_block::<Face>(),
            r@.group.normals == empty_block::<Vertex>(),
            r@.wf(),
    {
        BMF { header: 0, vertices: Vertices::new(), group: Group::new(), footer: 0 }
    }
}

} // verus!
