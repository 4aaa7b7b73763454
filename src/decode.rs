//! Decoding of the BMF layout from an in-memory byte stream.
use crate::encoding::{
    bmf_bytes, face_block_bytes, face_bytes, face_codec, fixed_width, group_bytes,
    lemma_block_parts, lemma_block_unique, lemma_bmf_parts, lemma_bmf_unique, lemma_codecs,
    lemma_group_parts, lemma_group_unique, lemma_matches_concat, lemma_records_len,
    lemma_records_push, lemma_word, matches_at, records, vertex_block_bytes, vertex_bytes,
    vertex_codec, word,
};
use crate::mesh::{BMFView, BlockView, Face, Faces, Group, GroupView, Normals, Vertex, Vertices, BMF};
use vstd::bytes::{
    lemma_auto_spec_u32_to_from_le_bytes, spec_u32_from_le_bytes, spec_u32_to_le_bytes,
    u32_from_le_bytes,
};
use vstd::prelude::*;
use vstd::slice::slice_subrange;

verus! {

/// Why a stream could not be decoded.
#[derive(Debug, Clone, Copy, PartialEq, Eq)]
pub enum LoadError {
    /// The stream ended before a field or a record that the layout requires.
    Truncated,
}

/// Reads the little-endian word of `s`, which must hold four bytes.
fn le_word(s: &[u8]) -> (r: u32)
    requires
        s@.len() == 4,
    ensures
        word(r) == s@,
{
    let r = u32_from_le_bytes(s);
    proof {
        lemma_auto_spec_u32_to_from_le_bytes();
        assert(spec_u32_to_le_bytes(spec_u32_from_le_bytes(s@)) == s@);
    }
    r
}

/// Reads the word at `pos`, if four bytes remain there.
fn read_word(bytes: &[u8], pos: usize) -> (r: Option<u32>)
    ensures
        r is Some <==> pos + 4 <= bytes@.len(),
        r matches Some(x) ==> matches_at(word(x), bytes@, pos as int),
        bytes@.len() <= usize::MAX,
{
    if pos <= bytes.len() && bytes.len() - pos >= 4 {
        let x = le_word(slice_subrange(bytes, pos, pos + 4));
        Some(x)
    } else {
        None
    }
}

/// Decodes one vertex record: three little-endian coordinates.
pub fn as_vertex_le(array: &[u8; 12]) -> (r: Vertex)
    ensures
        vertex_bytes(r) == array@,
{
    let s = array.as_slice();
    let x = le_word(slice_subrange(s, 0, 4));
    let y = le_word(slice_subrange(s, 4, 8));
    let z = le_word(slice_subrange(s, 8, 12));
    let r = Vertex { x, y, z };
    assert(vertex_bytes(r) =~= array@);
    r
}

/// Decodes one face record: three little-endian vertex indices.
pub fn as_face_le(array: &[u8; 12]) -> (r: Face)
    ensures
        face_bytes(r) == array@,
{
    let s = array.as_slice();
    let a = le_word(slice_subrange(s, 0, 4));
    let b = le_word(slice_subrange(s, 4, 8));
    let c = le_word(slice_subrange(s, 8, 12));
    let r = Face { a, b, c };
    assert(face_bytes(r) =~= array@);
    r
}

/// The twelve bytes at `pos`.
fn record_at(bytes: &[u8], pos: usize) -> (r: [u8; 12])
    requires
        pos + 12 <= bytes@.len(),
    ensures
        r@ == bytes@.subrange(pos as int, pos + 12),
{
    let r: [u8; 12] = [
        bytes[pos],
        bytes[pos + 1],
        bytes[pos + 2],
        bytes[pos + 3],
        bytes[pos + 4],
        bytes[pos + 5],
        bytes[pos + 6],
        bytes[pos + 7],
        bytes[pos + 8],
        bytes[pos + 9],
        bytes[pos + 10],
        bytes[pos + 11],
    ];
    assert(r@ =~= bytes@.subrange(pos as int, pos + 12));
    r
}

/// Decodes a counted block of vertices that starts at `pos`: header, count,
/// exactly that many twelve-byte records, footer. On success it also returns
/// the offset just past the footer.
pub fn read_vertex_block(bytes: &[u8], pos: usize) -> (r: Result<(Vertices, usize), LoadError>)
    ensures
        match r {
            Ok((b, end)) => {
                &&& b@.wf()
                &&& matches_at(vertex_block_bytes(b@), bytes@, pos as int)
                &&& end == pos + vertex_block_bytes(b@).len()
                &&& end == pos + 12 + 12 * (b.len as int)
            },
            Err(e) => {
                &&& e == LoadError::Truncated
                &&& forall|b: BlockView<Vertex>|
                    b.wf() ==> !matches_at(#[trigger] vertex_block_bytes(b), bytes@, pos as int)
            },
        },
{
    let ghost s = bytes@;
    proof {
        lemma_codecs();
    }
    let got = read_word(bytes, pos);
    let header = match got {
        Some(x) => x,
        None => {
            proof {
                assert forall|b: BlockView<Vertex>| b.wf() implies !matches_at(
                    #[trigger] vertex_block_bytes(b),
                    s,
                    pos as int,
                ) by {
                    lemma_block_parts(b, vertex_codec(), s, pos as int);
                    lemma_word(b.header, b.len);
                }
            }
            return Err(LoadError::Truncated);
        },
    };
    let got = read_word(bytes, pos + 4);
    let len = match got {
        Some(x) => x,
        None => {
            proof {
                assert forall|b: BlockView<Vertex>| b.wf() implies !matches_at(
                    #[trigger] vertex_block_bytes(b),
                    s,
                    pos as int,
                ) by {
                    lemma_block_parts(b, vertex_codec(), s, pos as int);
                    lemma_word(b.header, b.len);
                }
            }
            return Err(LoadError::Truncated);
        },
    };
    let mut items: Vec<Vertex> = Vec::new();
    let mut cur: usize = pos + 8;
    let mut i: u32 = 0;
    proof {
        assert(records(items@, vertex_codec()) == Seq::<u8>::empty());
        assert(s.subrange(pos + 8, pos + 8) =~= Seq::<u8>::empty());
    }
    while i < len
        invariant
            s == bytes@,
            pos + 8 <= s.len(),
            matches_at(word(header), s, pos as int),
            matches_at(word(len), s, pos + 4),
            i <= len,
            items@.len() == i,
            cur == pos + 8 + 12 * (i as int),
            matches_at(records(items@, vertex_codec()), s, pos + 8),
            fixed_width(vertex_codec()),
        decreases len - i,
    {
        proof {
            lemma_records_len(items@, vertex_codec());
        }
        if bytes.len() - cur < 12 {
            proof {
                assert forall|b: BlockView<Vertex>| b.wf() implies !matches_at(
                    #[trigger] vertex_block_bytes(b),
                    s,
                    pos as int,
                ) by {
                    lemma_block_parts(b, vertex_codec(), s, pos as int);
                    lemma_word(b.len, len);
                }
            }
            return Err(LoadError::Truncated);
        }
        let rec = record_at(bytes, cur);
        let item = as_vertex_le(&rec);
        proof {
            lemma_records_push(items@, item, vertex_codec());
            lemma_matches_concat(records(items@, vertex_codec()), vertex_bytes(item), s, pos + 8);
        }
        items.push(item);
        cur = cur + 12;
        i = i + 1;
    }
    proof {
        lemma_records_len(items@, vertex_codec());
    }
    let got = read_word(bytes, cur);
    let footer = match got {
        Some(x) => x,
        None => {
            proof {
                assert forall|b: BlockView<Vertex>| b.wf() implies !matches_at(
                    #[trigger] vertex_block_bytes(b),
                    s,
                    pos as int,
                ) by {
                    lemma_block_parts(b, vertex_codec(), s, pos as int);
                    lemma_word(b.len, len);
                    lemma_word(b.footer, b.footer);
                }
            }
            return Err(LoadError::Truncated);
        },
    };
    let b = Vertices { header, len, vertices: items, footer };
    proof {
        lemma_block_parts(b@, vertex_codec(), s, pos as int);
    }
    Ok((b, cur + 4))
}

/// Decodes a counted block of faces that starts at `pos`: header, count,
/// exactly that many twelve-byte records, footer. On success it also returns
/// the offset just past the footer.
pub fn read_face_block(bytes: &[u8], pos: usize) -> (r: Result<(Faces, usize), LoadError>)
    ensures
        match r {
            Ok((b, end)) => {
                &&& b@.wf()
                &&& matches_at(face_block_bytes(b@), bytes@, pos as int)
                &&& end == pos + face_block_bytes(b@).len()
                &&& end == pos + 12 + 12 * (b.len as int)
            },
            Err(e) => {
                &&& e == LoadError::Truncated
                &&& forall|b: BlockView<Face>|
                    b.wf() ==> !matches_at(#[trigger] face_block_bytes(b), bytes@, pos as int)
            },
        },
{
    let ghost s = bytes@;
    proof {
        lemma_codecs();
    }
    let got = read_word(bytes, pos);
    let header = match got {
        Some(x) => x,
        None => {
            proof {
                assert forall|b: BlockView<Face>| b.wf() implies !matches_at(
                    #[trigger] face_block_bytes(b),
                    s,
                    pos as int,
                ) by {
                    lemma_block_parts(b, face_codec(), s, pos as int);
                    lemma_word(b.header, b.len);
                }
            }
            return Err(LoadError::Truncated);
        },
    };
    let got = read_word(bytes, pos + 4);
    let len = match got {
        Some(x) => x,
        None => {
            proof {
                assert forall|b: BlockView<Face>| b.wf() implies !matches_at(
                    #[trigger] face_block_bytes(b),
                    s,
                    pos as int,
                ) by {
                    lemma_block_parts(b, face_codec(), s, pos as int);
                    lemma_word(b.header, b.len);
                }
            }
            return Err(LoadError::Truncated);
        },
    };
    let mut items: Vec<Face> = Vec::new();
    let mut cur: usize = pos + 8;
    let mut i: u32 = 0;
    proof {
        assert(records(items@, face_codec()) == Seq::<u8>::empty());
        assert(s.subrange(pos + 8, pos + 8) =~= Seq::<u8>::empty());
    }
    while i < len
        invariant
            s == bytes@,
            pos + 8 <= s.len(),
            matches_at(word(header), s, pos as int),
            matches_at(word(len), s, pos + 4),
            i <= len,
            items@.len() == i,
            cur == pos + 8 + 12 * (i as int),
            matches_at(records(items@, face_codec()), s, pos + 8),
            fixed_width(face_codec()),
        decreases len - i,
    {
        proof {
            lemma_records_len(items@, face_codec());
        }
        if bytes.len() - cur < 12 {
            proof {
                assert forall|b: BlockView<Face>| b.wf() implies !matches_at(
                    #[trigger] face_block_bytes(b),
                    s,
                    pos as int,
                ) by {
                    lemma_block_parts(b, face_codec(), s, pos as int);
                    lemma_word(b.len, len);
                }
            }
            return Err(LoadError::Truncated);
        }
        let rec = record_at(bytes, cur);
        let item = as_face_le(&rec);
        proof {
            lemma_records_push(items@, item, face_codec());
            lemma_matches_concat(records(items@, face_codec()), face_bytes(item), s, pos + 8);
        }
        items.push(item);
        cur = cur + 12;
        i = i + 1;
    }
    proof {
        lemma_records_len(items@, face_codec());
    }
    let got = read_word(bytes, cur);
    let footer = match got {
        Some(x) => x,
        None => {
            proof {
                assert forall|b: BlockView<Face>| b.wf() implies !matches_at(
                    #[trigger] face_block_bytes(b),
                    s,
                    pos as int,
                ) by {
                    lemma_block_parts(b, face_codec(), s, pos as int);
                    lemma_word(b.len, len);
                    lemma_word(b.footer, b.footer);
                }
            }
            return Err(LoadError::Truncated);
        },
    };
    let b = Faces { header, len, faces: items, footer };
    proof {
        lemma_block_parts(b@, face_codec(), s, pos as int);
    }
    Ok((b, cur + 4))
}

/// Decodes the group that starts at `pos`: header, faces block, normals
/// block, footer. On success it also returns the offset just past the footer.
pub fn read_group(bytes: &[u8], pos: usize) -> (r: Result<(Group, usize), LoadError>)
    ensures
        match r {
            Ok((g, end)) => {
                &&& g@.wf()
                &&& matches_at(group_bytes(g@), bytes@, pos as int)
                &&& end == pos + group_bytes(g@).len()
            },
            Err(e) => {
                &&& e == LoadError::Truncated
                &&& forall|g: GroupView|
                    g.wf() ==> !matches_at(#[trigger] group_bytes(g), bytes@, pos as int)
            },
        },
{
    let ghost s = bytes@;
    proof {
        lemma_codecs();
    }
    let got = read_word(bytes, pos);
    let header = match got {
        Some(x) => x,
        None => {
            proof {
                assert forall|g: GroupView| g.wf() implies !matches_at(
                    #[trigger] group_bytes(g),
                    s,
                    pos as int,
                ) by {
                    lemma_group_parts(g, s, pos as int);
                    lemma_word(g.header, g.footer);
                }
            }
            return Err(LoadError::Truncated);
        },
    };
    let got = read_face_block(bytes, pos + 4);
    let (faces, after_faces) = match got {
        Ok(x) => x,
        Err(e) => {
            proof {
                assert forall|g: GroupView| g.wf() implies !matches_at(
                    #[trigger] group_bytes(g),
                    s,
                    pos as int,
                ) by {
                    lemma_group_parts(g, s, pos as int);
                }
            }
            return Err(e);
        },
    };
    let got = read_vertex_block(bytes, after_faces);
    let (normals, after_normals) = match got {
        Ok((v, end)) => (
            Normals { header: v.header, len: v.len, normals: v.vertices, footer: v.footer },
            end,
        ),
        Err(e) => {
            proof {
                assert forall|g: GroupView| g.wf() implies !matches_at(
                    #[trigger] group_bytes(g),
                    s,
                    pos as int,
                ) by {
                    lemma_group_parts(g, s, pos as int);
                    if matches_at(group_bytes(g), s, pos as int) {
                        lemma_block_unique(g.faces, faces@, face_codec(), s, pos + 4);
                    }
                }
            }
            return Err(e);
        },
    };
    let got = read_word(bytes, after_normals);
    let footer = match got {
        Some(x) => x,
        None => {
            proof {
                assert forall|g: GroupView| g.wf() implies !matches_at(
                    #[trigger] group_bytes(g),
                    s,
                    pos as int,
                ) by {
                    lemma_group_parts(g, s, pos as int);
                    lemma_word(g.header, g.footer);
                    if matches_at(group_bytes(g), s, pos as int) {
                        lemma_block_unique(g.faces, faces@, face_codec(), s, pos + 4);
                        lemma_block_unique(g.normals, normals@, vertex_codec(), s, after_faces as int);
                    }
                }
            }
            return Err(LoadError::Truncated);
        },
    };
    let g = Group { header, faces, normals, footer };
    proof {
        lemma_group_parts(g@, s, pos as int);
    }
    Ok((g, after_normals + 4))
}

/// Decodes a whole BMF document from the start of `bytes`. Bytes after the
/// document footer are not read.
///
/// It succeeds exactly when some well-formed document is encoded at the start
/// of the stream, and then returns that document, which is the only one.
pub fn load_bmf(bytes: &[u8]) -> (r: Result<BMF, LoadError>)
    ensures
        match r {
            Ok(d) => {
                &&& d@.wf()
                &&& matches_at(bmf_bytes(d@), bytes@, 0)
                &&& forall|d2: BMFView|
                    d2.wf() && matches_at(#[trigger] bmf_bytes(d2), bytes@, 0) ==> d2 == d@
            },
            Err(e) => {
                &&& e == LoadError::Truncated
                &&& forall|d2: BMFView| d2.wf() ==> !matches_at(#[trigger] bmf_bytes(d2), bytes@, 0)
            },
        },
{
    let ghost s = bytes@;
    proof {
        lemma_codecs();
    }
    let got = read_word(bytes, 0);
    let header = match got {
        Some(x) => x,
        None => {
            proof {
                assert forall|d: BMFView| d.wf() implies !matches_at(#[trigger] bmf_bytes(d), s, 0) by {
                    lemma_bmf_parts(d, s);
                    lemma_word(d.header, d.footer);
                }
            }
            return Err(LoadError::Truncated);
        },
    };
    let got = read_vertex_block(bytes, 4);
    let (vertices, after_vertices) = match got {
        Ok(x) => x,
        Err(e) => {
            proof {
                assert forall|d: BMFView| d.wf() implies !matches_at(#[trigger] bmf_bytes(d), s, 0) by {
                    lemma_bmf_parts(d, s);
                }
            }
            return Err(e);
        },
    };
    let got = read_group(bytes, after_vertices);
    let (group, after_group) = match got {
        Ok(x) => x,
        Err(e) => {
            proof {
                assert forall|d: BMFView| d.wf() implies !matches_at(#[trigger] bmf_bytes(d), s, 0) by {
                    lemma_bmf_parts(d, s);
                    if matches_at(bmf_bytes(d), s, 0) {
                        lemma_block_unique(d.vertices, vertices@, vertex_codec(), s, 4);
                    }
                }
            }
            return Err(e);
        },
    };
    let got = read_word(bytes, after_group);
    let footer = match got {
        Some(x) => x,
        None => {
            proof {
                assert forall|d: BMFView| d.wf() implies !matches_at(#[trigger] bmf_bytes(d), s, 0) by {
                    lemma_bmf_parts(d, s);
                    lemma_word(d.header, d.footer);
                    lemma_group_parts(d.group, s, after_vertices as int);
                    lemma_group_parts(group@, s, after_vertices as int);
                    if matches_at(bmf_bytes(d), s, 0) {
                        lemma_block_unique(d.vertices, vertices@, vertex_codec(), s, 4);
                        lemma_group_unique(d.group, group@, s, after_vertices as int);
                    }
                }
            }
            return Err(LoadError::Truncated);
        },
    };
    let d = BMF { header, vertices, group, footer };
    proof {
        lemma_bmf_parts(d@, s);
        lemma_group_parts(group@, s, after_vertices as int);
        assert forall|d2: BMFView| d2.wf() && matches_at(#[trigger] bmf_bytes(d2), s, 0) implies d2
            == d@ by {
            lemma_bmf_unique(d2, d@, s);
        }
    }
    Ok(d)
}

} // verus!
