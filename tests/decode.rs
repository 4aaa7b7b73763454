use bmf2obj::{
    as_face_le, as_vertex_le, load_bmf, read_face_block, read_group, read_vertex_block, Face,
    Faces, Group, LoadError, Normals, Vertex, Vertices, BMF,
};

fn put(out: &mut Vec<u8>, x: u32) {
    out.extend_from_slice(&x.to_le_bytes());
}

fn put_vertex(out: &mut Vec<u8>, v: &Vertex) {
    put(out, v.x);
    put(out, v.y);
    put(out, v.z);
}

fn put_face(out: &mut Vec<u8>, f: &Face) {
    put(out, f.a);
    put(out, f.b);
    put(out, f.c);
}

fn encode(d: &BMF) -> Vec<u8> {
    let mut out = Vec::new();
    put(&mut out, d.header);
    put(&mut out, d.vertices.header);
    put(&mut out, d.vertices.len);
    for v in &d.vertices.vertices {
        put_vertex(&mut out, v);
    }
    put(&mut out, d.vertices.footer);
    put(&mut out, d.group.header);
    put(&mut out, d.group.faces.header);
    put(&mut out, d.group.faces.len);
    for f in &d.group.faces.faces {
        put_face(&mut out, f);
    }
    put(&mut out, d.group.faces.footer);
    put(&mut out, d.group.normals.header);
    put(&mut out, d.group.normals.len);
    for n in &d.group.normals.normals {
        put_vertex(&mut out, n);
    }
    put(&mut out, d.group.normals.footer);
    put(&mut out, d.group.footer);
    put(&mut out, d.footer);
    out
}

fn vtx(x: f32, y: f32, z: f32) -> Vertex {
    Vertex { x: x.to_bits(), y: y.to_bits(), z: z.to_bits() }
}

fn sample() -> BMF {
    let vertices = vec![vtx(1.0, 2.0, 3.0), vtx(-0.5, 0.25, 1e-3), vtx(f32::MAX, f32::MIN_POSITIVE, -0.0)];
    let faces = vec![Face { a: 0, b: 1, c: 2 }, Face { a: 2, b: 1, c: 0 }];
    let normals = vec![vtx(0.0, 0.0, 1.0)];
    BMF {
        header: 0xdead_beef,
        vertices: Vertices { header: 0x11, len: 3, vertices, footer: 0x12 },
        group: Group {
            header: 0x21,
            faces: Faces { header: 0x31, len: 2, faces, footer: 0x32 },
            normals: Normals { header: 0x41, len: 1, normals, footer: 0x42 },
            footer: 0x22,
        },
        footer: 0xffff_ffff,
    }
}

#[test]
fn decode_then_encode_gives_back_the_bytes() {
    let doc = sample();
    let bytes = encode(&doc);
    assert_eq!(bytes.len(), 52 + 12 * 3 + 12 * 2 + 12);
    let decoded = load_bmf(&bytes).unwrap();
    assert_eq!(decoded, doc);
    assert_eq!(encode(&decoded), bytes);
}

#[test]
fn empty_document_round_trips() {
    let doc = BMF::new();
    let bytes = encode(&doc);
    assert_eq!(bytes, vec![0u8; 52]);
    let decoded = load_bmf(&bytes).unwrap();
    assert_eq!(decoded, doc);
    assert!(decoded.vertices.vertices.is_empty());
    assert!(decoded.group.faces.faces.is_empty());
    assert!(decoded.group.normals.normals.is_empty());
}

#[test]
fn bytes_after_the_footer_are_not_read() {
    let doc = sample();
    let mut bytes = encode(&doc);
    bytes.extend_from_slice(&[1, 2, 3, 4, 5]);
    assert_eq!(load_bmf(&bytes).unwrap(), doc);
}

#[test]
fn every_truncation_fails() {
    let bytes = encode(&sample());
    for k in 0..bytes.len() {
        assert_eq!(load_bmf(&bytes[..k]), Err(LoadError::Truncated), "cut at {}", k);
    }
}

#[test]
fn every_truncation_of_empty_document_fails() {
    let bytes = encode(&BMF::new());
    for k in 0..bytes.len() {
        assert_eq!(load_bmf(&bytes[..k]), Err(LoadError::Truncated));
    }
}

#[test]
fn count_larger_than_stream_fails() {
    let mut bytes = Vec::new();
    put(&mut bytes, 0);
    put(&mut bytes, 0);
    put(&mut bytes, u32::MAX);
    bytes.extend_from_slice(&[0u8; 64]);
    assert_eq!(load_bmf(&bytes), Err(LoadError::Truncated));
}

#[test]
fn markers_are_not_validated() {
    let mut doc = BMF::new();
    doc.header = 0x1234_5678;
    doc.vertices.footer = 7;
    doc.group.header = u32::MAX;
    doc.group.normals.header = 0x8000_0000;
    doc.footer = 42;
    let decoded = load_bmf(&encode(&doc)).unwrap();
    assert_eq!(decoded.header, 0x1234_5678);
    assert_eq!(decoded.vertices.footer, 7);
    assert_eq!(decoded.group.header, u32::MAX);
    assert_eq!(decoded.group.normals.header, 0x8000_0000);
    assert_eq!(decoded.footer, 42);
}

#[test]
fn zero_count_block_takes_twelve_bytes() {
    let mut bytes = vec![9u8, 9, 9];
    put(&mut bytes, 5);
    put(&mut bytes, 0);
    put(&mut bytes, 6);
    put(&mut bytes, 0xaaaa_aaaa);
    let (block, end) = read_vertex_block(&bytes, 3).unwrap();
    assert_eq!(end, 15);
    assert_eq!(block, Vertices { header: 5, len: 0, vertices: vec![], footer: 6 });
}

#[test]
fn count_fixes_number_of_records() {
    let mut bytes = Vec::new();
    put(&mut bytes, 1);
    put(&mut bytes, 2);
    put_face(&mut bytes, &Face { a: 1, b: 2, c: 3 });
    put_face(&mut bytes, &Face { a: 4, b: 5, c: 6 });
    put(&mut bytes, 3);
    put_face(&mut bytes, &Face { a: 7, b: 8, c: 9 });
    let (block, end) = read_face_block(&bytes, 0).unwrap();
    assert_eq!(end, 12 + 24);
    assert_eq!(block.len, 2);
    assert_eq!(block.faces, vec![Face { a: 1, b: 2, c: 3 }, Face { a: 4, b: 5, c: 6 }]);
    assert_eq!(block.footer, 3);
}

#[test]
fn block_cut_inside_a_record_fails() {
    let mut bytes = Vec::new();
    put(&mut bytes, 1);
    put(&mut bytes, 1);
    bytes.extend_from_slice(&[0u8; 11]);
    assert_eq!(read_vertex_block(&bytes, 0), Err(LoadError::Truncated));
    assert_eq!(read_face_block(&bytes, 0), Err(LoadError::Truncated));
}

#[test]
fn block_offset_past_end_fails() {
    let bytes = vec![0u8; 12];
    assert_eq!(read_vertex_block(&bytes, 13), Err(LoadError::Truncated));
    assert_eq!(read_vertex_block(&bytes, usize::MAX), Err(LoadError::Truncated));
    assert!(read_vertex_block(&bytes, 0).is_ok());
}

#[test]
fn group_reads_faces_then_normals() {
    let doc = sample();
    let bytes = encode(&doc);
    let start = 4 + 12 + 12 * 3;
    let (group, end) = read_group(&bytes, start).unwrap();
    assert_eq!(group, doc.group);
    assert_eq!(end, bytes.len() - 4);
    assert_eq!(read_group(&bytes[..end - 1], start), Err(LoadError::Truncated));
}

#[test]
fn vertex_record_is_little_endian() {
    let mut rec = [0u8; 12];
    rec[0..4].copy_from_slice(&1.0f32.to_le_bytes());
    rec[4..8].copy_from_slice(&(-2.5f32).to_le_bytes());
    rec[8..12].copy_from_slice(&[0x01, 0x02, 0x03, 0x04]);
    let v = as_vertex_le(&rec);
    assert_eq!(v.x, 0x3f80_0000);
    assert_eq!(f32::from_bits(v.y), -2.5);
    assert_eq!(v.z, 0x0403_0201);
}

#[test]
fn face_record_is_little_endian() {
    let rec = [1u8, 0, 0, 0, 0, 1, 0, 0, 0xff, 0xff, 0xff, 0xff];
    assert_eq!(as_face_le(&rec), Face { a: 1, b: 256, c: u32::MAX });
}

#[test]
fn constructors_are_empty() {
    let v = Vertices::new();
    assert_eq!((v.header, v.len, v.vertices.len(), v.footer), (0, 0, 0, 0));
    let f = Faces::new();
    assert_eq!((f.header, f.len, f.faces.len(), f.footer), (0, 0, 0, 0));
    let n = Normals::new();
    assert_eq!((n.header, n.len, n.normals.len(), n.footer), (0, 0, 0, 0));
    let g = Group::new();
    assert_eq!((g.header, g.footer), (0, 0));
    assert_eq!(g.faces, Faces::new());
    assert_eq!(g.normals, Normals::new());
    let d = BMF::new();
    assert_eq!((d.header, d.footer), (0, 0));
    assert_eq!(d.vertices, Vertices::new());
    assert_eq!(d.group, Group::new());
}
