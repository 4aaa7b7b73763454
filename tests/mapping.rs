use bmf2obj::{bmf_to_obj, load_bmf, Face, Primitive, Vertex, BMF};

fn words(ws: &[u32]) -> Vec<u8> {
    let mut out = Vec::new();
    for w in ws {
        out.extend_from_slice(&w.to_le_bytes());
    }
    out
}

#[test]
fn end_to_end_single_triangle() {
    let bytes = words(&[
        0,
        0,
        1,
        1.0f32.to_bits(),
        2.0f32.to_bits(),
        3.0f32.to_bits(),
        0,
        0,
        0,
        1,
        0,
        0,
        0,
        0,
        0,
        0,
        0,
        0,
        0,
    ]);
    let doc = load_bmf(&bytes).unwrap();
    assert_eq!(doc.vertices.vertices.len(), 1);
    assert_eq!(doc.group.faces.faces, vec![Face { a: 0, b: 0, c: 0 }]);
    assert!(doc.group.normals.normals.is_empty());

    let set = bmf_to_obj(&doc);
    assert_eq!(set.material_library, None);
    assert_eq!(set.objects.len(), 1);
    let obj = &set.objects[0];
    assert_eq!(obj.name, "");
    assert_eq!(obj.vertices.len(), 1);
    let v = obj.vertices[0];
    let widened = (f32::from_bits(v.x) as f64, f32::from_bits(v.y) as f64, f32::from_bits(v.z) as f64);
    assert_eq!(widened, (1.0, 2.0, 3.0));
    assert!(obj.tex_vertices.is_empty());
    assert!(obj.normals.is_empty());
    assert_eq!(obj.geometry.len(), 1);
    assert_eq!(obj.geometry[0].material_name, None);
    assert_eq!(obj.geometry[0].shapes.len(), 1);
    let shape = &obj.geometry[0].shapes[0];
    assert_eq!(shape.primitive, Primitive::Triangle((0, None, None), (0, None, None), (0, None, None)));
    assert!(shape.groups.is_empty());
    assert!(shape.smoothing_groups.is_empty());
}

#[test]
fn empty_document_maps_to_one_object_and_one_geometry() {
    let set = bmf_to_obj(&BMF::new());
    assert_eq!(set.objects.len(), 1);
    assert!(set.objects[0].vertices.is_empty());
    assert!(set.objects[0].normals.is_empty());
    assert!(set.objects[0].tex_vertices.is_empty());
    assert_eq!(set.objects[0].geometry.len(), 1);
    assert!(set.objects[0].geometry[0].shapes.is_empty());
}

#[test]
fn faces_become_bare_triangles_and_normals_are_dropped() {
    let mut doc = BMF::new();
    doc.vertices.vertices = vec![Vertex { x: 1, y: 2, z: 3 }, Vertex { x: 4, y: 5, z: 6 }];
    doc.vertices.len = 2;
    doc.group.faces.faces = vec![Face { a: 1, b: 0, c: 7 }, Face { a: u32::MAX, b: 2, c: 1 }];
    doc.group.faces.len = 2;
    doc.group.normals.normals = vec![Vertex { x: 9, y: 9, z: 9 }; 3];
    doc.group.normals.len = 3;
    let set = bmf_to_obj(&doc);
    let obj = &set.objects[0];
    assert_eq!(obj.vertices, doc.vertices.vertices);
    assert!(obj.normals.is_empty());
    let shapes = &obj.geometry[0].shapes;
    assert_eq!(shapes.len(), 2);
    assert_eq!(shapes[0].primitive, Primitive::Triangle((1, None, None), (0, None, None), (7, None, None)));
    assert_eq!(
        shapes[1].primitive,
        Primitive::Triangle((u32::MAX as usize, None, None), (2, None, None), (1, None, None))
    );
}

#[test]
fn coordinates_widen_exactly() {
    let values = [
        0.1f32,
        -0.0,
        f32::MAX,
        f32::MIN,
        f32::MIN_POSITIVE,
        1.0e-45,
        f32::INFINITY,
        123456.789,
    ];
    for &x in &values {
        let mut bytes = words(&[0, 0, 1]);
        bytes.extend_from_slice(&x.to_le_bytes());
        bytes.extend_from_slice(&(-x).to_le_bytes());
        bytes.extend_from_slice(&x.to_le_bytes());
        bytes.extend_from_slice(&words(&[0; 10]));
        let set = bmf_to_obj(&load_bmf(&bytes).unwrap());
        let v = set.objects[0].vertices[0];
        assert_eq!(v.x, x.to_bits());
        assert_eq!(v.y, (-x).to_bits());
        let wide = f32::from_bits(v.x) as f64;
        assert_eq!(wide as f32, x);
        assert_eq!(wide.to_bits(), (x as f64).to_bits());
    }
}
