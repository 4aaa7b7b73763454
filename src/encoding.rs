//! The BMF byte layout, stated as an encoding of the document view, and the
//! facts about it that decoding relies on.
use crate::mesh::{BMFView, BlockView, Face, GroupView, Vertex};
use vstd::bytes::{lemma_auto_spec_u32_to_from_le_bytes, spec_u32_from_le_bytes, spec_u32_to_le_bytes};
use vstd::prelude::*;

verus! {

/// One little-endian 32-bit field.
pub open spec fn word(x: u32) -> Seq<u8> {
    spec_u32_to_le_bytes(x)
}

pub open spec fn vertex_bytes(v: Vertex) -> Seq<u8> {
    word(v.x) + word(v.y) + word(v.z)
}

pub open spec fn face_bytes(f: Face) -> Seq<u8> {
    word(f.a) + word(f.b) + word(f.c)
}

pub open spec fn vertex_codec() -> spec_fn(Vertex) -> Seq<u8> {
    |v: Vertex| vertex_bytes(v)
}

pub open spec fn face_codec() -> spec_fn(Face) -> Seq<u8> {
    |f: Face| face_bytes(f)
}

/// The records of a block, back to back, in order.
pub open spec fn records<T>(items: Seq<T>, enc: spec_fn(T) -> Seq<u8>) -> Seq<u8>
    decreases items.len(),
{
    if items.len() == 0 {
        Seq::empty()
    } else {
        enc(items[0]) + records(items.drop_first(), enc)
    }
}

pub open spec fn block_bytes<T>(b: BlockView<T>, enc: spec_fn(T) -> Seq<u8>) -> Seq<u8> {
    word(b.header) + word(b.len) + records(b.items, enc) + word(b.footer)
}

pub open spec fn vertex_block_bytes(b: BlockView<Vertex>) -> Seq<u8> {
    block_bytes(b, vertex_codec())
}

pub open spec fn face_block_bytes(b: BlockView<Face>) -> Seq<u8> {
    block_bytes(b, face_codec())
}

pub open spec fn group_bytes(g: GroupView) -> Seq<u8> {
    word(g.header) + face_block_bytes(g.faces) + vertex_block_bytes(g.normals) + word(g.footer)
}

/// The whole document on the wire.
pub open spec fn bmf_bytes(d: BMFView) -> Seq<u8> {
    word(d.header) + vertex_block_bytes(d.vertices) + group_bytes(d.group) + word(d.footer)
}

/// `t` stands in `s` starting at offset `pos`.
pub open spec fn matches_at(t: Seq<u8>, s: Seq<u8>, pos: int) -> bool {
    0 <= pos && pos + t.len() <= s.len() && s.subrange(pos, pos + t.len()) == t
}

/// Every record of the codec takes twelve bytes.
pub open spec fn fixed_width<T>(enc: spec_fn(T) -> Seq<u8>) -> bool {
    forall|t: T| #[trigger] enc(t).len() == 12
}

/// Distinct records have distinct bytes.
pub open spec fn injective<T>(enc: spec_fn(T) -> Seq<u8>) -> bool {
    forall|t1: T, t2: T| #[trigger] enc(t1) == #[trigger] enc(t2) ==> t1 == t2
}

pub proof fn lemma_word(x: u32, y: u32)
    ensures
        word(x).len() == 4,
        word(y).len() == 4,
        word(x) == word(y) ==> x == y,
{
    lemma_auto_spec_u32_to_from_le_bytes();
    assert(spec_u32_to_le_bytes(x).len() == 4);
    assert(spec_u32_to_le_bytes(y).len() == 4);
}

pub proof fn lemma_codecs()
    ensures
        fixed_width(vertex_codec()),
        injective(vertex_codec()),
        fixed_width(face_codec()),
        injective(face_codec()),
{
    assert forall|v: Vertex| #[trigger] vertex_codec()(v).len() == 12 by {
        lemma_word(v.x, v.x);
        lemma_word(v.y, v.y);
        lemma_word(v.z, v.z);
    }
    assert forall|f: Face| #[trigger] face_codec()(f).len() == 12 by {
        lemma_word(f.a, f.a);
        lemma_word(f.b, f.b);
        lemma_word(f.c, f.c);
    }
    assert forall|v1: Vertex, v2: Vertex| #[trigger] vertex_codec()(v1) == #[trigger] vertex_codec()(
        v2,
    ) implies v1 == v2 by {
        let (s1, s2) = (vertex_bytes(v1), vertex_bytes(v2));
        lemma_word(v1.x, v2.x);
        lemma_word(v1.y, v2.y);
        lemma_word(v1.z, v2.z);
        assert(word(v1.x) =~= s1.subrange(0, 4));
        assert(word(v2.x) =~= s2.subrange(0, 4));
        assert(word(v1.y) =~= s1.subrange(4, 8));
        assert(word(v2.y) =~= s2.subrange(4, 8));
        assert(word(v1.z) =~= s1.subrange(8, 12));
        assert(word(v2.z) =~= s2.subrange(8, 12));
    }
    assert forall|f1: Face, f2: Face| #[trigger] face_codec()(f1) == #[trigger] face_codec()(
        f2,
    ) implies f1 == f2 by {
        let (s1, s2) = (face_bytes(f1), face_bytes(f2));
        lemma_word(f1.a, f2.a);
        lemma_word(f1.b, f2.b);
        lemma_word(f1.c, f2.c);
        assert(word(f1.a) =~= s1.subrange(0, 4));
        assert(word(f2.a) =~= s2.subrange(0, 4));
        assert(word(f1.b) =~= s1.subrange(4, 8));
        assert(word(f2.b) =~= s2.subrange(4, 8));
        assert(word(f1.c) =~= s1.subrange(8, 12));
        assert(word(f2.c) =~= s2.subrange(8, 12));
    }
}

pub proof fn lemma_records_len<T>(items: Seq<T>, enc: spec_fn(T) -> Seq<u8>)
    requires
        fixed_width(enc),
    ensures
        records(items, enc).len() == 12 * items.len(),
    decreases items.len(),
{
    if items.len() > 0 {
        lemma_records_len(items.drop_first(), enc);
        assert(enc(items[0]).len() == 12);
    }
}

pub proof fn lemma_records_push<T>(items: Seq<T>, t: T, enc: spec_fn(T) -> Seq<u8>)
    ensures
        records(items.push(t), enc) == records(items, enc) + enc(t),
    decreases items.len(),
{
    if items.len() == 0 {
        assert(items.push(t).drop_first() =~= Seq::<T>::empty());
        assert(items.push(t)[0] == t);
        assert(records(items.push(t).drop_first(), enc) == Seq::<u8>::empty());
        assert(records(items.push(t), enc) =~= enc(t));
    } else {
        lemma_records_push(items.drop_first(), t, enc);
        assert(items.push(t).drop_first() =~= items.drop_first().push(t));
        assert(records(items.push(t), enc) =~= records(items, enc) + enc(t));
    }
}

pub proof fn lemma_records_unique<T>(a: Seq<T>, b: Seq<T>, enc: spec_fn(T) -> Seq<u8>)
    requires
        fixed_width(enc),
        injective(enc),
        a.len() == b.len(),
        records(a, enc) == records(b, enc),
    ensures
        a == b,
    decreases a.len(),
{
    if a.len() > 0 {
        let (ra, rb) = (records(a, enc), records(b, enc));
        assert(enc(a[0]).len() == 12 && enc(b[0]).len() == 12);
        assert(enc(a[0]) =~= ra.subrange(0, 12));
        assert(enc(b[0]) =~= rb.subrange(0, 12));
        assert(records(a.drop_first(), enc) =~= ra.subrange(12, ra.len() as int));
        assert(records(b.drop_first(), enc) =~= rb.subrange(12, rb.len() as int));
        lemma_records_unique(a.drop_first(), b.drop_first(), enc);
        assert(a =~= b) by {
            assert forall|i: int| 0 <= i < a.len() implies a[i] == b[i] by {
                if i > 0 {
                    assert(a[i] == a.drop_first()[i - 1]);
                    assert(b[i] == b.drop_first()[i - 1]);
                }
            }
        }
    } else {
        assert(a =~= b);
    }
}

/// A concatenation stands at `p` exactly when its two parts stand one after the other.
pub proof fn lemma_matches_concat(x: Seq<u8>, y: Seq<u8>, s: Seq<u8>, p: int)
    ensures
        matches_at(x + y, s, p) <==> (matches_at(x, s, p) && matches_at(y, s, p + x.len())),
{
    if matches_at(x + y, s, p) {
        assert(s.subrange(p, p + x.len()) =~= (x + y).subrange(0, x.len() as int));
        assert(s.subrange(p + x.len(), p + x.len() + y.len()) =~= (x + y).subrange(
            x.len() as int,
            (x.len() + y.len()) as int,
        ));
        assert((x + y).subrange(0, x.len() as int) =~= x);
        assert((x + y).subrange(x.len() as int, (x.len() + y.len()) as int) =~= y);
    }
    if matches_at(x, s, p) && matches_at(y, s, p + x.len()) {
        assert(s.subrange(p, p + (x + y).len()) =~= x + y);
    }
}

/// Two byte strings of one length that stand at one offset are equal.
pub proof fn lemma_matches_same(x: Seq<u8>, y: Seq<u8>, s: Seq<u8>, p: int)
    requires
        matches_at(x, s, p),
        matches_at(y, s, p),
        x.len() == y.len(),
    ensures
        x == y,
{
}

/// The four fields of a block, where they stand, and the block's length.
pub proof fn lemma_block_parts<T>(b: BlockView<T>, enc: spec_fn(T) -> Seq<u8>, s: Seq<u8>, p: int)
    requires
        fixed_width(enc),
        b.wf(),
    ensures
        block_bytes(b, enc).len() == 12 + 12 * (b.len as int),
        matches_at(block_bytes(b, enc), s, p) <==> {
            &&& matches_at(word(b.header), s, p)
            &&& matches_at(word(b.len), s, p + 4)
            &&& matches_at(records(b.items, enc), s, p + 8)
            &&& matches_at(word(b.footer), s, p + 8 + 12 * (b.len as int))
        },
{
    lemma_word(b.header, b.len);
    lemma_word(b.footer, b.footer);
    lemma_records_len(b.items, enc);
    let (h, n, r, f) = (word(b.header), word(b.len), records(b.items, enc), word(b.footer));
    lemma_matches_concat(h + n + r, f, s, p);
    lemma_matches_concat(h + n, r, s, p);
    lemma_matches_concat(h, n, s, p);
}

/// At most one well-formed block stands at a given offset.
pub proof fn lemma_block_unique<T>(
    b1: BlockView<T>,
    b2: BlockView<T>,
    enc: spec_fn(T) -> Seq<u8>,
    s: Seq<u8>,
    p: int,
)
    requires
        fixed_width(enc),
        injective(enc),
        b1.wf(),
        b2.wf(),
        matches_at(block_bytes(b1, enc), s, p),
        matches_at(block_bytes(b2, enc), s, p),
    ensures
        b1 == b2,
{
    lemma_block_parts(b1, enc, s, p);
    lemma_block_parts(b2, enc, s, p);
    lemma_word(b1.header, b2.header);
    lemma_word(b1.len, b2.len);
    lemma_word(b1.footer, b2.footer);
    lemma_matches_same(word(b1.header), word(b2.header), s, p);
    lemma_matches_same(word(b1.len), word(b2.len), s, p + 4);
    lemma_records_len(b1.items, enc);
    lemma_records_len(b2.items, enc);
    lemma_matches_same(records(b1.items, enc), records(b2.items, enc), s, p + 8);
    lemma_records_unique(b1.items, b2.items, enc);
    lemma_matches_same(word(b1.footer), word(b2.footer), s, p + 8 + 12 * (b1.len as int));
}

/// The parts of a group, where they stand, and the group's length.
pub proof fn lemma_group_parts(g: GroupView, s: Seq<u8>, p: int)
    requires
        g.wf(),
    ensures
        group_bytes(g).len() == 32 + 12 * (g.faces.len as int) + 12 * (g.normals.len as int),
        matches_at(group_bytes(g), s, p) <==> {
            &&& matches_at(word(g.header), s, p)
            &&& matches_at(face_block_bytes(g.faces), s, p + 4)
            &&& matches_at(vertex_block_bytes(g.normals), s, p + 16 + 12 * (g.faces.len as int))
            &&& matches_at(
                word(g.footer),
                s,
                p + 28 + 12 * (g.faces.len as int) + 12 * (g.normals.len as int),
            )
        },
{
    lemma_codecs();
    lemma_word(g.header, g.footer);
    lemma_block_parts(g.faces, face_codec(), s, p + 4);
    lemma_block_parts(g.normals, vertex_codec(), s, p + 16 + 12 * (g.faces.len as int));
    let (h, fb, nb, f) = (
        word(g.header),
        face_block_bytes(g.faces),
        vertex_block_bytes(g.normals),
        word(g.footer),
    );
    lemma_matches_concat(h + fb + nb, f, s, p);
    lemma_matches_concat(h + fb, nb, s, p);
    lemma_matches_concat(h, fb, s, p);
}

/// At most one well-formed group stands at a given offset.
pub proof fn lemma_group_unique(g1: GroupView, g2: GroupView, s: Seq<u8>, p: int)
    requires
        g1.wf(),
        g2.wf(),
        matches_at(group_bytes(g1), s, p),
        matches_at(group_bytes(g2), s, p),
    ensures
        g1 == g2,
{
    lemma_codecs();
    lemma_group_parts(g1, s, p);
    lemma_group_parts(g2, s, p);
    lemma_word(g1.header, g2.header);
    lemma_word(g1.footer, g2.footer);
    lemma_matches_same(word(g1.header), word(g2.header), s, p);
    lemma_block_unique(g1.faces, g2.faces, face_codec(), s, p + 4);
    lemma_block_unique(g1.normals, g2.normals, vertex_codec(), s, p + 16 + 12 * (g1.faces.len as int));
    lemma_matches_same(
        word(g1.footer),
        word(g2.footer),
        s,
        p + 28 + 12 * (g1.faces.len as int) + 12 * (g1.normals.len as int),
    );
}

/// The parts of a document, where they stand, and the document's length.
pub proof fn lemma_bmf_parts(d: BMFView, s: Seq<u8>)
    requires
        d.wf(),
    ensures
        bmf_bytes(d).len() == 52 + 12 * (d.vertices.len as int) + 12 * (d.group.faces.len as int)
            + 12 * (d.group.normals.len as int),
        matches_at(bmf_bytes(d), s, 0) <==> {
            &&& matches_at(word(d.header), s, 0)
            &&& matches_at(vertex_block_bytes(d.vertices), s, 4)
            &&& matches_at(group_bytes(d.group), s, 16 + 12 * (d.vertices.len as int))
            &&& matches_at(
                word(d.footer),
                s,
                bmf_bytes(d).len() - 4,
            )
        },
{
    lemma_codecs();
    lemma_word(d.header, d.footer);
    lemma_block_parts(d.vertices, vertex_codec(), s, 4);
    lemma_group_parts(d.group, s, 16 + 12 * (d.vertices.len as int));
    let (h, vb, gb, f) = (
        word(d.header),
        vertex_block_bytes(d.vertices),
        group_bytes(d.group),
        word(d.footer),
    );
    lemma_matches_concat(h + vb + gb, f, s, 0);
    lemma_matches_concat(h + vb, gb, s, 0);
    lemma_matches_concat(h, vb, s, 0);
}

/// Decoding is unambiguous: at most one well-formed document is encoded at
/// the start of any byte stream.
pub proof fn lemma_bmf_unique(d1: BMFView, d2: BMFView, s: Seq<u8>)
    requires
        d1.wf(),
        d2.wf(),
        matches_at(bmf_bytes(d1), s, 0),
        matches_at(bmf_bytes(d2), s, 0),
    ensures
        d1 == d2,
{
    lemma_codecs();
    lemma_bmf_parts(d1, s);
    lemma_bmf_parts(d2, s);
    lemma_word(d1.header, d2.header);
    lemma_word(d1.footer, d2.footer);
    lemma_matches_same(word(d1.header), word(d2.header), s, 0);
    lemma_block_unique(d1.vertices, d2.vertices, vertex_codec(), s, 4);
    lemma_group_unique(d1.group, d2.group, s, 16 + 12 * (d1.vertices.len as int));
    lemma_matches_same(word(d1.footer), word(d2.footer), s, bmf_bytes(d1).len() - 4);
}

/// Round trip: the encoding of a well-formed document `d` holds a
/// well-formed document at its start, and the only such document is `d`
/// itself, so re-encoding what is decoded gives back exactly the bytes it
/// was decoded from.
pub proof fn lemma_round_trip(d: BMFView)
    requires
        d.wf(),
    ensures
        matches_at(bmf_bytes(d), bmf_bytes(d), 0),
        forall|decoded: BMFView|
            decoded.wf() && matches_at(#[trigger] bmf_bytes(decoded), bmf_bytes(d), 0) ==> decoded
                == d && bmf_bytes(decoded) == bmf_bytes(d),
{
    assert(bmf_bytes(d).subrange(0, bmf_bytes(d).len() as int) =~= bmf_bytes(d));
    assert forall|decoded: BMFView|
        decoded.wf() && matches_at(#[trigger] bmf_bytes(decoded), bmf_bytes(d), 0) implies decoded
        == d by {
        lemma_bmf_unique(d, decoded, bmf_bytes(d));
    }
}

/// Truncation: a stream cut strictly before the last byte of a well-formed
/// document holds no well-formed document at all.
pub proof fn lemma_truncated_holds_nothing(d: BMFView, k: int)
    requires
        d.wf(),
        0 <= k < bmf_bytes(d).len(),
    ensures
        forall|d2: BMFView| d2.wf() ==> !matches_at(#[trigger] bmf_bytes(d2), bmf_bytes(d).take(k), 0),
{
    assert forall|d2: BMFView| d2.wf() implies !matches_at(
        #[trigger] bmf_bytes(d2),
        bmf_bytes(d).take(k),
        0,
    ) by {
        let (s, t) = (bmf_bytes(d), bmf_bytes(d2));
        if matches_at(t, s.take(k), 0) {
            assert(s.subrange(0, t.len() as int) =~= s.take(k).subrange(0, t.len() as int));
            lemma_round_trip(d);
        }
    }
}

/// The count field of a block fixes how many records follow and how many
/// bytes the block takes: twelve per record, plus the header, the count
/// itself and the footer. A count of zero leaves no records and twelve bytes.
pub proof fn lemma_count_fixes_block<T>(b: BlockView<T>, enc: spec_fn(T) -> Seq<u8>)
    requires
        fixed_width(enc),
        b.wf(),
    ensures
        b.items.len() == b.len,
        records(b.items, enc).len() == 12 * (b.len as int),
        block_bytes(b, enc).len() == 12 + 12 * (b.len as int),
        b.len == 0 ==> b.items == Seq::<T>::empty() && block_bytes(b, enc) == word(b.header)
            + word(0) + word(b.footer),
{
    lemma_block_parts(b, enc, Seq::empty(), 0);
    lemma_records_len(b.items, enc);
    if b.len == 0 {
        assert(b.items =~= Seq::<T>::empty());
        assert(word(b.header) + word(0) + Seq::<u8>::empty() =~= word(b.header) + word(0));
    }
}

} // verus!
