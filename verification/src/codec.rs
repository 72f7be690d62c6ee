//! The tile-file encoding: a point sequence as bytes.
//!
//! Records stand back to back with no header, so two encoded files
//! concatenate into the encoding of the concatenated sequences.  Each
//! record is self-delimiting: fixed-width little-endian fields, one tag
//! byte per optional attribute, and a length-prefixed byte string for the
//! classification.  Decoding of an encoding recovers the sequence exactly;
//! both laws are proved below.

use vstd::prelude::*;

use crate::errors::TilerError;
use crate::point::{
    AttributesModel, Color, Point, PointAttributes, PointModel, points_view,
};

verus! {

/// A point fits the encoding: the classification name, if any, fits its
/// 16-bit length prefix.
pub open spec fn model_ok(p: PointModel) -> bool {
    match p.attributes.classification {
        Some(c) => c.len() < 65536,
        None => true,
    }
}

/// Every point of the sequence fits the encoding.
pub open spec fn models_ok(s: Seq<PointModel>) -> bool {
    forall|i: int| 0 <= i < s.len() ==> model_ok(#[trigger] s[i])
}

/// A `u16` as two little-endian bytes.
pub open spec fn le16(v: u16) -> Seq<u8> {
    seq![(v & 0xff) as u8, ((v >> 8u16) & 0xff) as u8]
}

/// A `u32` as four little-endian bytes.
pub open spec fn le32(v: u32) -> Seq<u8> {
    seq![
        (v & 0xff) as u8,
        ((v >> 8u32) & 0xff) as u8,
        ((v >> 16u32) & 0xff) as u8,
        ((v >> 24u32) & 0xff) as u8,
    ]
}

/// A `u64` as eight little-endian bytes.
pub open spec fn le64(v: u64) -> Seq<u8> {
    seq![
        (v & 0xff) as u8,
        ((v >> 8u64) & 0xff) as u8,
        ((v >> 16u64) & 0xff) as u8,
        ((v >> 24u64) & 0xff) as u8,
        ((v >> 32u64) & 0xff) as u8,
        ((v >> 40u64) & 0xff) as u8,
        ((v >> 48u64) & 0xff) as u8,
        ((v >> 56u64) & 0xff) as u8,
    ]
}

/// Read one byte; yield it and the rest.
pub open spec fn dec_u8(b: Seq<u8>) -> Option<(u8, Seq<u8>)> {
    if b.len() >= 1 {
        Some((b[0], b.skip(1)))
    } else {
        None
    }
}

/// Read a little-endian `u16`.
pub open spec fn dec_u16(b: Seq<u8>) -> Option<(u16, Seq<u8>)> {
    if b.len() >= 2 {
        Some(((b[0] as u16) | ((b[1] as u16) << 8u16), b.skip(2)))
    } else {
        None
    }
}

/// Read a little-endian `u32`.
pub open spec fn dec_u32(b: Seq<u8>) -> Option<(u32, Seq<u8>)> {
    if b.len() >= 4 {
        Some(
            (
                (b[0] as u32) | ((b[1] as u32) << 8u32) | ((b[2] as u32) << 16u32) | ((
                b[3] as u32) << 24u32),
                b.skip(4),
            ),
        )
    } else {
        None
    }
}

/// Read a little-endian `u64`.
pub open spec fn dec_u64(b: Seq<u8>) -> Option<(u64, Seq<u8>)> {
    if b.len() >= 8 {
        Some(
            (
                (b[0] as u64) | ((b[1] as u64) << 8u64) | ((b[2] as u64) << 16u64) | ((
                b[3] as u64) << 24u64) | ((b[4] as u64) << 32u64) | ((b[5] as u64) << 40u64) | ((
                b[6] as u64) << 48u64) | ((b[7] as u64) << 56u64),
                b.skip(8),
            ),
        )
    } else {
        None
    }
}

/// A length-prefixed byte string.
pub open spec fn enc_bytes(bs: Seq<u8>) -> Seq<u8> {
    le16(bs.len() as u16) + bs
}

/// Read a length-prefixed byte string.
pub open spec fn dec_bytes(b: Seq<u8>) -> Option<(Seq<u8>, Seq<u8>)> {
    match dec_u16(b) {
        None => None,
        Some((n, r)) => if r.len() >= n {
            Some((r.take(n as int), r.skip(n as int)))
        } else {
            None
        },
    }
}

/// An optional byte: a tag byte, then the value when present.
pub open spec fn enc_opt8(o: Option<u8>) -> Seq<u8> {
    match o {
        None => seq![0u8],
        Some(v) => seq![1u8, v],
    }
}

/// An optional `u16`.
pub open spec fn enc_opt16(o: Option<u16>) -> Seq<u8> {
    match o {
        None => seq![0u8],
        Some(v) => seq![1u8] + le16(v),
    }
}

/// An optional `u32`.
pub open spec fn enc_opt32(o: Option<u32>) -> Seq<u8> {
    match o {
        None => seq![0u8],
        Some(v) => seq![1u8] + le32(v),
    }
}

/// An optional `u64`.
pub open spec fn enc_opt64(o: Option<u64>) -> Seq<u8> {
    match o {
        None => seq![0u8],
        Some(v) => seq![1u8] + le64(v),
    }
}

/// An optional byte string.
pub open spec fn enc_opt_bytes(o: Option<Seq<u8>>) -> Seq<u8> {
    match o {
        None => seq![0u8],
        Some(bs) => seq![1u8] + enc_bytes(bs),
    }
}

/// Read an optional byte.
pub open spec fn dec_opt8(b: Seq<u8>) -> Option<(Option<u8>, Seq<u8>)> {
    match dec_u8(b) {
        None => None,
        Some((t, r)) => if t == 0 {
            Some((None, r))
        } else if t == 1 {
            match dec_u8(r) {
                None => None,
                Some((v, r2)) => Some((Some(v), r2)),
            }
        } else {
            None
        },
    }
}

/// Read an optional `u16`.
pub open spec fn dec_opt16(b: Seq<u8>) -> Option<(Option<u16>, Seq<u8>)> {
    match dec_u8(b) {
        None => None,
        Some((t, r)) => if t == 0 {
            Some((None, r))
        } else if t == 1 {
            match dec_u16(r) {
                None => None,
                Some((v, r2)) => Some((Some(v), r2)),
            }
        } else {
            None
        },
    }
}

/// Read an optional `u32`.
pub open spec fn dec_opt32(b: Seq<u8>) -> Option<(Option<u32>, Seq<u8>)> {
    match dec_u8(b) {
        None => None,
        Some((t, r)) => if t == 0 {
            Some((None, r))
        } else if t == 1 {
            match dec_u32(r) {
                None => None,
                Some((v, r2)) => Some((Some(v), r2)),
            }
        } else {
            None
        },
    }
}

/// Read an optional `u64`.
pub open spec fn dec_opt64(b: Seq<u8>) -> Option<(Option<u64>, Seq<u8>)> {
    match dec_u8(b) {
        None => None,
        Some((t, r)) => if t == 0 {
            Some((None, r))
        } else if t == 1 {
            match dec_u64(r) {
                None => None,
                Some((v, r2)) => Some((Some(v), r2)),
            }
        } else {
            None
        },
    }
}

/// Read an optional byte string.
pub open spec fn dec_opt_bytes(b: Seq<u8>) -> Option<(Option<Seq<u8>>, Seq<u8>)> {
    match dec_u8(b) {
        None => None,
        Some((t, r)) => if t == 0 {
            Some((None, r))
        } else if t == 1 {
            match dec_bytes(r) {
                None => None,
                Some((v, r2)) => Some((Some(v), r2)),
            }
        } else {
            None
        },
    }
}

/// The attribute set, field by field.
#[verifier::opaque]
pub open spec fn enc_attrs(a: AttributesModel) -> Seq<u8> {
    enc_opt16(a.intensity) + enc_opt8(a.return_number) + enc_opt_bytes(a.classification)
        + enc_opt8(a.scanner_channel) + enc_opt32(a.scan_angle_bits) + enc_opt8(a.user_data)
        + enc_opt16(a.point_source_id) + enc_opt64(a.gps_time_bits)
}

/// Read an attribute set.
#[verifier::opaque]
pub open spec fn dec_attrs(b: Seq<u8>) -> Option<(AttributesModel, Seq<u8>)> {
    match dec_opt16(b) {
        None => None,
        Some((intensity, b)) => match dec_opt8(b) {
            None => None,
            Some((return_number, b)) => match dec_opt_bytes(b) {
                None => None,
                Some((classification, b)) => match dec_opt8(b) {
                    None => None,
                    Some((scanner_channel, b)) => match dec_opt32(b) {
                        None => None,
                        Some((scan_angle_bits, b)) => match dec_opt8(b) {
                            None => None,
                            Some((user_data, b)) => match dec_opt16(b) {
                                None => None,
                                Some((point_source_id, b)) => match dec_opt64(b) {
                                    None => None,
                                    Some((gps_time_bits, b)) => Some(
                                        (
                                            AttributesModel {
                                                intensity,
                                                return_number,
                                                classification,
                                                scanner_channel,
                                                scan_angle_bits,
                                                user_data,
                                                point_source_id,
                                                gps_time_bits,
                                            },
                                            b,
                                        ),
                                    ),
                                },
                            },
                        },
                    },
                },
            },
        },
    }
}

/// One point record: coordinates, color, attributes.
#[verifier::opaque]
pub open spec fn enc_point(p: PointModel) -> Seq<u8> {
    le64(p.x_bits) + le64(p.y_bits) + le64(p.z_bits) + le16(p.color.r) + le16(p.color.g) + le16(
    p.color.b) + enc_attrs(p.attributes)
}

/// Read one point record.
#[verifier::opaque]
pub open spec fn dec_point(b: Seq<u8>) -> Option<(PointModel, Seq<u8>)> {
    match dec_u64(b) {
        None => None,
        Some((x_bits, b)) => match dec_u64(b) {
            None => None,
            Some((y_bits, b)) => match dec_u64(b) {
                None => None,
                Some((z_bits, b)) => match dec_u16(b) {
                    None => None,
                    Some((r, b)) => match dec_u16(b) {
                        None => None,
                        Some((g, b)) => match dec_u16(b) {
                            None => None,
                            Some((bl, b)) => match dec_attrs(b) {
                                None => None,
                                Some((attributes, b)) => Some(
                                    (
                                        PointModel {
                                            x_bits,
                                            y_bits,
                                            z_bits,
                                            color: Color { r, g, b: bl },
                                            attributes,
                                        },
                                        b,
                                    ),
                                ),
                            },
                        },
                    },
                },
            },
        },
    }
}

/// A point sequence: its records back to back.
pub open spec fn enc_points(s: Seq<PointModel>) -> Seq<u8>
    decreases s.len(),
{
    if s.len() == 0 {
        Seq::empty()
    } else {
        enc_point(s[0]) + enc_points(s.skip(1))
    }
}

/// Read records until the bytes run out; `None` on any malformed or
/// truncated record.
pub open spec fn dec_points(b: Seq<u8>) -> Option<Seq<PointModel>>
    decreases b.len(),
{
    if b.len() == 0 {
        Some(Seq::empty())
    } else {
        match dec_point(b) {
            None => None,
            Some((p, r)) => if r.len() < b.len() {
                match dec_points(r) {
                    None => None,
                    Some(s) => Some(seq![p] + s),
                }
            } else {
                None
            },
        }
    }
}

/// Concatenation of byte sequences is associative.
proof fn lemma_seq_add_assoc(a: Seq<u8>, b: Seq<u8>, c: Seq<u8>)
    ensures
        (a + b) + c == a + (b + c),
{
    assert((a + b) + c =~= a + (b + c));
}

/// Reading a byte back from its encoding leaves the rest untouched.
proof fn lemma_dec_u8(v: u8, rest: Seq<u8>)
    ensures
        dec_u8(seq![v] + rest) == Some((v, rest)),
{
    assert((seq![v] + rest).skip(1) =~= rest);
}

/// Reading a `u16` back from its little-endian bytes.
proof fn lemma_dec_le16(v: u16, rest: Seq<u8>)
    ensures
        dec_u16(le16(v) + rest) == Some((v, rest)),
{
    let b = le16(v) + rest;
    assert(b.skip(2) =~= rest);
    assert(b[0] == (v & 0xff) as u8 && b[1] == ((v >> 8u16) & 0xff) as u8);
    assert((((v & 0xff) as u8) as u16) | (((((v >> 8u16) & 0xff) as u8) as u16) << 8u16) == v)
        by (bit_vector);
}

/// Reading a `u32` back from its little-endian bytes.
proof fn lemma_dec_le32(v: u32, rest: Seq<u8>)
    ensures
        dec_u32(le32(v) + rest) == Some((v, rest)),
{
    let b = le32(v) + rest;
    assert(b.skip(4) =~= rest);
    assert((((v & 0xff) as u8) as u32) | (((((v >> 8u32) & 0xff) as u8) as u32) << 8u32) | (((((v
        >> 16u32) & 0xff) as u8) as u32) << 16u32) | (((((v >> 24u32) & 0xff) as u8) as u32)
        << 24u32) == v) by (bit_vector);
}

/// Reading a `u64` back from its little-endian bytes.
proof fn lemma_dec_le64(v: u64, rest: Seq<u8>)
    ensures
        dec_u64(le64(v) + rest) == Some((v, rest)),
{
    let b = le64(v) + rest;
    assert(b.skip(8) =~= rest);
    assert((((v & 0xff) as u8) as u64) | (((((v >> 8u64) & 0xff) as u8) as u64) << 8u64) | (((((v
        >> 16u64) & 0xff) as u8) as u64) << 16u64) | (((((v >> 24u64) & 0xff) as u8) as u64)
        << 24u64) | (((((v >> 32u64) & 0xff) as u8) as u64) << 32u64) | (((((v >> 40u64) & 0xff)
        as u8) as u64) << 40u64) | (((((v >> 48u64) & 0xff) as u8) as u64) << 48u64) | (((((v
        >> 56u64) & 0xff) as u8) as u64) << 56u64) == v) by (bit_vector);
}

/// Reading a byte string back from its length-prefixed encoding.
proof fn lemma_dec_bytes(bs: Seq<u8>, rest: Seq<u8>)
    requires
        bs.len() < 65536,
    ensures
        dec_bytes(enc_bytes(bs) + rest) == Some((bs, rest)),
{
    let n = bs.len() as u16;
    assert(enc_bytes(bs) + rest =~= le16(n) + (bs + rest));
    lemma_dec_le16(n, bs + rest);
    assert((bs + rest).take(n as int) =~= bs);
    assert((bs + rest).skip(n as int) =~= rest);
}

/// Reading an optional byte back.
proof fn lemma_dec_opt8(o: Option<u8>, rest: Seq<u8>)
    ensures
        dec_opt8(enc_opt8(o) + rest) == Some((o, rest)),
{
    match o {
        None => {
            lemma_dec_u8(0, rest);
        },
        Some(v) => {
            assert(enc_opt8(o) + rest =~= seq![1u8] + (seq![v] + rest));
            lemma_dec_u8(1, seq![v] + rest);
            lemma_dec_u8(v, rest);
        },
    }
}

/// Reading an optional `u16` back.
proof fn lemma_dec_opt16(o: Option<u16>, rest: Seq<u8>)
    ensures
        dec_opt16(enc_opt16(o) + rest) == Some((o, rest)),
{
    match o {
        None => {
            lemma_dec_u8(0, rest);
        },
        Some(v) => {
            assert(enc_opt16(o) + rest =~= seq![1u8] + (le16(v) + rest));
            lemma_dec_u8(1, le16(v) + rest);
            lemma_dec_le16(v, rest);
        },
    }
}

/// Reading an optional `u32` back.
proof fn lemma_dec_opt32(o: Option<u32>, rest: Seq<u8>)
    ensures
        dec_opt32(enc_opt32(o) + rest) == Some((o, rest)),
{
    match o {
        None => {
            lemma_dec_u8(0, rest);
        },
        Some(v) => {
            assert(enc_opt32(o) + rest =~= seq![1u8] + (le32(v) + rest));
            lemma_dec_u8(1, le32(v) + rest);
            lemma_dec_le32(v, rest);
        },
    }
}

/// Reading an optional `u64` back.
proof fn lemma_dec_opt64(o: Option<u64>, rest: Seq<u8>)
    ensures
        dec_opt64(enc_opt64(o) + rest) == Some((o, rest)),
{
    match o {
        None => {
            lemma_dec_u8(0, rest);
        },
        Some(v) => {
            assert(enc_opt64(o) + rest =~= seq![1u8] + (le64(v) + rest));
            lemma_dec_u8(1, le64(v) + rest);
            lemma_dec_le64(v, rest);
        },
    }
}

/// Reading an optional byte string back.
proof fn lemma_dec_opt_bytes(o: Option<Seq<u8>>, rest: Seq<u8>)
    requires
        o matches Some(bs) ==> bs.len() < 65536,
    ensures
        dec_opt_bytes(enc_opt_bytes(o) + rest) == Some((o, rest)),
{
    match o {
        None => {
            lemma_dec_u8(0, rest);
        },
        Some(bs) => {
            assert(enc_opt_bytes(o) + rest =~= seq![1u8] + (enc_bytes(bs) + rest));
            lemma_dec_u8(1, enc_bytes(bs) + rest);
            lemma_dec_bytes(bs, rest);
        },
    }
}

/// Reading an attribute set back from its encoding.
#[verifier::rlimit(60)]
proof fn lemma_dec_attrs(a: AttributesModel, rest: Seq<u8>)
    requires
        a.classification matches Some(c) ==> c.len() < 65536,
    ensures
        dec_attrs(enc_attrs(a) + rest) == Some((a, rest)),
{
    reveal(enc_attrs);
    reveal(dec_attrs);
    let e1 = enc_opt16(a.intensity);
    let e2 = enc_opt8(a.return_number);
    let e3 = enc_opt_bytes(a.classification);
    let e4 = enc_opt8(a.scanner_channel);
    let e5 = enc_opt32(a.scan_angle_bits);
    let e6 = enc_opt8(a.user_data);
    let e7 = enc_opt16(a.point_source_id);
    let e8 = enc_opt64(a.gps_time_bits);
    let t8 = e8 + rest;
    let t7 = e7 + t8;
    let t6 = e6 + t7;
    let t5 = e5 + t6;
    let t4 = e4 + t5;
    let t3 = e3 + t4;
    let t2 = e2 + t3;
    let t1 = e1 + t2;
    lemma_seq_add_assoc(e1 + e2 + e3 + e4 + e5 + e6 + e7, e8, rest);
    lemma_seq_add_assoc(e1 + e2 + e3 + e4 + e5 + e6, e7, t8);
    lemma_seq_add_assoc(e1 + e2 + e3 + e4 + e5, e6, t7);
    lemma_seq_add_assoc(e1 + e2 + e3 + e4, e5, t6);
    lemma_seq_add_assoc(e1 + e2 + e3, e4, t5);
    lemma_seq_add_assoc(e1 + e2, e3, t4);
    lemma_seq_add_assoc(e1, e2, t3);
    assert(enc_attrs(a) + rest == t1);
    lemma_dec_opt16(a.intensity, t2);
    lemma_dec_opt8(a.return_number, t3);
    lemma_dec_opt_bytes(a.classification, t4);
    lemma_dec_opt8(a.scanner_channel, t5);
    lemma_dec_opt32(a.scan_angle_bits, t6);
    lemma_dec_opt8(a.user_data, t7);
    lemma_dec_opt16(a.point_source_id, t8);
    lemma_dec_opt64(a.gps_time_bits, rest);
}

/// Reading one point back from its record.
#[verifier::rlimit(60)]
proof fn lemma_dec_point(p: PointModel, rest: Seq<u8>)
    requires
        model_ok(p),
    ensures
        dec_point(enc_point(p) + rest) == Some((p, rest)),
{
    reveal(enc_point);
    reveal(dec_point);
    let e1 = le64(p.x_bits);
    let e2 = le64(p.y_bits);
    let e3 = le64(p.z_bits);
    let e4 = le16(p.color.r);
    let e5 = le16(p.color.g);
    let e6 = le16(p.color.b);
    let e7 = enc_attrs(p.attributes);
    let t6 = e7 + rest;
    let t5 = e6 + t6;
    let t4 = e5 + t5;
    let t3 = e4 + t4;
    let t2 = e3 + t3;
    let t1 = e2 + t2;
    lemma_seq_add_assoc(e1 + e2 + e3 + e4 + e5 + e6, e7, rest);
    lemma_seq_add_assoc(e1 + e2 + e3 + e4 + e5, e6, t6);
    lemma_seq_add_assoc(e1 + e2 + e3 + e4, e5, t5);
    lemma_seq_add_assoc(e1 + e2 + e3, e4, t4);
    lemma_seq_add_assoc(e1 + e2, e3, t3);
    lemma_seq_add_assoc(e1, e2, t2);
    assert(enc_point(p) + rest == e1 + t1);
    lemma_dec_le64(p.x_bits, t1);
    lemma_dec_le64(p.y_bits, t2);
    lemma_dec_le64(p.z_bits, t3);
    lemma_dec_le16(p.color.r, t4);
    lemma_dec_le16(p.color.g, t5);
    lemma_dec_le16(p.color.b, t6);
    lemma_dec_attrs(p.attributes, rest);
}

/// A point record is never empty.
proof fn lemma_enc_point_len(p: PointModel)
    ensures
        enc_point(p).len() >= 38,
{
    reveal(enc_point);
    reveal(enc_attrs);
}

/// Decoding after an encoded prefix: the prefix is recovered in front of
/// whatever the rest decodes to.
#[verifier::rlimit(100)]
proof fn lemma_dec_enc_points(s: Seq<PointModel>, tail: Seq<u8>)
    requires
        models_ok(s),
    ensures
        dec_points(enc_points(s) + tail) == (match dec_points(tail) {
            Some(t) => Some(s + t),
            None => None::<Seq<PointModel>>,
        }),
    decreases s.len(),
{
    if s.len() == 0 {
        assert(enc_points(s) + tail =~= tail);
        if dec_points(tail) is Some {
            assert(s + dec_points(tail).unwrap() =~= dec_points(tail).unwrap());
        }
    } else {
        let p = s[0];
        let s1 = s.skip(1);
        assert(models_ok(s1)) by {
            assert(forall|i: int| 0 <= i < s1.len() ==> #[trigger] s1[i] == s[i + 1]);
        }
        lemma_dec_enc_points(s1, tail);
        let inner = enc_points(s1) + tail;
        let b = enc_points(s) + tail;
        lemma_seq_add_assoc(enc_point(p), enc_points(s1), tail);
        assert(b == enc_point(p) + inner);
        lemma_dec_point(p, inner);
        lemma_enc_point_len(p);
        match dec_points(tail) {
            Some(t) => {
                assert(seq![p] + (s1 + t) =~= s + t);
            },
            None => {},
        }
    }
}

/// Encoding one more point appends its record.
proof fn lemma_enc_points_push(s: Seq<PointModel>, p: PointModel)
    ensures
        enc_points(s.push(p)) == enc_points(s) + enc_point(p),
    decreases s.len(),
{
    if s.len() == 0 {
        assert(s.push(p)[0] == p);
        assert(s.push(p).skip(1) =~= Seq::<PointModel>::empty());
        assert(enc_points(Seq::<PointModel>::empty()) == Seq::<u8>::empty());
        assert(enc_point(p) + Seq::<u8>::empty() =~= enc_point(p));
        assert(enc_points(s) + enc_point(p) =~= enc_point(p));
    } else {
        assert(s.push(p)[0] == s[0]);
        assert(s.push(p).skip(1) =~= s.skip(1).push(p));
        lemma_enc_points_push(s.skip(1), p);
        lemma_seq_add_assoc(enc_point(s[0]), enc_points(s.skip(1)), enc_point(p));
    }
}

/// Decoding inverts encoding.
pub proof fn lemma_codec_roundtrip(s: Seq<PointModel>)
    requires
        models_ok(s),
    ensures
        dec_points(enc_points(s)) == Some(s),
{
    lemma_dec_enc_points(s, Seq::empty());
    assert(enc_points(s) + Seq::<u8>::empty() =~= enc_points(s));
    assert(s + Seq::<PointModel>::empty() =~= s);
}

/// Two encodings laid end to end decode to the two sequences laid end to
/// end, so a tile file may be written in parts.
pub proof fn lemma_codec_concat(s1: Seq<PointModel>, s2: Seq<PointModel>)
    requires
        models_ok(s1),
        models_ok(s2),
    ensures
        dec_points(enc_points(s1) + enc_points(s2)) == Some(s1 + s2),
{
    lemma_codec_roundtrip(s2);
    lemma_dec_enc_points(s1, enc_points(s2));
}

/// The low byte of a masked `u16` fits a byte.
proof fn lemma_u16_byte(x: u16)
    ensures
        x & 0xff < 256,
{
    assert(x & 0xff < 256) by (bit_vector);
}

/// The low byte of a masked `u32` fits a byte.
proof fn lemma_u32_byte(x: u32)
    ensures
        x & 0xff < 256,
{
    assert(x & 0xff < 256) by (bit_vector);
}

/// The low byte of a masked `u64` fits a byte.
proof fn lemma_u64_byte(x: u64)
    ensures
        x & 0xff < 256,
{
    assert(x & 0xff < 256) by (bit_vector);
}

/// Append a `u16` in little-endian order.
fn push_u16(out: &mut Vec<u8>, v: u16)
    ensures
        final(out)@ == old(out)@ + le16(v),
{
    proof {
        lemma_u16_byte(v);
        lemma_u16_byte(v >> 8u16);
    }
    out.push((v & 0xff) as u8);
    out.push(((v >> 8u16) & 0xff) as u8);
    assert(final(out)@ =~= old(out)@ + le16(v));
}

/// Append a `u32` in little-endian order.
fn push_u32(out: &mut Vec<u8>, v: u32)
    ensures
        final(out)@ == old(out)@ + le32(v),
{
    proof {
        lemma_u32_byte(v);
        lemma_u32_byte(v >> 8u32);
        lemma_u32_byte(v >> 16u32);
        lemma_u32_byte(v >> 24u32);
    }
    out.push((v & 0xff) as u8);
    out.push(((v >> 8u32) & 0xff) as u8);
    out.push(((v >> 16u32) & 0xff) as u8);
    out.push(((v >> 24u32) & 0xff) as u8);
    assert(final(out)@ =~= old(out)@ + le32(v));
}

/// Append a `u64` in little-endian order.
fn push_u64(out: &mut Vec<u8>, v: u64)
    ensures
        final(out)@ == old(out)@ + le64(v),
{
    proof {
        lemma_u64_byte(v);
        lemma_u64_byte(v >> 8u64);
        lemma_u64_byte(v >> 16u64);
        lemma_u64_byte(v >> 24u64);
        lemma_u64_byte(v >> 32u64);
        lemma_u64_byte(v >> 40u64);
        lemma_u64_byte(v >> 48u64);
        lemma_u64_byte(v >> 56u64);
    }
    out.push((v & 0xff) as u8);
    out.push(((v >> 8u64) & 0xff) as u8);
    out.push(((v >> 16u64) & 0xff) as u8);
    out.push(((v >> 24u64) & 0xff) as u8);
    out.push(((v >> 32u64) & 0xff) as u8);
    out.push(((v >> 40u64) & 0xff) as u8);
    out.push(((v >> 48u64) & 0xff) as u8);
    out.push(((v >> 56u64) & 0xff) as u8);
    assert(final(out)@ =~= old(out)@ + le64(v));
}

/// Append an optional byte.
fn push_opt8(out: &mut Vec<u8>, o: Option<u8>)
    ensures
        final(out)@ == old(out)@ + enc_opt8(o),
{
    match o {
        None => {
            out.push(0);
            assert(final(out)@ =~= old(out)@ + enc_opt8(o));
        },
        Some(v) => {
            out.push(1);
            out.push(v);
            assert(final(out)@ =~= old(out)@ + enc_opt8(o));
        },
    }
}

/// Append an optional `u16`.
fn push_opt16(out: &mut Vec<u8>, o: Option<u16>)
    ensures
        final(out)@ == old(out)@ + enc_opt16(o),
{
    match o {
        None => {
            out.push(0);
            assert(final(out)@ =~= old(out)@ + enc_opt16(o));
        },
        Some(v) => {
            out.push(1);
            push_u16(out, v);
            assert(final(out)@ =~= old(out)@ + enc_opt16(o));
        },
    }
}

/// Append an optional `u32`.
fn push_opt32(out: &mut Vec<u8>, o: Option<u32>)
    ensures
        final(out)@ == old(out)@ + enc_opt32(o),
{
    match o {
        None => {
            out.push(0);
            assert(final(out)@ =~= old(out)@ + enc_opt32(o));
        },
        Some(v) => {
            out.push(1);
            push_u32(out, v);
            assert(final(out)@ =~= old(out)@ + enc_opt32(o));
        },
    }
}

/// Append an optional `u64`.
fn push_opt64(out: &mut Vec<u8>, o: Option<u64>)
    ensures
        final(out)@ == old(out)@ + enc_opt64(o),
{
    match o {
        None => {
            out.push(0);
            assert(final(out)@ =~= old(out)@ + enc_opt64(o));
        },
        Some(v) => {
            out.push(1);
            push_u64(out, v);
            assert(final(out)@ =~= old(out)@ + enc_opt64(o));
        },
    }
}

/// Append an optional length-prefixed byte string.
fn push_opt_bytes(out: &mut Vec<u8>, o: &Option<Vec<u8>>)
    requires
        o matches Some(bs) ==> bs@.len() < 65536,
    ensures
        final(out)@ == old(out)@ + enc_opt_bytes(match o {
            Some(bs) => Some(bs@),
            None => None,
        }),
{
    match o {
        None => {
            out.push(0);
            assert(final(out)@ =~= old(out)@ + enc_opt_bytes(None));
        },
        Some(bs) => {
            out.push(1);
            push_u16(out, bs.len() as u16);
            let ghost mid = out@;
            let mut i: usize = 0;
            while i < bs.len()
                invariant
                    i <= bs.len(),
                    out@ == mid + bs@.take(i as int),
                decreases bs.len() - i,
            {
                out.push(bs[i]);
                assert(mid + bs@.take(i as int) + seq![bs@[i as int]] =~= mid + bs@.take(
                i + 1 as int));
                i = i + 1;
            }
            assert(bs@.take(bs.len() as int) =~= bs@);
            assert(final(out)@ =~= old(out)@ + enc_opt_bytes(Some(bs@)));
        },
    }
}

/// Append the attribute fields of one record.
fn encode_attrs(out: &mut Vec<u8>, a: &PointAttributes)
    requires
        a@.classification matches Some(c) ==> c.len() < 65536,
    ensures
        final(out)@ == old(out)@ + enc_attrs(a@),
{
    let ghost o = out@;
    let ghost f1 = enc_opt16(a@.intensity);
    let ghost f2 = enc_opt8(a@.return_number);
    let ghost f3 = enc_opt_bytes(a@.classification);
    let ghost f4 = enc_opt8(a@.scanner_channel);
    let ghost f5 = enc_opt32(a@.scan_angle_bits);
    let ghost f6 = enc_opt8(a@.user_data);
    let ghost f7 = enc_opt16(a@.point_source_id);
    let ghost f8 = enc_opt64(a@.gps_time_bits);
    push_opt16(out, a.intensity);
    push_opt8(out, a.return_number);
    push_opt_bytes(out, &a.classification);
    push_opt8(out, a.scanner_channel);
    push_opt32(out, a.scan_angle_bits);
    push_opt8(out, a.user_data);
    push_opt16(out, a.point_source_id);
    push_opt64(out, a.gps_time_bits);
    proof {
        lemma_seq_add_assoc(o, f1, f2);
        lemma_seq_add_assoc(o, f1 + f2, f3);
        lemma_seq_add_assoc(o, f1 + f2 + f3, f4);
        lemma_seq_add_assoc(o, f1 + f2 + f3 + f4, f5);
        lemma_seq_add_assoc(o, f1 + f2 + f3 + f4 + f5, f6);
        lemma_seq_add_assoc(o, f1 + f2 + f3 + f4 + f5 + f6, f7);
        lemma_seq_add_assoc(o, f1 + f2 + f3 + f4 + f5 + f6 + f7, f8);
        reveal(enc_attrs);
    }
}

/// Append one point record.
fn encode_point(out: &mut Vec<u8>, p: &Point)
    requires
        model_ok(p@),
    ensures
        final(out)@ == old(out)@ + enc_point(p@),
{
    let ghost o = out@;
    let ghost e1 = le64(p@.x_bits);
    let ghost e2 = le64(p@.y_bits);
    let ghost e3 = le64(p@.z_bits);
    let ghost e4 = le16(p@.color.r);
    let ghost e5 = le16(p@.color.g);
    let ghost e6 = le16(p@.color.b);
    let ghost e7 = enc_attrs(p@.attributes);
    push_u64(out, p.x_bits);
    push_u64(out, p.y_bits);
    push_u64(out, p.z_bits);
    push_u16(out, p.color.r);
    push_u16(out, p.color.g);
    push_u16(out, p.color.b);
    encode_attrs(out, &p.attributes);
    proof {
        lemma_seq_add_assoc(o, e1, e2);
        lemma_seq_add_assoc(o, e1 + e2, e3);
        lemma_seq_add_assoc(o, e1 + e2 + e3, e4);
        lemma_seq_add_assoc(o, e1 + e2 + e3 + e4, e5);
        lemma_seq_add_assoc(o, e1 + e2 + e3 + e4 + e5, e6);
        lemma_seq_add_assoc(o, e1 + e2 + e3 + e4 + e5 + e6, e7);
        reveal(enc_point);
    }
}

/// Encode a point sequence for a tile or run file.
pub fn encode_points(pts: &Vec<Point>) -> (out: Vec<u8>)
    requires
        models_ok(points_view(pts@)),
    ensures
        out@ == enc_points(points_view(pts@)),
{
    let ghost u = points_view(pts@);
    let mut out: Vec<u8> = Vec::new();
    let mut i: usize = 0;
    while i < pts.len()
        invariant
            i <= pts.len(),
            u == points_view(pts@),
            models_ok(u),
            u.len() == pts@.len(),
            out@ == enc_points(u.take(i as int)),
        decreases pts.len() - i,
    {
        proof {
            assert(u[i as int] == pts@[i as int]@);
            assert(u.take(i + 1 as int) =~= u.take(i as int).push(u[i as int]));
            lemma_enc_points_push(u.take(i as int), u[i as int]);
        }
        encode_point(&mut out, &pts[i]);
        i = i + 1;
    }
    proof {
        assert(u.take(pts@.len() as int) =~= u);
    }
    out
}

/// Skipping twice skips the sum.
proof fn lemma_skip_skip(b: Seq<u8>, i: int, j: int)
    requires
        0 <= i,
        0 <= j,
        i + j <= b.len(),
    ensures
        b.skip(i).skip(j) == b.skip(i + j),
{
    assert(b.skip(i).skip(j) =~= b.skip(i + j));
}

/// Read one byte at `pos`.
fn try_u8(b: &Vec<u8>, pos: usize) -> (r: Option<(u8, usize)>)
    requires
        pos <= b.len(),
    ensures
        match r {
            Some((v, np)) => np == pos + 1 && dec_u8(b@.skip(pos as int)) == Some(
                (v, b@.skip(np as int)),
            ),
            None => dec_u8(b@.skip(pos as int)) is None,
        },
{
    if b.len() - pos >= 1 {
        proof {
            lemma_skip_skip(b@, pos as int, 1);
        }
        Some((b[pos], pos + 1))
    } else {
        None
    }
}

/// Read a little-endian `u16` at `pos`.
fn try_u16(b: &Vec<u8>, pos: usize) -> (r: Option<(u16, usize)>)
    requires
        pos <= b.len(),
    ensures
        match r {
            Some((v, np)) => np == pos + 2 && dec_u16(b@.skip(pos as int)) == Some(
                (v, b@.skip(np as int)),
            ),
            None => dec_u16(b@.skip(pos as int)) is None,
        },
{
    if b.len() - pos >= 2 {
        proof {
            lemma_skip_skip(b@, pos as int, 2);
        }
        let v = (b[pos] as u16) | ((b[pos + 1] as u16) << 8u16);
        Some((v, pos + 2))
    } else {
        None
    }
}

/// Read a little-endian `u32` at `pos`.
fn try_u32(b: &Vec<u8>, pos: usize) -> (r: Option<(u32, usize)>)
    requires
        pos <= b.len(),
    ensures
        match r {
            Some((v, np)) => np == pos + 4 && dec_u32(b@.skip(pos as int)) == Some(
                (v, b@.skip(np as int)),
            ),
            None => dec_u32(b@.skip(pos as int)) is None,
        },
{
    if b.len() - pos >= 4 {
        proof {
            lemma_skip_skip(b@, pos as int, 4);
        }
        let v = (b[pos] as u32) | ((b[pos + 1] as u32) << 8u32) | ((b[pos + 2] as u32) << 16u32)
            | ((b[pos + 3] as u32) << 24u32);
        Some((v, pos + 4))
    } else {
        None
    }
}

/// Read a little-endian `u64` at `pos`.
fn try_u64(b: &Vec<u8>, pos: usize) -> (r: Option<(u64, usize)>)
    requires
        pos <= b.len(),
    ensures
        match r {
            Some((v, np)) => np == pos + 8 && dec_u64(b@.skip(pos as int)) == Some(
                (v, b@.skip(np as int)),
            ),
            None => dec_u64(b@.skip(pos as int)) is None,
        },
{
    if b.len() - pos >= 8 {
        proof {
            lemma_skip_skip(b@, pos as int, 8);
        }
        let v = (b[pos] as u64) | ((b[pos + 1] as u64) << 8u64) | ((b[pos + 2] as u64) << 16u64)
            | ((b[pos + 3] as u64) << 24u64) | ((b[pos + 4] as u64) << 32u64) | ((b[pos
            + 5] as u64) << 40u64) | ((b[pos + 6] as u64) << 48u64) | ((b[pos + 7] as u64)
            << 56u64);
        Some((v, pos + 8))
    } else {
        None
    }
}

/// Read a length-prefixed byte string at `pos`.
fn try_bytes(b: &Vec<u8>, pos: usize) -> (r: Option<(Vec<u8>, usize)>)
    requires
        pos <= b.len(),
    ensures
        match r {
            Some((v, np)) => pos < np <= b.len() && v@.len() < 65536 && dec_bytes(
                b@.skip(pos as int),
            ) == Some((v@, b@.skip(np as int))),
            None => dec_bytes(b@.skip(pos as int)) is None,
        },
{
    match try_u16(b, pos) {
        None => None,
        Some((n, mid)) => {
            let n_us = n as usize;
            if b.len() - mid >= n_us {
                let ghost rest = b@.skip(mid as int);
                let mut v: Vec<u8> = Vec::new();
                let mut i: usize = 0;
                while i < n_us
                    invariant
                        i <= n_us,
                        mid + n_us <= b.len(),
                        v@ == b@.subrange(mid as int, mid + i as int),
                    decreases n_us - i,
                {
                    v.push(b[mid + i]);
                    assert(b@.subrange(mid as int, mid + i as int).push(
                        b@[mid + i as int],
                    ) =~= b@.subrange(mid as int, mid + (i + 1) as int));
                    i = i + 1;
                }
                proof {
                    assert(rest.take(n as int) =~= b@.subrange(mid as int, mid + n_us as int));
                    lemma_skip_skip(b@, mid as int, n as int);
                }
                Some((v, mid + n_us))
            } else {
                proof {
                    assert(b@.skip(mid as int).len() == b.len() - mid);
                }
                None
            }
        },
    }
}

/// Read an optional byte at `pos`.
fn try_opt8(b: &Vec<u8>, pos: usize) -> (r: Result<(Option<u8>, usize), TilerError>)
    requires
        pos <= b.len(),
    ensures
        match r {
            Ok((v, np)) => pos < np <= b.len() && dec_opt8(b@.skip(pos as int)) == Some(
                (v, b@.skip(np as int)),
            ),
            Err(e) => e == TilerError::DecodeFailure && dec_opt8(b@.skip(pos as int)) is None,
        },
{
    match try_u8(b, pos) {
        None => Err(TilerError::DecodeFailure),
        Some((t, mid)) => {
            if t == 0 {
                Ok((None, mid))
            } else if t == 1 {
                match try_u8(b, mid) {
                    None => Err(TilerError::DecodeFailure),
                    Some((v, np)) => Ok((Some(v), np)),
                }
            } else {
                Err(TilerError::DecodeFailure)
            }
        },
    }
}

/// Read an optional `u16` at `pos`.
fn try_opt16(b: &Vec<u8>, pos: usize) -> (r: Result<(Option<u16>, usize), TilerError>)
    requires
        pos <= b.len(),
    ensures
        match r {
            Ok((v, np)) => pos < np <= b.len() && dec_opt16(b@.skip(pos as int)) == Some(
                (v, b@.skip(np as int)),
            ),
            Err(e) => e == TilerError::DecodeFailure && dec_opt16(b@.skip(pos as int)) is None,
        },
{
    match try_u8(b, pos) {
        None => Err(TilerError::DecodeFailure),
        Some((t, mid)) => {
            if t == 0 {
                Ok((None, mid))
            } else if t == 1 {
                match try_u16(b, mid) {
                    None => Err(TilerError::DecodeFailure),
                    Some((v, np)) => Ok((Some(v), np)),
                }
            } else {
                Err(TilerError::DecodeFailure)
            }
        },
    }
}

/// Read an optional `u32` at `pos`.
fn try_opt32(b: &Vec<u8>, pos: usize) -> (r: Result<(Option<u32>, usize), TilerError>)
    requires
        pos <= b.len(),
    ensures
        match r {
            Ok((v, np)) => pos < np <= b.len() && dec_opt32(b@.skip(pos as int)) == Some(
                (v, b@.skip(np as int)),
            ),
            Err(e) => e == TilerError::DecodeFailure && dec_opt32(b@.skip(pos as int)) is None,
        },
{
    match try_u8(b, pos) {
        None => Err(TilerError::DecodeFailure),
        Some((t, mid)) => {
            if t == 0 {
                Ok((None, mid))
            } else if t == 1 {
                match try_u32(b, mid) {
                    None => Err(TilerError::DecodeFailure),
                    Some((v, np)) => Ok((Some(v), np)),
                }
            } else {
                Err(TilerError::DecodeFailure)
            }
        },
    }
}

/// Read an optional `u64` at `pos`.
fn try_opt64(b: &Vec<u8>, pos: usize) -> (r: Result<(Option<u64>, usize), TilerError>)
    requires
        pos <= b.len(),
    ensures
        match r {
            Ok((v, np)) => pos < np <= b.len() && dec_opt64(b@.skip(pos as int)) == Some(
                (v, b@.skip(np as int)),
            ),
            Err(e) => e == TilerError::DecodeFailure && dec_opt64(b@.skip(pos as int)) is None,
        },
{
    match try_u8(b, pos) {
        None => Err(TilerError::DecodeFailure),
        Some((t, mid)) => {
            if t == 0 {
                Ok((None, mid))
            } else if t == 1 {
                match try_u64(b, mid) {
                    None => Err(TilerError::DecodeFailure),
                    Some((v, np)) => Ok((Some(v), np)),
                }
            } else {
                Err(TilerError::DecodeFailure)
            }
        },
    }
}

/// Read an optional byte string at `pos`.
fn try_opt_bytes(b: &Vec<u8>, pos: usize) -> (r: Result<(Option<Vec<u8>>, usize), TilerError>)
    requires
        pos <= b.len(),
    ensures
        match r {
            Ok((v, np)) => pos < np <= b.len() && dec_opt_bytes(b@.skip(pos as int)) == Some(
                (
                    match v {
                        Some(bs) => Some(bs@),
                        None => None,
                    },
                    b@.skip(np as int),
                ),
            ) && (v matches Some(bs) ==> bs@.len() < 65536),
            Err(e) => e == TilerError::DecodeFailure && dec_opt_bytes(
                b@.skip(pos as int),
            ) is None,
        },
{
    match try_u8(b, pos) {
        None => Err(TilerError::DecodeFailure),
        Some((t, mid)) => {
            if t == 0 {
                Ok((None, mid))
            } else if t == 1 {
                match try_bytes(b, mid) {
                    None => Err(TilerError::DecodeFailure),
                    Some((v, np)) => Ok((Some(v), np)),
                }
            } else {
                Err(TilerError::DecodeFailure)
            }
        },
    }
}

/// Read the attribute fields of one record at `pos`.
fn decode_attrs_at(b: &Vec<u8>, pos: usize) -> (r: Result<(PointAttributes, usize), TilerError>)
    requires
        pos <= b.len(),
    ensures
        match r {
            Ok((a, np)) => pos < np <= b.len() && dec_attrs(b@.skip(pos as int)) == Some(
                (a@, b@.skip(np as int)),
            ) && (a@.classification matches Some(c) ==> c.len() < 65536),
            Err(e) => e == TilerError::DecodeFailure && dec_attrs(b@.skip(pos as int)) is None,
        },
{
    proof {
        reveal(dec_attrs);
    }
    let (intensity, p1) = match try_opt16(b, pos) {
        Ok(v) => v,
        Err(e) => {
            return Err(e);
        },
    };
    let (return_number, p2) = match try_opt8(b, p1) {
        Ok(v) => v,
        Err(e) => {
            return Err(e);
        },
    };
    let (classification, p3) = match try_opt_bytes(b, p2) {
        Ok(v) => v,
        Err(e) => {
            return Err(e);
        },
    };
    let (scanner_channel, p4) = match try_opt8(b, p3) {
        Ok(v) => v,
        Err(e) => {
            return Err(e);
        },
    };
    let (scan_angle_bits, p5) = match try_opt32(b, p4) {
        Ok(v) => v,
        Err(e) => {
            return Err(e);
        },
    };
    let (user_data, p6) = match try_opt8(b, p5) {
        Ok(v) => v,
        Err(e) => {
            return Err(e);
        },
    };
    let (point_source_id, p7) = match try_opt16(b, p6) {
        Ok(v) => v,
        Err(e) => {
            return Err(e);
        },
    };
    let (gps_time_bits, p8) = match try_opt64(b, p7) {
        Ok(v) => v,
        Err(e) => {
            return Err(e);
        },
    };
    let a = PointAttributes {
        intensity,
        return_number,
        classification,
        scanner_channel,
        scan_angle_bits,
        user_data,
        point_source_id,
        gps_time_bits,
    };
    Ok((a, p8))
}

/// Read one point record at `pos`.
fn decode_point_at(b: &Vec<u8>, pos: usize) -> (r: Result<(Point, usize), TilerError>)
    requires
        pos <= b.len(),
    ensures
        match r {
            Ok((p, np)) => pos < np <= b.len() && dec_point(b@.skip(pos as int)) == Some(
                (p@, b@.skip(np as int)),
            ) && model_ok(p@),
            Err(e) => e == TilerError::DecodeFailure && dec_point(b@.skip(pos as int)) is None,
        },
{
    proof {
        reveal(dec_point);
    }
    let (x_bits, p1) = match try_u64(b, pos) {
        Some(v) => v,
        None => {
            return Err(TilerError::DecodeFailure);
        },
    };
    let (y_bits, p2) = match try_u64(b, p1) {
        Some(v) => v,
        None => {
            return Err(TilerError::DecodeFailure);
        },
    };
    let (z_bits, p3) = match try_u64(b, p2) {
        Some(v) => v,
        None => {
            return Err(TilerError::DecodeFailure);
        },
    };
    let (cr, p4) = match try_u16(b, p3) {
        Some(v) => v,
        None => {
            return Err(TilerError::DecodeFailure);
        },
    };
    let (cg, p5) = match try_u16(b, p4) {
        Some(v) => v,
        None => {
            return Err(TilerError::DecodeFailure);
        },
    };
    let (cb, p6) = match try_u16(b, p5) {
        Some(v) => v,
        None => {
            return Err(TilerError::DecodeFailure);
        },
    };
    let (attributes, p7) = match decode_attrs_at(b, p6) {
        Ok(v) => v,
        Err(e) => {
            return Err(e);
        },
    };
    let p = Point { x_bits, y_bits, z_bits, color: Color { r: cr, g: cg, b: cb }, attributes };
    Ok((p, p7))
}

/// Decode a tile or run file back into its point sequence.  Succeeds
/// exactly on the byte strings that are a whole number of records.
pub fn decode_points(b: &Vec<u8>) -> (r: Result<Vec<Point>, TilerError>)
    ensures
        match r {
            Ok(pts) => dec_points(b@) == Some(points_view(pts@)) && models_ok(points_view(pts@)),
            Err(e) => e == TilerError::DecodeFailure && dec_points(b@) is None,
        },
{
    let mut out: Vec<Point> = Vec::new();
    let mut pos: usize = 0;
    proof {
        assert(b@.skip(0) =~= b@);
        assert(points_view(out@) =~= Seq::<PointModel>::empty());
        if dec_points(b@) is Some {
            assert(Seq::<PointModel>::empty() + dec_points(b@).unwrap() =~= dec_points(
                b@,
            ).unwrap());
        }
    }
    while pos < b.len()
        invariant
            pos <= b.len(),
            models_ok(points_view(out@)),
            dec_points(b@) == (match dec_points(b@.skip(pos as int)) {
                Some(t) => Some(points_view(out@) + t),
                None => None::<Seq<PointModel>>,
            }),
        decreases b.len() - pos,
    {
        let ghost rem = b@.skip(pos as int);
        assert(rem.len() > 0);
        match decode_point_at(b, pos) {
            Ok((p, np)) => {
                proof {
                    let rest = b@.skip(np as int);
                    assert(rest.len() < rem.len());
                    assert(dec_points(rem) == (match dec_points(rest) {
                        Some(s) => Some(seq![p@] + s),
                        None => None::<Seq<PointModel>>,
                    }));
                    assert(points_view(out@.push(p)) =~= points_view(out@) + seq![p@]);
                    if dec_points(rest) is Some {
                        let s = dec_points(rest).unwrap();
                        assert(points_view(out@) + (seq![p@] + s) =~= (points_view(out@) + seq![
                            p@,
                        ]) + s);
                    }
                }
                out.push(p);
                pos = np;
            },
            Err(e) => {
                proof {
                    assert(dec_points(rem) is None);
                }
                return Err(e);
            },
        }
    }
    proof {
        assert(b@.skip(pos as int) =~= Seq::<u8>::empty());
        assert(dec_points(Seq::<u8>::empty()) == Some(Seq::<PointModel>::empty()));
        assert(points_view(out@) + Seq::<PointModel>::empty() =~= points_view(out@));
    }
    Ok(out)
}

} // verus!
