//! GLB output: vertex-buffer packing and the binary glTF container.
//!
//! The floating-point work — quantizing positions, color conversion, and
//! the JSON document with its numeric fields — happens outside the
//! library, which receives plain integers and the JSON text as bytes.
//! This module packs the vertex records into the BIN payload and frames
//! the two chunks into a GLB, with the 8-byte chunk alignment the
//! pipeline emits.

use vstd::prelude::*;

use crate::codec::{le16, le32};
use crate::errors::TilerError;

verus! {

/// Compression mode of a meshopt-compressed buffer view.
#[derive(Debug, Clone, Copy, PartialEq, Eq, Structural)]
pub enum MeshoptCompressionMode {
    Attributes,
    Triangles,
    Indices,
}

/// Post-decompression filter of a meshopt-compressed buffer view.
#[derive(Debug, Clone, Copy, PartialEq, Eq, Structural)]
pub enum MeshoptCompressionFilter {
    NoFilter,
    Octahedral,
    Quaternion,
    Exponential,
}

impl Default for MeshoptCompressionFilter {
    /// No filter unless one is declared.
    fn default() -> (r: MeshoptCompressionFilter)
        ensures
            r == MeshoptCompressionFilter::NoFilter,
    {
        MeshoptCompressionFilter::NoFilter
    }
}

/// The meshopt-compression declaration a buffer view carries.
#[derive(Debug, Clone, Copy, PartialEq, Eq, Structural)]
pub struct ExtMeshoptCompression {
    pub buffer: u32,
    pub byte_offset: u32,
    pub byte_length: u32,
    pub byte_stride: u32,
    pub count: u32,
    pub mode: MeshoptCompressionMode,
    pub filter: MeshoptCompressionFilter,
}

/// A byte offset that the serializer may leave out.
pub fn is_zero(v: &u32) -> (r: bool)
    ensures
        r == (*v == 0),
{
    *v == 0
}

/// A filter declaration the serializer may leave out.
pub fn is_default_filter(f: &MeshoptCompressionFilter) -> (r: bool)
    ensures
        r == (*f == MeshoptCompressionFilter::NoFilter),
{
    match f {
        MeshoptCompressionFilter::NoFilter => true,
        _ => false,
    }
}

/// One vertex of the quantized layout: positions as 16-bit normalized
/// integers, color as 8-bit channels.
#[derive(Debug, Clone, Copy, PartialEq, Eq, Structural)]
pub struct QuantizedVertex {
    pub px: u16,
    pub py: u16,
    pub pz: u16,
    pub r: u8,
    pub g: u8,
    pub b: u8,
}

/// One vertex of the unquantized layout: positions as the bit patterns
/// of 32-bit floats, color as 8-bit channels.
#[derive(Debug, Clone, Copy, PartialEq, Eq, Structural)]
pub struct RawVertex {
    pub x_bits: u32,
    pub y_bits: u32,
    pub z_bits: u32,
    pub r: u8,
    pub g: u8,
    pub b: u8,
}

/// The 12-byte quantized record: 6 bytes of position, 2 of padding,
/// 3 of color, 1 of padding.
pub open spec fn quantized_vertex_bytes(v: QuantizedVertex) -> Seq<u8> {
    le16(v.px) + le16(v.py) + le16(v.pz) + seq![0u8, 0u8] + seq![v.r, v.g, v.b, 0u8]
}

/// The 16-byte unquantized record: 12 bytes of position, 3 of color,
/// 1 of padding.
pub open spec fn raw_vertex_bytes(v: RawVertex) -> Seq<u8> {
    le32(v.x_bits) + le32(v.y_bits) + le32(v.z_bits) + seq![v.r, v.g, v.b, 0u8]
}

/// The quantized vertex buffer, record after record.
pub open spec fn quantized_buffer_bytes(s: Seq<QuantizedVertex>) -> Seq<u8>
    decreases s.len(),
{
    if s.len() == 0 {
        Seq::empty()
    } else {
        quantized_buffer_bytes(s.drop_last()) + quantized_vertex_bytes(s.last())
    }
}

/// The unquantized vertex buffer, record after record.
pub open spec fn raw_buffer_bytes(s: Seq<RawVertex>) -> Seq<u8>
    decreases s.len(),
{
    if s.len() == 0 {
        Seq::empty()
    } else {
        raw_buffer_bytes(s.drop_last()) + raw_vertex_bytes(s.last())
    }
}

/// The low byte of a masked value fits a byte.
proof fn lemma_low_byte16(x: u16)
    ensures
        x & 0xff < 256,
{
    assert(x & 0xff < 256) by (bit_vector);
}

/// The low byte of a masked value fits a byte.
proof fn lemma_low_byte32(x: u32)
    ensures
        x & 0xff < 256,
{
    assert(x & 0xff < 256) by (bit_vector);
}

/// Append a `u16` in little-endian order.
fn put_u16(out: &mut Vec<u8>, v: u16)
    ensures
        final(out)@ == old(out)@ + le16(v),
{
    proof {
        lemma_low_byte16(v);
        lemma_low_byte16(v >> 8u16);
    }
    out.push((v & 0xff) as u8);
    out.push(((v >> 8u16) & 0xff) as u8);
    assert(final(out)@ =~= old(out)@ + le16(v));
}

/// Append a `u32` in little-endian order.
fn put_u32(out: &mut Vec<u8>, v: u32)
    ensures
        final(out)@ == old(out)@ + le32(v),
{
    proof {
        lemma_low_byte32(v);
        lemma_low_byte32(v >> 8u32);
        lemma_low_byte32(v >> 16u32);
        lemma_low_byte32(v >> 24u32);
    }
    out.push((v & 0xff) as u8);
    out.push(((v >> 8u32) & 0xff) as u8);
    out.push(((v >> 16u32) & 0xff) as u8);
    out.push(((v >> 24u32) & 0xff) as u8);
    assert(final(out)@ =~= old(out)@ + le32(v));
}

/// Pack the quantized vertex buffer: twelve bytes per point.
pub fn pack_quantized_vertices(vs: &Vec<QuantizedVertex>) -> (out: Vec<u8>)
    ensures
        out@ == quantized_buffer_bytes(vs@),
        out@.len() == 12 * vs@.len(),
{
    let mut out: Vec<u8> = Vec::new();
    let mut i: usize = 0;
    proof {
        assert(vs@.take(0) =~= Seq::<QuantizedVertex>::empty());
        lemma_quantized_buffer_len(vs@.take(0));
    }
    while i < vs.len()
        invariant
            i <= vs@.len(),
            out@ == quantized_buffer_bytes(vs@.take(i as int)),
            out@.len() == 12 * i,
        decreases vs@.len() - i,
    {
        proof {
            assert(vs@.take(i + 1 as int).drop_last() =~= vs@.take(i as int));
            assert(vs@.take(i + 1 as int).last() == vs@[i as int]);
        }
        let v = vs[i];
        let ghost before = out@;
        put_u16(&mut out, v.px);
        put_u16(&mut out, v.py);
        put_u16(&mut out, v.pz);
        out.push(0);
        out.push(0);
        out.push(v.r);
        out.push(v.g);
        out.push(v.b);
        out.push(0);
        proof {
            assert(out@ =~= before + quantized_vertex_bytes(vs@[i as int]));
        }
        i = i + 1;
    }
    proof {
        assert(vs@.take(vs@.len() as int) =~= vs@);
    }
    out
}

/// A quantized buffer is twelve bytes per vertex.
proof fn lemma_quantized_buffer_len(s: Seq<QuantizedVertex>)
    ensures
        quantized_buffer_bytes(s).len() == 12 * s.len(),
    decreases s.len(),
{
    if s.len() > 0 {
        lemma_quantized_buffer_len(s.drop_last());
    }
}

/// Pack the unquantized vertex buffer: sixteen bytes per point.
pub fn pack_raw_vertices(vs: &Vec<RawVertex>) -> (out: Vec<u8>)
    ensures
        out@ == raw_buffer_bytes(vs@),
        out@.len() == 16 * vs@.len(),
{
    let mut out: Vec<u8> = Vec::new();
    let mut i: usize = 0;
    proof {
        assert(vs@.take(0) =~= Seq::<RawVertex>::empty());
    }
    while i < vs.len()
        invariant
            i <= vs@.len(),
            out@ == raw_buffer_bytes(vs@.take(i as int)),
            out@.len() == 16 * i,
        decreases vs@.len() - i,
    {
        proof {
            assert(vs@.take(i + 1 as int).drop_last() =~= vs@.take(i as int));
            assert(vs@.take(i + 1 as int).last() == vs@[i as int]);
        }
        let v = vs[i];
        let ghost before = out@;
        put_u32(&mut out, v.x_bits);
        put_u32(&mut out, v.y_bits);
        put_u32(&mut out, v.z_bits);
        out.push(v.r);
        out.push(v.g);
        out.push(v.b);
        out.push(0);
        proof {
            assert(out@ =~= before + raw_vertex_bytes(vs@[i as int]));
        }
        i = i + 1;
    }
    proof {
        assert(vs@.take(vs@.len() as int) =~= vs@);
    }
    out
}

/// A length rounded up to the container's 8-byte alignment.
pub open spec fn padded_len(n: int) -> int {
    if n % 8 == 0 {
        n
    } else {
        n + (8 - n % 8)
    }
}

/// A run of identical padding bytes.
pub open spec fn pad_bytes(n: int, b: u8) -> Seq<u8> {
    Seq::new(n as nat, |i: int| b)
}

/// The whole container: header, JSON chunk padded with spaces, BIN
/// chunk padded with zeros.
pub open spec fn glb_bytes(json: Seq<u8>, bin: Seq<u8>) -> Seq<u8> {
    let jp = padded_len(json.len() as int);
    let bp = padded_len(bin.len() as int);
    let total = 12 + 8 + jp + 8 + bp;
    seq![0x67u8, 0x6cu8, 0x54u8, 0x46u8] + le32(2) + le32(total as u32) + le32(jp as u32) + seq![
        0x4au8,
        0x53u8,
        0x4fu8,
        0x4eu8,
    ] + json + pad_bytes(jp - json.len(), 0x20) + le32(bp as u32) + seq![
        0x42u8,
        0x49u8,
        0x4eu8,
        0x00u8,
    ] + bin + pad_bytes(bp - bin.len(), 0x00)
}

/// Append `n` copies of a padding byte.
fn put_padding(out: &mut Vec<u8>, n: usize, b: u8)
    ensures
        final(out)@ == old(out)@ + pad_bytes(n as int, b),
{
    let mut i: usize = 0;
    while i < n
        invariant
            i <= n,
            out@ == old(out)@ + pad_bytes(i as int, b),
        decreases n - i,
    {
        out.push(b);
        proof {
            assert(old(out)@ + pad_bytes(i as int, b) + seq![b] =~= old(out)@ + pad_bytes(
                i + 1 as int,
                b,
            ));
        }
        i = i + 1;
    }
    proof {
        assert(out@ =~= old(out)@ + pad_bytes(n as int, b));
    }
}

/// The padding that brings `n` to the next 8-byte boundary.
fn align_gap(n: usize) -> (r: usize)
    ensures
        n + r == padded_len(n as int),
        r < 8,
{
    let rem = n % 8;
    if rem == 0 {
        0
    } else {
        8 - rem
    }
}

/// Frame a JSON document and a BIN payload into a GLB.  Fails only when
/// the container would overrun its 32-bit length fields.
pub fn build_glb(json: &Vec<u8>, bin: &Vec<u8>) -> (r: Result<Vec<u8>, TilerError>)
    ensures
        match r {
            Ok(out) => out@ == glb_bytes(json@, bin@),
            Err(e) => e == TilerError::EncodeFailure && padded_len(json@.len() as int)
                + padded_len(bin@.len() as int) + 28 > u32::MAX,
        },
{
    if json.len() > 0xfffffff0 || bin.len() > 0xfffffff0 {
        return Err(TilerError::EncodeFailure);
    }
    let jgap = align_gap(json.len());
    let bgap = align_gap(bin.len());
    let jp = json.len() + jgap;
    let bp = bin.len() + bgap;
    if jp > u32::MAX as usize - 28 || bp > u32::MAX as usize - 28 - jp {
        return Err(TilerError::EncodeFailure);
    }
    let total = 28 + jp + bp;
    let mut out: Vec<u8> = Vec::new();
    let ghost e1 = seq![0x67u8, 0x6cu8, 0x54u8, 0x46u8];
    let ghost e2 = le32(2);
    let ghost e3 = le32(total as u32);
    let ghost e4 = le32(jp as u32);
    let ghost e5 = seq![0x4au8, 0x53u8, 0x4fu8, 0x4eu8];
    let ghost e6 = json@;
    let ghost e7 = pad_bytes(jgap as int, 0x20);
    let ghost e8 = le32(bp as u32);
    let ghost e9 = seq![0x42u8, 0x49u8, 0x4eu8, 0x00u8];
    let ghost e10 = bin@;
    let ghost e11 = pad_bytes(bgap as int, 0x00);
    out.push(0x67);
    out.push(0x6c);
    out.push(0x54);
    out.push(0x46);
    proof {
        assert(out@ =~= e1);
    }
    put_u32(&mut out, 2);
    put_u32(&mut out, total as u32);
    put_u32(&mut out, jp as u32);
    out.push(0x4a);
    out.push(0x53);
    out.push(0x4f);
    out.push(0x4e);
    proof {
        assert(out@ =~= e1 + e2 + e3 + e4 + e5);
    }
    let mut i: usize = 0;
    let ghost head = out@;
    while i < json.len()
        invariant
            i <= json@.len(),
            out@ == head + json@.take(i as int),
        decreases json@.len() - i,
    {
        out.push(json[i]);
        proof {
            assert(head + json@.take(i as int) + seq![json@[i as int]] =~= head + json@.take(
                i + 1 as int,
            ));
        }
        i = i + 1;
    }
    proof {
        assert(json@.take(json@.len() as int) =~= json@);
    }
    put_padding(&mut out, jgap, 0x20);
    put_u32(&mut out, bp as u32);
    out.push(0x42);
    out.push(0x49);
    out.push(0x4e);
    out.push(0x00);
    let mut j: usize = 0;
    let ghost head2 = out@;
    while j < bin.len()
        invariant
            j <= bin@.len(),
            out@ == head2 + bin@.take(j as int),
        decreases bin@.len() - j,
    {
        out.push(bin[j]);
        proof {
            assert(head2 + bin@.take(j as int) + seq![bin@[j as int]] =~= head2 + bin@.take(
                j + 1 as int,
            ));
        }
        j = j + 1;
    }
    proof {
        assert(bin@.take(bin@.len() as int) =~= bin@);
    }
    put_padding(&mut out, bgap, 0x00);
    proof {
        assert(out@ =~= glb_bytes(json@, bin@));
    }
    Ok(out)
}

} // verus!
