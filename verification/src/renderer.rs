//! What the renderer is handed: which part of a buffer to upload again, the
//! mesh that every primitive is drawn with, and the choices that its set-up
//! makes. Talking to the graphics device is left to the caller.

use vstd::prelude::*;
use crate::splice::engine::Change;

verus! {

/// The bytes of an instance buffer that hold the primitives of a range.
#[derive(Debug, Clone, Copy, PartialEq, Eq, Structural)]
pub struct UploadSpan {
    /// Where the bytes start in the instance buffer.
    pub offset: u64,
    /// How many bytes there are.
    pub size: u64,
}

/// The bytes that have to be uploaded again after a change, for instances of
/// `stride` bytes each: those of the primitives from the start of the
/// changed range to the end of what has changed or moved. There is no such
/// span if it does not lie within the `capacity` of the instance buffer, or
/// if the change ends before it starts.
pub fn upload_span(change: Change, stride: u64, capacity: u64) -> (span: Option<UploadSpan>)
    ensures
        match span {
            Some(span) => {
                &&& change.start <= change.dirty_end
                &&& span.offset == change.start * stride
                &&& span.size == (change.dirty_end - change.start) * stride
                &&& span.offset + span.size <= capacity
            },
            None => change.start > change.dirty_end || change.dirty_end * stride > capacity,
        },
{
    if change.start > change.dirty_end {
        return None;
    }
    let start: u128 = change.start as u128;
    let end: u128 = change.dirty_end as u128;
    let wide: u128 = stride as u128;
    assert(end * wide <= 0xffff_ffff_ffff_ffff * 0xffff_ffff_ffff_ffff) by (nonlinear_arith)
        requires
            end <= 0xffff_ffff_ffff_ffff,
            wide <= 0xffff_ffff_ffff_ffff,
    ;
    assert(start * wide <= end * wide) by (nonlinear_arith)
        requires
            start <= end,
            0 <= wide,
    ;
    assert((end - start) * wide == end * wide - start * wide) by (nonlinear_arith);
    if end * wide > capacity as u128 {
        None
    } else {
        Some(UploadSpan { offset: (start * wide) as u64, size: ((end - start) * wide) as u64 })
    }
}

/// The mesh of the unit square that every primitive is an instance of: its
/// corners, each with a coordinate of zero or one on both axes, and the
/// corners of its two triangles.
#[derive(Debug)]
pub struct QuadMesh {
    pub corners: Vec<(u8, u8)>,
    pub indices: Vec<u16>,
}

/// The corners of the unit square, clockwise from the origin.
pub open spec fn quad_corners() -> Seq<(u8, u8)> {
    seq![(0u8, 0u8), (1u8, 0u8), (1u8, 1u8), (0u8, 1u8)]
}

/// The two triangles of the unit square, which share the diagonal from the
/// origin.
pub open spec fn quad_indices() -> Seq<u16> {
    seq![0u16, 1u16, 2u16, 3u16, 0u16, 2u16]
}

/// The mesh of the unit square. Every index names one of its corners.
pub fn get_quad_mesh() -> (mesh: QuadMesh)
    ensures
        mesh.corners@ == quad_corners(),
        mesh.indices@ == quad_indices(),
        forall|i: int| 0 <= i < mesh.indices.len() ==> mesh.indices[i] < mesh.corners.len(),
{
    let mut corners: Vec<(u8, u8)> = Vec::new();
    corners.push((0, 0));
    corners.push((1, 0));
    corners.push((1, 1));
    corners.push((0, 1));
    let mut indices: Vec<u16> = Vec::new();
    indices.push(0);
    indices.push(1);
    indices.push(2);
    indices.push(3);
    indices.push(0);
    indices.push(2);
    assert(corners@ =~= quad_corners());
    assert(indices@ =~= quad_indices());
    QuadMesh { corners, indices }
}

/// The bytes of the indices with the low byte of each index first.
pub open spec fn low_byte_first(indices: Seq<u16>) -> Seq<u8> {
    Seq::new(
        2 * indices.len(),
        |i: int|
            if i % 2 == 0 {
                (indices[i / 2] % 256) as u8
            } else {
                (indices[i / 2] / 256) as u8
            },
    )
}

/// The bytes of the indices with the high byte of each index first.
pub open spec fn high_byte_first(indices: Seq<u16>) -> Seq<u8> {
    Seq::new(
        2 * indices.len(),
        |i: int|
            if i % 2 == 0 {
                (indices[i / 2] / 256) as u8
            } else {
                (indices[i / 2] % 256) as u8
            },
    )
}

/// `bytemuck::cast_slice` from 16-bit indices to bytes: the indices as they
/// lie in memory, two bytes for each, in the byte order of the machine. A
/// cast to bytes asks nothing of the alignment or the length of its input,
/// so it does not fail.
#[verifier::external_body]
fn index_bytes(indices: &[u16]) -> (bytes: &[u8])
    ensures
        bytes@ == low_byte_first(indices@) || bytes@ == high_byte_first(indices@),
{
    bytemuck::cast_slice(indices)
}

/// What is uploaded and drawn of an index buffer.
#[derive(Debug)]
pub struct IndexUpload {
    /// The content of the index buffer.
    pub bytes: Vec<u8>,
    /// The number of indices to draw.
    pub count: u32,
}

/// The content of the index buffer for the given indices, and how many of
/// them to draw. There is none for more indices than a draw call can count.
pub fn index_upload(indices: &[u16]) -> (upload: Option<IndexUpload>)
    ensures
        match upload {
            Some(upload) => {
                &&& upload.count == indices.len()
                &&& upload.bytes.len() == 2 * indices.len()
                &&& (upload.bytes@ == low_byte_first(indices@) || upload.bytes@ == high_byte_first(
                    indices@,
                ))
            },
            None => indices.len() > u32::MAX,
        },
{
    if indices.len() > u32::MAX as usize {
        return None;
    }
    let raw = index_bytes(indices);
    let mut bytes: Vec<u8> = Vec::new();
    let mut i: usize = 0;
    while i < raw.len()
        invariant
            i <= raw.len(),
            bytes@ == raw@.take(i as int),
        decreases raw.len() - i,
    {
        bytes.push(raw[i]);
        assert(raw@.take(i + 1) =~= raw@.take(i as int).push(raw[i as int]));
        i = i + 1;
    }
    assert(raw@.take(raw.len() as int) =~= raw@);
    Some(IndexUpload { bytes, count: indices.len() as u32 })
}

/// The red, green and blue channels of a colour written as `0xRRGGBB`.
pub fn rgb_channels(colour: u32) -> (channels: (u8, u8, u8))
    ensures
        channels.0 == (colour / 0x1_0000) % 0x100,
        channels.1 == (colour / 0x100) % 0x100,
        channels.2 == colour % 0x100,
{
    let red: u32 = (colour >> 16) & 0xFF;
    let green: u32 = (colour >> 8) & 0xFF;
    let blue: u32 = colour & 0xFF;
    assert((colour >> 16) & 0xFF == (colour / 0x1_0000) % 0x100) by (bit_vector);
    assert((colour >> 8) & 0xFF == (colour / 0x100) % 0x100) by (bit_vector);
    assert(colour & 0xFF == colour % 0x100) by (bit_vector);
    (red as u8, green as u8, blue as u8)
}

/// Chooses the format of a surface, given for each format that the surface
/// supports whether it is sRGB: the first that is sRGB, or the first of all
/// if none is.
pub fn get_surface_format(srgb: &[bool]) -> (place: usize)
    requires
        srgb.len() > 0,
    ensures
        place < srgb.len(),
        srgb@.contains(true) ==> srgb[place as int] && forall|i: int|
            0 <= i < place ==> !srgb[i],
        !srgb@.contains(true) ==> place == 0,
{
    let mut i: usize = 0;
    while i < srgb.len()
        invariant
            i <= srgb.len(),
            forall|j: int| 0 <= j < i ==> !srgb[j],
        decreases srgb.len() - i,
    {
        if srgb[i] {
            assert(srgb@[i as int] == true);
            return i;
        }
        i = i + 1;
    }
    assert(!srgb@.contains(true));
    0
}

} // verus!
