//! Packed vertex layouts, and their bytes as a vertex buffer holds them.

use vstd::prelude::*;

verus! {

/// A vertex of sixteen bytes: a position of half floats, a normal of signed
/// normalized bytes, texture coordinates of half floats.
#[derive(Default, Debug, Copy, Clone, Eq, PartialEq)]
pub struct PackedVertex {
    /// Position, three half floats and a zero.
    pub p: [u16; 4],
    /// Normal, three signed normalized bytes and a zero.
    pub n: [i8; 4],
    /// Texture coordinates, two half floats.
    pub t: [u16; 2],
}

/// A vertex of twelve bytes: a position of half floats, a normal folded onto
/// an octahedron, texture coordinates of half floats.
#[derive(Default, Debug, Copy, Clone, Eq, PartialEq)]
pub struct PackedVertexOct {
    /// Position, three half floats.
    pub p: [u16; 3],
    /// Normal, two signed normalized bytes.
    pub n: [u8; 2],
    /// Texture coordinates, two half floats.
    pub t: [u16; 2],
}

/// One draw range of a mesh file: where its indices start, how many there
/// are, and how long the name of its material is.
pub struct Object {
    pub index_offset: u32,
    pub index_count: u32,
    pub material_length: u32,
    pub reserved: u32,
}

/// The two bytes of a 16-bit value, low byte first.
pub open spec fn le_bytes_u16(v: u16) -> Seq<u8> {
    seq![(v % 256) as u8, (v / 256) as u8]
}

/// The byte that holds a signed byte: its value modulo 256.
pub open spec fn byte_of_i8(v: i8) -> u8 {
    if v < 0 {
        (v + 256) as u8
    } else {
        v as u8
    }
}

impl PackedVertexOct {
    /// The size of the vertex in a buffer.
    pub const SIZE: usize = 12;

    /// The twelve bytes of the vertex: position, normal, texture coordinates,
    /// every 16-bit value low byte first.
    pub open spec fn spec_bytes(&self) -> Seq<u8> {
        le_bytes_u16(self.p@[0]) + le_bytes_u16(self.p@[1]) + le_bytes_u16(self.p@[2]) + seq![
            self.n@[0],
            self.n@[1],
        ] + le_bytes_u16(self.t@[0]) + le_bytes_u16(self.t@[1])
    }

    /// Appends the bytes of the vertex to `out`.
    pub fn write_bytes(&self, out: &mut Vec<u8>)
        ensures
            final(out)@ == old(out)@ + self.spec_bytes(),
    {
        write_le_u16(out, self.p[0]);
        write_le_u16(out, self.p[1]);
        write_le_u16(out, self.p[2]);
        out.push(self.n[0]);
        out.push(self.n[1]);
        write_le_u16(out, self.t[0]);
        write_le_u16(out, self.t[1]);
        assert(out@ =~= old(out)@ + self.spec_bytes());
    }
}

impl PackedVertex {
    /// The size of the vertex in a buffer.
    pub const SIZE: usize = 16;

    /// The sixteen bytes of the vertex: position, normal, texture
    /// coordinates, every 16-bit value low byte first.
    pub open spec fn spec_bytes(&self) -> Seq<u8> {
        le_bytes_u16(self.p@[0]) + le_bytes_u16(self.p@[1]) + le_bytes_u16(self.p@[2])
            + le_bytes_u16(self.p@[3]) + seq![
            byte_of_i8(self.n@[0]),
            byte_of_i8(self.n@[1]),
            byte_of_i8(self.n@[2]),
            byte_of_i8(self.n@[3]),
        ] + le_bytes_u16(self.t@[0]) + le_bytes_u16(self.t@[1])
    }

    /// Appends the bytes of the vertex to `out`.
    pub fn write_bytes(&self, out: &mut Vec<u8>)
        ensures
            final(out)@ == old(out)@ + self.spec_bytes(),
    {
        write_le_u16(out, self.p[0]);
        write_le_u16(out, self.p[1]);
        write_le_u16(out, self.p[2]);
        write_le_u16(out, self.p[3]);
        out.push(i8_byte(self.n[0]));
        out.push(i8_byte(self.n[1]));
        out.push(i8_byte(self.n[2]));
        out.push(i8_byte(self.n[3]));
        write_le_u16(out, self.t[0]);
        write_le_u16(out, self.t[1]);
        assert(out@ =~= old(out)@ + self.spec_bytes());
    }
}

/// Appends the two bytes of `v` to `out`, low byte first.
pub fn write_le_u16(out: &mut Vec<u8>, v: u16)
    ensures
        final(out)@ == old(out)@ + le_bytes_u16(v),
{
    out.push((v % 256) as u8);
    out.push((v / 256) as u8);
    assert(out@ =~= old(out)@ + le_bytes_u16(v));
}

/// The byte that holds the signed byte `v`.
pub fn i8_byte(v: i8) -> (r: u8)
    ensures
        r == byte_of_i8(v),
{
    if v < 0 {
        (v as i16 + 256) as u8
    } else {
        v as u8
    }
}

} // verus!
