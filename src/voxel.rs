//! One voxel record: eight bytes on disk.

use crate::bytes::{read_u16_le, u16_from_le, u16_le_bytes, splice, write_u16_le, write_u8, Endian};
use crate::error::Kv6Error;
use vstd::prelude::*;

verus! {

/// Width in bytes of one voxel record.
pub const VOXEL_SIZE: usize = 8;

/// One visible surface voxel of a column.
#[derive(Clone, Copy, Debug, Default, PartialEq, Eq, Structural)]
pub struct VoxelData {
    pub red: u8,
    pub green: u8,
    pub blue: u8,
    /// Conventionally 128 (once an alpha slot); kept verbatim.
    pub dummy: u8,
    /// Position along z within the column; little-endian on disk.
    pub height: u16,
    /// The low six bits are face-visibility flags.
    pub visibility: u8,
    /// Index into a table of surface normals.
    pub normalindex: u8,
}

/// The eight bytes of a voxel record.
pub open spec fn voxel_bytes(v: VoxelData) -> Seq<u8> {
    seq![v.red, v.green, v.blue, v.dummy] + u16_le_bytes(v.height) + seq![v.visibility, v.normalindex]
}

/// The voxel record held by eight bytes.
pub open spec fn voxel_from(b: Seq<u8>) -> VoxelData {
    VoxelData {
        red: b[0],
        green: b[1],
        blue: b[2],
        dummy: b[3],
        height: u16_from_le(b.subrange(4, 6)),
        visibility: b[6],
        normalindex: b[7],
    }
}

/// Reading back the bytes of a voxel record gives the record.
pub proof fn lemma_voxel_round_trip(v: VoxelData)
    ensures
        voxel_bytes(v).len() == 8,
        voxel_from(voxel_bytes(v)) == v,
{
    let b = voxel_bytes(v);
    assert(b.subrange(4, 6) =~= u16_le_bytes(v.height));
}

/// Reads the record at `off`; `None` when fewer than eight bytes remain.
pub(crate) fn read_voxel(src: &[u8], off: usize) -> (r: Option<VoxelData>)
    ensures
        off + 8 <= src@.len() ==> r == Some(voxel_from(src@.subrange(off as int, off + 8))),
        off + 8 > src@.len() ==> r is None,
{
    if off > src.len() || src.len() - off < VOXEL_SIZE {
        return None;
    }
    let height = match read_u16_le(src, off + 4) {
        Some(h) => h,
        None => return None,
    };
    let v = VoxelData {
        red: src[off],
        green: src[off + 1],
        blue: src[off + 2],
        dummy: src[off + 3],
        height,
        visibility: src[off + 6],
        normalindex: src[off + 7],
    };
    let ghost b = src@.subrange(off as int, off + 8);
    assert(b.subrange(4, 6) =~= src@.subrange(off + 4, off + 6));
    Some(v)
}

impl VoxelData {
    /// Decodes the record at the start of `src`, returning it with the number of bytes
    /// consumed. The byte order does not change a record: its one multi-byte field,
    /// `height`, is always little-endian.
    pub fn try_from_ctx(src: &[u8], endian: Endian) -> (r: Result<(VoxelData, usize), Kv6Error>)
        ensures
            src@.len() >= 8 ==> r == Ok::<(VoxelData, usize), Kv6Error>(
                (voxel_from(src@.subrange(0, 8)), 8usize),
            ),
            src@.len() < 8 ==> r == Err::<(VoxelData, usize), Kv6Error>(Kv6Error::TruncatedInput),
    {
        match read_voxel(src, 0) {
            Some(v) => Ok((v, VOXEL_SIZE)),
            None => Err(Kv6Error::TruncatedInput),
        }
    }

    /// Writes the record at the start of `bytes`, returning the number of bytes written.
    pub fn try_into_ctx(self, bytes: &mut [u8], ctx: Endian) -> (r: Result<usize, Kv6Error>)
        ensures
            old(bytes)@.len() >= 8 ==> r == Ok::<usize, Kv6Error>(8usize) && final(bytes)@ == splice(
                old(bytes)@,
                0,
                voxel_bytes(self),
            ),
            old(bytes)@.len() < 8 ==> r == Err::<usize, Kv6Error>(Kv6Error::BufferTooSmall)
                && final(bytes)@ == old(bytes)@,
    {
        if bytes.len() < VOXEL_SIZE {
            return Err(Kv6Error::BufferTooSmall);
        }
        self.write_at(bytes, 0);
        Ok(VOXEL_SIZE)
    }

    /// Writes the record's eight bytes at `off`.
    #[verifier::rlimit(30)]
    pub(crate) fn write_at(&self, buf: &mut [u8], off: usize)
        requires
            off + 8 <= old(buf)@.len(),
        ensures
            final(buf)@ == splice(old(buf)@, off as int, voxel_bytes(*self)),
    {
        let ghost s0 = buf@;
        // The slice's length, a usize, bounds every offset written below.
        let _len = buf.len();
        write_u8(buf, off, self.red);
        write_u8(buf, off + 1, self.green);
        write_u8(buf, off + 2, self.blue);
        write_u8(buf, off + 3, self.dummy);
        write_u16_le(buf, off + 4, self.height);
        write_u8(buf, off + 6, self.visibility);
        write_u8(buf, off + 7, self.normalindex);
        assert(buf@ =~= splice(s0, off as int, voxel_bytes(*self)));
    }
}

} // verus!
