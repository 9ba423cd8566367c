//! The whole KV6 model: header, voxel run, and the two column-index tables.

use crate::bytes::{
    lemma_u16_round_trip, lemma_u32_round_trip, read_u16_le, read_u32, splice, u16_from_le,
    u16_le_bytes, u32_bytes, u32_from, write_u16_le, write_u32, Endian,
};
use crate::error::Kv6Error;
use crate::voxel::{lemma_voxel_round_trip, read_voxel, voxel_bytes, voxel_from, VoxelData};
use vstd::prelude::*;

verus! {

/// The format's tag, "Kvxl", read big-endian.
pub const KV6_MAGIC: u32 = 0x4b76786c;

/// Width in bytes of the fixed header, voxel count included.
pub const HEADER_SIZE: usize = 32;

/// A decoded KV6 model.
///
/// The pivots are kept as the bit patterns of IEEE-754 single-precision numbers, as
/// they stand on disk; `f32::from_bits` gives their values.
#[derive(Debug, Clone)]
pub struct KV6Format {
    pub magic: u32,
    pub x_size: u32,
    pub y_size: u32,
    pub z_size: u32,
    pub x_pivot: u32,
    pub y_pivot: u32,
    pub z_pivot: u32,
    /// The voxel run, column after column.
    pub voxels: Vec<VoxelData>,
    /// Per x slab, where its data begins; `x_size` entries.
    pub xlen: Vec<u32>,
    /// Per x slab and y, where the column's run begins within the slab; `x_size` rows
    /// of `y_size` entries.
    pub ylen: Vec<Vec<u16>>,
}

/// The mathematical value of a `KV6Format`.
pub struct Kv6Model {
    pub magic: u32,
    pub x_size: u32,
    pub y_size: u32,
    pub z_size: u32,
    pub x_pivot: u32,
    pub y_pivot: u32,
    pub z_pivot: u32,
    pub voxels: Seq<VoxelData>,
    pub xlen: Seq<u32>,
    pub ylen: Seq<Seq<u16>>,
}

impl View for KV6Format {
    type V = Kv6Model;

    open spec fn view(&self) -> Kv6Model {
        Kv6Model {
            magic: self.magic,
            x_size: self.x_size,
            y_size: self.y_size,
            z_size: self.z_size,
            x_pivot: self.x_pivot,
            y_pivot: self.y_pivot,
            z_pivot: self.z_pivot,
            voxels: self.voxels@,
            xlen: self.xlen@,
            ylen: self.ylen@.map_values(|r: Vec<u16>| r@),
        }
    }
}

/// Size in bytes of a file with `n` voxels and an `sx` by `sy` column grid.
pub open spec fn encoded_len(n: int, sx: int, sy: int) -> int {
    32 + 8 * n + 4 * sx + 2 * sx * sy
}

/// Where the x-index table starts in a file with `n` voxels.
pub open spec fn xlen_start(n: int) -> int {
    32 + 8 * n
}

/// Where the (x, y)-index table starts in a file with `n` voxels and `sx` slabs.
pub open spec fn ylen_start(n: int, sx: int) -> int {
    32 + 8 * n + 4 * sx
}

impl Kv6Model {
    /// The index tables have the shape that the sizes declare.
    pub open spec fn wf(self) -> bool {
        &&& self.xlen.len() == self.x_size
        &&& self.ylen.len() == self.x_size
        &&& forall|i: int| 0 <= i < self.ylen.len() ==> #[trigger] self.ylen[i].len() == self.y_size
    }

    /// Size in bytes of the model's encoding.
    pub open spec fn encoded_len(self) -> int {
        encoded_len(self.voxels.len() as int, self.x_size as int, self.y_size as int)
    }
}

/// The 32-bit header field at byte `off` of `b`.
pub open spec fn field(b: Seq<u8>, off: int, e: Endian) -> u32 {
    u32_from(b.subrange(off, off + 4), e)
}

/// Why decoding `b` fails, if it does. The stages follow the layout: the header, then
/// the voxel run, the x-index table and the (x, y)-index table. At each stage a size
/// past the address space is an overflow, and one past the end of `b` a truncation.
pub open spec fn decode_error(b: Seq<u8>, e: Endian) -> Option<Kv6Error> {
    let n = field(b, 28, e) as int;
    let sx = field(b, 4, e) as int;
    let sy = field(b, 8, e) as int;
    if b.len() < 32 {
        Some(Kv6Error::TruncatedInput)
    } else if xlen_start(n) > usize::MAX {
        Some(Kv6Error::ArithmeticOverflow)
    } else if b.len() < xlen_start(n) {
        Some(Kv6Error::TruncatedInput)
    } else if ylen_start(n, sx) > usize::MAX {
        Some(Kv6Error::ArithmeticOverflow)
    } else if b.len() < ylen_start(n, sx) {
        Some(Kv6Error::TruncatedInput)
    } else if encoded_len(n, sx, sy) > usize::MAX {
        Some(Kv6Error::ArithmeticOverflow)
    } else if b.len() < encoded_len(n, sx, sy) {
        Some(Kv6Error::TruncatedInput)
    } else {
        None
    }
}

/// `m` is what the bytes at the start of `b` hold: each field of `m` is read from its
/// place in the layout.
pub open spec fn decodes_from(m: Kv6Model, b: Seq<u8>, e: Endian) -> bool {
    let n = m.voxels.len() as int;
    let sx = m.x_size as int;
    let sy = m.y_size as int;
    &&& m.wf()
    &&& b.len() >= m.encoded_len()
    &&& m.magic == field(b, 0, Endian::Big)
    &&& m.x_size == field(b, 4, e)
    &&& m.y_size == field(b, 8, e)
    &&& m.z_size == field(b, 12, e)
    &&& m.x_pivot == field(b, 16, e)
    &&& m.y_pivot == field(b, 20, e)
    &&& m.z_pivot == field(b, 24, e)
    &&& n == field(b, 28, e)
    &&& forall|i: int|
        0 <= i < n ==> #[trigger] m.voxels[i] == voxel_from(b.subrange(32 + 8 * i, 40 + 8 * i))
    &&& forall|i: int|
        0 <= i < sx ==> #[trigger] m.xlen[i] == field(b, xlen_start(n) + 4 * i, e)
    &&& forall|i: int, j: int|
        0 <= i < sx && 0 <= j < sy ==> #[trigger] m.ylen[i][j] == u16_from_le(
            b.subrange(ylen_start(n, sx) + 2 * (i * sy + j), ylen_start(n, sx) + 2 * (i * sy + j) + 2),
        )
}

/// The parts laid end to end.
pub open spec fn concat(parts: Seq<Seq<u8>>) -> Seq<u8>
    decreases parts.len(),
{
    if parts.len() == 0 {
        Seq::empty()
    } else {
        concat(parts.drop_last()) + parts.last()
    }
}

/// The 32 header bytes of `m`; the voxel count is the length of the voxel run.
pub open spec fn header_bytes(m: Kv6Model, e: Endian) -> Seq<u8> {
    u32_bytes(m.magic, Endian::Big) + u32_bytes(m.x_size, e) + u32_bytes(m.y_size, e) + u32_bytes(
        m.z_size,
        e,
    ) + u32_bytes(m.x_pivot, e) + u32_bytes(m.y_pivot, e) + u32_bytes(m.z_pivot, e) + u32_bytes(
        m.voxels.len() as u32,
        e,
    )
}

pub open spec fn voxel_parts(vs: Seq<VoxelData>) -> Seq<Seq<u8>> {
    vs.map_values(|v: VoxelData| voxel_bytes(v))
}

pub open spec fn xlen_parts(xs: Seq<u32>, e: Endian) -> Seq<Seq<u8>> {
    xs.map_values(|x: u32| u32_bytes(x, e))
}

pub open spec fn row_parts(row: Seq<u16>) -> Seq<Seq<u8>> {
    row.map_values(|h: u16| u16_le_bytes(h))
}

pub open spec fn ylen_parts(rows: Seq<Seq<u16>>) -> Seq<Seq<u8>> {
    rows.map_values(|row: Seq<u16>| concat(row_parts(row)))
}

/// The bytes of `m` in byte order `e`.
pub open spec fn encoding(m: Kv6Model, e: Endian) -> Seq<u8> {
    header_bytes(m, e) + concat(voxel_parts(m.voxels)) + concat(xlen_parts(m.xlen, e)) + concat(
        ylen_parts(m.ylen),
    )
}

/// Why encoding `m` into a buffer of `len` bytes fails, if it does.
pub open spec fn encode_error(m: Kv6Model, len: int) -> Option<Kv6Error> {
    if m.voxels.len() > u32::MAX || m.encoded_len() > usize::MAX {
        Some(Kv6Error::ArithmeticOverflow)
    } else if len < m.encoded_len() {
        Some(Kv6Error::BufferTooSmall)
    } else {
        None
    }
}

proof fn lemma_concat_push(parts: Seq<Seq<u8>>, i: int)
    requires
        0 <= i < parts.len(),
    ensures
        concat(parts.take(i + 1)) == concat(parts.take(i)) + parts[i],
{
    assert(parts.take(i + 1).drop_last() =~= parts.take(i));
}

proof fn lemma_splice_extend(s: Seq<u8>, a: int, p: Seq<u8>, w: Seq<u8>)
    requires
        0 <= a,
        a + p.len() + w.len() <= s.len(),
    ensures
        splice(splice(s, a, p), a + p.len(), w) == splice(s, a, p + w),
{
    assert(splice(splice(s, a, p), a + p.len(), w) =~= splice(s, a, p + w));
}

proof fn lemma_concat_fixed(parts: Seq<Seq<u8>>, w: int)
    requires
        w >= 0,
        forall|i: int| 0 <= i < parts.len() ==> #[trigger] parts[i].len() == w,
    ensures
        concat(parts).len() == w * parts.len(),
        forall|i: int|
            0 <= i < parts.len() ==> #[trigger] concat(parts).subrange(w * i, w * i + w) == parts[i],
    decreases parts.len(),
{
    if parts.len() > 0 {
        let init = parts.drop_last();
        lemma_concat_fixed(init, w);
        let c = concat(init);
        let k = init.len() as int;
        assert(w * parts.len() == w * k + w) by (nonlinear_arith)
            requires
                parts.len() == k + 1,
        ;
        assert forall|i: int| 0 <= i < parts.len() implies #[trigger] concat(parts).subrange(
            w * i,
            w * i + w,
        ) == parts[i] by {
            if i < k {
                assert(0 <= w * i && w * i + w <= w * k) by (nonlinear_arith)
                    requires
                        0 <= i < k,
                        w >= 0,
                ;
                assert(concat(parts).subrange(w * i, w * i + w) =~= c.subrange(w * i, w * i + w));
                assert(init[i] == parts[i]);
            } else {
                assert(concat(parts).subrange(w * i, w * i + w) =~= parts.last());
            }
        }
    } else {
        assert(w * parts.len() == 0) by (nonlinear_arith)
            requires
                parts.len() == 0,
        ;
    }
}

proof fn lemma_voxels_layout(vs: Seq<VoxelData>)
    ensures
        concat(voxel_parts(vs)).len() == 8 * vs.len(),
        forall|i: int|
            0 <= i < vs.len() ==> voxel_from(#[trigger] concat(voxel_parts(vs)).subrange(8 * i, 8 * i + 8))
                == vs[i],
{
    let vp = voxel_parts(vs);
    assert forall|i: int| 0 <= i < vp.len() implies #[trigger] vp[i].len() == 8 by {
        lemma_voxel_round_trip(vs[i]);
    }
    lemma_concat_fixed(vp, 8);
    assert forall|i: int| 0 <= i < vs.len() implies voxel_from(
        #[trigger] concat(vp).subrange(8 * i, 8 * i + 8),
    ) == vs[i] by {
        lemma_voxel_round_trip(vs[i]);
    }
}

proof fn lemma_xlen_layout(xs: Seq<u32>, e: Endian)
    ensures
        concat(xlen_parts(xs, e)).len() == 4 * xs.len(),
        forall|i: int|
            0 <= i < xs.len() ==> u32_from(#[trigger] concat(xlen_parts(xs, e)).subrange(4 * i, 4 * i + 4), e)
                == xs[i],
{
    let xp = xlen_parts(xs, e);
    assert forall|i: int| 0 <= i < xp.len() implies #[trigger] xp[i].len() == 4 by {
        lemma_u32_round_trip(xs[i], e);
    }
    lemma_concat_fixed(xp, 4);
    assert forall|i: int| 0 <= i < xs.len() implies u32_from(
        #[trigger] concat(xp).subrange(4 * i, 4 * i + 4),
        e,
    ) == xs[i] by {
        lemma_u32_round_trip(xs[i], e);
    }
}

proof fn lemma_row_layout(row: Seq<u16>)
    ensures
        concat(row_parts(row)).len() == 2 * row.len(),
        forall|j: int|
            0 <= j < row.len() ==> u16_from_le(#[trigger] concat(row_parts(row)).subrange(2 * j, 2 * j + 2))
                == row[j],
{
    let rp = row_parts(row);
    assert forall|j: int| 0 <= j < rp.len() implies #[trigger] rp[j].len() == 2 by {
        lemma_u16_round_trip(row[j]);
    }
    lemma_concat_fixed(rp, 2);
    assert forall|j: int| 0 <= j < row.len() implies u16_from_le(
        #[trigger] concat(rp).subrange(2 * j, 2 * j + 2),
    ) == row[j] by {
        lemma_u16_round_trip(row[j]);
    }
}

proof fn lemma_ylen_layout(rows: Seq<Seq<u16>>, sy: int)
    requires
        sy >= 0,
        forall|i: int| 0 <= i < rows.len() ==> #[trigger] rows[i].len() == sy,
    ensures
        concat(ylen_parts(rows)).len() == 2 * rows.len() * sy,
        forall|i: int, j: int|
            0 <= i < rows.len() && 0 <= j < sy ==> u16_from_le(
                #[trigger] concat(ylen_parts(rows)).subrange(2 * (i * sy + j), 2 * (i * sy + j) + 2),
            ) == rows[i][j],
{
    let yp = ylen_parts(rows);
    let y = concat(yp);
    assert forall|i: int| 0 <= i < yp.len() implies #[trigger] yp[i].len() == 2 * sy by {
        lemma_row_layout(rows[i]);
    }
    lemma_concat_fixed(yp, 2 * sy);
    assert(2 * sy * rows.len() == 2 * rows.len() * sy) by (nonlinear_arith);
    assert forall|i: int, j: int| 0 <= i < rows.len() && 0 <= j < sy implies u16_from_le(
        #[trigger] y.subrange(2 * (i * sy + j), 2 * (i * sy + j) + 2),
    ) == rows[i][j] by {
        lemma_row_layout(rows[i]);
        assert(2 * (i * sy + j) == 2 * sy * i + 2 * j) by (nonlinear_arith);
        assert(0 <= 2 * sy * i && 2 * sy * i + 2 * sy <= 2 * sy * rows.len()) by (nonlinear_arith)
            requires
                0 <= i < rows.len(),
                sy >= 0,
        ;
        let r = y.subrange(2 * sy * i, 2 * sy * i + 2 * sy);
        assert(r == yp[i]);
        assert(y.subrange(2 * (i * sy + j), 2 * (i * sy + j) + 2) =~= r.subrange(2 * j, 2 * j + 2));
    }
}

/// The bytes of a part placed at `a` in `b`, read back at offsets within the part.
proof fn lemma_placed(b: Seq<u8>, a: int, w: Seq<u8>, p: int, q: int)
    requires
        0 <= a,
        a + w.len() <= b.len(),
        b.subrange(a, a + w.len()) == w,
        0 <= p <= q <= w.len(),
    ensures
        b.subrange(a + p, a + q) == w.subrange(p, q),
{
    assert(b.subrange(a + p, a + q) =~= w.subrange(p, q));
}

/// The field at `off` of `b` is `v` when the four bytes there are those of `v`.
proof fn lemma_field_at(b: Seq<u8>, off: int, v: u32, e: Endian)
    requires
        0 <= off,
        off + 4 <= b.len(),
        b.subrange(off, off + 4) == u32_bytes(v, e),
    ensures
        field(b, off, e) == v,
{
    lemma_u32_round_trip(v, e);
}

proof fn lemma_header_layout(m: Kv6Model, e: Endian, b: Seq<u8>)
    requires
        m.voxels.len() <= u32::MAX,
        b.len() >= 32,
        b.subrange(0, 32) == header_bytes(m, e),
    ensures
        m.magic == field(b, 0, Endian::Big),
        m.x_size == field(b, 4, e),
        m.y_size == field(b, 8, e),
        m.z_size == field(b, 12, e),
        m.x_pivot == field(b, 16, e),
        m.y_pivot == field(b, 20, e),
        m.z_pivot == field(b, 24, e),
        m.voxels.len() == field(b, 28, e),
{
    let n = m.voxels.len() as u32;
    let h = header_bytes(m, e);
    let h1 = u32_bytes(m.magic, Endian::Big);
    let h2 = h1 + u32_bytes(m.x_size, e);
    let h3 = h2 + u32_bytes(m.y_size, e);
    let h4 = h3 + u32_bytes(m.z_size, e);
    let h5 = h4 + u32_bytes(m.x_pivot, e);
    let h6 = h5 + u32_bytes(m.y_pivot, e);
    let h7 = h6 + u32_bytes(m.z_pivot, e);
    assert(h == h7 + u32_bytes(n, e));
    assert(b.subrange(0, 4) =~= h1) by {
        lemma_placed(b, 0, h, 0, 4);
    }
    assert(b.subrange(4, 8) =~= u32_bytes(m.x_size, e)) by {
        lemma_placed(b, 0, h, 4, 8);
    }
    assert(b.subrange(8, 12) =~= u32_bytes(m.y_size, e)) by {
        lemma_placed(b, 0, h, 8, 12);
    }
    assert(b.subrange(12, 16) =~= u32_bytes(m.z_size, e)) by {
        lemma_placed(b, 0, h, 12, 16);
    }
    assert(b.subrange(16, 20) =~= u32_bytes(m.x_pivot, e)) by {
        lemma_placed(b, 0, h, 16, 20);
    }
    assert(b.subrange(20, 24) =~= u32_bytes(m.y_pivot, e)) by {
        lemma_placed(b, 0, h, 20, 24);
    }
    assert(b.subrange(24, 28) =~= u32_bytes(m.z_pivot, e)) by {
        lemma_placed(b, 0, h, 24, 28);
    }
    assert(b.subrange(28, 32) =~= u32_bytes(n, e)) by {
        lemma_placed(b, 0, h, 28, 32);
    }
    lemma_field_at(b, 0, m.magic, Endian::Big);
    lemma_field_at(b, 4, m.x_size, e);
    lemma_field_at(b, 8, m.y_size, e);
    lemma_field_at(b, 12, m.z_size, e);
    lemma_field_at(b, 16, m.x_pivot, e);
    lemma_field_at(b, 20, m.y_pivot, e);
    lemma_field_at(b, 24, m.z_pivot, e);
    lemma_field_at(b, 28, n, e);
}

proof fn lemma_voxels_at(b: Seq<u8>, vs: Seq<VoxelData>)
    requires
        32 + 8 * vs.len() <= b.len(),
        b.subrange(32, 32 + 8 * vs.len() as int) == concat(voxel_parts(vs)),
    ensures
        forall|i: int|
            0 <= i < vs.len() ==> #[trigger] vs[i] == voxel_from(b.subrange(32 + 8 * i, 40 + 8 * i)),
{
    let v = concat(voxel_parts(vs));
    lemma_voxels_layout(vs);
    assert forall|i: int| 0 <= i < vs.len() implies #[trigger] vs[i] == voxel_from(
        b.subrange(32 + 8 * i, 40 + 8 * i),
    ) by {
        lemma_placed(b, 32, v, 8 * i, 8 * i + 8);
    }
}

proof fn lemma_xlen_at(b: Seq<u8>, start: int, xs: Seq<u32>, e: Endian)
    requires
        0 <= start,
        start + 4 * xs.len() <= b.len(),
        b.subrange(start, start + 4 * xs.len() as int) == concat(xlen_parts(xs, e)),
    ensures
        forall|i: int| 0 <= i < xs.len() ==> #[trigger] xs[i] == field(b, start + 4 * i, e),
{
    let x = concat(xlen_parts(xs, e));
    lemma_xlen_layout(xs, e);
    assert forall|i: int| 0 <= i < xs.len() implies #[trigger] xs[i] == field(b, start + 4 * i, e) by {
        lemma_placed(b, start, x, 4 * i, 4 * i + 4);
    }
}

proof fn lemma_ylen_at(b: Seq<u8>, start: int, rows: Seq<Seq<u16>>, sy: int)
    requires
        0 <= start,
        sy >= 0,
        forall|i: int| 0 <= i < rows.len() ==> #[trigger] rows[i].len() == sy,
        start + 2 * rows.len() * sy <= b.len(),
        b.subrange(start, start + 2 * (rows.len() as int) * sy) == concat(ylen_parts(rows)),
    ensures
        forall|i: int, j: int|
            0 <= i < rows.len() && 0 <= j < sy ==> #[trigger] rows[i][j] == u16_from_le(
                b.subrange(start + 2 * (i * sy + j), start + 2 * (i * sy + j) + 2),
            ),
{
    let y = concat(ylen_parts(rows));
    let sx = rows.len() as int;
    lemma_ylen_layout(rows, sy);
    assert forall|i: int, j: int| 0 <= i < sx && 0 <= j < sy implies #[trigger] rows[i][j] == u16_from_le(
        b.subrange(start + 2 * (i * sy + j), start + 2 * (i * sy + j) + 2),
    ) by {
        assert(0 <= 2 * (i * sy + j) && 2 * (i * sy + j) + 2 <= 2 * sx * sy) by (nonlinear_arith)
            requires
                0 <= i < sx,
                0 <= j < sy,
        ;
        lemma_placed(b, start, y, 2 * (i * sy + j), 2 * (i * sy + j) + 2);
    }
}

/// Where each field of a well-formed model stands in its encoding.
proof fn lemma_encoding_layout(m: Kv6Model, e: Endian)
    requires
        m.wf(),
        m.voxels.len() <= u32::MAX,
    ensures
        encoding(m, e).len() == m.encoded_len(),
        decodes_from(m, encoding(m, e), e),
{
    let n = m.voxels.len() as int;
    let sx = m.x_size as int;
    let sy = m.y_size as int;
    let h = header_bytes(m, e);
    let v = concat(voxel_parts(m.voxels));
    let x = concat(xlen_parts(m.xlen, e));
    let y = concat(ylen_parts(m.ylen));
    let b = encoding(m, e);
    let xs = xlen_start(n);
    let ys = ylen_start(n, sx);
    lemma_voxels_layout(m.voxels);
    lemma_xlen_layout(m.xlen, e);
    lemma_ylen_layout(m.ylen, sy);
    assert(h.len() == 32);
    assert(b.len() == m.encoded_len());
    assert(b.subrange(0, 32) =~= h);
    assert(b.subrange(32, xs) =~= v);
    assert(b.subrange(xs, ys) =~= x);
    assert(b.subrange(ys, ys + y.len()) =~= y);
    lemma_header_layout(m, e, b);
    lemma_voxels_at(b, m.voxels);
    lemma_xlen_at(b, xs, m.xlen, e);
    lemma_ylen_at(b, ys, m.ylen, sy);
}

/// Decoding the encoding of a well-formed model gives that model back, for either byte
/// order: the decode succeeds, and the one model that the bytes hold is `m`.
pub proof fn lemma_round_trip(m: Kv6Model, e: Endian)
    requires
        m.wf(),
        m.voxels.len() <= u32::MAX,
        m.encoded_len() <= usize::MAX,
    ensures
        decode_error(encoding(m, e), e) is None,
        decodes_from(m, encoding(m, e), e),
        forall|d: Kv6Model| #[trigger] decodes_from(d, encoding(m, e), e) ==> d == m,
{
    lemma_encoding_layout(m, e);
    let b = encoding(m, e);
    let n = m.voxels.len() as int;
    let sx = m.x_size as int;
    let sy = m.y_size as int;
    assert(xlen_start(n) <= ylen_start(n, sx) <= encoded_len(n, sx, sy)) by (nonlinear_arith)
        requires n >= 0, sx >= 0, sy >= 0;
    assert forall|d: Kv6Model| #[trigger] decodes_from(d, b, e) implies d == m by {
        lemma_decode_unique(d, m, b, e);
    }
}

/// A model decoded from some bytes is determined by them.
pub proof fn lemma_decode_unique(d1: Kv6Model, d2: Kv6Model, b: Seq<u8>, e: Endian)
    requires
        decodes_from(d1, b, e),
        decodes_from(d2, b, e),
    ensures
        d1 == d2,
{
    let n = d1.voxels.len() as int;
    let sx = d1.x_size as int;
    let sy = d1.y_size as int;
    assert(d1.voxels =~= d2.voxels);
    assert(d1.xlen =~= d2.xlen);
    assert forall|i: int| 0 <= i < sx implies #[trigger] d1.ylen[i] =~= d2.ylen[i] by {
        assert forall|j: int| 0 <= j < sy implies d1.ylen[i][j] == d2.ylen[i][j] by {
        }
    }
    assert(d1.ylen =~= d2.ylen);
}

/// Decoding any strict prefix of the encoding of a well-formed model fails with
/// `TruncatedInput`.
pub proof fn lemma_truncated_prefix(m: Kv6Model, e: Endian, k: int)
    requires
        m.wf(),
        m.voxels.len() <= u32::MAX,
        m.encoded_len() <= usize::MAX,
        0 <= k < m.encoded_len(),
    ensures
        decode_error(encoding(m, e).take(k), e) == Some(Kv6Error::TruncatedInput),
{
    lemma_encoding_layout(m, e);
    let b = encoding(m, e);
    let p = b.take(k);
    let n = m.voxels.len() as int;
    let sx = m.x_size as int;
    let sy = m.y_size as int;
    assert(xlen_start(n) <= ylen_start(n, sx) <= encoded_len(n, sx, sy)) by (nonlinear_arith)
        requires n >= 0, sx >= 0, sy >= 0;
    if k >= 32 {
        assert(p.subrange(4, 8) =~= b.subrange(4, 8));
        assert(p.subrange(8, 12) =~= b.subrange(8, 12));
        assert(p.subrange(28, 32) =~= b.subrange(28, 32));
    }
}

impl KV6Format {
    /// Decodes a model from the start of `src`, returning it with the number of bytes
    /// consumed. The magic number is read big-endian and kept as it is; every other
    /// header field and the x-index table follow `endian`; the (x, y)-index table is
    /// little-endian.
    pub fn try_from_ctx(src: &[u8], endian: Endian) -> (r: Result<(KV6Format, usize), Kv6Error>)
        ensures
            match r {
                Ok((m, n)) => {
                    &&& decode_error(src@, endian) is None
                    &&& decodes_from(m@, src@, endian)
                    &&& n == m@.encoded_len()
                    &&& m.voxels@.len() == field(src@, 28, endian)
                    &&& m.xlen@.len() == m.x_size
                    &&& m.ylen@.len() == m.x_size
                    &&& forall|i: int| 0 <= i < m.ylen@.len() ==> #[trigger] m.ylen@[i]@.len() == m.y_size
                },
                Err(err) => decode_error(src@, endian) == Some(err),
            },
    {
        let len = src.len();
        if len < HEADER_SIZE {
            return Err(Kv6Error::TruncatedInput);
        }
        let magic = read_u32(src, 0, Endian::Big).unwrap();
        let x_size = read_u32(src, 4, endian).unwrap();
        let y_size = read_u32(src, 8, endian).unwrap();
        let z_size = read_u32(src, 12, endian).unwrap();
        let x_pivot = read_u32(src, 16, endian).unwrap();
        let y_pivot = read_u32(src, 20, endian).unwrap();
        let z_pivot = read_u32(src, 24, endian).unwrap();
        let count = read_u32(src, 28, endian).unwrap();
        let ghost b = src@;
        let ghost n = count as int;
        let ghost sx = x_size as int;
        let ghost sy = y_size as int;
        assert(encoded_len(n, sx, sy) == (sx * sy) * 2 + ylen_start(n, sx)) by (nonlinear_arith);

        // Every size is checked against the address space and the input before
        // anything is allocated for it.
        let x_start = match (count as usize).checked_mul(8) {
            Some(w) => match w.checked_add(HEADER_SIZE) {
                Some(t) => t,
                None => return Err(Kv6Error::ArithmeticOverflow),
            },
            None => return Err(Kv6Error::ArithmeticOverflow),
        };
        if len < x_start {
            return Err(Kv6Error::TruncatedInput);
        }
        let y_start = match (x_size as usize).checked_mul(4) {
            Some(w) => match w.checked_add(x_start) {
                Some(t) => t,
                None => return Err(Kv6Error::ArithmeticOverflow),
            },
            None => return Err(Kv6Error::ArithmeticOverflow),
        };
        if len < y_start {
            return Err(Kv6Error::TruncatedInput);
        }
        let end = match (x_size as usize).checked_mul(y_size as usize) {
            Some(c) => match c.checked_mul(2) {
                Some(w) => match w.checked_add(y_start) {
                    Some(t) => t,
                    None => return Err(Kv6Error::ArithmeticOverflow),
                },
                None => return Err(Kv6Error::ArithmeticOverflow),
            },
            None => {
                proof {
                    assert(2 * sx * sy >= sx * sy) by (nonlinear_arith)
                        requires sx >= 0, sy >= 0;
                }
                return Err(Kv6Error::ArithmeticOverflow);
            },
        };
        if len < end {
            return Err(Kv6Error::TruncatedInput);
        }

        let mut voxels: Vec<VoxelData> = Vec::with_capacity(count as usize);
        let mut i: usize = 0;
        while i < count as usize
            invariant
                b == src@,
                len == b.len(),
                x_start == 32 + 8 * n,
                x_start <= len,
                n == count,
                i <= n,
                voxels@.len() == i,
                forall|k: int| 0 <= k < i ==> #[trigger] voxels@[k] == voxel_from(b.subrange(32 + 8 * k, 40 + 8 * k)),
            decreases n - i,
        {
            let v = read_voxel(src, HEADER_SIZE + 8 * i).unwrap();
            voxels.push(v);
            i = i + 1;
        }

        let mut xlen: Vec<u32> = Vec::with_capacity(x_size as usize);
        let mut i: usize = 0;
        while i < x_size as usize
            invariant
                b == src@,
                len == b.len(),
                x_start == xlen_start(n),
                y_start == x_start + 4 * sx,
                y_start <= len,
                sx == x_size,
                i <= sx,
                xlen@.len() == i,
                forall|k: int| 0 <= k < i ==> #[trigger] xlen@[k] == field(b, xlen_start(n) + 4 * k, endian),
            decreases sx - i,
        {
            let v = read_u32(src, x_start + 4 * i, endian).unwrap();
            xlen.push(v);
            i = i + 1;
        }

        let mut ylen: Vec<Vec<u16>> = Vec::with_capacity(x_size as usize);
        let mut off: usize = y_start;
        let mut i: usize = 0;
        while i < x_size as usize
            invariant
                b == src@,
                len == b.len(),
                y_start == ylen_start(n, sx),
                end == y_start + 2 * sx * sy,
                end <= len,
                sx == x_size,
                sy == y_size,
                i <= sx,
                off == y_start + 2 * (i * sy),
                ylen@.len() == i,
                forall|k: int| 0 <= k < i ==> #[trigger] ylen@[k]@.len() == sy,
                forall|k: int, j: int| 0 <= k < i && 0 <= j < sy ==> #[trigger] ylen@[k]@[j] == u16_from_le(
                    b.subrange(y_start + 2 * (k * sy + j), y_start + 2 * (k * sy + j) + 2),
                ),
            decreases sx - i,
        {
            proof {
                assert(2 * ((i + 1) * sy) <= 2 * sx * sy) by (nonlinear_arith)
                    requires i < sx, sy >= 0;
            }
            let mut row: Vec<u16> = Vec::with_capacity(y_size as usize);
            let mut j: usize = 0;
            while j < y_size as usize
                invariant
                    b == src@,
                    len == b.len(),
                    end <= len,
                    y_start + 2 * ((i + 1) * sy) <= end,
                    sy == y_size,
                    i < sx,
                    j <= sy,
                    off == y_start + 2 * (i * sy + j),
                    row@.len() == j,
                    forall|l: int| 0 <= l < j ==> #[trigger] row@[l] == u16_from_le(
                        b.subrange(y_start + 2 * (i * sy + l), y_start + 2 * (i * sy + l) + 2),
                    ),
                decreases sy - j,
            {
                proof {
                    assert((i + 1) * sy == i * sy + sy) by (nonlinear_arith);
                }
                let h = read_u16_le(src, off).unwrap();
                row.push(h);
                off = off + 2;
                j = j + 1;
            }
            proof {
                assert((i + 1) * sy == i * sy + sy) by (nonlinear_arith);
            }
            ylen.push(row);
            i = i + 1;
        }

        let m = KV6Format { magic, x_size, y_size, z_size, x_pivot, y_pivot, z_pivot, voxels, xlen, ylen };
        proof {
            assert forall|i: int, j: int| 0 <= i < sx && 0 <= j < sy implies #[trigger] m@.ylen[i][j] == u16_from_le(
                b.subrange(ylen_start(n, sx) + 2 * (i * sy + j), ylen_start(n, sx) + 2 * (i * sy + j) + 2),
            ) by {
                assert(m@.ylen[i] == m.ylen@[i]@);
            }
        }
        Ok((m, end))
    }

    /// Writes the model at the start of `bytes`, returning the number of bytes written.
    /// The voxel count written is the length of `voxels`.
    pub fn write_to(&self, bytes: &mut [u8], ctx: Endian) -> (r: Result<usize, Kv6Error>)
        requires
            self@.wf(),
        ensures
            match r {
                Ok(n) => {
                    &&& encode_error(self@, old(bytes)@.len() as int) is None
                    &&& n == self@.encoded_len()
                    &&& final(bytes)@ == splice(old(bytes)@, 0, encoding(self@, ctx))
                },
                Err(err) => {
                    &&& encode_error(self@, old(bytes)@.len() as int) == Some(err)
                    &&& final(bytes)@ == old(bytes)@
                },
            },
    {
        let end = match self.encoded_size() {
            Ok(end) => end,
            Err(err) => return Err(err),
        };
        if bytes.len() < end {
            return Err(Kv6Error::BufferTooSmall);
        }
        self.write_parts(bytes, end, ctx);
        Ok(end)
    }

    /// The size in bytes of the model's encoding.
    pub fn encoded_size(&self) -> (r: Result<usize, Kv6Error>)
        ensures
            match r {
                Ok(n) => {
                    &&& n == self@.encoded_len()
                    &&& self.voxels@.len() <= u32::MAX
                },
                Err(err) => {
                    &&& err == Kv6Error::ArithmeticOverflow
                    &&& (self.voxels@.len() > u32::MAX || self@.encoded_len() > usize::MAX)
                },
            },
    {
        let ghost n = self.voxels@.len() as int;
        let ghost sx = self.x_size as int;
        let ghost sy = self.y_size as int;
        let count = self.voxels.len();
        if count > u32::MAX as usize {
            return Err(Kv6Error::ArithmeticOverflow);
        }
        assert(encoded_len(n, sx, sy) == (sx * sy) * 2 + ylen_start(n, sx)) by (nonlinear_arith);
        let x_start = match count.checked_mul(8) {
            Some(w) => match w.checked_add(HEADER_SIZE) {
                Some(t) => t,
                None => return Err(Kv6Error::ArithmeticOverflow),
            },
            None => return Err(Kv6Error::ArithmeticOverflow),
        };
        let y_start = match (self.x_size as usize).checked_mul(4) {
            Some(w) => match w.checked_add(x_start) {
                Some(t) => t,
                None => return Err(Kv6Error::ArithmeticOverflow),
            },
            None => return Err(Kv6Error::ArithmeticOverflow),
        };
        match (self.x_size as usize).checked_mul(self.y_size as usize) {
            Some(c) => match c.checked_mul(2) {
                Some(w) => match w.checked_add(y_start) {
                    Some(t) => Ok(t),
                    None => Err(Kv6Error::ArithmeticOverflow),
                },
                None => Err(Kv6Error::ArithmeticOverflow),
            },
            None => {
                proof {
                    assert(2 * sx * sy >= sx * sy) by (nonlinear_arith)
                        requires sx >= 0, sy >= 0;
                }
                Err(Kv6Error::ArithmeticOverflow)
            },
        }
    }

    /// Writes the model at the start of `bytes`, consuming it; see `write_to`.
    pub fn try_into_ctx(self, bytes: &mut [u8], ctx: Endian) -> (r: Result<usize, Kv6Error>)
        requires
            self@.wf(),
        ensures
            match r {
                Ok(n) => {
                    &&& encode_error(self@, old(bytes)@.len() as int) is None
                    &&& n == self@.encoded_len()
                    &&& final(bytes)@ == splice(old(bytes)@, 0, encoding(self@, ctx))
                },
                Err(err) => {
                    &&& encode_error(self@, old(bytes)@.len() as int) == Some(err)
                    &&& final(bytes)@ == old(bytes)@
                },
            },
    {
        self.write_to(bytes, ctx)
    }

    /// The model's encoding in a buffer of its own. The voxel count written is the
    /// length of `voxels`.
    pub fn to_bytes(&self, ctx: Endian) -> (r: Result<Vec<u8>, Kv6Error>)
        requires
            self@.wf(),
        ensures
            r is Ok <==> (self.voxels@.len() <= u32::MAX && self@.encoded_len() <= usize::MAX),
            match r {
                Ok(out) => {
                    &&& out@ == encoding(self@, ctx)
                    &&& out@.len() == self@.encoded_len()
                    &&& field(out@, 28, ctx) == self.voxels@.len()
                },
                Err(err) => err == Kv6Error::ArithmeticOverflow,
            },
    {
        let end = match self.encoded_size() {
            Ok(end) => end,
            Err(err) => return Err(err),
        };
        let mut out: Vec<u8> = vec![0u8; end];
        self.write_parts(out.as_mut_slice(), end, ctx);
        proof {
            lemma_encoding_layout(self@, ctx);
            assert(out@ =~= encoding(self@, ctx));
        }
        Ok(out)
    }

    /// Whether the index tables have the shape that the sizes declare.
    pub fn is_well_formed(&self) -> (r: bool)
        ensures
            r == self@.wf(),
    {
        if self.xlen.len() != self.x_size as usize || self.ylen.len() != self.x_size as usize {
            return false;
        }
        let mut i: usize = 0;
        while i < self.ylen.len()
            invariant
                i <= self.ylen@.len(),
                forall|k: int| 0 <= k < i ==> #[trigger] self.ylen@[k]@.len() == self.y_size,
            decreases self.ylen@.len() - i,
        {
            if self.ylen[i].len() != self.y_size as usize {
                proof {
                    assert(self@.ylen[i as int] == self.ylen@[i as int]@);
                }
                return false;
            }
            i = i + 1;
        }
        proof {
            assert forall|k: int| 0 <= k < self@.ylen.len() implies #[trigger] self@.ylen[k].len() == self.y_size by {
                assert(self@.ylen[k] == self.ylen@[k]@);
            }
        }
        true
    }

    /// Checks the magic number against the KV6 tag; decoding leaves that to the caller.
    pub fn check_magic(&self) -> (r: Result<(), Kv6Error>)
        ensures
            self.magic == KV6_MAGIC ==> r is Ok,
            self.magic != KV6_MAGIC ==> r == Err::<(), Kv6Error>(Kv6Error::MagicMismatch),
    {
        if self.magic == KV6_MAGIC {
            Ok(())
        } else {
            Err(Kv6Error::MagicMismatch)
        }
    }

    fn write_parts(&self, bytes: &mut [u8], end: usize, ctx: Endian)
        requires
            self@.wf(),
            self.voxels@.len() <= u32::MAX,
            end == self@.encoded_len(),
            end <= old(bytes)@.len(),
        ensures
            final(bytes)@ == splice(old(bytes)@, 0, encoding(self@, ctx)),
    {
        let ghost m = self@;
        let ghost s0 = bytes@;
        let ghost n = self.voxels@.len() as int;
        let ghost sx = self.x_size as int;
        let ghost sy = self.y_size as int;
        let ghost h = header_bytes(m, ctx);
        let ghost v = concat(voxel_parts(m.voxels));
        let ghost x = concat(xlen_parts(m.xlen, ctx));
        let ghost y = concat(ylen_parts(m.ylen));
        let x_start = HEADER_SIZE + 8 * self.voxels.len();
        let y_start = x_start + 4 * self.xlen.len();
        self.write_header(bytes, ctx);
        assert(h.len() == 32);
        self.write_voxels(bytes, HEADER_SIZE);
        proof {
            lemma_splice_extend(s0, 0, h, v);
        }
        self.write_xlen(bytes, x_start, ctx);
        proof {
            lemma_splice_extend(s0, 0, h + v, x);
        }
        self.write_ylen(bytes, y_start);
        proof {
            lemma_splice_extend(s0, 0, h + v + x, y);
        }
    }

    fn write_header(&self, bytes: &mut [u8], ctx: Endian)
        requires
            old(bytes)@.len() >= 32,
            self.voxels@.len() <= u32::MAX,
        ensures
            final(bytes)@ == splice(old(bytes)@, 0, header_bytes(self@, ctx)),
    {
        let ghost s0 = bytes@;
        write_u32(bytes, 0, self.magic, Endian::Big);
        write_u32(bytes, 4, self.x_size, ctx);
        write_u32(bytes, 8, self.y_size, ctx);
        write_u32(bytes, 12, self.z_size, ctx);
        write_u32(bytes, 16, self.x_pivot, ctx);
        write_u32(bytes, 20, self.y_pivot, ctx);
        write_u32(bytes, 24, self.z_pivot, ctx);
        write_u32(bytes, 28, self.voxels.len() as u32, ctx);
        assert(bytes@ =~= splice(s0, 0, header_bytes(self@, ctx)));
    }

    fn write_voxels(&self, bytes: &mut [u8], start: usize)
        requires
            start + 8 * self.voxels@.len() <= old(bytes)@.len(),
        ensures
            final(bytes)@ == splice(old(bytes)@, start as int, concat(voxel_parts(self.voxels@))),
            concat(voxel_parts(self.voxels@)).len() == 8 * self.voxels@.len(),
    {
        let ghost s0 = bytes@;
        let len = bytes.len();
        let ghost vp = voxel_parts(self.voxels@);
        assert(s0 =~= splice(s0, start as int, concat(vp.take(0))));
        let mut i: usize = 0;
        while i < self.voxels.len()
            invariant
                vp == voxel_parts(self.voxels@),
                start + 8 * self.voxels@.len() <= s0.len(),
                s0.len() == len,
                i <= self.voxels@.len(),
                bytes@ == splice(s0, start as int, concat(vp.take(i as int))),
                concat(vp.take(i as int)).len() == 8 * i,
            decreases self.voxels@.len() - i,
        {
            let v = self.voxels[i];
            proof {
                lemma_concat_push(vp, i as int);
                lemma_splice_extend(s0, start as int, concat(vp.take(i as int)), voxel_bytes(v));
            }
            v.write_at(bytes, start + 8 * i);
            i = i + 1;
        }
        assert(vp.take(i as int) =~= vp);
    }

    fn write_xlen(&self, bytes: &mut [u8], start: usize, ctx: Endian)
        requires
            start + 4 * self.xlen@.len() <= old(bytes)@.len(),
        ensures
            final(bytes)@ == splice(old(bytes)@, start as int, concat(xlen_parts(self.xlen@, ctx))),
            concat(xlen_parts(self.xlen@, ctx)).len() == 4 * self.xlen@.len(),
    {
        let ghost s0 = bytes@;
        let len = bytes.len();
        let ghost xp = xlen_parts(self.xlen@, ctx);
        assert(s0 =~= splice(s0, start as int, concat(xp.take(0))));
        let mut i: usize = 0;
        while i < self.xlen.len()
            invariant
                xp == xlen_parts(self.xlen@, ctx),
                start + 4 * self.xlen@.len() <= s0.len(),
                s0.len() == len,
                i <= self.xlen@.len(),
                bytes@ == splice(s0, start as int, concat(xp.take(i as int))),
                concat(xp.take(i as int)).len() == 4 * i,
            decreases self.xlen@.len() - i,
        {
            let x = self.xlen[i];
            proof {
                lemma_concat_push(xp, i as int);
                lemma_splice_extend(s0, start as int, concat(xp.take(i as int)), u32_bytes(x, ctx));
            }
            write_u32(bytes, start + 4 * i, x, ctx);
            i = i + 1;
        }
        assert(xp.take(i as int) =~= xp);
    }

    fn write_ylen(&self, bytes: &mut [u8], start: usize)
        requires
            self@.wf(),
            start + 2 * self.x_size * self.y_size <= old(bytes)@.len(),
        ensures
            final(bytes)@ == splice(old(bytes)@, start as int, concat(ylen_parts(self@.ylen))),
            concat(ylen_parts(self@.ylen)).len() == 2 * self.x_size * self.y_size,
    {
        let ghost s0 = bytes@;
        let len = bytes.len();
        let ghost sx = self.x_size as int;
        let ghost sy = self.y_size as int;
        let ghost yp = ylen_parts(self@.ylen);
        assert(s0 =~= splice(s0, start as int, concat(yp.take(0))));
        let mut i: usize = 0;
        while i < self.ylen.len()
            invariant
                self@.wf(),
                yp == ylen_parts(self@.ylen),
                sx == self.ylen@.len(),
                sy == self.y_size,
                start + 2 * sx * sy <= s0.len(),
                s0.len() == len,
                i <= sx,
                bytes@ == splice(s0, start as int, concat(yp.take(i as int))),
                concat(yp.take(i as int)).len() == 2 * (i * sy),
            decreases sx - i,
        {
            proof {
                assert(2 * ((i + 1) * sy) <= 2 * sx * sy) by (nonlinear_arith)
                    requires i < sx, sy >= 0;
                assert((i + 1) * sy == i * sy + sy) by (nonlinear_arith);
                assert(self@.ylen[i as int] == self.ylen@[i as int]@);
                lemma_concat_push(yp, i as int);
            }
            let ghost cur = concat(yp.take(i as int));
            write_row(&self.ylen[i], bytes, start + 2 * (i * (self.y_size as usize)));
            proof {
                lemma_splice_extend(s0, start as int, cur, yp[i as int]);
            }
            i = i + 1;
        }
        assert(yp.take(i as int) =~= yp);
        assert(2 * (sx * sy) == 2 * sx * sy) by (nonlinear_arith);
    }
}

/// Writes one row of the (x, y)-index table at `start`, little-endian.
fn write_row(row: &Vec<u16>, bytes: &mut [u8], start: usize)
    requires
        start + 2 * row@.len() <= old(bytes)@.len(),
    ensures
        final(bytes)@ == splice(old(bytes)@, start as int, concat(row_parts(row@))),
        concat(row_parts(row@)).len() == 2 * row@.len(),
{
    let ghost s0 = bytes@;
        let len = bytes.len();
    let ghost rp = row_parts(row@);
    assert(s0 =~= splice(s0, start as int, concat(rp.take(0))));
    let mut j: usize = 0;
    while j < row.len()
        invariant
            rp == row_parts(row@),
            start + 2 * row@.len() <= s0.len(),
            s0.len() == len,
            j <= row@.len(),
            bytes@ == splice(s0, start as int, concat(rp.take(j as int))),
            concat(rp.take(j as int)).len() == 2 * j,
        decreases row@.len() - j,
    {
        let y = row[j];
        proof {
            lemma_concat_push(rp, j as int);
            lemma_splice_extend(s0, start as int, concat(rp.take(j as int)), u16_le_bytes(y));
        }
        write_u16_le(bytes, start + 2 * j, y);
        j = j + 1;
    }
    assert(rp.take(j as int) =~= rp);
}

impl Default for KV6Format {
    /// An empty model with the KV6 tag.
    fn default() -> (r: Self)
        ensures
            r@ == (Kv6Model {
                magic: KV6_MAGIC,
                x_size: 0,
                y_size: 0,
                z_size: 0,
                x_pivot: 0,
                y_pivot: 0,
                z_pivot: 0,
                voxels: Seq::empty(),
                xlen: Seq::empty(),
                ylen: Seq::empty(),
            }),
    {
        let r = KV6Format {
            magic: KV6_MAGIC,
            x_size: 0,
            y_size: 0,
            z_size: 0,
            x_pivot: 0,
            y_pivot: 0,
            z_pivot: 0,
            voxels: Vec::new(),
            xlen: Vec::new(),
            ylen: Vec::new(),
        };
        assert(r@.ylen =~= Seq::<Seq<u16>>::empty());
        r
    }
}

} // verus!
