//! Byte-order primitives: what a fixed-width integer looks like on disk, and the
//! reads and writes of such integers on byte slices.

use scroll::Pread;
use scroll::Pwrite;
use vstd::prelude::*;

verus! {

/// Byte order of a multi-byte field.
#[derive(Clone, Copy, Debug, PartialEq, Eq, Structural)]
pub enum Endian {
    Little,
    Big,
}

/// The two bytes of `v`, least significant first.
pub open spec fn u16_le_bytes(v: u16) -> Seq<u8> {
    seq![(v % 256) as u8, (v / 256) as u8]
}

/// The value of two bytes read least significant first.
pub open spec fn u16_from_le(b: Seq<u8>) -> u16 {
    (b[0] + 256 * b[1]) as u16
}

/// The four bytes of `v` in byte order `e`.
pub open spec fn u32_bytes(v: u32, e: Endian) -> Seq<u8> {
    let b0 = (v % 256) as u8;
    let b1 = ((v / 256) % 256) as u8;
    let b2 = ((v / 65536) % 256) as u8;
    let b3 = (v / 16777216) as u8;
    match e {
        Endian::Little => seq![b0, b1, b2, b3],
        Endian::Big => seq![b3, b2, b1, b0],
    }
}

/// The value of four bytes read in byte order `e`.
pub open spec fn u32_from(b: Seq<u8>, e: Endian) -> u32 {
    match e {
        Endian::Little => (b[0] + 256 * b[1] + 65536 * b[2] + 16777216 * b[3]) as u32,
        Endian::Big => (b[3] + 256 * b[2] + 65536 * b[1] + 16777216 * b[0]) as u32,
    }
}

/// `s` with the bytes from `off` on replaced by `w`.
pub open spec fn splice(s: Seq<u8>, off: int, w: Seq<u8>) -> Seq<u8> {
    s.take(off) + w + s.skip(off + w.len())
}

/// Reading back the bytes of a 16-bit value gives the value.
pub proof fn lemma_u16_round_trip(v: u16)
    ensures
        u16_le_bytes(v).len() == 2,
        u16_from_le(u16_le_bytes(v)) == v,
{
}

/// Reading back the bytes of a 32-bit value, in the same byte order, gives the value.
pub proof fn lemma_u32_round_trip(v: u32, e: Endian)
    ensures
        u32_bytes(v, e).len() == 4,
        u32_from(u32_bytes(v, e), e) == v,
{
    let x = v as int;
    assert(x == x % 256 + 256 * ((x / 256) % 256) + 65536 * ((x / 65536) % 256) + 16777216 * (x
        / 16777216)) by (nonlinear_arith)
        requires
            0 <= x < 0x1_0000_0000,
    {
    }
}

/// Relies on scroll's `Pread::pread_with` for `u16` with `scroll::LE`: the two bytes at
/// `off`, least significant first; an error when fewer than two bytes remain.
#[verifier::external_body]
pub(crate) fn read_u16_le(src: &[u8], off: usize) -> (r: Option<u16>)
    ensures
        off + 2 <= src@.len() ==> r == Some(u16_from_le(src@.subrange(off as int, off + 2))),
        off + 2 > src@.len() ==> r is None,
{
    src.pread_with::<u16>(off, scroll::LE).ok()
}

/// Relies on scroll's `Pread::pread_with` for `u32`: the four bytes at `off` in the
/// given byte order; an error when fewer than four bytes remain.
#[verifier::external_body]
pub(crate) fn read_u32(src: &[u8], off: usize, e: Endian) -> (r: Option<u32>)
    ensures
        off + 4 <= src@.len() ==> r == Some(u32_from(src@.subrange(off as int, off + 4), e)),
        off + 4 > src@.len() ==> r is None,
{
    let ctx = match e {
        Endian::Little => scroll::LE,
        Endian::Big => scroll::BE,
    };
    src.pread_with::<u32>(off, ctx).ok()
}

/// Relies on scroll's `Pwrite::pwrite_with` for `u8`: writes `v` at `off`, and leaves the
/// slice untouched when `off` is past its last byte.
#[verifier::external_body]
pub(crate) fn write_u8(buf: &mut [u8], off: usize, v: u8) -> (ok: bool)
    ensures
        ok == (off + 1 <= old(buf)@.len()),
        final(buf)@.len() == old(buf)@.len(),
        ok ==> final(buf)@ == splice(old(buf)@, off as int, seq![v]),
        !ok ==> final(buf)@ == old(buf)@,
{
    buf.pwrite_with::<u8>(v, off, scroll::LE).is_ok()
}

/// Relies on scroll's `Pwrite::pwrite_with` for `u16` with `scroll::LE`: writes the two
/// bytes of `v` at `off`, least significant first, and leaves the slice untouched
/// when fewer than two bytes remain.
#[verifier::external_body]
pub(crate) fn write_u16_le(buf: &mut [u8], off: usize, v: u16) -> (ok: bool)
    ensures
        ok == (off + 2 <= old(buf)@.len()),
        final(buf)@.len() == old(buf)@.len(),
        ok ==> final(buf)@ == splice(old(buf)@, off as int, u16_le_bytes(v)),
        !ok ==> final(buf)@ == old(buf)@,
{
    buf.pwrite_with::<u16>(v, off, scroll::LE).is_ok()
}

/// Relies on scroll's `Pwrite::pwrite_with` for `u32`: writes the four bytes of `v` at
/// `off` in the given byte order, and leaves the slice untouched when fewer than
/// four bytes remain.
#[verifier::external_body]
pub(crate) fn write_u32(buf: &mut [u8], off: usize, v: u32, e: Endian) -> (ok: bool)
    ensures
        ok == (off + 4 <= old(buf)@.len()),
        final(buf)@.len() == old(buf)@.len(),
        ok ==> final(buf)@ == splice(old(buf)@, off as int, u32_bytes(v, e)),
        !ok ==> final(buf)@ == old(buf)@,
{
    let ctx = match e {
        Endian::Little => scroll::LE,
        Endian::Big => scroll::BE,
    };
    buf.pwrite_with::<u32>(v, off, ctx).is_ok()
}

} // verus!
