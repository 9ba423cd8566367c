use kv6::kv6::KV6_MAGIC;
use kv6::{Endian, KV6Format, Kv6Error, VoxelData};

/// A model shaped like a small grenade: a 6 x 6 x 9 box, pivot (2.5, 2.5, 3.5),
/// 74 voxels, and both index tables filled in.
fn grenade_bytes() -> Vec<u8> {
    let mut b: Vec<u8> = Vec::new();
    b.extend_from_slice(&[0x4b, 0x76, 0x78, 0x6c]);
    for v in [6u32, 6, 9] {
        b.extend_from_slice(&v.to_le_bytes());
    }
    for p in [2.5f32, 2.5, 3.5] {
        b.extend_from_slice(&p.to_le_bytes());
    }
    b.extend_from_slice(&74u32.to_le_bytes());
    for i in 0..74u32 {
        let height = (i % 9) as u16;
        b.extend_from_slice(&[i as u8, (i * 2) as u8, (i * 3) as u8, 128]);
        b.extend_from_slice(&height.to_le_bytes());
        b.extend_from_slice(&[0x3f, (i % 256) as u8]);
    }
    let xlen = [12u32, 13, 12, 13, 12, 12];
    for x in xlen {
        b.extend_from_slice(&x.to_le_bytes());
    }
    for x in 0..6u16 {
        for y in 0..6u16 {
            b.extend_from_slice(&(x * 6 + y).to_le_bytes());
        }
    }
    b
}

fn decode_le(b: &[u8]) -> KV6Format {
    KV6Format::try_from_ctx(b, Endian::Little).unwrap().0
}

fn sample_model() -> KV6Format {
    let mut m = KV6Format::default();
    m.x_size = 2;
    m.y_size = 3;
    m.z_size = 4;
    m.x_pivot = 1.5f32.to_bits();
    m.y_pivot = 0.25f32.to_bits();
    m.z_pivot = (-2.0f32).to_bits();
    m.voxels = vec![
        VoxelData { red: 1, green: 2, blue: 3, dummy: 128, height: 0x0102, visibility: 0x21, normalindex: 7 },
        VoxelData { red: 255, green: 0, blue: 9, dummy: 0, height: 3, visibility: 0, normalindex: 200 },
    ];
    m.xlen = vec![1, 0x01020304];
    m.ylen = vec![vec![0, 1, 2], vec![0xabcd, 5, 6]];
    m
}

fn same_model(a: &KV6Format, b: &KV6Format) -> bool {
    a.magic == b.magic
        && a.x_size == b.x_size
        && a.y_size == b.y_size
        && a.z_size == b.z_size
        && a.x_pivot == b.x_pivot
        && a.y_pivot == b.y_pivot
        && a.z_pivot == b.z_pivot
        && a.voxels == b.voxels
        && a.xlen == b.xlen
        && a.ylen == b.ylen
}

#[test]
fn test_read_header() {
    let data = decode_le(&grenade_bytes());
    assert_eq!(data.magic, 0x4b76786c);
}

#[test]
fn test_read_sizes() {
    let data = decode_le(&grenade_bytes());
    assert_eq!(data.x_size, 6);
    assert_eq!(data.y_size, 6);
    assert_eq!(data.z_size, 9);
}

#[test]
fn test_read_pivots() {
    let data = decode_le(&grenade_bytes());
    assert_eq!(f32::from_bits(data.x_pivot), 2.5);
    assert_eq!(f32::from_bits(data.y_pivot), 2.5);
    assert_eq!(f32::from_bits(data.z_pivot), 3.5);
}

#[test]
fn test_read_voxels() {
    let data = decode_le(&grenade_bytes());
    assert_eq!(data.voxels.len(), 74);
}

#[test]
fn test_read_xlen() {
    let data = decode_le(&grenade_bytes());
    assert_eq!(data.xlen.len() as u32, data.x_size);
}

#[test]
fn decode_reports_bytes_consumed_and_tables() {
    let b = grenade_bytes();
    let (data, n) = KV6Format::try_from_ctx(&b, Endian::Little).unwrap();
    assert_eq!(n, 32 + 8 * 74 + 4 * 6 + 2 * 36);
    assert_eq!(n, b.len());
    assert_eq!(data.xlen, vec![12, 13, 12, 13, 12, 12]);
    assert_eq!(data.ylen.len(), 6);
    for (x, row) in data.ylen.iter().enumerate() {
        assert_eq!(row.len(), 6);
        for (y, v) in row.iter().enumerate() {
            assert_eq!(*v as usize, x * 6 + y);
        }
    }
    let v = data.voxels[10];
    assert_eq!(v, VoxelData { red: 10, green: 20, blue: 30, dummy: 128, height: 1, visibility: 0x3f, normalindex: 10 });
}

#[test]
fn decode_ignores_trailing_bytes() {
    let mut b = grenade_bytes();
    let len = b.len();
    b.extend_from_slice(&[1, 2, 3]);
    let (data, n) = KV6Format::try_from_ctx(&b, Endian::Little).unwrap();
    assert_eq!(n, len);
    assert_eq!(data.voxels.len(), 74);
}

#[test]
fn magic_is_read_big_endian_in_either_order() {
    let m = sample_model();
    let b = m.to_bytes(Endian::Big).unwrap();
    assert_eq!(&b[0..4], &[0x4b, 0x76, 0x78, 0x6c]);
    assert_eq!(&b[4..8], &[0, 0, 0, 2]);
    let data = KV6Format::try_from_ctx(&b, Endian::Big).unwrap().0;
    assert_eq!(data.magic, KV6_MAGIC);
    assert_eq!(data.check_magic(), Ok(()));
}

#[test]
fn encoding_has_exact_layout() {
    let m = sample_model();
    let b = m.to_bytes(Endian::Little).unwrap();
    assert_eq!(b.len(), 32 + 16 + 8 + 12);
    assert_eq!(&b[4..8], &[2, 0, 0, 0]);
    assert_eq!(&b[16..20], &1.5f32.to_le_bytes());
    assert_eq!(&b[28..32], &[2, 0, 0, 0]);
    assert_eq!(&b[32..40], &[1, 2, 3, 128, 0x02, 0x01, 0x21, 7]);
    assert_eq!(&b[48..52], &[1, 0, 0, 0]);
    assert_eq!(&b[52..56], &[4, 3, 2, 1]);
    assert_eq!(&b[56..62], &[0, 0, 1, 0, 2, 0]);
    assert_eq!(&b[62..64], &[0xcd, 0xab]);
}

#[test]
fn index_tables_follow_their_byte_orders() {
    let m = sample_model();
    let b = m.to_bytes(Endian::Big).unwrap();
    // The x-index table follows the chosen order, the (x, y)-index table is little-endian.
    assert_eq!(&b[52..56], &[1, 2, 3, 4]);
    assert_eq!(&b[62..64], &[0xcd, 0xab]);
    // A voxel's height is little-endian whatever the order.
    assert_eq!(&b[36..38], &[0x02, 0x01]);
}

#[test]
fn round_trip_little_endian() {
    let m = sample_model();
    let b = m.to_bytes(Endian::Little).unwrap();
    let (d, n) = KV6Format::try_from_ctx(&b, Endian::Little).unwrap();
    assert_eq!(n, b.len());
    assert!(same_model(&d, &m));
}

#[test]
fn round_trip_big_endian() {
    let m = sample_model();
    let b = m.to_bytes(Endian::Big).unwrap();
    let (d, n) = KV6Format::try_from_ctx(&b, Endian::Big).unwrap();
    assert_eq!(n, b.len());
    assert!(same_model(&d, &m));
}

#[test]
fn round_trip_of_decoded_sample() {
    let b = grenade_bytes();
    let d = decode_le(&b);
    assert_eq!(d.to_bytes(Endian::Little).unwrap(), b);
}

#[test]
fn round_trip_of_empty_model() {
    let m = KV6Format::default();
    let b = m.to_bytes(Endian::Little).unwrap();
    assert_eq!(b.len(), 32);
    let (d, n) = KV6Format::try_from_ctx(&b, Endian::Little).unwrap();
    assert_eq!(n, 32);
    assert!(same_model(&d, &m));
}

#[test]
fn written_count_follows_voxels() {
    let mut m = sample_model();
    m.voxels.push(VoxelData::default());
    let b = m.to_bytes(Endian::Little).unwrap();
    assert_eq!(&b[28..32], &[3, 0, 0, 0]);
    let d = decode_le(&b);
    assert_eq!(d.voxels.len(), 3);
}

#[test]
fn index_lengths_match_sizes() {
    let d = decode_le(&grenade_bytes());
    assert_eq!(d.xlen.len(), d.x_size as usize);
    assert_eq!(d.ylen.len(), d.x_size as usize);
    assert!(d.ylen.iter().all(|r| r.len() == d.y_size as usize));
    assert!(d.is_well_formed());
}

#[test]
fn every_strict_prefix_is_truncated() {
    let b = grenade_bytes();
    for k in 0..b.len() {
        let r = KV6Format::try_from_ctx(&b[..k], Endian::Little);
        assert_eq!(r.err(), Some(Kv6Error::TruncatedInput), "prefix of {} bytes", k);
    }
}

#[test]
fn short_header_is_truncated() {
    let r = KV6Format::try_from_ctx(&[0x4b, 0x76, 0x78], Endian::Little);
    assert_eq!(r.err(), Some(Kv6Error::TruncatedInput));
    let r = KV6Format::try_from_ctx(&[], Endian::Big);
    assert_eq!(r.err(), Some(Kv6Error::TruncatedInput));
}

#[test]
fn huge_voxel_count_is_truncated() {
    let mut b = grenade_bytes();
    b[28..32].copy_from_slice(&u32::MAX.to_le_bytes());
    let r = KV6Format::try_from_ctx(&b, Endian::Little);
    assert_eq!(r.err(), Some(Kv6Error::TruncatedInput));
}

#[test]
fn magic_is_not_validated_by_decode() {
    let mut b = grenade_bytes();
    b[0] = b'X';
    let d = decode_le(&b);
    assert_eq!(d.magic, 0x5876786c);
    assert_eq!(d.check_magic(), Err(Kv6Error::MagicMismatch));
}

#[test]
fn small_output_buffer_is_refused() {
    let m = sample_model();
    let mut buf = vec![0xeeu8; 20];
    let r = m.clone().try_into_ctx(&mut buf, Endian::Little);
    assert_eq!(r, Err(Kv6Error::BufferTooSmall));
    assert!(buf.iter().all(|b| *b == 0xee));
}

#[test]
fn write_into_larger_buffer_keeps_the_tail() {
    let m = sample_model();
    let mut buf = vec![0xeeu8; 70];
    let n = m.write_to(&mut buf, Endian::Little).unwrap();
    assert_eq!(n, 68);
    assert_eq!(&buf[..68], &m.to_bytes(Endian::Little).unwrap()[..]);
    assert_eq!(&buf[68..], &[0xee; 2]);
    assert_eq!(m.encoded_size(), Ok(68));
}

#[test]
fn ill_formed_model_is_detected() {
    let mut m = sample_model();
    m.ylen[1].pop();
    assert!(!m.is_well_formed());
    let mut m = sample_model();
    m.xlen.push(0);
    assert!(!m.is_well_formed());
    assert!(sample_model().is_well_formed());
}

#[test]
fn default_model_has_the_tag() {
    let m = KV6Format::default();
    assert_eq!(m.magic, 0x4b76786c);
    assert_eq!(m.x_size, 0);
    assert!(m.voxels.is_empty());
}

#[test]
fn voxel_decodes_fields_in_place() {
    let b = [10u8, 20, 30, 128, 0x34, 0x12, 0x15, 99, 0xff];
    let (v, n) = VoxelData::try_from_ctx(&b, Endian::Big).unwrap();
    assert_eq!(n, 8);
    assert_eq!(v, VoxelData { red: 10, green: 20, blue: 30, dummy: 128, height: 0x1234, visibility: 0x15, normalindex: 99 });
    let (w, _) = VoxelData::try_from_ctx(&b, Endian::Little).unwrap();
    assert_eq!(v, w);
}

#[test]
fn voxel_short_input_is_truncated() {
    let b = [1u8, 2, 3, 4, 5, 6, 7];
    assert_eq!(VoxelData::try_from_ctx(&b, Endian::Little), Err(Kv6Error::TruncatedInput));
}

#[test]
fn voxel_encodes_eight_bytes_verbatim() {
    let v = VoxelData { red: 1, green: 2, blue: 3, dummy: 77, height: 0xbeef, visibility: 0xff, normalindex: 4 };
    let mut buf = [0u8; 10];
    assert_eq!(v.try_into_ctx(&mut buf, Endian::Big), Ok(8));
    assert_eq!(buf, [1, 2, 3, 77, 0xef, 0xbe, 0xff, 4, 0, 0]);
    let mut small = [0u8; 7];
    assert_eq!(v.try_into_ctx(&mut small, Endian::Big), Err(Kv6Error::BufferTooSmall));
    assert_eq!(small, [0u8; 7]);
}
