//! Codec for the KV6 sparse voxel-model format.

pub mod bytes;
pub mod error;
pub mod kv6;
pub mod voxel;

pub use bytes::Endian;
pub use error::Kv6Error;
pub use kv6::KV6Format;
pub use voxel::VoxelData;
