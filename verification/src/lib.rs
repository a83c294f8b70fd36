//! A Roaring bitmap for `u32` values: sorted 16-bit keys, each owning a container (sorted
//! array, 65536-bit bitmap, or run list) of the low 16 bits of its values; plus the
//! decisions of its sharded concurrent variants.

pub mod bitmap;
pub mod bits;
pub mod concurrent;
pub mod container;
pub mod counting;
pub mod sorted;

pub use bitmap::RoaringBitmap;
