//! A codec library for the NBT binary format, its textual SNBT variant,
//! the region-file container that stores compressed NBT chunks, and the
//! palette-packed bit arrays used inside chunk sections.

pub mod binary;
pub mod binary_uuid;
pub mod bytes;
pub mod chunk;
pub mod data;
pub mod error;
pub mod model;
pub mod reader;
pub mod region;
pub mod serde_impl;
pub mod snbt;
pub mod tag;
pub mod value;
pub mod value_read;
pub mod value_write;
pub mod writer;

pub use error::NBTError;
pub use tag::{ListType, Tag};
