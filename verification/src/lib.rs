//! Volume composition for a block-storage client.
//!
//! A [`Volume`] presents one logical block device made of sub-volumes that
//! are laid end to end in block address space, optionally layered over a
//! read-only parent. Every backend, the volume included, is a [`BlockIO`]
//! device whose behaviour is stated over a sequence of cells: one byte and
//! one ownership flag per byte of the device.

pub mod block;
pub mod block_io;
pub mod construct;
pub mod device;
mod dispatch;
pub mod error;
pub mod ident;
pub mod in_memory;
pub mod io_span;
pub mod layering;
pub mod layout;
pub mod sub_volume;
pub mod volume;

pub use block::{Block, BlockReqWaiter, Buffer, Cell, SnapshotDetails, WQCounts};
pub use block_io::{BlockIO, Profile};
pub use construct::{CrucibleOpts, Supplied, VolumeConstructionRequest};
pub use device::CrucibleDev;
pub use error::CrucibleError;
pub use in_memory::InMemoryBlockIO;
pub use io_span::IOSpan;
pub use sub_volume::SubVolume;
pub use volume::Volume;
