//! Crash-image generation for persistent-memory and block-storage devices.
//!
//! Given a recorded trace of stores, cache-line flushes, fences, block
//! writes and block flushes against emulated PM and NVMe devices, the
//! replay driver mutates faithful persistency models of those devices and,
//! at checkpoints and flush/fence events, materialises the byte images
//! that could be observed if the machine crashed there.  Images are
//! content-addressed by their BLAKE3 digest and deduplicated in a pool.

use vstd::prelude::*;

pub mod combi;
pub mod config;
pub mod driver;
pub mod image;
pub mod models;
pub mod nvme;
pub mod pmem;
pub mod rng;
pub mod trace;

verus! {

/// A fatal condition met during replay or image generation.  The original
/// process aborts on any of these; the library reports them to its caller.
#[derive(Clone, Copy, Debug, PartialEq, Eq, Structural)]
pub enum CigError {
    /// The image pool was offered more bytes than its configured cap.
    PoolLimitExceeded,
    /// A PM or NVMe event arrived before the init sentinel checkpoint.
    EventBeforeInit,
    /// A `wbinvd` event arrived after the init sentinel checkpoint.
    WbinvdAfterInit,
    /// An NVMe write whose offset or length is not a multiple of the block size.
    UnalignedNvmeAccess,
    /// An event for a device the configuration does not provide.
    DeviceAbsent,
    /// A PM store whose size is not 1, 2, 4 or 8 bytes.
    UnsupportedStoreSize,
    /// A PM store or NVMe block that does not fit inside the device.
    OutOfBoundsAccess,
    /// A checkpoint value that was already recorded.
    DuplicateCheckpoint,
    /// A checkpoint value whose predecessor was never recorded.
    NonContiguousCheckpoint,
    /// The final checkpoint of the configured range never appeared.
    MissingFinalCheckpoint,
}

} // verus!
