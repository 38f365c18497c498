//! Typed trace events.
//!
//! A recorded execution trace is a sequence of [`TraceEntry`] values:
//! persistent-memory events, NVMe events and checkpoints, each tagged
//! with its position in the trace.  The on-disk codec lives with the
//! embedding program; the replay driver consumes the decoded values.

use vstd::prelude::*;

verus! {

/// An event against the persistent-memory device.
#[derive(Debug)]
pub enum PmemEvent {
    /// A load; replay ignores it.
    Read { address: u64, size: u64, content: Vec<u8> },
    /// A store of 1, 2, 4 or 8 bytes.
    Write { address: u64, size: u64, content: Vec<u8>, non_temporal: bool },
    /// `mfence`/`sfence`: make every marked line durable.
    Fence,
    /// `clflush`: mark the cache line and fence it, conservatively.
    Clflush { address: u64 },
    /// `clflushopt`: mark the cache line without ordering it.
    Clflushopt { address: u64 },
    /// `clwb`: mark the cache line without ordering it.
    Clwb { address: u64 },
    /// `wbinvd`: legal only before the init sentinel.
    Wbinvd,
}

/// An event against the NVMe device.
#[derive(Debug)]
pub enum NvmeEvent {
    /// A read; replay ignores it.
    Read { offset: u64, length: u64 },
    /// A block-aligned write.
    Write { offset: u64, length: u64, data: Vec<u8> },
    /// Durably apply every buffered write.
    Flush,
}

/// One entry of a recorded trace, tagged with its position.
#[derive(Debug)]
pub enum TraceEntry {
    Pmem { id: u64, event: PmemEvent },
    Nvme { id: u64, event: NvmeEvent },
    Checkpoint { id: u64, value: u8 },
}

/// Strip the payload of an NVMe write, for compact trace listings;
/// every other entry is left alone.
pub fn remove_data(item: &mut TraceEntry)
    ensures
        match *old(item) {
            TraceEntry::Nvme { id, event: NvmeEvent::Write { offset, length, .. } } => *final(item)
                matches TraceEntry::Nvme { id: id2, event: NvmeEvent::Write { offset: o2, length: l2, data: d2 } }
                && id2 == id && o2 == offset && l2 == length && d2@ == Seq::<u8>::empty(),
            _ => *final(item) == *old(item),
        },
{
    match item {
        TraceEntry::Nvme { id: _, event } => match event {
            NvmeEvent::Write { offset: _, length: _, data } => {
                data.clear();
            },
            _ => {},
        },
        _ => {},
    }
}

} // verus!
