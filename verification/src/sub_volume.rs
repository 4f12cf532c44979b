use crate::block::{Block, BlockReqWaiter, Buffer, Cell, SnapshotDetails, WQCounts};
use crate::block_io::{BlockIO, Profile};
use crate::error::CrucibleError;
use std::ops::Range;
use uuid::Uuid;
use vstd::prelude::*;

verus! {

/// The part of the request `[start, start + length)` that lies within
/// `range`, both in blocks; `None` where they share no block.
pub open spec fn coverage(range: Range<u64>, start: u64, length: u64) -> Option<Range<u64>> {
    let low = if range.start > start {
        range.start
    } else {
        start
    };
    let high = if range.end < start + length {
        range.end
    } else {
        (start + length) as u64
    };
    if low < high {
        Some(Range { start: low, end: high })
    } else {
        None
    }
}

/// Whether `block` lies in `range`.
pub open spec fn within(range: Range<u64>, block: int) -> bool {
    range.start <= block < range.end
}

/// What a sub-volume serves of a request is what the request and the
/// range of the sub-volume have in common: nothing where they share no
/// block, and else the blocks that they share, one at least, which lie in
/// both.
pub proof fn lemma_coverage_is_intersection(range: Range<u64>, start: u64, length: u64)
    requires
        length >= 1,
    ensures
        coverage(range, start, length) is None <==> forall|block: int|
            !(start <= block < start + length && #[trigger] within(range, block)),
        coverage(range, start, length) matches Some(covered) ==> {
            &&& covered.start < covered.end
            &&& start <= covered.start && covered.end <= start + length
            &&& range.start <= covered.start && covered.end <= range.end
            &&& forall|block: int|
                #[trigger] within(covered, block) <==> start <= block < start + length && within(
                    range,
                    block,
                )
        },
{
    let low = if range.start > start {
        range.start as int
    } else {
        start as int
    };
    if let Some(covered) = coverage(range, start, length) {
        assert(start <= low < start + length && within(range, low));
    }
}

/// One backend and the range of blocks, in the address space of the volume
/// that holds it, which it serves.
///
/// A volume holds sub-volumes over any backend, `SubVolume<dyn BlockIO>`,
/// which is what `SubVolume` alone stands for; a sub-volume over one kind
/// of backend can be had as well.
pub struct SubVolume<B: ?Sized + BlockIO = dyn BlockIO> {
    pub lba_range: Range<u64>,
    pub block_io: Box<B>,
}

impl<B: ?Sized + BlockIO> SubVolume<B> {
    /// The address within this sub-volume of the volume's block `address`.
    pub fn compute_sub_volume_lba(&self, address: u64) -> (local: u64)
        requires
            self.lba_range.start <= address < self.lba_range.end,
        ensures
            local == address - self.lba_range.start,
    {
        address - self.lba_range.start
    }

    /// The part of the request that this sub-volume serves.
    pub fn lba_range_coverage(&self, start: u64, length: u64) -> (covered: Option<Range<u64>>)
        requires
            length >= 1,
        ensures
            covered == coverage(self.lba_range, start, length),
    {
        if self.lba_range.start >= self.lba_range.end {
            return None;
        }
        // The last block of the request, or the last block there is.
        let last: u64 = if length - 1 > u64::MAX - start {
            u64::MAX
        } else {
            start + (length - 1)
        };
        if last < self.lba_range.start {
            return None;
        }
        if start >= self.lba_range.end {
            return None;
        }
        let starts_inside = self.lba_range.start <= start;
        let ends_inside = last < self.lba_range.end;
        if starts_inside && ends_inside {
            Some(start..last + 1)
        } else if starts_inside {
            Some(start..self.lba_range.end)
        } else if ends_inside {
            Some(self.lba_range.start..last + 1)
        } else {
            Some(self.lba_range.start..self.lba_range.end)
        }
    }
}

impl<B: ?Sized + BlockIO> BlockIO for SubVolume<B> {
    open spec fn profile(&self) -> Profile {
        self.block_io.profile()
    }

    open spec fn cells(&self) -> Seq<Cell> {
        self.block_io.cells()
    }

    open spec fn active(&self) -> bool {
        self.block_io.active()
    }

    open spec fn work(&self) -> (nat, nat) {
        self.block_io.work()
    }

    open spec fn flushed(&self) -> Seq<Option<SnapshotDetails>> {
        self.block_io.flushed()
    }

    fn activate(&mut self, gen: u64) -> (r: Result<(), CrucibleError>)
        ensures
            final(self).lba_range == old(self).lba_range,
    {
        self.block_io.activate(gen)
    }

    fn query_is_active(&self) -> (r: Result<bool, CrucibleError>) {
        self.block_io.query_is_active()
    }

    fn total_size(&self) -> (r: Result<u64, CrucibleError>) {
        self.block_io.total_size()
    }

    fn get_block_size(&self) -> (r: Result<u64, CrucibleError>) {
        self.block_io.get_block_size()
    }

    fn get_uuid(&self) -> (r: Result<Uuid, CrucibleError>) {
        self.block_io.get_uuid()
    }

    fn read(&self, offset: Block, data: &mut Buffer) -> (r: Result<BlockReqWaiter, CrucibleError>) {
        self.block_io.read(offset, data)
    }

    fn write(&mut self, offset: Block, data: &[u8]) -> (r: Result<BlockReqWaiter, CrucibleError>)
        ensures
            final(self).lba_range == old(self).lba_range,
    {
        self.block_io.write(offset, data)
    }

    fn flush(&mut self, snapshot_details: Option<SnapshotDetails>) -> (r: Result<
        BlockReqWaiter,
        CrucibleError,
    >)
        ensures
            final(self).lba_range == old(self).lba_range,
    {
        self.block_io.flush(snapshot_details)
    }

    fn show_work(&self) -> (r: Result<WQCounts, CrucibleError>) {
        self.block_io.show_work()
    }
}

} // verus!
