use crate::block::{
    blank, zero_filled, completed, Block, BlockReqWaiter, Buffer, Cell, SnapshotDetails, WQCounts,
};
use crate::block_io::{BlockIO, Profile};
use crate::error::CrucibleError;
use crate::sub_volume::SubVolume;
use std::ops::Range;
use uuid::Uuid;
use vstd::prelude::*;

verus! {

/// A block device held in memory. It is always active, never busy, and
/// dependable.
pub struct InMemoryBlockIO {
    uuid: Uuid,
    block_size: u64,
    store: Buffer,
    flushes: Ghost<Seq<Option<SnapshotDetails>>>,
}

impl InMemoryBlockIO {
    /// What the device keeps true of itself: a byte that was never
    /// written is zero.
    #[verifier::type_invariant]
    pub closed spec fn wf(&self) -> bool {
        zero_filled(self.store@)
    }

    /// A byte of the device that is not owned is zero.
    pub proof fn lemma_unowned_is_zero(&self)
        requires
            self.wf(),
        ensures
            zero_filled(self.cells()),
    {
    }

    /// A device of `total_size` zero bytes, none of them owned.
    pub fn new(block_size: u64, total_size: usize) -> (disk: InMemoryBlockIO)
        ensures
            disk.wf(),
            disk.profile().block_size == block_size,
            disk.profile().dependable,
            disk.profile().writable,
            disk.cells() == blank(total_size as nat),
            disk.flushed() == Seq::<Option<SnapshotDetails>>::empty(),
    {
        InMemoryBlockIO {
            uuid: crate::ident::random_uuid(),
            block_size,
            store: Buffer::new(total_size),
            flushes: Ghost(Seq::empty()),
        }
    }

    /// The device as the backend of a sub-volume that lies yet nowhere:
    /// its range is empty, and its backend is the device.
    pub fn into_part(self) -> (part: SubVolume)
        ensures
            part.lba_range == (Range { start: 0u64, end: 0u64 }),
            part.block_io.profile() == self.profile(),
            part.block_io.cells() == self.cells(),
            part.block_io.active(),
            part.block_io.work() == (0nat, 0nat),
            part.block_io.flushed() == self.flushed(),
    {
        let block_io: Box<dyn BlockIO> = Box::new(self);
        let part = SubVolume { lba_range: 0..0, block_io };
        part
    }

    /// Where the request of `len` bytes at block `start` begins, in bytes,
    /// if it lies within the device.
    fn locate(&self, start: u64, len: usize) -> (at: Option<usize>)
        ensures
            at matches Some(at) ==> at == start * self.profile().block_size && at + len
                <= self.cells().len(),
            at is None ==> start * self.profile().block_size + len > self.cells().len(),
    {
        let size: usize = self.store.len();
        if len > size {
            return None;
        }
        let room: usize = size - len;
        if self.block_size == 0 || start == 0 {
            return Some(0);
        }
        if start > usize::MAX as u64 || self.block_size > usize::MAX as u64 {
            assert(start * self.profile().block_size > usize::MAX) by (nonlinear_arith)
                requires
                    start >= 1,
                    self.profile().block_size >= 1,
                    start > usize::MAX || self.profile().block_size > usize::MAX,
            ;
            return None;
        }
        match (start as usize).checked_mul(self.block_size as usize) {
            Some(at) => if at <= room {
                Some(at)
            } else {
                None
            },
            None => None,
        }
    }
}

impl BlockIO for InMemoryBlockIO {
    closed spec fn profile(&self) -> Profile {
        Profile {
            block_size: self.block_size,
            identity: self.uuid,
            dependable: true,
            writable: true,
        }
    }

    closed spec fn cells(&self) -> Seq<Cell> {
        self.store@
    }

    open spec fn active(&self) -> bool {
        true
    }

    open spec fn work(&self) -> (nat, nat) {
        (0, 0)
    }

    closed spec fn flushed(&self) -> Seq<Option<SnapshotDetails>> {
        self.flushes@
    }

    fn activate(&mut self, gen: u64) -> (r: Result<(), CrucibleError>)
        ensures
            r is Ok,
    {
        Ok(())
    }

    fn query_is_active(&self) -> (r: Result<bool, CrucibleError>)
        ensures
            r == Ok::<bool, CrucibleError>(true),
    {
        Ok(true)
    }

    fn total_size(&self) -> (r: Result<u64, CrucibleError>)
        ensures
            r is Ok,
    {
        Ok(self.store.len() as u64)
    }

    fn get_block_size(&self) -> (r: Result<u64, CrucibleError>)
        ensures
            r is Ok,
    {
        Ok(self.block_size)
    }

    fn get_uuid(&self) -> (r: Result<Uuid, CrucibleError>)
        ensures
            r is Ok,
    {
        Ok(self.uuid)
    }

    /// Succeeds when the request lies within the device, whatever its
    /// length, and fails with `OffsetInvalid` when it does not.
    fn read(&self, offset: Block, data: &mut Buffer) -> (r: Result<BlockReqWaiter, CrucibleError>)
        ensures
            offset.value * self.profile().block_size + old(data)@.len() <= self.cells().len()
                ==> completed(r),
            offset.value * self.profile().block_size + old(data)@.len() > self.cells().len() ==> r
                == Err::<BlockReqWaiter, CrucibleError>(CrucibleError::OffsetInvalid)
                && final(data)@ == old(data)@,
    {
        let len: usize = data.len();
        match self.locate(offset.value, len) {
            Some(at) => {
                data.copy_from(0, &self.store, at, len);
                assert(data@ =~= self.cells().subrange(at as int, at + len));
                BlockReqWaiter::immediate()
            },
            None => Err(CrucibleError::OffsetInvalid),
        }
    }

    /// Succeeds when the request lies within the device, whatever its
    /// length, and fails with `OffsetInvalid`, the device untouched, when
    /// it does not.
    fn write(&mut self, offset: Block, data: &[u8]) -> (r: Result<BlockReqWaiter, CrucibleError>)
        ensures
            offset.value * old(self).profile().block_size + data@.len() <= old(self).cells().len()
                ==> completed(r),
            offset.value * old(self).profile().block_size + data@.len() > old(self).cells().len() ==> r
                == Err::<BlockReqWaiter, CrucibleError>(CrucibleError::OffsetInvalid)
                && final(self).cells() == old(self).cells(),
            final(self).wf(),
    {
        proof {
            use_type_invariant(&*self);
        }
        match self.locate(offset.value, data.len()) {
            Some(at) => {
                let mut store = Buffer::new(0);
                core::mem::swap(&mut self.store, &mut store);
                store.store(at, data);
                core::mem::swap(&mut self.store, &mut store);
                BlockReqWaiter::immediate()
            },
            None => Err(CrucibleError::OffsetInvalid),
        }
    }

    /// Always succeeds.
    fn flush(&mut self, snapshot_details: Option<SnapshotDetails>) -> (r: Result<
        BlockReqWaiter,
        CrucibleError,
    >)
        ensures
            completed(r),
            final(self).wf(),
    {
        proof {
            use_type_invariant(&*self);
        }
        self.flushes = Ghost(self.flushes@.push(snapshot_details));
        BlockReqWaiter::immediate()
    }

    fn show_work(&self) -> (r: Result<WQCounts, CrucibleError>)
        ensures
            r is Ok,
    {
        Ok(WQCounts { up_count: 0, ds_count: 0 })
    }
}

} // verus!
