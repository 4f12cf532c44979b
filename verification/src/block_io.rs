use crate::block::{
    completed, kept_outside, overlay, stored, Block, BlockReqWaiter, Buffer, Cell,
    SnapshotDetails, WQCounts,
};
use crate::error::CrucibleError;
use uuid::Uuid;
use vstd::prelude::*;

verus! {

/// What stays the same of a device whatever is asked of it.
pub struct Profile {
    /// The size of a block, in bytes.
    pub block_size: u64,
    /// The identity of the device.
    pub identity: Uuid,
    /// Whether the device carries out every well-formed request other
    /// than a write.
    pub dependable: bool,
    /// Whether the device, if dependable, carries out every well-formed
    /// write too.
    pub writable: bool,
}

/// Whether a request of `len` bytes at block `start` is a whole number of
/// blocks of `block_size` bytes, one at least, that lie within a device of
/// `size` bytes.
pub open spec fn block_aligned(block_size: u64, size: nat, start: u64, len: nat) -> bool {
    &&& block_size > 0
    &&& len > 0
    &&& len % (block_size as nat) == 0
    &&& start * block_size + len <= size
}

/// A block device: what every backend offers, and a volume too.
///
/// The contracts speak of the device as a sequence of cells, `cells()`, one
/// byte and one ownership flag per byte of the device. A device whose
/// profile says `dependable` promises to carry out every well-formed
/// request; of any other, the contracts say only what holds when a request
/// did succeed.
///
/// An implementation says what the device is by giving `profile`,
/// `cells`, `active`, `work` and `flushed`; where it gives none, nothing
/// is known of them.
pub trait BlockIO {
    /// What no request changes.
    open spec fn profile(&self) -> Profile {
        arbitrary()
    }

    /// The content of the device.
    open spec fn cells(&self) -> Seq<Cell> {
        arbitrary()
    }

    /// Whether the device has been activated.
    open spec fn active(&self) -> bool {
        arbitrary()
    }

    /// The queue depths of the device: above, and below.
    open spec fn work(&self) -> (nat, nat) {
        arbitrary()
    }

    /// The flushes that the device has carried out, the first one first:
    /// of each, the snapshot details that it was given.
    open spec fn flushed(&self) -> Seq<Option<SnapshotDetails>> {
        arbitrary()
    }

    /// Brings the device into service. A dependable device refuses only
    /// when it is in service already, and then with
    /// `UpstairsAlreadyActive`.
    fn activate(&mut self, gen: u64) -> (r: Result<(), CrucibleError>)
        ensures
            final(self).profile() == old(self).profile(),
            final(self).cells() == old(self).cells(),
            r is Ok ==> final(self).active(),
            old(self).active() ==> final(self).active(),
            old(self).profile().dependable ==> r is Ok || (old(self).active() && r == Err::<
                (),
                CrucibleError,
            >(CrucibleError::UpstairsAlreadyActive)),
    ;

    fn query_is_active(&self) -> (r: Result<bool, CrucibleError>)
        ensures
            r matches Ok(active) ==> active == self.active(),
            self.profile().dependable ==> r is Ok,
    ;

    /// The size of the device, in bytes.
    fn total_size(&self) -> (r: Result<u64, CrucibleError>)
        ensures
            r matches Ok(size) ==> size == self.cells().len(),
            self.profile().dependable ==> r is Ok,
    ;

    fn get_block_size(&self) -> (r: Result<u64, CrucibleError>)
        ensures
            r matches Ok(size) ==> size == self.profile().block_size,
            self.profile().dependable ==> r is Ok,
    ;

    fn get_uuid(&self) -> (r: Result<Uuid, CrucibleError>)
        ensures
            r matches Ok(id) ==> id == self.profile().identity,
            self.profile().dependable ==> r is Ok,
    ;

    /// Fills `data` with the cells of the device from block `offset` on.
    fn read(&self, offset: Block, data: &mut Buffer) -> (r: Result<BlockReqWaiter, CrucibleError>)
        ensures
            final(data)@.len() == old(data)@.len(),
            completed(r) ==> {
                let at = offset.value * self.profile().block_size;
                &&& at + old(data)@.len() <= self.cells().len()
                &&& final(data)@ == self.cells().subrange(at, at + old(data)@.len())
            },
            self.profile().dependable && block_aligned(
                self.profile().block_size,
                self.cells().len(),
                offset.value,
                old(data)@.len(),
            ) ==> completed(r),
    ;

    /// Stores `data` on the device from block `offset` on, and marks
    /// every byte of it owned. Whether it succeeds or not, it leaves what
    /// lies outside the request as it is.
    fn write(&mut self, offset: Block, data: &[u8]) -> (r: Result<BlockReqWaiter, CrucibleError>)
        ensures
            final(self).profile() == old(self).profile(),
            final(self).active() == old(self).active(),
            kept_outside(
                old(self).cells(),
                final(self).cells(),
                offset.value * old(self).profile().block_size,
                data@.len() as int,
            ),
            completed(r) ==> {
                let at = offset.value * old(self).profile().block_size;
                &&& at + data@.len() <= old(self).cells().len()
                &&& final(self).cells() == overlay(old(self).cells(), at, stored(data@))
            },
            old(self).profile().dependable && old(self).profile().writable && block_aligned(
                old(self).profile().block_size,
                old(self).cells().len(),
                offset.value,
                data@.len(),
            ) ==> completed(r),
    ;

    /// Makes what was written durable, and takes a snapshot where
    /// `snapshot_details` asks for one. A flush that was carried out is
    /// one more among the flushes of the device, with the details that it
    /// was given; one that failed is none. What the device holds stays as
    /// it is.
    fn flush(&mut self, snapshot_details: Option<SnapshotDetails>) -> (r: Result<
        BlockReqWaiter,
        CrucibleError,
    >)
        ensures
            final(self).profile() == old(self).profile(),
            final(self).cells() == old(self).cells(),
            final(self).active() == old(self).active(),
            final(self).flushed() == (if completed(r) {
                old(self).flushed().push(snapshot_details)
            } else {
                old(self).flushed()
            }),
            old(self).profile().dependable ==> completed(r),
    ;

    fn show_work(&self) -> (r: Result<WQCounts, CrucibleError>)
        ensures
            r matches Ok(counts) ==> (counts.up_count as nat, counts.ds_count as nat)
                == self.work(),
            self.profile().dependable && self.work().0 <= usize::MAX && self.work().1
                <= usize::MAX ==> r is Ok,
    ;

    /// Activates the device unless it reports that it is active already.
    fn conditional_activate(&mut self, gen: u64) -> (r: Result<(), CrucibleError>)
        ensures
            final(self).profile() == old(self).profile(),
            final(self).cells() == old(self).cells(),
            r is Ok ==> final(self).active(),
            old(self).active() ==> final(self).active(),
            old(self).profile().dependable ==> r is Ok,
    {
        let is_active = self.query_is_active()?;
        if is_active {
            return Ok(());
        }
        self.activate(gen)
    }
}

} // verus!
