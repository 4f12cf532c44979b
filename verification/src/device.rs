//! A block device addressed in bytes: requests of any offset and length
//! over a backend that works in whole blocks.

use crate::block::{kept_outside, overlay, stored, values, Block, Cell, WQCounts};
use crate::block_io::BlockIO;
use crate::error::CrucibleError;
use crate::io_span::{blocks_touched, first_block, lemma_span_geometry, IOSpan};
use uuid::Uuid;
use vstd::prelude::*;

verus! {

/// `base` with the bytes from `at` on replaced by `data`.
pub open spec fn spliced(base: Seq<u8>, at: int, data: Seq<u8>) -> Seq<u8> {
    Seq::new(
        base.len(),
        |i: int|
            if at <= i < at + data.len() {
                data[i - at]
            } else {
                base[i]
            },
    )
}

/// What a backend holds once `data` was written at byte `offset` of it:
/// the blocks that the bytes touch are stored anew, every byte of them
/// owned, with `data` in place of the bytes that it covers.
pub open spec fn after_bytes(cells: Seq<Cell>, block_size: u64, offset: u64, data: Seq<u8>) -> Seq<
    Cell,
> {
    let from = first_block(offset, block_size) * block_size;
    let size = blocks_touched(offset, data.len() as u64, block_size) * block_size;
    overlay(
        cells,
        from,
        stored(
            spliced(
                values(cells.subrange(from, from + size)),
                (offset % block_size) as int,
                data,
            ),
        ),
    )
}

/// What the activation of a backend comes to for a device: that the
/// backend is active already is no failure, and any other outcome is what
/// it is.
pub fn settled(outcome: Result<(), CrucibleError>) -> (r: Result<(), CrucibleError>)
    ensures
        r == (match outcome {
            Err(CrucibleError::UpstairsAlreadyActive) => Ok(()),
            other => other,
        }),
{
    match outcome {
        Err(CrucibleError::UpstairsAlreadyActive) => Ok(()),
        other => other,
    }
}

/// A backend with what it last reported of itself: its size, the size of
/// its blocks and its identity, all unset until the device is activated.
pub struct CrucibleDev<T> {
    active: bool,
    block_io: T,
    sz: u64,
    block_size: u64,
    uuid: Uuid,
}

impl<T: BlockIO> CrucibleDev<T> {
    /// The backend.
    pub closed spec fn backend(&self) -> T {
        self.block_io
    }

    /// Whether the device was activated.
    pub closed spec fn is_active(&self) -> bool {
        self.active
    }

    /// The size that the backend reported, in bytes; zero before.
    pub closed spec fn size(&self) -> u64 {
        self.sz
    }

    /// The block size that the backend reported; zero before.
    pub closed spec fn block_bytes(&self) -> u64 {
        self.block_size
    }

    /// The identity that the backend reported.
    pub closed spec fn id(&self) -> Uuid {
        self.uuid
    }

    /// What every device keeps true: what it holds of the backend's size
    /// and block size is unset or what the backend has, and once the
    /// device is active, the identity too.
    pub closed spec fn wf(&self) -> bool {
        &&& self.sz == 0 || self.sz == self.block_io.cells().len()
        &&& self.block_size == 0 || self.block_size == self.block_io.profile().block_size
        &&& self.active ==> {
            &&& self.sz == self.block_io.cells().len()
            &&& self.block_size == self.block_io.profile().block_size
            &&& self.uuid == self.block_io.profile().identity
        }
    }

    /// A device over `block_io`, not yet activated: its size and block
    /// size are zero, and its identity is the nil UUID.
    pub fn from(block_io: T) -> (r: Result<Self, CrucibleError>)
        ensures
            r matches Ok(dev) && dev.wf() && dev.backend() == block_io && !dev.is_active()
                && dev.size() == 0 && dev.block_bytes() == 0 && crate::ident::uuid_bits(dev.id())
                == 0,
    {
        Ok(CrucibleDev { active: false, block_io, sz: 0, block_size: 0, uuid: crate::ident::nil_uuid() })
    }

    pub fn block_size(&self) -> (block_size: u64)
        ensures
            block_size == self.block_bytes(),
    {
        self.block_size
    }

    pub fn sz(&self) -> (sz: u64)
        ensures
            sz == self.size(),
    {
        self.sz
    }

    /// Activates the backend and takes from it its size, its block size
    /// and its identity. A backend that is active already is no failure
    /// (see `settled`). Where the activation fails, or the backend does
    /// not answer, the device is left as it was.
    pub fn activate(&mut self, gen: u64) -> (r: Result<(), CrucibleError>)
        requires
            old(self).wf(),
        ensures
            final(self).wf(),
            final(self).backend().profile() == old(self).backend().profile(),
            final(self).backend().cells() == old(self).backend().cells(),
            r is Ok ==> {
                &&& final(self).is_active()
                &&& old(self).backend().profile().dependable ==> final(self).backend().active()
                &&& final(self).size() == final(self).backend().cells().len()
                &&& final(self).block_bytes() == final(self).backend().profile().block_size
                &&& final(self).id() == final(self).backend().profile().identity
            },
            r is Err ==> {
                &&& final(self).is_active() == old(self).is_active()
                &&& final(self).size() == old(self).size()
                &&& final(self).block_bytes() == old(self).block_bytes()
                &&& final(self).id() == old(self).id()
            },
            old(self).backend().profile().dependable ==> r is Ok,
    {
        match settled(self.block_io.activate(gen)) {
            Ok(_) => {},
            Err(e) => {
                return Err(e);
            },
        }
        let sz: u64 = self.block_io.total_size()?;
        let block_size: u64 = self.block_io.get_block_size()?;
        let uuid = self.block_io.get_uuid()?;
        self.sz = sz;
        self.block_size = block_size;
        self.uuid = uuid;
        self.active = true;
        Ok(())
    }

    /// The queue depths of the backend. A dependable backend gives them
    /// where a `usize` holds each.
    pub fn show_work(&self) -> (r: Result<WQCounts, CrucibleError>)
        ensures
            r matches Ok(counts) ==> (counts.up_count as nat, counts.ds_count as nat)
                == self.backend().work(),
            self.backend().profile().dependable && self.backend().work().0 <= usize::MAX
                && self.backend().work().1 <= usize::MAX ==> r is Ok,
    {
        self.block_io.show_work()
    }

    pub fn uuid(&self) -> (id: Uuid)
        ensures
            id == self.id(),
    {
        self.uuid
    }

    /// Fills `buf` with the bytes of the backend from byte `offset` on:
    /// the blocks that they touch are read, and the bytes taken out of
    /// them.
    pub fn _read(&self, offset: u64, buf: &mut [u8]) -> (r: Result<(), CrucibleError>)
        requires
            self.wf(),
            self.block_bytes() > 0,
            old(buf)@.len() >= 1,
            offset + old(buf)@.len() <= u64::MAX,
            blocks_touched(offset, old(buf)@.len() as u64, self.block_bytes())
                * self.block_bytes() <= usize::MAX,
        ensures
            final(buf)@.len() == old(buf)@.len(),
            r is Ok ==> offset + old(buf)@.len() <= self.backend().cells().len() && final(buf)@
                == values(self.backend().cells()).subrange(
                offset as int,
                offset + old(buf)@.len(),
            ),
            self.backend().profile().dependable && (first_block(offset, self.block_bytes())
                + blocks_touched(offset, old(buf)@.len() as u64, self.block_bytes()))
                * self.block_bytes() <= self.backend().cells().len() ==> r is Ok,
    {
        let ghost len = old(buf)@.len() as int;
        proof {
            lemma_span_geometry(offset as int, len, self.block_size as int);
        }
        let mut span = IOSpan::new(offset, buf.len() as u64, self.block_size);
        let mut waiter = span.read_affected_blocks_from_volume(&self.block_io)?;
        waiter.block_wait()?;
        span.read_from_blocks_into_buffer(buf);
        proof {
            let from = first_block(offset, self.block_size) * self.block_size;
            let phase = offset % self.block_size;
            assert(buf@ =~= values(self.block_io.cells()).subrange(offset as int, offset + len));
        }
        Ok(())
    }

    /// Stores `buf` in the backend from byte `offset` on. Where the bytes
    /// begin at the start of a block and are a whole number of blocks,
    /// they are written as they are; else the blocks that they touch are
    /// read, the bytes put into them, and the blocks written back.
    /// Whether it succeeds or not, what lies outside those blocks stays
    /// as it is.
    pub fn _write(&mut self, offset: u64, buf: &[u8]) -> (r: Result<(), CrucibleError>)
        requires
            old(self).wf(),
            old(self).block_bytes() > 0,
            buf@.len() >= 1,
            offset + buf@.len() <= u64::MAX,
            blocks_touched(offset, buf@.len() as u64, old(self).block_bytes()) * old(
                self,
            ).block_bytes() <= usize::MAX,
        ensures
            final(self).wf(),
            final(self).is_active() == old(self).is_active(),
            final(self).size() == old(self).size(),
            final(self).block_bytes() == old(self).block_bytes(),
            final(self).id() == old(self).id(),
            final(self).backend().profile() == old(self).backend().profile(),
            kept_outside(
                old(self).backend().cells(),
                final(self).backend().cells(),
                first_block(offset, old(self).block_bytes()) * old(self).block_bytes(),
                blocks_touched(offset, buf@.len() as u64, old(self).block_bytes()) * old(
                    self,
                ).block_bytes(),
            ),
            r is Ok ==> final(self).backend().cells() == after_bytes(
                old(self).backend().cells(),
                old(self).block_bytes(),
                offset,
                buf@,
            ),
            old(self).backend().profile().dependable && old(self).backend().profile().writable
                && (first_block(offset, old(self).block_bytes()) + blocks_touched(
                offset,
                buf@.len() as u64,
                old(self).block_bytes(),
            )) * old(self).block_bytes() <= old(self).backend().cells().len() ==> r is Ok,
    {
        let ghost len = buf@.len() as int;
        let ghost before = self.block_io.cells();
        proof {
            lemma_span_geometry(offset as int, len, self.block_size as int);
        }
        let mut span = IOSpan::new(offset, buf.len() as u64, self.block_size);
        if !span.is_block_regular() {
            let mut waiter = span.read_affected_blocks_from_volume(&self.block_io)?;
            waiter.block_wait()?;
            span.write_from_buffer_into_blocks(buf);
            proof {
                let from = first_block(offset, self.block_size) * self.block_size;
                let size = blocks_touched(offset, len as u64, self.block_size) * self.block_size;
                assert(values(span.buffer()) =~= spliced(
                    values(before.subrange(from, from + size)),
                    (offset % self.block_size) as int,
                    buf@,
                ));
            }
            let mut waiter = span.write_affected_blocks_to_volume(&mut self.block_io)?;
            waiter.block_wait()?;
        } else {
            let offset = Block::new(offset / self.block_size, self.block_size.trailing_zeros());
            let mut waiter = self.block_io.write(offset, buf)?;
            waiter.block_wait()?;
            proof {
                let from = offset.value * self.block_size;
                assert(buf@ =~= spliced(values(before.subrange(from, from + len)), 0, buf@));
            }
        }
        Ok(())
    }

    /// Flushes the backend, without a snapshot. Where it succeeds, the
    /// backend has carried out one flush more; where it fails, none. The
    /// device and what the backend holds stay as they are.
    pub fn _flush(&mut self) -> (r: Result<(), CrucibleError>)
        ensures
            old(self).wf() ==> final(self).wf(),
            final(self).is_active() == old(self).is_active(),
            final(self).size() == old(self).size(),
            final(self).block_bytes() == old(self).block_bytes(),
            final(self).id() == old(self).id(),
            final(self).backend().profile() == old(self).backend().profile(),
            final(self).backend().cells() == old(self).backend().cells(),
            final(self).backend().active() == old(self).backend().active(),
            final(self).backend().flushed() == (if r is Ok {
                old(self).backend().flushed().push(None)
            } else {
                old(self).backend().flushed()
            }),
            old(self).backend().profile().dependable ==> r is Ok,
    {
        let mut waiter = match self.block_io.flush(None) {
            Ok(waiter) => waiter,
            Err(e) => {
                return Err(e);
            },
        };
        waiter.block_wait()
    }
}

} // verus!
