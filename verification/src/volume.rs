use crate::block::{
    completed, Block, BlockReqWaiter, Buffer, Cell, SnapshotDetails, WQCounts,
};
use crate::block_io::{block_aligned, BlockIO, Profile};
use crate::error::CrucibleError;
use crate::dispatch::{
    activate_parts, add_counts, flush_parts, lemma_blocks_aligned, query_parts, read_parts,
    work_of_parts, write_parts,
};
use crate::layering::{
    after_write, lemma_layered_len, lemma_part_bytes, lemma_same_cells, lemma_write_frame,
    lemma_write_layers, part_kept,
};
use crate::layout::{
    affected, block_count, end_of, entry_is, exactly_fitted, fitted, flushed_in_order, layered,
    lemma_block_count_is_end, lemma_same_frame_count, lemma_same_frame_well_formed,
    parts_active, parts_dependable, parts_work, parts_writable, same_frame, span, stacked,
    subs_active, subs_dependable, total_blocks, well_formed,
};
use crate::sub_volume::{coverage, SubVolume};
use std::ops::Range;
use uuid::Uuid;
use vstd::prelude::*;

verus! {

/// A block device composed of sub-volumes, laid end to end from block 0,
/// over an optional read-only parent that starts at block 0 too.
pub struct Volume {
    uuid: Uuid,
    sub_volumes: Vec<SubVolume>,
    read_only_parent: Option<SubVolume>,
    block_size: u64,
    flushes: Ghost<Seq<Option<SnapshotDetails>>>,
}

impl Volume {
    /// The sub-volumes, in the order of their ranges.
    pub closed spec fn sub_volumes(&self) -> Seq<SubVolume> {
        self.sub_volumes@
    }

    /// The read-only parent, if there is one.
    pub closed spec fn read_only_parent(&self) -> Option<SubVolume> {
        self.read_only_parent
    }

    /// The size of a block, in bytes.
    pub closed spec fn block_bytes(&self) -> u64 {
        self.block_size
    }

    /// The identity of the volume.
    pub closed spec fn id(&self) -> Uuid {
        self.uuid
    }

    /// What every volume keeps true of its parts.
    #[verifier::type_invariant]
    pub closed spec fn wf(&self) -> bool {
        well_formed(self.sub_volumes@, self.read_only_parent, self.block_size)
    }

    /// What `wf` says, over the parts.
    pub proof fn lemma_wf(&self)
        ensures
            self.wf() == well_formed(
                self.sub_volumes(),
                self.read_only_parent(),
                self.block_bytes(),
            ),
    {
    }

    /// A volume without sub-volumes and without a parent, whose identity
    /// is drawn at random.
    pub fn new(block_size: u64) -> (volume: Volume)
        requires
            block_size > 0,
        ensures
            volume.wf(),
            volume.block_bytes() == block_size,
            volume.sub_volumes() == Seq::<SubVolume>::empty(),
            volume.read_only_parent() is None,
    {
        let sub_volumes: Vec<SubVolume> = Vec::new();
        proof {
            lemma_no_blocks(sub_volumes@, block_size);
        }
        Volume {
            uuid: crate::ident::random_uuid(),
            sub_volumes,
            read_only_parent: None,
            block_size,
            flushes: Ghost(Seq::empty()),
        }
    }

    /// The range that the next sub-volume takes: `number_of_blocks` from
    /// where the last one ends.
    fn compute_next_lba_range(&self, number_of_blocks: u64) -> (range: Range<u64>)
        requires
            block_count(self.sub_volumes()) + number_of_blocks <= u64::MAX,
        ensures
            range.start == block_count(self.sub_volumes()),
            range.end == range.start + number_of_blocks,
    {
        proof {
            use_type_invariant(self);
            if self.sub_volumes@.len() > 0 {
                lemma_block_count_is_end(self.sub_volumes@);
            }
        }
        if self.sub_volumes.is_empty() {
            0..number_of_blocks
        } else {
            let last_sub_volume_end: u64 = self.sub_volumes[self.sub_volumes.len() - 1].lba_range.end;
            last_sub_volume_end..last_sub_volume_end + number_of_blocks
        }
    }

    /// The number of blocks that the sub-volumes cover together.
    fn sub_volume_blocks(&self) -> (blocks: u64)
        ensures
            blocks == block_count(self.sub_volumes()),
    {
        proof {
            use_type_invariant(self);
            if self.sub_volumes@.len() > 0 {
                lemma_block_count_is_end(self.sub_volumes@);
            }
        }
        if self.sub_volumes.is_empty() {
            0
        } else {
            self.sub_volumes[self.sub_volumes.len() - 1].lba_range.end
        }
    }

    /// Appends `block_io` as the next sub-volume. Its range starts where
    /// the last one ends and holds as many whole blocks as the backend.
    ///
    /// Fails, the volume unchanged, with `BlockSizeMismatch` where the
    /// backend's block size is not the volume's, with `GenericError` where
    /// the volume would grow past what a `u64` counts in bytes, and with
    /// the backend's own error where it does not answer.
    pub fn add_subvolume(&mut self, block_io: Box<dyn BlockIO>) -> (r: Result<(), CrucibleError>)
        ensures
            final(self).block_bytes() == old(self).block_bytes(),
            final(self).id() == old(self).id(),
            final(self).read_only_parent() == old(self).read_only_parent(),
            r is Ok ==> ({
                let first = block_count(old(self).sub_volumes());
                let blocks = block_io.cells().len() / (old(self).block_bytes() as nat);
                let added = final(self).sub_volumes().last();
                &&& block_io.profile().block_size == old(self).block_bytes()
                &&& first + blocks <= u64::MAX
                &&& (first + blocks) * old(self).block_bytes() <= u64::MAX
                &&& final(self).sub_volumes().len() == old(self).sub_volumes().len() + 1
                &&& final(self).sub_volumes().drop_last() == old(self).sub_volumes()
                &&& added.lba_range == (Range { start: first as u64, end: (first + blocks) as u64 })
                &&& added.block_io == block_io
            }),
            r is Err ==> final(self).sub_volumes() == old(self).sub_volumes(),
            block_io.profile().dependable ==> ({
                let first = block_count(old(self).sub_volumes());
                let blocks = block_io.cells().len() / (old(self).block_bytes() as nat);
                if block_io.profile().block_size != old(self).block_bytes() {
                    r == Err::<(), CrucibleError>(CrucibleError::BlockSizeMismatch)
                } else if (first + blocks) * old(self).block_bytes() > u64::MAX {
                    r matches Err(CrucibleError::GenericError(_))
                } else {
                    r is Ok
                }
            }),
    {
        let part = SubVolume { lba_range: 0..0, block_io };
        let ghost before = self.sub_volumes();
        let r = self.append(part);
        proof {
            if r is Ok {
                assert(self.sub_volumes().drop_last() =~= before);
            }
        }
        r
    }

    /// Appends the backend of `part` as the next sub-volume, as
    /// `add_subvolume` does; the range of `part` does not count.
    pub fn append(&mut self, part: SubVolume) -> (r: Result<(), CrucibleError>)
        ensures
            final(self).block_bytes() == old(self).block_bytes(),
            final(self).id() == old(self).id(),
            final(self).read_only_parent() == old(self).read_only_parent(),
            r is Ok ==> ({
                let first = block_count(old(self).sub_volumes());
                let blocks = part.block_io.cells().len() / (old(self).block_bytes() as nat);
                let added = SubVolume {
                    lba_range: Range { start: first as u64, end: (first + blocks) as u64 },
                    block_io: part.block_io,
                };
                &&& part.block_io.profile().block_size == old(self).block_bytes()
                &&& first + blocks <= u64::MAX
                &&& (first + blocks) * old(self).block_bytes() <= u64::MAX
                &&& final(self).sub_volumes() == old(self).sub_volumes().push(added)
            }),
            r is Err ==> final(self).sub_volumes() == old(self).sub_volumes(),
            part.block_io.profile().dependable ==> ({
                let first = block_count(old(self).sub_volumes());
                let blocks = part.block_io.cells().len() / (old(self).block_bytes() as nat);
                if part.block_io.profile().block_size != old(self).block_bytes() {
                    r == Err::<(), CrucibleError>(CrucibleError::BlockSizeMismatch)
                } else if (first + blocks) * old(self).block_bytes() > u64::MAX {
                    r matches Err(CrucibleError::GenericError(_))
                } else {
                    r is Ok
                }
            }),
    {
        proof {
            use_type_invariant(&*self);
        }
        let block_io = part.block_io;
        let block_size: u64 = block_io.get_block_size()?;
        if block_size != self.block_size {
            return Err(CrucibleError::BlockSizeMismatch);
        }
        let number_of_blocks: u64 = block_io.total_size()? / block_size;
        let first: u64 = self.sub_volume_blocks();
        proof {
            lemma_blocks_within(first as int, block_size as int, u64::MAX as int);
        }
        let room: u64 = u64::MAX / block_size - first;
        if number_of_blocks > room {
            proof {
                lemma_too_many_blocks(first as nat, number_of_blocks as nat, block_size);
            }
            return Err(CrucibleError::GenericError("volume too large".to_owned()));
        }
        let lba_range = self.compute_next_lba_range(number_of_blocks);
        let sub_volume = SubVolume { lba_range, block_io };
        proof {
            lemma_blocks_fit(first as nat, number_of_blocks as nat, block_size);
            lemma_whole_blocks(block_io.cells().len() as int, block_size as int);
            assert(span(sub_volume) == number_of_blocks);
            assert(number_of_blocks == block_io.cells().len() as int / block_size as int);
            assert(span(sub_volume) * block_size <= block_io.cells().len());
            lemma_push_well_formed(
                self.sub_volumes@,
                self.read_only_parent,
                self.block_size,
                sub_volume,
            );
        }
        let mut sub_volumes: Vec<SubVolume> = Vec::new();
        proof {
            lemma_no_blocks(sub_volumes@, block_size);
        }
        core::mem::swap(&mut self.sub_volumes, &mut sub_volumes);
        sub_volumes.push(sub_volume);
        core::mem::swap(&mut self.sub_volumes, &mut sub_volumes);
        proof {
            let blocks = block_io.cells().len() / (block_size as nat);
            assert(blocks == number_of_blocks);
            assert(sub_volume.lba_range == Range {
                start: first,
                end: (first + blocks) as u64,
            });
        }
        Ok(())
    }

    /// Sets `block_io` as the read-only parent, in place of any earlier
    /// one. Its range starts at block 0 and holds as many whole blocks as
    /// the backend.
    ///
    /// Fails, the volume unchanged, with `BlockSizeMismatch` where the
    /// backend's block size is not the volume's, and with the backend's own
    /// error where it does not answer.
    pub fn add_read_only_parent(&mut self, block_io: Box<dyn BlockIO>) -> (r: Result<
        (),
        CrucibleError,
    >)
        ensures
            final(self).block_bytes() == old(self).block_bytes(),
            final(self).id() == old(self).id(),
            final(self).sub_volumes() == old(self).sub_volumes(),
            r is Ok ==> ({
                let blocks = block_io.cells().len() / (old(self).block_bytes() as nat);
                &&& block_io.profile().block_size == old(self).block_bytes()
                &&& blocks <= u64::MAX
                &&& final(self).read_only_parent() matches Some(parent)
                &&& parent.lba_range == (Range { start: 0u64, end: blocks as u64 })
                &&& parent.block_io == block_io
            }),
            r is Err ==> final(self).read_only_parent() == old(self).read_only_parent(),
            block_io.profile().dependable ==> (if block_io.profile().block_size != old(
                self,
            ).block_bytes() {
                r == Err::<(), CrucibleError>(CrucibleError::BlockSizeMismatch)
            } else {
                r is Ok
            }),
    {
        let part = SubVolume { lba_range: 0..0, block_io };
        self.install(part)
    }

    /// Sets the backend of `part` as the read-only parent, as
    /// `add_read_only_parent` does; the range of `part` does not count.
    pub fn install(&mut self, part: SubVolume) -> (r: Result<
        (),
        CrucibleError,
    >)
        ensures
            final(self).block_bytes() == old(self).block_bytes(),
            final(self).id() == old(self).id(),
            final(self).sub_volumes() == old(self).sub_volumes(),
            r is Ok ==> ({
                let blocks = part.block_io.cells().len() / (old(self).block_bytes() as nat);
                let parent = SubVolume {
                    lba_range: Range { start: 0, end: blocks as u64 },
                    block_io: part.block_io,
                };
                &&& part.block_io.profile().block_size == old(self).block_bytes()
                &&& blocks <= u64::MAX
                &&& final(self).read_only_parent() == Some(parent)
            }),
            r is Err ==> final(self).read_only_parent() == old(self).read_only_parent(),
            part.block_io.profile().dependable ==> (if part.block_io.profile().block_size != old(
                self,
            ).block_bytes() {
                r == Err::<(), CrucibleError>(CrucibleError::BlockSizeMismatch)
            } else {
                r is Ok
            }),
    {
        proof {
            use_type_invariant(&*self);
        }
        let block_io = part.block_io;
        let block_size: u64 = block_io.get_block_size()?;
        if block_size != self.block_size {
            return Err(CrucibleError::BlockSizeMismatch);
        }
        let number_of_blocks: u64 = block_io.total_size()? / block_size;
        let parent = SubVolume { lba_range: 0..number_of_blocks, block_io };
        proof {
            lemma_whole_blocks(block_io.cells().len() as int, block_size as int);
            assert(span(parent) == number_of_blocks);
            assert(number_of_blocks == block_io.cells().len() as int / block_size as int);
            assert(span(parent) * block_size <= block_io.cells().len());
        }
        self.read_only_parent = Some(parent);
        Ok(())
    }

    /// A volume holds as many bytes as its blocks take, a whole number
    /// of blocks.
    pub proof fn lemma_whole(&self)
        requires
            self.wf(),
        ensures
            self.cells().len() == total_blocks(self.sub_volumes(), self.read_only_parent())
                * self.block_bytes(),
            self.cells().len() / (self.block_bytes() as nat) == total_blocks(
                self.sub_volumes(),
                self.read_only_parent(),
            ),
            self.cells().len() <= u64::MAX,
    {
        lemma_layered_len(self.sub_volumes@, self.read_only_parent, self.block_size);
        lemma_blocks_aligned(
            total_blocks(self.sub_volumes@, self.read_only_parent) as int,
            self.block_size as int,
        );
    }

    /// The volume as the backend of a sub-volume that lies yet nowhere:
    /// its range is empty, and its backend is the volume.
    pub fn into_part(self) -> (part: SubVolume)
        ensures
            part.lba_range == (Range { start: 0u64, end: 0u64 }),
            part.block_io.profile() == self.profile(),
            part.block_io.cells() == self.cells(),
            part.block_io.active() == self.active(),
            part.block_io.work() == self.work(),
            part.block_io.flushed() == self.flushed(),
    {
        let block_io: Box<dyn BlockIO> = Box::new(self);
        let part = SubVolume { lba_range: 0..0, block_io };
        part
    }

    /// Takes the read-only parent off the volume and returns it.
    pub fn remove_read_only_parent(&mut self) -> (parent: Option<SubVolume>)
        ensures
            parent == old(self).read_only_parent(),
            final(self).read_only_parent() is None,
            final(self).block_bytes() == old(self).block_bytes(),
            final(self).id() == old(self).id(),
            final(self).sub_volumes() == old(self).sub_volumes(),
    {
        proof {
            use_type_invariant(&*self);
        }
        let mut parent: Option<SubVolume> = None;
        core::mem::swap(&mut self.read_only_parent, &mut parent);
        parent
    }

    /// A volume whose one sub-volume is `guest`, whole, and whose block
    /// size and identity are the guest's.
    pub fn from_guest(guest: Box<dyn BlockIO>) -> (r: Result<Volume, CrucibleError>)
        requires
            guest.profile().block_size > 0,
        ensures
            r matches Ok(volume) ==> ({
                let blocks = guest.cells().len() / (guest.profile().block_size as nat);
                &&& volume.wf()
                &&& volume.block_bytes() == guest.profile().block_size
                &&& volume.id() == guest.profile().identity
                &&& blocks <= u64::MAX
                &&& volume.sub_volumes().len() == 1
                &&& volume.sub_volumes()[0].lba_range == (Range { start: 0u64, end: blocks as u64 })
                &&& volume.sub_volumes()[0].block_io == guest
                &&& volume.read_only_parent() is None
            }),
            guest.profile().dependable ==> r is Ok,
    {
        let part = SubVolume { lba_range: 0..0, block_io: guest };
        Volume::from_part(part)
    }

    /// A volume whose one sub-volume is the backend of `part`, whole, as
    /// `from_guest` makes it; the range of `part` does not count.
    pub fn from_part(part: SubVolume) -> (r: Result<Volume, CrucibleError>)
        requires
            part.block_io.profile().block_size > 0,
        ensures
            r matches Ok(volume) ==> ({
                let blocks = part.block_io.cells().len() / (
                part.block_io.profile().block_size as nat);
                &&& volume.wf()
                &&& volume.block_bytes() == part.block_io.profile().block_size
                &&& volume.id() == part.block_io.profile().identity
                &&& blocks <= u64::MAX
                &&& volume.sub_volumes().len() == 1
                &&& volume.sub_volumes()[0].lba_range == (Range { start: 0u64, end: blocks as u64 })
                &&& volume.sub_volumes()[0].block_io == part.block_io
                &&& volume.read_only_parent() is None
            }),
            part.block_io.profile().dependable ==> r is Ok,
    {
        let guest = part.block_io;
        let block_size: u64 = guest.get_block_size()?;
        let uuid = guest.get_uuid()?;
        let number_of_blocks: u64 = guest.total_size()? / block_size;
        let sub_volume = SubVolume { lba_range: 0..number_of_blocks, block_io: guest };
        let mut sub_volumes: Vec<SubVolume> = Vec::new();
        proof {
            lemma_no_blocks(sub_volumes@, block_size);
            lemma_whole_blocks(guest.cells().len() as int, block_size as int);
            assert(span(sub_volume) == number_of_blocks);
            assert(number_of_blocks == guest.cells().len() as int / block_size as int);
            assert(span(sub_volume) * block_size <= guest.cells().len());
            lemma_push_well_formed(sub_volumes@, None, block_size, sub_volume);
        }
        sub_volumes.push(sub_volume);
        assert(sub_volumes@ =~= seq![sub_volume]);
        Ok(
            Volume {
                uuid,
                sub_volumes,
                read_only_parent: None,
                block_size,
                flushes: Ghost(Seq::empty()),
            },
        )
    }

    /// The sub-volumes that the request `[start, start + length)`
    /// touches, in ascending order, each with the part of the request that
    /// lies in its range.
    pub fn sub_volumes_for_lba_range(&self, start: u64, length: u64) -> (touched: Vec<
        (Range<u64>, &SubVolume),
    >)
        requires
            length >= 1,
        ensures
            touched@.len() == affected(self.sub_volumes(), start, length).len(),
            forall|k: int|
                0 <= k < touched@.len() ==> entry_is(
                    #[trigger] touched@[k],
                    affected(self.sub_volumes(), start, length)[k],
                    self.sub_volumes(),
                ),
    {
        let mut sv_vec: Vec<(Range<u64>, &SubVolume)> = Vec::new();
        let mut i: usize = 0;
        while i < self.sub_volumes.len()
            invariant
                i <= self.sub_volumes@.len(),
                length >= 1,
                sv_vec@.len() == affected(self.sub_volumes@.take(i as int), start, length).len(),
                forall|k: int|
                    0 <= k < sv_vec@.len() ==> entry_is(
                        #[trigger] sv_vec@[k],
                        affected(self.sub_volumes@.take(i as int), start, length)[k],
                        self.sub_volumes@.take(i as int),
                    ),
            decreases self.sub_volumes@.len() - i,
        {
            let sub_volume = &self.sub_volumes[i];
            let covered = sub_volume.lba_range_coverage(start, length);
            let ghost earlier = sv_vec@;
            if let Some(covered) = covered {
                sv_vec.push((covered, sub_volume));
            }
            proof {
                let seen = self.sub_volumes@.take(i as int);
                let next = self.sub_volumes@.take(i + 1);
                assert(next.drop_last() =~= seen);
                assert(next.last() == self.sub_volumes@[i as int]);
                assert forall|k: int| 0 <= k < sv_vec@.len() implies entry_is(
                    #[trigger] sv_vec@[k],
                    affected(next, start, length)[k],
                    next,
                ) by {
                    if k < earlier.len() {
                        assert(entry_is(earlier[k], affected(seen, start, length)[k], seen));
                        assert(next[affected(seen, start, length)[k].1] == seen[affected(
                            seen,
                            start,
                            length,
                        )[k].1]);
                    }
                }
            }
            i = i + 1;
        }
        assert(self.sub_volumes@.take(i as int) =~= self.sub_volumes@);
        sv_vec
    }

    /// The part of the request `[start, start + length)` that the
    /// read-only parent reaches; `None` where there is no parent.
    pub fn read_only_parent_for_lba_range(&self, start: u64, length: u64) -> (covered: Option<
        Range<u64>,
    >)
        requires
            length >= 1,
        ensures
            covered == match self.read_only_parent() {
                Some(parent) => coverage(parent.lba_range, start, length),
                None => None,
            },
    {
        if let Some(ref read_only_parent) = self.read_only_parent {
            read_only_parent.lba_range_coverage(start, length)
        } else {
            None
        }
    }
}

impl Volume {
    /// The number of whole blocks in a request of `len` bytes from block
    /// `start` on, if the request is a whole number of blocks, one at
    /// least, that lie within the volume.
    fn request_blocks(&self, start: u64, len: usize) -> (r: Result<u64, CrucibleError>)
        ensures
            match r {
                Ok(blocks) => {
                    &&& blocks >= 1
                    &&& blocks == len as int / self.block_bytes() as int
                    &&& blocks * self.block_bytes() == len
                    &&& start + blocks <= total_blocks(
                        self.sub_volumes(),
                        self.read_only_parent(),
                    )
                    &&& (len as nat) % (self.block_bytes() as nat) == 0
                    &&& start * self.block_bytes() + len <= self.cells().len()
                },
                Err(e) => {
                    &&& len == 0 || (len as nat) % (self.block_bytes() as nat) != 0 || start
                        * self.block_bytes() + len > self.cells().len()
                    &&& e == (if len == 0 || (len as nat) % (self.block_bytes() as nat) != 0 {
                        CrucibleError::DataLenUnaligned
                    } else {
                        CrucibleError::OffsetInvalid
                    })
                },
            },
    {
        proof {
            use_type_invariant(self);
            lemma_layered_len(self.sub_volumes@, self.read_only_parent, self.block_size);
        }
        let ghost total = total_blocks(self.sub_volumes@, self.read_only_parent);
        let blocks_in_volume: u64 = if !self.sub_volumes.is_empty() {
            self.sub_volume_blocks()
        } else if let Some(read_only_parent) = &self.read_only_parent {
            read_only_parent.lba_range.end - read_only_parent.lba_range.start
        } else {
            0
        };
        assert(blocks_in_volume == total);
        let size: u64 = len as u64;
        if size == 0 || size % self.block_size != 0 {
            return Err(CrucibleError::DataLenUnaligned);
        }
        let blocks: u64 = size / self.block_size;
        proof {
            assert(blocks >= 1) by (nonlinear_arith)
                requires
                    size >= 1,
                    self.block_size >= 1,
                    size % self.block_size == 0,
                    blocks == size / self.block_size,
            ;
            lemma_request_fits(
                start as int,
                len as int,
                self.block_size as int,
                blocks_in_volume as int,
            );
        }
        if start > blocks_in_volume || blocks > blocks_in_volume - start {
            return Err(CrucibleError::OffsetInvalid);
        }
        Ok(blocks)
    }
}

/// A request of whole blocks lies within a volume just when its blocks
/// do.
proof fn lemma_request_fits(start: int, len: int, block_size: int, total: int)
    requires
        block_size > 0,
        start >= 0,
        len >= 0,
        total >= 0,
        len % block_size == 0,
    ensures
        (len / block_size) * block_size == len,
        len / block_size >= 0,
        start + len / block_size <= total <==> start * block_size + len <= total * block_size,
{
    let blocks = len / block_size;
    vstd::arithmetic::div_mod::lemma_fundamental_div_mod(len, block_size);
    assert(blocks * block_size == block_size * blocks) by (nonlinear_arith);
    assert(blocks >= 0) by (nonlinear_arith)
        requires
            blocks * block_size == len,
            len >= 0,
            block_size > 0,
    ;
    assert(start + blocks <= total <==> start * block_size + blocks * block_size <= total
        * block_size) by (nonlinear_arith)
        requires
            block_size > 0,
    ;
}

impl BlockIO for Volume {
    open spec fn profile(&self) -> Profile {
        Profile {
            block_size: self.block_bytes(),
            identity: self.id(),
            dependable: parts_dependable(self.sub_volumes(), self.read_only_parent())
                && exactly_fitted(self.sub_volumes(), self.block_bytes()),
            writable: parts_writable(self.sub_volumes()),
        }
    }

    open spec fn cells(&self) -> Seq<Cell> {
        layered(self.sub_volumes(), self.read_only_parent(), self.block_bytes())
    }

    open spec fn active(&self) -> bool {
        parts_active(self.sub_volumes(), self.read_only_parent())
    }

    open spec fn work(&self) -> (nat, nat) {
        parts_work(self.sub_volumes(), self.read_only_parent())
    }

    closed spec fn flushed(&self) -> Seq<Option<SnapshotDetails>> {
        self.flushes@
    }

    /// Activates every sub-volume that is not active yet and holds the
    /// size that its backend reports against its range, then activates
    /// the parent. The parts keep their ranges and what they hold, and the
    /// parent is left as it is unless every sub-volume is active and
    /// holds just the blocks of its range.
    ///
    /// Where every backend is dependable, the activation fails just when
    /// the backend of some sub-volume holds more than the blocks of its
    /// range, and then with `SubvolumeSizeMismatch`.
    fn activate(&mut self, gen: u64) -> (r: Result<(), CrucibleError>)
        ensures
            same_frame(old(self).sub_volumes(), final(self).sub_volumes()),
            final(self).read_only_parent() is Some == old(self).read_only_parent() is Some,
            final(self).read_only_parent() matches Some(p) ==> p.lba_range == old(
                self,
            ).read_only_parent().unwrap().lba_range,
            final(self).read_only_parent() != old(self).read_only_parent() ==> subs_active(
                final(self).sub_volumes(),
            ) && exactly_fitted(old(self).sub_volumes(), old(self).block_bytes()),
            parts_dependable(old(self).sub_volumes(), old(self).read_only_parent()) ==> (
            if exactly_fitted(old(self).sub_volumes(), old(self).block_bytes()) {
                r is Ok
            } else {
                r == Err::<(), CrucibleError>(CrucibleError::SubvolumeSizeMismatch)
            }),
    {
        proof {
            use_type_invariant(&*self);
        }
        let ghost before = self.sub_volumes@;
        let ghost parent_before = self.read_only_parent;
        let mut sub_volumes: Vec<SubVolume> = Vec::new();
        proof {
            lemma_no_blocks(sub_volumes@, self.block_size);
        }
        core::mem::swap(&mut self.sub_volumes, &mut sub_volumes);
        let activated = activate_parts(&mut sub_volumes, self.block_size, gen);
        proof {
            lemma_same_frame_well_formed(before, sub_volumes@, parent_before, self.block_size);
            lemma_same_cells(before, sub_volumes@, parent_before, parent_before, self.block_size);
        }
        core::mem::swap(&mut self.sub_volumes, &mut sub_volumes);
        if let Err(e) = activated {
            return Err(e);
        }
        let mut read_only_parent: Option<SubVolume> = None;
        core::mem::swap(&mut self.read_only_parent, &mut read_only_parent);
        let activated = match &mut read_only_parent {
            Some(parent) => parent.block_io.conditional_activate(gen),
            None => Ok(()),
        };
        proof {
            lemma_same_cells(
                before,
                self.sub_volumes@,
                parent_before,
                read_only_parent,
                self.block_size,
            );
            lemma_same_frame_count(before, self.sub_volumes@);
        }
        core::mem::swap(&mut self.read_only_parent, &mut read_only_parent);
        activated
    }

    /// Whether every sub-volume and the parent report themselves active;
    /// the first that does not answer ends the question with its error.
    /// Where every backend is dependable there is an answer.
    fn query_is_active(&self) -> (r: Result<bool, CrucibleError>)
        ensures
            parts_dependable(self.sub_volumes(), self.read_only_parent()) ==> r is Ok,
    {
        if !query_parts(&self.sub_volumes)? {
            return Ok(false);
        }
        if let Some(read_only_parent) = &self.read_only_parent {
            if !read_only_parent.block_io.query_is_active()? {
                return Ok(false);
            }
        }
        Ok(true)
    }

    /// The block size times the blocks of the sub-volumes, added up; of
    /// the parent, where there is no sub-volume; and zero, where there is
    /// no parent either.
    fn total_size(&self) -> (r: Result<u64, CrucibleError>)
        ensures
            r matches Ok(size) && size == self.block_bytes() * total_blocks(
                self.sub_volumes(),
                self.read_only_parent(),
            ),
    {
        proof {
            use_type_invariant(self);
            lemma_layered_len(self.sub_volumes@, self.read_only_parent, self.block_size);
            let total = total_blocks(self.sub_volumes@, self.read_only_parent) as int;
            assert(total * self.block_size == self.block_size * total) by (nonlinear_arith);
        }
        if !self.sub_volumes.is_empty() {
            let mut total_blocks: u64 = 0;
            let mut i: usize = 0;
            while i < self.sub_volumes.len()
                invariant
                    i <= self.sub_volumes@.len(),
                    stacked(self.sub_volumes@),
                    self.sub_volumes@.len() > 0,
                    total_blocks == block_count(self.sub_volumes@.take(i as int)),
                    total_blocks == end_of(self.sub_volumes@, i as int),
                decreases self.sub_volumes@.len() - i,
            {
                proof {
                    let next = self.sub_volumes@.take(i + 1);
                    assert(next.drop_last() =~= self.sub_volumes@.take(i as int));
                    assert(next.last() == self.sub_volumes@[i as int]);
                    if i > 0 {
                        let j = i - 1;
                        assert(self.sub_volumes@[i as int].lba_range.start
                            == self.sub_volumes@[j].lba_range.end);
                    }
                }
                total_blocks = total_blocks + (self.sub_volumes[i].lba_range.end
                    - self.sub_volumes[i].lba_range.start);
                i = i + 1;
            }
            assert(self.sub_volumes@.take(i as int) =~= self.sub_volumes@);
            Ok(total_blocks * self.block_size)
        } else if let Some(read_only_parent) = &self.read_only_parent {
            let total_blocks: u64 = read_only_parent.lba_range.end
                - read_only_parent.lba_range.start;
            Ok(total_blocks * self.block_size)
        } else {
            Ok(0)
        }
    }

    fn get_block_size(&self) -> (r: Result<u64, CrucibleError>)
        ensures
            r == Ok::<u64, CrucibleError>(self.block_bytes()),
    {
        Ok(self.block_size)
    }

    fn get_uuid(&self) -> (r: Result<Uuid, CrucibleError>)
        ensures
            r == Ok::<Uuid, CrucibleError>(self.id()),
    {
        Ok(self.uuid)
    }

    /// Fills `data` with what the volume holds from block `offset` on:
    /// for each block the cells of the sub-volume that holds it, or the
    /// parent's where the parent reaches the block and the sub-volume
    /// does not own it.
    ///
    /// A volume without sub-volumes and without a parent fails every read
    /// with `CannotServeBlocks`. Any other fails a read that is not a
    /// whole number of blocks, one at least, with `DataLenUnaligned`, and
    /// one that reaches past its end with `OffsetInvalid`, and in both
    /// cases leaves `data` as it is.
    fn read(&self, offset: Block, data: &mut Buffer) -> (r: Result<BlockReqWaiter, CrucibleError>)
        ensures
            self.sub_volumes().len() == 0 && self.read_only_parent() is None ==> (r matches Err(
                CrucibleError::CannotServeBlocks(_),
            )) && final(data)@ == old(data)@,
            self.sub_volumes().len() > 0 || self.read_only_parent() is Some ==> {
                if old(data)@.len() == 0 || old(data)@.len() % (self.block_bytes() as nat) != 0 {
                    r == Err::<BlockReqWaiter, CrucibleError>(CrucibleError::DataLenUnaligned)
                        && final(data)@ == old(data)@
                } else if offset.value * self.block_bytes() + old(data)@.len()
                    > self.cells().len() {
                    r == Err::<BlockReqWaiter, CrucibleError>(CrucibleError::OffsetInvalid)
                        && final(data)@ == old(data)@
                } else {
                    parts_dependable(self.sub_volumes(), self.read_only_parent()) ==> completed(r)
                }
            },
    {
        proof {
            use_type_invariant(self);
            lemma_layered_len(self.sub_volumes@, self.read_only_parent, self.block_size);
        }
        if self.sub_volumes.is_empty() && self.read_only_parent.is_none() {
            return Err(
                CrucibleError::CannotServeBlocks("No read only parent, no sub volumes!".to_owned()),
            );
        }
        let blocks: u64 = match self.request_blocks(offset.value, data.len()) {
            Ok(blocks) => blocks,
            Err(e) => {
                return Err(e);
            },
        };
        if self.sub_volumes.is_empty() {
            if let Some(read_only_parent) = &self.read_only_parent {
                proof {
                    lemma_part_bytes(
                        0,
                        offset.value as int,
                        offset.value + blocks,
                        span(*read_only_parent) as int,
                        self.block_size as int,
                    );
                    lemma_blocks_aligned(blocks as int, self.block_size as int);
                    assert(fitted(*read_only_parent, self.block_size));
                    assert(parts_dependable(self.sub_volumes@, self.read_only_parent)
                        ==> read_only_parent.block_io.profile().dependable && block_aligned(
                        self.block_size,
                        read_only_parent.block_io.cells().len(),
                        offset.value,
                        data@.len(),
                    ));
                }
                let r = read_only_parent.block_io.read(offset, data);
                proof {
                    if completed(r) {
                        let at = offset.value * self.block_size;
                        assert(data@ =~= self.cells().subrange(at, at + old(data)@.len()));
                    }
                }
                return r;
            }
        }
        read_parts(
            &self.sub_volumes,
            &self.read_only_parent,
            self.block_size,
            offset,
            blocks,
            data,
        )?;
        BlockReqWaiter::immediate()
    }

    /// Stores `data` in the volume from block `offset` on, in the
    /// sub-volumes that hold those blocks. The parent is never written.
    ///
    /// Each sub-volume that the request touches stores the part of `data`
    /// that falls in its range, at the address within it, and holds
    /// outside that part what it held; the others hold what they held.
    ///
    /// A volume without sub-volumes fails every write with
    /// `CannotReceiveBlocks`. Any other fails a write that is not a whole
    /// number of blocks, one at least, with `DataLenUnaligned`, and one
    /// that reaches past its end with `OffsetInvalid`. In all three cases
    /// the volume holds what it held.
    fn write(&mut self, offset: Block, data: &[u8]) -> (r: Result<BlockReqWaiter, CrucibleError>)
        ensures
            same_frame(old(self).sub_volumes(), final(self).sub_volumes()),
            final(self).read_only_parent() == old(self).read_only_parent(),
            forall|j: int|
                0 <= j < old(self).sub_volumes().len() ==> part_kept(
                    old(self).sub_volumes()[j],
                    #[trigger] final(self).sub_volumes()[j],
                    old(self).block_bytes(),
                    offset.value,
                    (data@.len() / (old(self).block_bytes() as nat)) as u64,
                ),
            completed(r) ==> forall|j: int|
                0 <= j < old(self).sub_volumes().len() ==> (#[trigger] final(self).sub_volumes()[j])
                    .block_io.cells() == after_write(
                    old(self).sub_volumes()[j],
                    old(self).block_bytes(),
                    offset.value,
                    (data@.len() / (old(self).block_bytes() as nat)) as u64,
                    data@,
                ),
            old(self).sub_volumes().len() == 0 ==> (r matches Err(
                CrucibleError::CannotReceiveBlocks(_),
            )) && final(self).sub_volumes() == old(self).sub_volumes(),
            old(self).sub_volumes().len() > 0 ==> {
                if data@.len() == 0 || data@.len() % (old(self).block_bytes() as nat) != 0 {
                    r == Err::<BlockReqWaiter, CrucibleError>(CrucibleError::DataLenUnaligned)
                        && final(self).sub_volumes() == old(self).sub_volumes()
                } else if offset.value * old(self).block_bytes() + data@.len() > old(
                    self,
                ).cells().len() {
                    r == Err::<BlockReqWaiter, CrucibleError>(CrucibleError::OffsetInvalid)
                        && final(self).sub_volumes() == old(self).sub_volumes()
                } else {
                    subs_dependable(old(self).sub_volumes()) && parts_writable(
                        old(self).sub_volumes(),
                    ) ==> completed(r)
                }
            },
    {
        proof {
            use_type_invariant(&*self);
            lemma_layered_len(self.sub_volumes@, self.read_only_parent, self.block_size);
        }
        proof {
            lemma_parts_untouched(
                self.sub_volumes@,
                self.block_size,
                offset.value,
                (data@.len() / (self.block_size as nat)) as u64,
            );
        }
        if self.sub_volumes.is_empty() {
            return Err(CrucibleError::CannotReceiveBlocks("No sub volumes!".to_owned()));
        }
        let blocks: u64 = match self.request_blocks(offset.value, data.len()) {
            Ok(blocks) => blocks,
            Err(e) => {
                return Err(e);
            },
        };
        let ghost before = self.sub_volumes@;
        let ghost parent = self.read_only_parent;
        let mut sub_volumes: Vec<SubVolume> = Vec::new();
        proof {
            lemma_no_blocks(sub_volumes@, self.block_size);
        }
        core::mem::swap(&mut self.sub_volumes, &mut sub_volumes);
        let written = write_parts(&mut sub_volumes, self.block_size, offset, blocks, data);
        proof {
            lemma_same_frame_well_formed(before, sub_volumes@, parent, self.block_size);
            lemma_same_frame_count(before, sub_volumes@);
            lemma_active_kept(before, sub_volumes@, parent);
            assert forall|at: int|
                0 <= at < layered(before, parent, self.block_size).len() && !(offset.value
                    * self.block_size <= at < offset.value * self.block_size
                    + data@.len()) implies #[trigger] layered(
                sub_volumes@,
                parent,
                self.block_size,
            )[at] == layered(before, parent, self.block_size)[at] by {
                lemma_part_bytes(
                    0,
                    offset.value as int,
                    offset.value + blocks,
                    offset.value + blocks,
                    self.block_size as int,
                );
                lemma_write_frame(
                    before,
                    sub_volumes@,
                    parent,
                    self.block_size,
                    offset.value,
                    blocks,
                    at,
                );
            }
            if written is Ok {
                lemma_write_layers(
                    before,
                    sub_volumes@,
                    parent,
                    self.block_size,
                    offset.value,
                    blocks,
                    data@,
                );
            }
        }
        core::mem::swap(&mut self.sub_volumes, &mut sub_volumes);
        proof {
            lemma_layered_len(self.sub_volumes@, self.read_only_parent, self.block_size);
        }
        written?;
        BlockReqWaiter::immediate()
    }

    /// Flushes every sub-volume, in order and each with
    /// `snapshot_details`, and stops at the first that fails: those
    /// before it are flushed then, and neither that one nor those after
    /// it. The parent is not flushed, and the parts hold what they held.
    fn flush(&mut self, snapshot_details: Option<SnapshotDetails>) -> (r: Result<
        BlockReqWaiter,
        CrucibleError,
    >)
        ensures
            flushed_in_order(
                old(self).sub_volumes(),
                final(self).sub_volumes(),
                completed(r),
                snapshot_details,
            ),
            final(self).read_only_parent() == old(self).read_only_parent(),
            subs_dependable(old(self).sub_volumes()) ==> completed(r),
    {
        proof {
            use_type_invariant(&*self);
        }
        let ghost before = self.sub_volumes@;
        let ghost parent = self.read_only_parent;
        let mut sub_volumes: Vec<SubVolume> = Vec::new();
        proof {
            lemma_no_blocks(sub_volumes@, self.block_size);
        }
        core::mem::swap(&mut self.sub_volumes, &mut sub_volumes);
        let flushed = flush_parts(&mut sub_volumes, &snapshot_details);
        proof {
            lemma_same_frame_well_formed(before, sub_volumes@, parent, self.block_size);
            lemma_same_cells(before, sub_volumes@, parent, parent, self.block_size);
            lemma_active_kept(before, sub_volumes@, parent);
        }
        core::mem::swap(&mut self.sub_volumes, &mut sub_volumes);
        match flushed {
            Ok(_) => {
                self.flushes = Ghost(self.flushes@.push(snapshot_details));
                BlockReqWaiter::immediate()
            },
            Err(e) => Err(e),
        }
    }

    /// The queue depths of every sub-volume and of the parent, added up;
    /// `GenericError` where a `usize` cannot hold a sum. Where every
    /// backend is dependable and a `usize` holds each sum, the sums are
    /// returned.
    fn show_work(&self) -> (r: Result<WQCounts, CrucibleError>)
        ensures
            parts_dependable(self.sub_volumes(), self.read_only_parent()) && parts_work(
                self.sub_volumes(),
                self.read_only_parent(),
            ).0 <= usize::MAX && parts_work(self.sub_volumes(), self.read_only_parent()).1
                <= usize::MAX ==> r is Ok,
    {
        let wq_counts = match work_of_parts(&self.sub_volumes) {
            Ok(wq_counts) => wq_counts,
            Err(e) => {
                return Err(e);
            },
        };
        if let Some(read_only_parent) = &self.read_only_parent {
            let sub_wq_counts = read_only_parent.block_io.show_work()?;
            return add_counts(wq_counts, sub_wq_counts);
        }
        Ok(wq_counts)
    }
}

/// Sub-volumes that are as they were hold what they held.
proof fn lemma_parts_untouched(subs: Seq<SubVolume>, block_size: u64, start: u64, blocks: u64)
    ensures
        forall|j: int|
            0 <= j < subs.len() ==> part_kept(subs[j], #[trigger] subs[j], block_size, start, blocks),
{
}

/// Sub-volumes that are each as active as before are active together as
/// before.
proof fn lemma_active_kept(before: Seq<SubVolume>, after: Seq<SubVolume>, parent: Option<SubVolume>)
    requires
        after.len() == before.len(),
        forall|j: int|
            0 <= j < before.len() ==> (#[trigger] after[j]).block_io.active()
                == before[j].block_io.active(),
    ensures
        parts_active(after, parent) == parts_active(before, parent),
{
    if subs_active(before) {
        assert forall|j: int| 0 <= j < after.len() implies (#[trigger] after[j]).block_io.active() by {
            assert(before[j].block_io.active());
        }
    }
    if subs_active(after) {
        assert forall|j: int| 0 <= j < before.len() implies (#[trigger] before[j])
            .block_io.active() by {
            assert(after[j].block_io.active());
        }
    }
}

/// Without sub-volumes there are no blocks.
proof fn lemma_no_blocks(subs: Seq<SubVolume>, block_size: u64)
    requires
        subs.len() == 0,
    ensures
        block_count(subs) == 0,
        block_count(subs) * block_size == 0,
        stacked(subs),
{
    assert(0 * block_size == 0) by (nonlinear_arith);
}

/// `blocks` more blocks than fit make the size in bytes overflow.
proof fn lemma_too_many_blocks(first: nat, blocks: nat, block_size: u64)
    requires
        block_size > 0,
        first <= u64::MAX / block_size,
        blocks > u64::MAX / block_size - first,
    ensures
        (first + blocks) * block_size > u64::MAX,
{
    let limit = (u64::MAX / block_size) as int;
    assert((limit + 1) * block_size > u64::MAX) by (nonlinear_arith)
        requires
            block_size > 0,
            limit == (u64::MAX as int) / (block_size as int),
    ;
    assert((first + blocks) * block_size >= (limit + 1) * block_size) by (nonlinear_arith)
        requires
            first + blocks >= limit + 1,
            block_size > 0,
    ;
}

/// As many blocks as take `limit` bytes at most are `limit / block_size`
/// at most.
pub proof fn lemma_blocks_within(blocks: int, block_size: int, limit: int)
    requires
        block_size > 0,
        blocks >= 0,
        blocks * block_size <= limit,
    ensures
        blocks <= limit / block_size,
{
    assert(blocks <= limit / block_size) by (nonlinear_arith)
        requires
            block_size > 0,
            blocks >= 0,
            blocks * block_size <= limit,
    ;
}

/// Blocks that fit keep the size in bytes within a `u64`.
proof fn lemma_blocks_fit(first: nat, blocks: nat, block_size: u64)
    requires
        block_size > 0,
        first + blocks <= u64::MAX / block_size,
    ensures
        (first + blocks) * block_size <= u64::MAX,
{
    let limit = (u64::MAX / block_size) as int;
    assert(limit * block_size <= u64::MAX) by (nonlinear_arith)
        requires
            block_size > 0,
            limit == (u64::MAX as int) / (block_size as int),
    ;
    assert((first + blocks) * block_size <= limit * block_size) by (nonlinear_arith)
        requires
            first + blocks <= limit,
            block_size > 0,
    ;
}

/// The whole blocks of a device take no more bytes than it has.
pub proof fn lemma_whole_blocks(size: int, block_size: int)
    requires
        block_size > 0,
        size >= 0,
    ensures
        (size / block_size) * block_size <= size,
        size / block_size >= 0,
{
    assert((size / block_size) * block_size <= size && size / block_size >= 0)
        by (nonlinear_arith)
        requires
            block_size > 0,
            size >= 0,
    ;
}

/// A fitted sub-volume that starts where the stack ends keeps the parts
/// well formed.
proof fn lemma_push_well_formed(
    subs: Seq<SubVolume>,
    parent: Option<SubVolume>,
    block_size: u64,
    sv: SubVolume,
)
    requires
        well_formed(subs, parent, block_size),
        fitted(sv, block_size),
        sv.lba_range.start == block_count(subs),
        sv.lba_range.end * block_size <= u64::MAX,
    ensures
        well_formed(subs.push(sv), parent, block_size),
        block_count(subs.push(sv)) == sv.lba_range.end,
{
    let grown = subs.push(sv);
    assert(grown.drop_last() =~= subs);
    assert(grown.last() == sv);
    if subs.len() > 0 {
        lemma_block_count_is_end(subs);
    }
    assert(block_count(grown) == block_count(subs) + span(sv));
    assert(block_count(grown) == sv.lba_range.end);
    assert forall|i: int| 0 <= i < grown.len() implies (#[trigger] grown[i]).lba_range.start
        <= grown[i].lba_range.end by {
        if i < subs.len() {
            assert(grown[i] == subs[i]);
        }
    }
    assert forall|i: int, j: int|
        #![trigger grown[i], grown[j]]
        0 <= i && j == i + 1 && j < grown.len() implies grown[j].lba_range.start
        == grown[i].lba_range.end by {
        assert(grown[i] == subs[i]);
        if j < subs.len() {
            assert(grown[j] == subs[j]);
        } else {
            assert(subs[i] == subs.last());
        }
    }
    if subs.len() > 0 {
        assert(grown[0] == subs[0]);
    }
    assert forall|i: int| 0 <= i < grown.len() implies fitted(#[trigger] grown[i], block_size) by {
        if i < subs.len() {
            assert(grown[i] == subs[i]);
        }
    }
}

} // verus!
