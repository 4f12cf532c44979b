//! Requests carried to the parts of a volume: the loops over the
//! sub-volumes, each a function of the parts alone.

use crate::block::{
    completed, overlay, stored, Block, Buffer, Cell, SnapshotDetails, WQCounts,
};
use crate::block_io::{block_aligned, BlockIO};
use crate::error::CrucibleError;
use crate::layering::{
    after_write, lemma_part_bytes, lemma_read_segment, merge_blocks, own_part, part_kept,
    under_part,
};
use crate::layout::{
    block_count, exactly_fitted, fitted, flushed_in_order, flushed_upto, layered,
    lemma_block_count_is_end,
    lemma_bytes_ordered, lemma_coverage_step, reached, lemma_span_within, lemma_work_grows, merged,
    parts_dependable, parts_writable, same_frame, span, subs_active, subs_dependable,
    total_work, well_formed,
};
use crate::sub_volume::SubVolume;
use std::ops::Range;
use vstd::prelude::*;
use vstd::slice::slice_subrange;

verus! {

/// A buffer that holds the first `done` cells of a region, extended by
/// the cells that follow them, holds the first cells of the region as far
/// as the extension goes.
pub proof fn lemma_read_step(
    whole: Seq<Cell>,
    before: Seq<Cell>,
    from: int,
    done: int,
    segment: Seq<Cell>,
)
    requires
        0 <= from,
        0 <= done,
        done + segment.len() <= before.len(),
        from + done + segment.len() <= whole.len(),
        before.take(done) == whole.subrange(from, from + done),
        segment == whole.subrange(from + done, from + done + segment.len()),
    ensures
        overlay(before, done, segment).take(done + segment.len()) == whole.subrange(
            from,
            from + done + segment.len(),
        ),
{
    let after = overlay(before, done, segment).take(done + segment.len());
    let wanted = whole.subrange(from, from + done + segment.len());
    assert forall|k: int| 0 <= k < after.len() implies after[k] == wanted[k] by {
        if k < done {
            assert(before.take(done)[k] == whole.subrange(from, from + done)[k]);
        } else {
            assert(segment[k - done] == whole[from + done + (k - done)]);
        }
    }
    assert(after =~= wanted);
}

/// Whole blocks are a whole number of blocks.
pub proof fn lemma_blocks_aligned(blocks: int, block_size: int)
    requires
        block_size > 0,
        blocks >= 0,
    ensures
        (blocks * block_size) % block_size == 0,
        (blocks * block_size) / block_size == blocks,
        blocks * block_size >= 0,
{
    vstd::arithmetic::div_mod::lemma_mod_multiples_basic(blocks, block_size);
    vstd::arithmetic::div_mod::lemma_div_multiples_vanish(blocks, block_size);
    assert(blocks * block_size >= 0 && blocks * block_size == block_size * blocks)
        by (nonlinear_arith)
        requires
            block_size > 0,
            blocks >= 0,
    ;
}

/// Reads what the parent holds under the blocks `[covered.start,
/// covered.end)`, as far as it reaches them; `None` where it does not
/// reach them or there is no parent.
fn read_under(
    parent: &Option<SubVolume>,
    block_size: u64,
    covered: &Range<u64>,
    shift: u32,
    sz: usize,
) -> (r: Result<Option<Buffer>, CrucibleError>)
    requires
        block_size > 0,
        covered.start < covered.end,
        sz == (covered.end - covered.start) * block_size,
        *parent matches Some(p) ==> p.lba_range.start == 0 && fitted(p, block_size),
    ensures
        r matches Ok(Some(buffer)) ==> buffer@ == under_part(*parent, block_size, *covered)
            && buffer@.len() % (block_size as nat) == 0,
        r matches Ok(None) ==> under_part(*parent, block_size, *covered) == Seq::<Cell>::empty(),
        (*parent matches Some(p) ==> p.block_io.profile().dependable) ==> r is Ok,
{
    match parent {
        Some(read_only_parent) => {
            match read_only_parent.lba_range_coverage(covered.start, covered.end - covered.start) {
                Some(parent_coverage) => {
                    let ghost here = covered.start as int;
                    let ghost stop = parent_coverage.end as int;
                    proof {
                        lemma_part_bytes(
                            0,
                            here,
                            stop,
                            read_only_parent.lba_range.end as int,
                            block_size as int,
                        );
                        lemma_part_bytes(here, here, stop, covered.end as int, block_size as int);
                        lemma_blocks_aligned(stop - here, block_size as int);
                        assert(parent_coverage.start == covered.start);
                        assert(block_size <= (covered.end - covered.start) * block_size)
                            by (nonlinear_arith)
                            requires
                                covered.end - covered.start >= 1,
                                block_size >= 1,
                        ;
                    }
                    let parent_offset = Block::new(covered.start, shift);
                    let parent_sz: usize = (parent_coverage.end - parent_coverage.start) as usize
                        * block_size as usize;
                    let mut parent_buffer = Buffer::new(parent_sz);
                    assert(block_aligned(
                        block_size,
                        read_only_parent.block_io.cells().len(),
                        parent_offset.value,
                        parent_sz as nat,
                    ));
                    let mut waiter = read_only_parent.block_io.read(
                        parent_offset,
                        &mut parent_buffer,
                    )?;
                    waiter.block_wait()?;
                    Ok(Some(parent_buffer))
                },
                None => Ok(None),
            }
        },
        None => Ok(None),
    }
}

/// Fills `data` with what a volume of these parts holds in the `blocks`
/// blocks from `offset` on. Each sub-volume that the request touches is
/// read, in order; where the parent reaches what the sub-volume serves,
/// the parent is read too, and the two are merged block by block.
pub fn read_parts(
    subs: &Vec<SubVolume>,
    parent: &Option<SubVolume>,
    block_size: u64,
    offset: Block,
    blocks: u64,
    data: &mut Buffer,
) -> (r: Result<(), CrucibleError>)
    requires
        well_formed(subs@, *parent, block_size),
        subs@.len() > 0,
        blocks >= 1,
        old(data)@.len() == blocks * block_size,
        offset.value + blocks <= block_count(subs@),
    ensures
        final(data)@.len() == old(data)@.len(),
        r is Ok ==> final(data)@ == layered(subs@, *parent, block_size).subrange(
            offset.value * block_size,
            offset.value * block_size + old(data)@.len(),
        ),
        parts_dependable(subs@, *parent) ==> r is Ok,
{
    let ghost whole = layered(subs@, *parent, block_size);
    let ghost from = offset.value * block_size;
    let ghost len = old(data)@.len() as int;
    let size: usize = data.len();
    proof {
        lemma_block_count_is_end(subs@);
        lemma_part_bytes(
            0,
            offset.value as int,
            offset.value + blocks,
            block_count(subs@) as int,
            block_size as int,
        );
        lemma_part_bytes(0, 1, blocks as int, blocks as int, block_size as int);
        assert(blocks <= blocks * block_size) by (nonlinear_arith)
            requires
                blocks >= 1,
                block_size >= 1,
        ;
        assert(data@.take(0) =~= whole.subrange(from, from));
    }
    let mut data_index: usize = 0;
    let mut i: usize = 0;
    while i < subs.len()
        invariant
            i <= subs@.len(),
            well_formed(subs@, *parent, block_size),
            subs@.len() > 0,
            blocks >= 1,
            size == len,
            len == old(data)@.len(),
            len == blocks * block_size,
            block_size <= len,
            blocks <= len,
            from == offset.value * block_size,
            from + len <= whole.len(),
            whole == layered(subs@, *parent, block_size),
            offset.value + blocks <= block_count(subs@) <= u64::MAX,
            data@.len() == len,
            data_index == (reached(subs@, i as int, offset.value, blocks) - offset.value)
                * block_size,
            data_index <= len,
            data@.take(data_index as int) == whole.subrange(from, from + data_index),
        decreases subs@.len() - i,
    {
        let sub_volume = &subs[i];
        let covered = sub_volume.lba_range_coverage(offset.value, blocks);
        proof {
            lemma_coverage_step(subs@, i as int, offset.value, blocks);
        }
        if let Some(covered) = covered {
            let ghost here = reached(subs@, i as int, offset.value, blocks);
            let ghost there = reached(subs@, i + 1, offset.value, blocks);
            proof {
                lemma_part_bytes(
                    offset.value as int,
                    here,
                    there,
                    offset.value + blocks,
                    block_size as int,
                );
                lemma_part_bytes(
                    sub_volume.lba_range.start as int,
                    here,
                    there,
                    sub_volume.lba_range.end as int,
                    block_size as int,
                );
                lemma_read_segment(subs@, *parent, block_size, i as int, covered);
                lemma_blocks_aligned(there - here, block_size as int);
                assert(fitted(*sub_volume, block_size));
            }
            let sub_offset = Block::new(
                sub_volume.compute_sub_volume_lba(covered.start),
                offset.shift,
            );
            let sz: usize = (covered.end - covered.start) as usize * block_size as usize;
            let mut sub_buffer = Buffer::new(sz);
            assert(parts_dependable(subs@, *parent) ==> sub_volume.block_io.profile().dependable
                && block_aligned(
                block_size,
                sub_volume.block_io.cells().len(),
                sub_offset.value,
                sz as nat,
            ));
            let mut waiter = sub_volume.block_io.read(sub_offset, &mut sub_buffer)?;
            waiter.block_wait()?;
            assert(sub_buffer@ == own_part(*sub_volume, block_size, covered));
            let under = read_under(parent, block_size, &covered, offset.shift, sz)?;
            let ghost before = data@;
            match under {
                Some(parent_buffer) => {
                    merge_blocks(data, data_index, &sub_buffer, &parent_buffer, block_size as usize);
                },
                None => {
                    data.copy_from(data_index, &sub_buffer, 0, sz);
                    assert(sub_buffer@.subrange(0, sz as int) =~= merged(
                        sub_buffer@,
                        Seq::<Cell>::empty(),
                        block_size as int,
                    ));
                },
            }
            proof {
                let segment = merged(
                    own_part(*sub_volume, block_size, covered),
                    under_part(*parent, block_size, covered),
                    block_size as int,
                );
                assert(data@ == overlay(before, data_index as int, segment));
                lemma_read_step(whole, before, from, data_index as int, segment);
            }
            data_index = data_index + sz;
        }
        i = i + 1;
    }
    proof {
        assert(reached(subs@, i as int, offset.value, blocks) == offset.value + blocks);
        assert(data_index == len) by {
            lemma_part_bytes(0, 0, blocks as int, blocks as int, block_size as int);
        }
        assert(data@.take(data_index as int) =~= data@);
    }
    Ok(())
}

/// Stores `data` in the sub-volumes that the request of `blocks` blocks
/// from `offset` on touches, in order: to each the part of `data` that
/// falls in its range. Stops at the first sub-volume that fails; those
/// before it have stored their parts then.
pub fn write_parts(
    subs: &mut Vec<SubVolume>,
    block_size: u64,
    offset: Block,
    blocks: u64,
    data: &[u8],
) -> (r: Result<(), CrucibleError>)
    requires
        well_formed(old(subs)@, None, block_size),
        blocks >= 1,
        data@.len() == blocks * block_size,
        offset.value + blocks <= block_count(old(subs)@),
    ensures
        same_frame(old(subs)@, final(subs)@),
        forall|j: int|
            0 <= j < old(subs)@.len() ==> (#[trigger] final(subs)@[j]).block_io.active() == old(
                subs,
            )@[j].block_io.active(),
        forall|j: int|
            0 <= j < old(subs)@.len() ==> part_kept(
                old(subs)@[j],
                #[trigger] final(subs)@[j],
                block_size,
                offset.value,
                blocks,
            ),
        r is Ok ==> forall|j: int|
            0 <= j < old(subs)@.len() ==> (#[trigger] final(subs)@[j]).block_io.cells()
                == after_write(old(subs)@[j], block_size, offset.value, blocks, data@),
        parts_dependable(old(subs)@, None) && parts_writable(old(subs)@) ==> r is Ok,
{
    let ghost len = data@.len() as int;
    let size: usize = data.len();
    proof {
        if subs@.len() > 0 {
            lemma_block_count_is_end(subs@);
        }
        lemma_part_bytes(0, 1, blocks as int, blocks as int, block_size as int);
        assert(blocks <= blocks * block_size) by (nonlinear_arith)
            requires
                blocks >= 1,
                block_size >= 1,
        ;
    }
    let mut data_index: usize = 0;
    let mut i: usize = 0;
    while i < subs.len()
        invariant
            i <= subs@.len(),
            well_formed(old(subs)@, None, block_size),
            same_frame(old(subs)@, subs@),
            blocks >= 1,
            size == len,
            len == data@.len(),
            len == blocks * block_size,
            block_size <= len,
            blocks <= len,
            offset.value + blocks <= block_count(old(subs)@) <= u64::MAX,
            data_index == (reached(old(subs)@, i as int, offset.value, blocks) - offset.value)
                * block_size,
            data_index <= len,
            forall|j: int|
                0 <= j < subs@.len() ==> (#[trigger] subs@[j]).block_io.active() == old(
                    subs,
                )@[j].block_io.active(),
            forall|j: int|
                0 <= j < subs@.len() ==> part_kept(
                    old(subs)@[j],
                    #[trigger] subs@[j],
                    block_size,
                    offset.value,
                    blocks,
                ),
            forall|j: int|
                0 <= j < i ==> (#[trigger] subs@[j]).block_io.cells() == after_write(
                    old(subs)@[j],
                    block_size,
                    offset.value,
                    blocks,
                    data@,
                ),
            forall|j: int|
                i <= j < subs@.len() ==> (#[trigger] subs@[j]).block_io.cells() == old(
                    subs,
                )@[j].block_io.cells(),
        decreases subs@.len() - i,
    {
        let ghost earlier = subs@;
        let ghost first = old(subs)@[i as int];
        let covered = subs[i].lba_range_coverage(offset.value, blocks);
        proof {
            assert(earlier[i as int].lba_range == first.lba_range);
            assert(earlier[i as int].block_io.profile() == first.block_io.profile());
            assert(earlier[i as int].block_io.cells() == first.block_io.cells());
            lemma_coverage_step(old(subs)@, i as int, offset.value, blocks);
            assert(fitted(first, block_size));
        }
        if let Some(covered) = covered {
            let ghost here = reached(old(subs)@, i as int, offset.value, blocks);
            let ghost there = reached(old(subs)@, i + 1, offset.value, blocks);
            proof {
                lemma_part_bytes(
                    offset.value as int,
                    here,
                    there,
                    offset.value + blocks,
                    block_size as int,
                );
                lemma_part_bytes(
                    first.lba_range.start as int,
                    here,
                    there,
                    first.lba_range.end as int,
                    block_size as int,
                );
                lemma_blocks_aligned(there - here, block_size as int);
            }
            let sub_offset = Block::new(subs[i].compute_sub_volume_lba(covered.start), offset.shift);
            let sz: usize = (covered.end - covered.start) as usize * block_size as usize;
            let slice = slice_subrange(data, data_index, data_index + sz);
            assert(parts_dependable(old(subs)@, None) && parts_writable(old(subs)@)
                ==> first.block_io.profile().dependable && first.block_io.profile().writable
                && block_aligned(
                block_size,
                first.block_io.cells().len(),
                sub_offset.value,
                sz as nat,
            ));
            let mut waiter = match subs[i].block_io.write(sub_offset, slice) {
                Ok(waiter) => waiter,
                Err(e) => {
                    proof {
                        lemma_frame_kept(old(subs)@, earlier, subs@, i as int);
                    }
                    return Err(e);
                },
            };
            proof {
                lemma_frame_kept(old(subs)@, earlier, subs@, i as int);
            }
            waiter.block_wait()?;
            data_index = data_index + sz;
        }
        i = i + 1;
    }
    Ok(())
}

/// A request to the backend of sub-volume `i` that leaves its profile and
/// the number of its bytes as they were leaves the sub-volumes in the
/// frame they had.
pub proof fn lemma_frame_kept(
    first: Seq<SubVolume>,
    earlier: Seq<SubVolume>,
    later: Seq<SubVolume>,
    i: int,
)
    requires
        same_frame(first, earlier),
        0 <= i < earlier.len(),
        later.len() == earlier.len(),
        forall|j: int| 0 <= j < earlier.len() && j != i ==> #[trigger] later[j] == earlier[j],
        later[i].lba_range == earlier[i].lba_range,
        later[i].block_io.profile() == earlier[i].block_io.profile(),
        later[i].block_io.cells().len() == earlier[i].block_io.cells().len(),
    ensures
        same_frame(first, later),
{
    assert forall|j: int| 0 <= j < first.len() implies {
        &&& (#[trigger] later[j]).lba_range == first[j].lba_range
        &&& later[j].block_io.profile() == first[j].block_io.profile()
        &&& later[j].block_io.cells().len() == first[j].block_io.cells().len()
    } by {
        assert(earlier[j].lba_range == first[j].lba_range);
        if j != i {
            assert(later[j] == earlier[j]);
        }
    }
}

/// Activates every sub-volume that does not report itself active, in
/// order, and holds each against its range: a backend that reports a size
/// other than that of the range fails the activation with
/// `SubvolumeSizeMismatch`.
pub fn activate_parts(subs: &mut Vec<SubVolume>, block_size: u64, gen: u64) -> (r: Result<
    (),
    CrucibleError,
>)
    requires
        well_formed(old(subs)@, None, block_size),
    ensures
        same_frame(old(subs)@, final(subs)@),
        forall|j: int|
            0 <= j < old(subs)@.len() ==> {
                &&& (#[trigger] final(subs)@[j]).block_io.cells() == old(subs)@[j].block_io.cells()
                &&& old(subs)@[j].block_io.active() ==> final(subs)@[j].block_io.active()
            },
        r is Ok ==> subs_active(final(subs)@) && exactly_fitted(old(subs)@, block_size),
        subs_dependable(old(subs)@) ==> (if exactly_fitted(old(subs)@, block_size) {
            r is Ok
        } else {
            r == Err::<(), CrucibleError>(CrucibleError::SubvolumeSizeMismatch)
        }),
{
    let mut i: usize = 0;
    while i < subs.len()
        invariant
            i <= subs@.len(),
            well_formed(old(subs)@, None, block_size),
            same_frame(old(subs)@, subs@),
            forall|j: int|
                0 <= j < subs@.len() ==> {
                    &&& (#[trigger] subs@[j]).block_io.cells() == old(subs)@[j].block_io.cells()
                    &&& old(subs)@[j].block_io.active() ==> subs@[j].block_io.active()
                },
            forall|j: int| 0 <= j < i ==> (#[trigger] subs@[j]).block_io.active(),
            forall|j: int|
                0 <= j < i ==> span(#[trigger] old(subs)@[j]) * block_size == old(
                    subs,
                )@[j].block_io.cells().len(),
        decreases subs@.len() - i,
    {
        let ghost earlier = subs@;
        let ghost first = old(subs)@[i as int];
        proof {
            assert(earlier[i as int].lba_range == first.lba_range);
            assert(earlier[i as int].block_io.profile() == first.block_io.profile());
            assert(earlier[i as int].block_io.cells() == first.block_io.cells());
            assert(fitted(first, block_size));
            lemma_span_within(old(subs)@, i as int);
            lemma_bytes_ordered(
                span(first) as int,
                block_count(old(subs)@) as int,
                block_size as int,
            );
        }
        let activated = subs[i].block_io.conditional_activate(gen);
        proof {
            lemma_frame_kept(old(subs)@, earlier, subs@, i as int);
        }
        if let Err(e) = activated {
            return Err(e);
        }
        let sub_volume_computed_size: u64 = (subs[i].lba_range.end - subs[i].lba_range.start)
            * block_size;
        let reported: u64 = subs[i].block_io.total_size()?;
        if reported != sub_volume_computed_size {
            return Err(CrucibleError::SubvolumeSizeMismatch);
        }
        i = i + 1;
    }
    Ok(())
}

/// Whether every sub-volume reports itself active; the first that does
/// not answer ends the question with its error.
pub fn query_parts(subs: &Vec<SubVolume>) -> (r: Result<bool, CrucibleError>)
    ensures
        r matches Ok(active) ==> active == subs_active(subs@),
        subs_dependable(subs@) ==> r is Ok,
{
    let mut i: usize = 0;
    while i < subs.len()
        invariant
            i <= subs@.len(),
            forall|j: int| 0 <= j < i ==> (#[trigger] subs@[j]).block_io.active(),
        decreases subs@.len() - i,
    {
        if !subs[i].block_io.query_is_active()? {
            return Ok(false);
        }
        i = i + 1;
    }
    Ok(true)
}

/// Flushes every sub-volume, in order, each with the same details, and
/// stops at the first that fails: those before it are flushed then, and
/// neither that one nor those after it.
pub fn flush_parts(subs: &mut Vec<SubVolume>, snapshot_details: &Option<SnapshotDetails>) -> (r:
    Result<(), CrucibleError>)
    ensures
        flushed_in_order(old(subs)@, final(subs)@, r is Ok, *snapshot_details),
        subs_dependable(old(subs)@) ==> r is Ok,
{
    let mut i: usize = 0;
    while i < subs.len()
        invariant
            i <= subs@.len(),
            same_frame(old(subs)@, subs@),
            forall|j: int|
                0 <= j < subs@.len() ==> {
                    &&& (#[trigger] subs@[j]).block_io.cells() == old(subs)@[j].block_io.cells()
                    &&& subs@[j].block_io.active() == old(subs)@[j].block_io.active()
                },
            flushed_upto(old(subs)@, subs@, i as int, *snapshot_details),
        decreases subs@.len() - i,
    {
        let ghost earlier = subs@;
        let details = match snapshot_details {
            Some(details) => Some(
                SnapshotDetails { snapshot_name: details.snapshot_name.clone() },
            ),
            None => None,
        };
        assert(details == *snapshot_details);
        proof {
            assert(earlier[i as int].block_io.profile() == old(subs)@[i as int].block_io.profile());
        }
        let attempt = subs[i].block_io.flush(details);
        proof {
            lemma_frame_kept(old(subs)@, earlier, subs@, i as int);
            assert forall|j: int| 0 <= j < subs@.len() implies (#[trigger] subs@[j])
                .block_io.flushed() == (if j < i + (if completed(attempt) {
                1int
            } else {
                0int
            }) {
                old(subs)@[j].block_io.flushed().push(*snapshot_details)
            } else {
                old(subs)@[j].block_io.flushed()
            }) by {
                if j != i {
                    assert(subs@[j] == earlier[j]);
                }
            }
        }
        let mut waiter = match attempt {
            Ok(waiter) => waiter,
            Err(e) => {
                assert(flushed_upto(old(subs)@, subs@, i as int, *snapshot_details));
                return Err(e);
            },
        };
        match waiter.block_wait() {
            Ok(_) => {},
            Err(e) => {
                assert(flushed_upto(old(subs)@, subs@, i as int, *snapshot_details));
                return Err(e);
            },
        }
        i = i + 1;
    }
    Ok(())
}

/// The sum of two queue depths, or `GenericError` where a `usize` cannot
/// hold it.
pub fn add_counts(sum: WQCounts, more: WQCounts) -> (r: Result<WQCounts, CrucibleError>)
    ensures
        r matches Ok(counts) ==> counts.up_count == sum.up_count + more.up_count
            && counts.ds_count == sum.ds_count + more.ds_count,
        r is Ok <==> sum.up_count + more.up_count <= usize::MAX && sum.ds_count + more.ds_count
            <= usize::MAX,
        r matches Err(e) ==> e matches CrucibleError::GenericError(_),
{
    if more.up_count > usize::MAX - sum.up_count || more.ds_count > usize::MAX - sum.ds_count {
        return Err(CrucibleError::GenericError("queue depth too large".to_owned()));
    }
    Ok(
        WQCounts {
            up_count: sum.up_count + more.up_count,
            ds_count: sum.ds_count + more.ds_count,
        },
    )
}

/// The queue depths of the sub-volumes, added up.
pub fn work_of_parts(subs: &Vec<SubVolume>) -> (r: Result<WQCounts, CrucibleError>)
    ensures
        r matches Ok(counts) ==> (counts.up_count as nat, counts.ds_count as nat) == total_work(
            subs@,
        ),
        subs_dependable(subs@) && total_work(subs@).0 <= usize::MAX && total_work(subs@).1
            <= usize::MAX ==> r is Ok,
{
    let mut wq_counts = WQCounts { up_count: 0, ds_count: 0 };
    let mut i: usize = 0;
    while i < subs.len()
        invariant
            i <= subs@.len(),
            (wq_counts.up_count as nat, wq_counts.ds_count as nat) == total_work(
                subs@.take(i as int),
            ),
        decreases subs@.len() - i,
    {
        proof {
            assert(subs@.take(i + 1).drop_last() =~= subs@.take(i as int));
            lemma_work_grows(subs@, i + 1);
        }
        let sub_wq_counts = subs[i].block_io.show_work()?;
        wq_counts = match add_counts(wq_counts, sub_wq_counts) {
            Ok(wq_counts) => wq_counts,
            Err(e) => {
                return Err(e);
            },
        };
        i = i + 1;
    }
    assert(subs@.take(i as int) =~= subs@);
    Ok(wq_counts)
}

} // verus!
