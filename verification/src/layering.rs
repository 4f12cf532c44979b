//! Reading through the layers of a volume: the merge of what a sub-volume
//! returned with what the read-only parent returned, and the proof that
//! the merge is what the volume holds.

use crate::block::{overlay, stored, zero_filled, Buffer, Cell};
use crate::block_io::BlockIO;
use crate::layout::{
    block_count, block_start, fitted, holder, span, layered, layered_cell, lemma_block_count_is_end,
    lemma_bytes_ordered, lemma_holder_unique, lemma_stacked_ordered, merged, parent_reaches,
    stacked, well_formed,
};
use crate::sub_volume::{coverage, SubVolume};
use std::ops::Range;
use vstd::prelude::*;

verus! {

/// A byte that lies `k` bytes into a run of whole blocks begins its block
/// where `k` does, that many blocks further on.
pub proof fn lemma_block_start_shift(blocks: int, k: int, block_size: int)
    requires
        block_size > 0,
        k >= 0,
    ensures
        block_start(blocks * block_size + k, block_size) == blocks * block_size + block_start(
            k,
            block_size,
        ),
        0 <= block_start(k, block_size) <= k,
{
    vstd::arithmetic::div_mod::lemma_mod_multiples_vanish(blocks, k, block_size);
    vstd::arithmetic::div_mod::lemma_mod_bound(k, block_size);
    vstd::arithmetic::div_mod::lemma_fundamental_div_mod(k, block_size);
    assert(blocks * block_size == block_size * blocks) by (nonlinear_arith);
    assert(block_size * (k / block_size) >= 0) by (nonlinear_arith)
        requires
            block_size > 0,
            k >= 0,
    ;
}

/// Every byte of the block that begins at `i * block_size` begins its
/// block there.
pub proof fn lemma_block_start_within(i: int, r: int, block_size: int)
    requires
        block_size > 0,
        0 <= r < block_size,
    ensures
        block_start(i * block_size + r, block_size) == i * block_size,
{
    vstd::arithmetic::div_mod::lemma_mod_multiples_vanish(i, r, block_size);
    vstd::arithmetic::div_mod::lemma_small_mod(r as nat, block_size as nat);
    assert(i * block_size == block_size * i) by (nonlinear_arith);
}

/// A run of whole blocks ends before the block `i` begins, or after it
/// ends.
pub proof fn lemma_whole_blocks_split(len: int, i: int, block_size: int)
    requires
        block_size > 0,
        len >= 0,
        len % block_size == 0,
    ensures
        len <= i * block_size || (i + 1) * block_size <= len,
        (i + 1) * block_size == i * block_size + block_size,
{
    assert((len <= i * block_size || (i + 1) * block_size <= len) && (i + 1) * block_size == i
        * block_size + block_size) by (nonlinear_arith)
        requires
            block_size > 0,
            len >= 0,
            len % block_size == 0,
    ;
}

/// Writes into `data`, from `at` on, the merge of `own` with `under`:
/// block by block, the cells of `under` where `under` reaches and `own`
/// does not own the first byte of the block, and the cells of `own`
/// elsewhere.
pub fn merge_blocks(data: &mut Buffer, at: usize, own: &Buffer, under: &Buffer, block_size: usize)
    requires
        block_size > 0,
        own@.len() % (block_size as nat) == 0,
        under@.len() % (block_size as nat) == 0,
        at + own@.len() <= old(data)@.len(),
    ensures
        final(data)@ == overlay(
            old(data)@,
            at as int,
            merged(own@, under@, block_size as int),
        ),
{
    let size: usize = own.len();
    let reach: usize = under.len();
    let limit: usize = data.len();
    let blocks: usize = size / block_size;
    let ghost whole = merged(own@, under@, block_size as int);
    assert(blocks * block_size == size) by (nonlinear_arith)
        requires
            block_size > 0,
            size % block_size == 0,
            blocks == size / block_size,
    ;
    assert(data@ =~= overlay(old(data)@, at as int, whole.take(0)));
    let mut i: usize = 0;
    while i < blocks
        invariant
            i <= blocks,
            block_size > 0,
            blocks * block_size == size,
            size == own@.len(),
            reach == under@.len(),
            reach % block_size == 0,
            whole == merged(own@, under@, block_size as int),
            at + size <= limit,
            data@.len() == limit,
            old(data)@.len() == limit,
            data@ == overlay(old(data)@, at as int, whole.take(i * block_size)),
        decreases blocks - i,
    {
        proof {
            lemma_bytes_ordered(i as int + 1, blocks as int, block_size as int);
            lemma_whole_blocks_split(reach as int, i as int, block_size as int);
        }
        let start_of_block: usize = i * block_size;
        let ghost before = data@;
        if own.get(start_of_block).1 || start_of_block >= reach {
            data.copy_from(at + start_of_block, own, start_of_block, block_size);
        } else {
            data.copy_from(at + start_of_block, under, start_of_block, block_size);
        }
        proof {
            let next = start_of_block + block_size;
            assert forall|k: int| start_of_block <= k < next implies #[trigger] whole[k] == (if
                !own@[start_of_block as int].1 && start_of_block < reach {
                under@[k]
            } else {
                own@[k]
            }) by {
                lemma_block_start_within(i as int, k - start_of_block, block_size as int);
            }
            assert(data@ =~= overlay(old(data)@, at as int, whole.take(next)));
        }
        i = i + 1;
    }
    assert(whole.take(i * block_size) =~= whole);
}

/// What the parent holds under the blocks `[covered.start, covered.end)`:
/// its cells from the first of them to where it ends or they do, and
/// nothing where it ends before they begin or there is no parent.
pub open spec fn under_part(parent: Option<SubVolume>, block_size: u64, covered: Range<u64>) -> Seq<
    Cell,
> {
    match parent {
        Some(p) => if covered.start < p.lba_range.end {
            let stop = if covered.end < p.lba_range.end {
                covered.end
            } else {
                p.lba_range.end
            };
            p.block_io.cells().subrange(covered.start * block_size, stop * block_size)
        } else {
            Seq::empty()
        },
        None => Seq::empty(),
    }
}

/// What the sub-volume `sv` holds of the blocks `[covered.start,
/// covered.end)` of the volume.
pub open spec fn own_part(sv: SubVolume, block_size: u64, covered: Range<u64>) -> Seq<Cell> {
    sv.block_io.cells().subrange(
        (covered.start - sv.lba_range.start) * block_size,
        (covered.end - sv.lba_range.start) * block_size,
    )
}

/// The bytes of a part of a range lie within the bytes of the range.
pub proof fn lemma_part_bytes(first: int, low: int, high: int, last: int, block_size: int)
    requires
        first <= low <= high <= last,
        block_size > 0,
    ensures
        first * block_size <= low * block_size <= high * block_size <= last * block_size,
        (low - first) * block_size == low * block_size - first * block_size,
        (high - first) * block_size == high * block_size - first * block_size,
        (high - low) * block_size == high * block_size - low * block_size,
        (last - first) * block_size == last * block_size - first * block_size,
{
    assert(first * block_size <= low * block_size <= high * block_size <= last * block_size
        && (low - first) * block_size == low * block_size - first * block_size && (high - first)
        * block_size == high * block_size - first * block_size && (high - low) * block_size
        == high * block_size - low * block_size && (last - first) * block_size == last
        * block_size - first * block_size) by (nonlinear_arith)
        requires
            first <= low <= high <= last,
            block_size > 0,
    ;
}

/// One cell of the merge of what a sub-volume holds of a part of its
/// range with what the parent holds under it is the cell that the volume
/// holds there.
proof fn lemma_read_cell(
    subs: Seq<SubVolume>,
    parent: Option<SubVolume>,
    block_size: u64,
    i: int,
    covered: Range<u64>,
    k: int,
)
    requires
        well_formed(subs, parent, block_size),
        0 <= i < subs.len(),
        subs[i].lba_range.start <= covered.start < covered.end <= subs[i].lba_range.end,
        0 <= k < (covered.end - covered.start) * block_size,
    ensures
        merged(
            own_part(subs[i], block_size, covered),
            under_part(parent, block_size, covered),
            block_size as int,
        )[k] == layered_cell(subs, parent, block_size, covered.start * block_size + k),
{
    let bs = block_size as int;
    let sv = subs[i];
    let first = sv.lba_range.start as int;
    let last = sv.lba_range.end as int;
    let low = covered.start as int;
    let high = covered.end as int;
    let own = sv.block_io.cells();
    let mine = own_part(sv, block_size, covered);
    let below = under_part(parent, block_size, covered);
    let at = low * bs + k;
    let local = at - first * bs;
    lemma_part_bytes(first, low, high, last, bs);
    assert(fitted(sv, block_size));
    assert(span(sv) == last - first);
    assert(mine.len() == (high - low) * bs);
    assert(holder(subs, block_size, at) == i) by {
        lemma_holder_unique(subs, block_size, i, at);
    }
    assert(local == (low - first) * bs + k);
    assert(block_start(local, bs) == (low - first) * bs + block_start(k, bs) && 0 <= block_start(
        k,
        bs,
    ) <= k) by {
        lemma_block_start_shift(low - first, k, bs);
    }
    assert(mine[block_start(k, bs)] == own[block_start(local, bs)]);
    assert(mine[k] == own[local]);
    let reached = parent_reaches(parent, block_size, at);
    assert(reached == (k < below.len()) && (reached ==> below[k]
        == parent.unwrap().block_io.cells()[at])) by {
        lemma_under_cell(parent, block_size, covered, k);
    }
}

/// The parent reaches a byte of the blocks `[covered.start, covered.end)`
/// where what it holds under them is long enough, and holds the same cell
/// there.
proof fn lemma_under_cell(parent: Option<SubVolume>, block_size: u64, covered: Range<u64>, k: int)
    requires
        block_size > 0,
        parent matches Some(p) ==> p.lba_range.start == 0 && fitted(p, block_size),
        covered.start < covered.end,
        0 <= k < (covered.end - covered.start) * block_size,
    ensures
        parent_reaches(parent, block_size, covered.start * block_size + k) == (k < under_part(
            parent,
            block_size,
            covered,
        ).len()),
        k < under_part(parent, block_size, covered).len() ==> under_part(
            parent,
            block_size,
            covered,
        )[k] == parent.unwrap().block_io.cells()[covered.start * block_size + k],
{
    let bs = block_size as int;
    let low = covered.start as int;
    let high = covered.end as int;
    lemma_part_bytes(low, low, high, high, bs);
    if let Some(p) = parent {
        let end = p.lba_range.end as int;
        assert(span(p) == end);
        if low < end {
            let stop = if high < end {
                high
            } else {
                end
            };
            lemma_part_bytes(0, low, stop, end, bs);
            lemma_part_bytes(low, stop, high, high, bs);
        } else {
            lemma_bytes_ordered(end, low, bs);
        }
    }
}

/// For the part of a request that one sub-volume serves, the merge of
/// what the sub-volume holds there with what the parent holds under it is
/// what the volume holds there.
pub proof fn lemma_read_segment(
    subs: Seq<SubVolume>,
    parent: Option<SubVolume>,
    block_size: u64,
    i: int,
    covered: Range<u64>,
)
    requires
        well_formed(subs, parent, block_size),
        0 <= i < subs.len(),
        subs[i].lba_range.start <= covered.start < covered.end <= subs[i].lba_range.end,
    ensures
        covered.start * block_size <= covered.end * block_size <= layered(
            subs,
            parent,
            block_size,
        ).len(),
        merged(
            own_part(subs[i], block_size, covered),
            under_part(parent, block_size, covered),
            block_size as int,
        ) == layered(subs, parent, block_size).subrange(
            covered.start * block_size,
            covered.end * block_size,
        ),
{
    let bs = block_size as int;
    let first = subs[i].lba_range.start as int;
    let last = subs[i].lba_range.end as int;
    let low = covered.start as int;
    let high = covered.end as int;
    let whole = layered(subs, parent, block_size);
    lemma_block_count_is_end(subs);
    lemma_stacked_ordered(subs, i, subs.len() - 1);
    lemma_part_bytes(first, low, high, last, bs);
    lemma_bytes_ordered(last, block_count(subs) as int, bs);
    assert(fitted(subs[i], block_size));
    let left = merged(
        own_part(subs[i], block_size, covered),
        under_part(parent, block_size, covered),
        bs,
    );
    let right = whole.subrange(low * bs, high * bs);
    assert(whole.len() == block_count(subs) * block_size);
    assert(left.len() == (high - low) * bs);
    assert(right.len() == (high - low) * bs);
    assert forall|k: int| 0 <= k < left.len() implies left[k] == right[k] by {
        lemma_read_cell(subs, parent, block_size, i, covered, k);
        assert(right[k] == whole[low * bs + k]);
    }
    assert(left =~= right);
}

/// What the backend of `sv` holds once the request `[start, start +
/// blocks)` has stored `data` in the volume: the part of `data` that
/// falls in the range of `sv`, every byte of it owned, where the request
/// touches the range, and what it held elsewhere.
pub open spec fn after_write(
    sv: SubVolume,
    block_size: u64,
    start: u64,
    blocks: u64,
    data: Seq<u8>,
) -> Seq<Cell> {
    match coverage(sv.lba_range, start, blocks) {
        Some(covered) => overlay(
            sv.block_io.cells(),
            (covered.start - sv.lba_range.start) * block_size,
            stored(
                data.subrange(
                    (covered.start - start) * block_size,
                    (covered.end - start) * block_size,
                ),
            ),
        ),
        None => sv.block_io.cells(),
    }
}

/// Whether the backend of a sub-volume holds after a request to store
/// into `[start, start + blocks)` what it held before, outside the part
/// of the request that falls in its range.
pub open spec fn part_kept(
    before: SubVolume,
    after: SubVolume,
    block_size: u64,
    start: u64,
    blocks: u64,
) -> bool {
    match coverage(before.lba_range, start, blocks) {
        Some(covered) => crate::block::kept_outside(
            before.block_io.cells(),
            after.block_io.cells(),
            (covered.start - before.lba_range.start) * block_size,
            (covered.end - covered.start) * block_size,
        ),
        None => after.block_io.cells() == before.block_io.cells(),
    }
}

/// Some sub-volume of a stack holds each byte below where the stack ends.
pub proof fn lemma_holder_exists(subs: Seq<SubVolume>, block_size: u64, at: int)
    requires
        stacked(subs),
        block_size > 0,
        0 <= at < block_count(subs) * block_size,
    ensures
        0 <= holder(subs, block_size, at) < subs.len(),
        subs[holder(subs, block_size, at)].lba_range.start * block_size <= at < subs[holder(
            subs,
            block_size,
            at,
        )].lba_range.end * block_size,
    decreases subs.len(),
{
    if subs.len() == 0 {
        assert(block_count(subs) * block_size == 0) by (nonlinear_arith)
            requires
                block_count(subs) == 0,
        ;
    } else {
        let n = subs.len() - 1;
        let last = subs[n];
        lemma_block_count_is_end(subs);
        assert(last.lba_range.start <= last.lba_range.end);
        if at >= last.lba_range.start * block_size {
            assert(0 <= n < subs.len() && subs[n].lba_range.start * block_size <= at
                < subs[n].lba_range.end * block_size);
        } else {
            let front = subs.take(n);
            crate::layout::lemma_stacked_front(subs, n);
            assert(front =~= subs.drop_last());
            if n == 0 {
                assert(last.lba_range.start == 0);
                assert(0 * block_size == 0) by (nonlinear_arith);
            } else {
                lemma_block_count_is_end(front);
                let before = n - 1;
                assert(front.last() == subs[before]);
                assert(subs[n].lba_range.start == subs[before].lba_range.end);
                lemma_holder_exists(front, block_size, at);
                let h = holder(front, block_size, at);
                assert(front[h] == subs[h]);
                assert(0 <= h < subs.len() && subs[h].lba_range.start * block_size <= at
                    < subs[h].lba_range.end * block_size);
            }
        }
    }
}

/// A byte at or past the start of a run of whole blocks begins its block
/// at or past that start, and one before the run begins its block before
/// it.
pub proof fn lemma_block_start_side(blocks: int, at: int, block_size: int)
    requires
        block_size > 0,
        at >= 0,
        blocks >= 0,
    ensures
        at >= blocks * block_size ==> block_start(at, block_size) >= blocks * block_size,
        at < blocks * block_size ==> block_start(at, block_size) < blocks * block_size,
        0 <= block_start(at, block_size) <= at,
{
    lemma_block_start_shift(0, at, block_size);
    if at >= blocks * block_size {
        lemma_block_start_shift(blocks, at - blocks * block_size, block_size);
    }
}

/// One cell of a volume after a write that every touched sub-volume has
/// carried out: the byte written, owned, within the request, and the cell
/// that the volume held elsewhere.
proof fn lemma_write_cell(
    before: Seq<SubVolume>,
    after: Seq<SubVolume>,
    parent: Option<SubVolume>,
    block_size: u64,
    start: u64,
    blocks: u64,
    data: Seq<u8>,
    at: int,
)
    requires
        well_formed(before, parent, block_size),
        well_formed(after, parent, block_size),
        crate::layout::same_frame(before, after),
        forall|j: int|
            0 <= j < before.len() ==> (#[trigger] after[j]).block_io.cells() == after_write(
                before[j],
                block_size,
                start,
                blocks,
                data,
            ),
        blocks >= 1,
        start + blocks <= block_count(before),
        data.len() == blocks * block_size,
        0 <= at < block_count(before) * block_size,
    ensures
        layered_cell(after, parent, block_size, at) == (if start * block_size <= at < start
            * block_size + data.len() {
            (data[at - start * block_size], true)
        } else {
            layered_cell(before, parent, block_size, at)
        }),
{
    let bs = block_size as int;
    lemma_holder_exists(before, block_size, at);
    let i = holder(before, block_size, at);
    let old_sv = before[i];
    let new_sv = after[i];
    assert(new_sv.lba_range == old_sv.lba_range);
    lemma_holder_unique(after, block_size, i, at);
    let first = old_sv.lba_range.start as int;
    let last = old_sv.lba_range.end as int;
    let local = at - first * bs;
    assert(fitted(old_sv, block_size));
    assert(span(old_sv) == last - first);
    lemma_part_bytes(first, first, last, last, bs);
    lemma_part_bytes(0, start as int, start + blocks, start + blocks, bs);
    lemma_block_start_side(0, local, bs);
    assert(new_sv.block_io.cells() == after_write(old_sv, block_size, start, blocks, data));
    let own = old_sv.block_io.cells();
    match coverage(old_sv.lba_range, start, blocks) {
        Some(covered) => {
            let low = covered.start as int;
            let high = covered.end as int;
            lemma_part_bytes(first, low, high, last, bs);
            lemma_part_bytes(start as int, low, high, start + blocks, bs);
            let piece = data.subrange((low - start) * bs, (high - start) * bs);
            assert(piece.len() == (high - low) * bs);
            lemma_block_start_side(low - first, local, bs);
            lemma_block_start_side(high - first, local, bs);
            if start * bs <= at < start * bs + data.len() {
                assert(low * bs <= at < high * bs) by {
                    if low > start {
                        assert(low == first);
                    }
                    if high < start + blocks {
                        assert(high == last);
                    }
                }
                assert(stored(piece)[local - (low - first) * bs] == (data[at - start * bs], true));
            } else {
                assert(!(low * bs <= at < high * bs));
            }
        },
        None => {
            if start * bs <= at < start * bs + data.len() {
                if last <= start {
                    lemma_bytes_ordered(last, start as int, bs);
                } else {
                    lemma_bytes_ordered(start + blocks, first, bs);
                }
            }
        },
    }
}

/// Once every sub-volume that a request touches has stored its part of
/// `data`, the volume holds `data`, every byte of it owned, where the
/// request lies, and what it held elsewhere.
pub proof fn lemma_write_layers(
    before: Seq<SubVolume>,
    after: Seq<SubVolume>,
    parent: Option<SubVolume>,
    block_size: u64,
    start: u64,
    blocks: u64,
    data: Seq<u8>,
)
    requires
        well_formed(before, parent, block_size),
        before.len() > 0,
        crate::layout::same_frame(before, after),
        forall|j: int|
            0 <= j < before.len() ==> (#[trigger] after[j]).block_io.cells() == after_write(
                before[j],
                block_size,
                start,
                blocks,
                data,
            ),
        blocks >= 1,
        start + blocks <= block_count(before),
        data.len() == blocks * block_size,
    ensures
        start * block_size + data.len() <= layered(before, parent, block_size).len(),
        layered(after, parent, block_size) == overlay(
            layered(before, parent, block_size),
            start * block_size,
            stored(data),
        ),
{
    crate::layout::lemma_same_frame_well_formed(before, after, parent, block_size);
    crate::layout::lemma_same_frame_count(before, after);
    lemma_part_bytes(
        0,
        start as int,
        start + blocks,
        block_count(before) as int,
        block_size as int,
    );
    let left = layered(after, parent, block_size);
    let right = overlay(layered(before, parent, block_size), start * block_size, stored(data));
    assert(left.len() == right.len());
    assert forall|at: int| 0 <= at < left.len() implies left[at] == right[at] by {
        lemma_write_cell(before, after, parent, block_size, start, blocks, data, at);
    }
    assert(left =~= right);
}

/// A volume holds as many bytes as its blocks take.
pub proof fn lemma_layered_len(subs: Seq<SubVolume>, parent: Option<SubVolume>, block_size: u64)
    requires
        well_formed(subs, parent, block_size),
    ensures
        layered(subs, parent, block_size).len() == crate::layout::total_blocks(subs, parent)
            * block_size,
        crate::layout::total_blocks(subs, parent) * block_size <= u64::MAX,
{
    if subs.len() == 0 {
        if let Some(p) = parent {
            assert(fitted(p, block_size));
        } else {
            assert(0 * block_size == 0) by (nonlinear_arith);
        }
    }
}

/// Parts with the same ranges that hold the same cells make a volume
/// that holds the same cells.
pub proof fn lemma_same_cells(
    before: Seq<SubVolume>,
    after: Seq<SubVolume>,
    parent_before: Option<SubVolume>,
    parent_after: Option<SubVolume>,
    block_size: u64,
)
    requires
        well_formed(before, parent_before, block_size),
        crate::layout::same_frame(before, after),
        forall|j: int|
            0 <= j < before.len() ==> (#[trigger] after[j]).block_io.cells()
                == before[j].block_io.cells(),
        parent_before is Some == parent_after is Some,
        parent_before matches Some(p) ==> {
            &&& parent_after.unwrap().lba_range == p.lba_range
            &&& parent_after.unwrap().block_io.cells() == p.block_io.cells()
        },
    ensures
        layered(after, parent_after, block_size) == layered(before, parent_before, block_size),
{
    crate::layout::lemma_same_frame_well_formed(before, after, parent_before, block_size);
    crate::layout::lemma_same_frame_count(before, after);
    let left = layered(after, parent_after, block_size);
    let right = layered(before, parent_before, block_size);
    if before.len() > 0 {
        assert(left.len() == right.len());
        assert forall|at: int| 0 <= at < left.len() implies left[at] == right[at] by {
            lemma_holder_exists(before, block_size, at);
            let i = holder(before, block_size, at);
            assert(after[i].lba_range == before[i].lba_range);
            lemma_holder_unique(after, block_size, i, at);
            assert(after[i].block_io.cells() == before[i].block_io.cells());
        }
        assert(left =~= right);
    }
}

/// No sub-volume owns any byte that it holds.
pub open spec fn nothing_owned(subs: Seq<SubVolume>) -> bool {
    forall|i: int, k: int|
        0 <= i < subs.len() && 0 <= k < subs[i].block_io.cells().len() ==> !(
        #[trigger] subs[i].block_io.cells()[k]).1
}

/// Where no sub-volume owns anything, a volume holds what its parent
/// holds, as far as the parent reaches.
pub proof fn lemma_parent_shows_through(
    subs: Seq<SubVolume>,
    parent: SubVolume,
    block_size: u64,
    at: int,
)
    requires
        well_formed(subs, Some(parent), block_size),
        nothing_owned(subs),
        0 <= at < block_count(subs) * block_size,
        at < span(parent) * block_size,
    ensures
        layered(subs, Some(parent), block_size)[at] == parent.block_io.cells()[at],
{
    lemma_holder_exists(subs, block_size, at);
    let i = holder(subs, block_size, at);
    let sv = subs[i];
    let local = at - sv.lba_range.start * block_size;
    assert(fitted(sv, block_size));
    lemma_part_bytes(
        sv.lba_range.start as int,
        sv.lba_range.start as int,
        sv.lba_range.end as int,
        sv.lba_range.end as int,
        block_size as int,
    );
    lemma_block_start_side(0, local, block_size as int);
    assert(!sv.block_io.cells()[block_start(local, block_size as int)].1);
}

/// Without a parent, a volume holds in each block what the sub-volume of
/// that block holds, owned or not.
pub proof fn lemma_without_parent(subs: Seq<SubVolume>, block_size: u64, at: int)
    requires
        well_formed(subs, None, block_size),
        0 <= at < block_count(subs) * block_size,
    ensures
        ({
            let sv = subs[holder(subs, block_size, at)];
            &&& 0 <= holder(subs, block_size, at) < subs.len()
            &&& 0 <= at - sv.lba_range.start * block_size < sv.block_io.cells().len()
            &&& layered(subs, None, block_size)[at] == sv.block_io.cells()[at
                - sv.lba_range.start * block_size]
        }),
{
    lemma_holder_exists(subs, block_size, at);
    let sv = subs[holder(subs, block_size, at)];
    assert(fitted(sv, block_size));
    lemma_part_bytes(
        sv.lba_range.start as int,
        sv.lba_range.start as int,
        sv.lba_range.end as int,
        sv.lba_range.end as int,
        block_size as int,
    );
}

/// Over a parent that shows through everywhere, a write leaves the bytes
/// written, owned, where the request lies, and what the parent holds
/// elsewhere, as far as the parent reaches.
pub proof fn lemma_write_over_parent(
    before: Seq<SubVolume>,
    after: Seq<SubVolume>,
    parent: SubVolume,
    block_size: u64,
    start: u64,
    blocks: u64,
    data: Seq<u8>,
    at: int,
)
    requires
        well_formed(before, Some(parent), block_size),
        before.len() > 0,
        nothing_owned(before),
        crate::layout::same_frame(before, after),
        forall|j: int|
            0 <= j < before.len() ==> (#[trigger] after[j]).block_io.cells() == after_write(
                before[j],
                block_size,
                start,
                blocks,
                data,
            ),
        blocks >= 1,
        start + blocks <= block_count(before),
        data.len() == blocks * block_size,
        0 <= at < block_count(before) * block_size,
        at < span(parent) * block_size,
    ensures
        layered(after, Some(parent), block_size)[at] == (if start * block_size <= at < start
            * block_size + data.len() {
            (data[at - start * block_size], true)
        } else {
            parent.block_io.cells()[at]
        }),
{
    lemma_write_layers(before, after, Some(parent), block_size, start, blocks, data);
    lemma_parent_shows_through(before, parent, block_size, at);
}

/// What was written to a volume is what a read of the same region
/// returns, whatever sub-volumes the region spans and whatever the parent
/// holds under it.
pub proof fn lemma_round_trip(
    before: Seq<SubVolume>,
    after: Seq<SubVolume>,
    parent: Option<SubVolume>,
    block_size: u64,
    start: u64,
    blocks: u64,
    data: Seq<u8>,
)
    requires
        well_formed(before, parent, block_size),
        before.len() > 0,
        crate::layout::same_frame(before, after),
        forall|j: int|
            0 <= j < before.len() ==> (#[trigger] after[j]).block_io.cells() == after_write(
                before[j],
                block_size,
                start,
                blocks,
                data,
            ),
        blocks >= 1,
        start + blocks <= block_count(before),
        data.len() == blocks * block_size,
    ensures
        crate::block::values(
            layered(after, parent, block_size).subrange(
                start * block_size,
                start * block_size + data.len(),
            ),
        ) == data,
{
    lemma_write_layers(before, after, parent, block_size, start, blocks, data);
    crate::block::lemma_read_back(layered(before, parent, block_size), start * block_size, data);
}

/// Where every sub-volume holds what it held outside its part of a
/// request, the volume holds what it held outside the request.
pub proof fn lemma_write_frame(
    before: Seq<SubVolume>,
    after: Seq<SubVolume>,
    parent: Option<SubVolume>,
    block_size: u64,
    start: u64,
    blocks: u64,
    at: int,
)
    requires
        well_formed(before, parent, block_size),
        crate::layout::same_frame(before, after),
        forall|j: int|
            0 <= j < before.len() ==> part_kept(
                before[j],
                #[trigger] after[j],
                block_size,
                start,
                blocks,
            ),
        blocks >= 1,
        start + blocks <= block_count(before),
        0 <= at < block_count(before) * block_size,
        !(start * block_size <= at < (start + blocks) * block_size),
    ensures
        layered_cell(after, parent, block_size, at) == layered_cell(
            before,
            parent,
            block_size,
            at,
        ),
{
    let bs = block_size as int;
    crate::layout::lemma_same_frame_well_formed(before, after, parent, block_size);
    lemma_holder_exists(before, block_size, at);
    let i = holder(before, block_size, at);
    let old_sv = before[i];
    let new_sv = after[i];
    assert(new_sv.lba_range == old_sv.lba_range);
    lemma_holder_unique(after, block_size, i, at);
    let first = old_sv.lba_range.start as int;
    let last = old_sv.lba_range.end as int;
    let local = at - first * bs;
    assert(fitted(old_sv, block_size));
    assert(span(old_sv) == last - first);
    lemma_part_bytes(first, first, last, last, bs);
    lemma_block_start_side(0, local, bs);
    assert(part_kept(old_sv, new_sv, block_size, start, blocks));
    if let Some(covered) = coverage(old_sv.lba_range, start, blocks) {
        let low = covered.start as int;
        let high = covered.end as int;
        lemma_part_bytes(first, low, high, last, bs);
        lemma_part_bytes(start as int, low, high, start + blocks, bs);
        lemma_block_start_side(low - first, local, bs);
        lemma_block_start_side(high - first, local, bs);
        assert(!(low * bs <= at < high * bs));
    }
}

/// Over a parent that reaches the whole of a region, a volume in which no
/// sub-volume owns anything holds in the region what the parent holds
/// there.
pub proof fn lemma_region_shows_parent(
    subs: Seq<SubVolume>,
    parent: SubVolume,
    block_size: u64,
    from: int,
    len: int,
)
    requires
        well_formed(subs, Some(parent), block_size),
        nothing_owned(subs),
        0 <= from,
        0 <= len,
        from + len <= block_count(subs) * block_size,
        from + len <= span(parent) * block_size,
    ensures
        layered(subs, Some(parent), block_size).subrange(from, from + len)
            == parent.block_io.cells().subrange(from, from + len),
{
    let left = layered(subs, Some(parent), block_size).subrange(from, from + len);
    let right = parent.block_io.cells().subrange(from, from + len);
    assert(fitted(parent, block_size));
    if len > 0 {
        assert(subs.len() > 0) by {
            if subs.len() == 0 {
                assert(block_count(subs) * block_size == 0) by (nonlinear_arith)
                    requires
                        block_count(subs) == 0,
                ;
            }
        }
    }
    assert(left.len() == right.len());
    assert forall|k: int| 0 <= k < left.len() implies left[k] == right[k] by {
        lemma_parent_shows_through(subs, parent, block_size, from + k);
    }
    assert(left =~= right);
}

/// Once the parent is gone, a volume whose sub-volumes owned nothing and
/// held zeros before a write holds the bytes written, owned, where the
/// write lay, and zeros that nobody owns elsewhere: nothing of what the
/// parent held.
pub proof fn lemma_write_then_no_parent(
    before: Seq<SubVolume>,
    after: Seq<SubVolume>,
    block_size: u64,
    start: u64,
    blocks: u64,
    data: Seq<u8>,
    at: int,
)
    requires
        well_formed(before, None, block_size),
        before.len() > 0,
        nothing_owned(before),
        forall|j: int| 0 <= j < before.len() ==> zero_filled(#[trigger] before[j].block_io.cells()),
        crate::layout::same_frame(before, after),
        forall|j: int|
            0 <= j < before.len() ==> (#[trigger] after[j]).block_io.cells() == after_write(
                before[j],
                block_size,
                start,
                blocks,
                data,
            ),
        blocks >= 1,
        start + blocks <= block_count(before),
        data.len() == blocks * block_size,
        0 <= at < block_count(before) * block_size,
    ensures
        layered(after, None, block_size)[at] == (if start * block_size <= at < start * block_size
            + data.len() {
            (data[at - start * block_size], true)
        } else {
            (0u8, false)
        }),
{
    lemma_write_layers(before, after, None, block_size, start, blocks, data);
    lemma_without_parent(before, block_size, at);
    let sv = before[holder(before, block_size, at)];
    let local = at - sv.lba_range.start * block_size;
    assert(zero_filled(sv.block_io.cells()));
    assert(!sv.block_io.cells()[local].1);
}

} // verus!
