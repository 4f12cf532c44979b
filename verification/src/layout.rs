//! How a volume's address space is made up of its sub-volumes and its
//! read-only parent, and what the volume holds as a result.

use crate::block::{Cell, SnapshotDetails};
use crate::block_io::BlockIO;
use crate::sub_volume::{coverage, SubVolume};
use std::ops::Range;
use vstd::prelude::*;

verus! {

/// The number of blocks in the range of `sv`.
pub open spec fn span(sv: SubVolume) -> nat {
    if sv.lba_range.start <= sv.lba_range.end {
        (sv.lba_range.end - sv.lba_range.start) as nat
    } else {
        0
    }
}

/// The ranges lie end to end, in order, from block 0 on.
pub open spec fn stacked(subs: Seq<SubVolume>) -> bool {
    &&& subs.len() > 0 ==> subs[0].lba_range.start == 0
    &&& forall|i: int|
        0 <= i < subs.len() ==> (#[trigger] subs[i]).lba_range.start <= subs[i].lba_range.end
    &&& forall|i: int, j: int|
        #![trigger subs[i], subs[j]]
        0 <= i && j == i + 1 && j < subs.len() ==> subs[j].lba_range.start
            == subs[i].lba_range.end
}

/// The backend of `sv` has blocks of `block_size` bytes and holds at
/// least the blocks of the range.
pub open spec fn fitted(sv: SubVolume, block_size: u64) -> bool {
    &&& sv.block_io.profile().block_size == block_size
    &&& sv.lba_range.start <= sv.lba_range.end
    &&& span(sv) * block_size <= sv.block_io.cells().len()
}

/// The sum of the lengths of the ranges, in blocks.
pub open spec fn block_count(subs: Seq<SubVolume>) -> nat
    decreases subs.len(),
{
    if subs.len() == 0 {
        0
    } else {
        block_count(subs.drop_last()) + span(subs.last())
    }
}

/// What a volume must keep true of its parts: a block size that is not
/// zero, sub-volumes laid end to end from block 0, a parent that starts at
/// block 0, each backend fitted to its range, and a size in bytes that a
/// `u64` can hold.
pub open spec fn well_formed(
    subs: Seq<SubVolume>,
    parent: Option<SubVolume>,
    block_size: u64,
) -> bool {
    &&& block_size > 0
    &&& stacked(subs)
    &&& forall|i: int| 0 <= i < subs.len() ==> fitted(#[trigger] subs[i], block_size)
    &&& block_count(subs) * block_size <= u64::MAX
    &&& parent matches Some(p) ==> {
        &&& p.lba_range.start == 0
        &&& fitted(p, block_size)
        &&& span(p) * block_size <= u64::MAX
    }
}

/// The number of blocks that a volume of these parts presents.
pub open spec fn total_blocks(subs: Seq<SubVolume>, parent: Option<SubVolume>) -> nat {
    if subs.len() > 0 {
        block_count(subs)
    } else if let Some(p) = parent {
        span(p)
    } else {
        0
    }
}

/// The index of the sub-volume whose range holds the byte `at`.
pub open spec fn holder(subs: Seq<SubVolume>, block_size: u64, at: int) -> int {
    choose|i: int|
        0 <= i < subs.len() && (#[trigger] subs[i]).lba_range.start * block_size <= at
            < subs[i].lba_range.end * block_size
}

/// Whether the parent, if there is one, reaches the byte `at`.
pub open spec fn parent_reaches(parent: Option<SubVolume>, block_size: u64, at: int) -> bool {
    parent matches Some(p) && at < p.lba_range.end * block_size
}

/// Where the block of byte `at` begins, in a device of blocks of
/// `block_size` bytes.
pub open spec fn block_start(at: int, block_size: int) -> int {
    at - at % block_size
}

/// The cell that a volume holds at byte `at`. The sub-volume whose range
/// holds the byte decides: where it owns the first byte of the byte's
/// block, or the parent does not reach that far, the cell is the
/// sub-volume's; else it is the parent's.
pub open spec fn layered_cell(
    subs: Seq<SubVolume>,
    parent: Option<SubVolume>,
    block_size: u64,
    at: int,
) -> Cell {
    let sv = subs[holder(subs, block_size, at)];
    let local = at - sv.lba_range.start * block_size;
    let own = sv.block_io.cells();
    if !own[block_start(local, block_size as int)].1 && parent_reaches(parent, block_size, at) {
        parent.unwrap().block_io.cells()[at]
    } else {
        own[local]
    }
}

/// Block by block, `under` where it reaches and `own` does not own the
/// first byte of the block, and `own` elsewhere.
pub open spec fn merged(own: Seq<Cell>, under: Seq<Cell>, block_size: int) -> Seq<Cell> {
    Seq::new(
        own.len(),
        |k: int|
            if !own[block_start(k, block_size)].1 && k < under.len() {
                under[k]
            } else {
                own[k]
            },
    )
}

/// What a volume of these parts holds. Without sub-volumes it is what the
/// parent holds in its range, and nothing where there is no parent either.
pub open spec fn layered(
    subs: Seq<SubVolume>,
    parent: Option<SubVolume>,
    block_size: u64,
) -> Seq<Cell> {
    if subs.len() > 0 {
        Seq::new(
            (block_count(subs) * block_size) as nat,
            |at: int| layered_cell(subs, parent, block_size, at),
        )
    } else if let Some(p) = parent {
        p.block_io.cells().take((span(p) * block_size) as int)
    } else {
        Seq::empty()
    }
}

/// The sub-volumes that the request `[start, start + length)` touches, in
/// order: for each the part of the request that it serves, and its index.
pub open spec fn affected(subs: Seq<SubVolume>, start: u64, length: u64) -> Seq<(Range<u64>, int)>
    decreases subs.len(),
{
    if subs.len() == 0 {
        Seq::empty()
    } else {
        let before = affected(subs.drop_last(), start, length);
        match coverage(subs.last().lba_range, start, length) {
            Some(covered) => before.push((covered, subs.len() - 1)),
            None => before,
        }
    }
}

/// Whether `entry`, a part of a request and the sub-volume that serves
/// it, is what `expected` says: that part, and the sub-volume at that
/// index of `subs`.
pub open spec fn entry_is(
    entry: (Range<u64>, &SubVolume),
    expected: (Range<u64>, int),
    subs: Seq<SubVolume>,
) -> bool {
    &&& entry.0 == expected.0
    &&& 0 <= expected.1 < subs.len()
    &&& *entry.1 == subs[expected.1]
}

/// The sum of the queue depths of the backends.
pub open spec fn total_work(subs: Seq<SubVolume>) -> (nat, nat)
    decreases subs.len(),
{
    if subs.len() == 0 {
        (0, 0)
    } else {
        let before = total_work(subs.drop_last());
        let last = subs.last().block_io.work();
        (before.0 + last.0, before.1 + last.1)
    }
}

/// The backend of every sub-volume is dependable.
pub open spec fn subs_dependable(subs: Seq<SubVolume>) -> bool {
    forall|i: int| 0 <= i < subs.len() ==> (#[trigger] subs[i]).block_io.profile().dependable
}

/// Every backend is dependable.
pub open spec fn parts_dependable(subs: Seq<SubVolume>, parent: Option<SubVolume>) -> bool {
    &&& subs_dependable(subs)
    &&& parent matches Some(p) ==> p.block_io.profile().dependable
}

/// The backend of every sub-volume holds the blocks of its range and no
/// byte more.
pub open spec fn exactly_fitted(subs: Seq<SubVolume>, block_size: u64) -> bool {
    forall|i: int|
        0 <= i < subs.len() ==> span(#[trigger] subs[i]) * block_size
            == subs[i].block_io.cells().len()
}

/// There is a sub-volume, and the backend of every sub-volume takes
/// writes.
pub open spec fn parts_writable(subs: Seq<SubVolume>) -> bool {
    &&& subs.len() > 0
    &&& forall|i: int| 0 <= i < subs.len() ==> (#[trigger] subs[i]).block_io.profile().writable
}

/// Every sub-volume is active.
pub open spec fn subs_active(subs: Seq<SubVolume>) -> bool {
    forall|i: int| 0 <= i < subs.len() ==> (#[trigger] subs[i]).block_io.active()
}

/// Every sub-volume is active, and the parent too.
pub open spec fn parts_active(subs: Seq<SubVolume>, parent: Option<SubVolume>) -> bool {
    &&& subs_active(subs)
    &&& parent matches Some(p) ==> p.block_io.active()
}

/// The sum of the queue depths of all the backends, the parent's too.
pub open spec fn parts_work(subs: Seq<SubVolume>, parent: Option<SubVolume>) -> (nat, nat) {
    let below = match parent {
        Some(p) => p.block_io.work(),
        None => (0nat, 0nat),
    };
    (total_work(subs).0 + below.0, total_work(subs).1 + below.1)
}

/// The same ranges over backends of the same profile that hold as many
/// bytes: what a request leaves of the sub-volumes.
pub open spec fn same_frame(before: Seq<SubVolume>, after: Seq<SubVolume>) -> bool {
    &&& after.len() == before.len()
    &&& forall|i: int|
        0 <= i < before.len() ==> {
            &&& (#[trigger] after[i]).lba_range == before[i].lba_range
            &&& after[i].block_io.profile() == before[i].block_io.profile()
            &&& after[i].block_io.cells().len() == before[i].block_io.cells().len()
        }
}

/// Whether the first `k` of the sub-volumes have carried out one flush
/// more than before, with `details`, and the others no more than before.
pub open spec fn flushed_upto(
    before: Seq<SubVolume>,
    after: Seq<SubVolume>,
    k: int,
    details: Option<SnapshotDetails>,
) -> bool {
    &&& after.len() == before.len()
    &&& forall|j: int|
        0 <= j < before.len() ==> (#[trigger] after[j]).block_io.flushed() == (if j < k {
            before[j].block_io.flushed().push(details)
        } else {
            before[j].block_io.flushed()
        })
}

/// Whether a flush of the sub-volumes, in order and each with `details`,
/// has left them as `after`: all of them flushed where it succeeded, and
/// where it failed those before the one that failed. In both cases they
/// hold what they held.
pub open spec fn flushed_in_order(
    before: Seq<SubVolume>,
    after: Seq<SubVolume>,
    succeeded: bool,
    details: Option<SnapshotDetails>,
) -> bool {
    &&& same_frame(before, after)
    &&& forall|j: int|
        0 <= j < before.len() ==> {
            &&& (#[trigger] after[j]).block_io.cells() == before[j].block_io.cells()
            &&& after[j].block_io.active() == before[j].block_io.active()
        }
    &&& if succeeded {
        flushed_upto(before, after, before.len() as int, details)
    } else {
        exists|k: int| 0 <= k < before.len() && #[trigger] flushed_upto(before, after, k, details)
    }
}

/// Sub-volumes of the same frame add up to as many blocks.
pub proof fn lemma_same_frame_count(before: Seq<SubVolume>, after: Seq<SubVolume>)
    requires
        same_frame(before, after),
    ensures
        block_count(after) == block_count(before),
    decreases before.len(),
{
    if before.len() > 0 {
        let n = before.len() - 1;
        assert(after[n].lba_range == before[n].lba_range);
        assert forall|i: int| 0 <= i < before.drop_last().len() implies {
            &&& (#[trigger] after.drop_last()[i]).lba_range == before.drop_last()[i].lba_range
            &&& after.drop_last()[i].block_io.profile() == before.drop_last()[i].block_io.profile()
            &&& after.drop_last()[i].block_io.cells().len()
                == before.drop_last()[i].block_io.cells().len()
        } by {
            assert(after[i].lba_range == before[i].lba_range);
        }
        lemma_same_frame_count(before.drop_last(), after.drop_last());
    }
}

/// Sub-volumes of the same frame as well-formed ones are well formed.
pub proof fn lemma_same_frame_well_formed(
    before: Seq<SubVolume>,
    after: Seq<SubVolume>,
    parent: Option<SubVolume>,
    block_size: u64,
)
    requires
        well_formed(before, parent, block_size),
        same_frame(before, after),
    ensures
        well_formed(after, parent, block_size),
        parts_dependable(after, parent) == parts_dependable(before, parent),
        exactly_fitted(after, block_size) == exactly_fitted(before, block_size),
        parts_writable(after) == parts_writable(before),
{
    lemma_same_frame_count(before, after);
    assert forall|i: int| 0 <= i < after.len() implies fitted(#[trigger] after[i], block_size) by {
        assert(after[i].lba_range == before[i].lba_range);
        assert(fitted(before[i], block_size));
    }
    assert forall|i: int| 0 <= i < after.len() implies (#[trigger] after[i]).lba_range.start
        <= after[i].lba_range.end by {
        assert(after[i].lba_range == before[i].lba_range);
        assert(fitted(before[i], block_size));
    }
    assert forall|i: int, j: int|
        #![trigger after[i], after[j]]
        0 <= i && j == i + 1 && j < after.len() implies after[j].lba_range.start
        == after[i].lba_range.end by {
        assert(after[i].lba_range == before[i].lba_range);
        assert(after[j].lba_range == before[j].lba_range);
        assert(before[j].lba_range.start == before[i].lba_range.end);
    }
    if after.len() > 0 {
        assert(after[0].lba_range == before[0].lba_range);
    }
    assert(parts_dependable(after, parent) == parts_dependable(before, parent)) by {
        if parts_dependable(before, parent) {
            assert forall|i: int| 0 <= i < after.len() implies (#[trigger] after[i])
                .block_io.profile().dependable by {
                assert(after[i].block_io.profile() == before[i].block_io.profile());
                assert(before[i].block_io.profile().dependable);
            }
        }
        if parts_dependable(after, parent) {
            assert forall|i: int| 0 <= i < before.len() implies (#[trigger] before[i])
                .block_io.profile().dependable by {
                assert(after[i].block_io.profile() == before[i].block_io.profile());
            }
        }
    }
    assert(parts_writable(after) == parts_writable(before)) by {
        if parts_writable(before) {
            assert forall|i: int| 0 <= i < after.len() implies (#[trigger] after[i])
                .block_io.profile().writable by {
                assert(after[i].block_io.profile() == before[i].block_io.profile());
                assert(before[i].block_io.profile().writable);
            }
        }
        if parts_writable(after) {
            assert forall|i: int| 0 <= i < before.len() implies (#[trigger] before[i])
                .block_io.profile().writable by {
                assert(after[i].block_io.profile() == before[i].block_io.profile());
            }
        }
    }
    assert(exactly_fitted(after, block_size) == exactly_fitted(before, block_size)) by {
        if exactly_fitted(before, block_size) {
            assert forall|i: int| 0 <= i < after.len() implies span(#[trigger] after[i])
                * block_size == after[i].block_io.cells().len() by {
                assert(after[i].lba_range == before[i].lba_range);
                assert(span(before[i]) * block_size == before[i].block_io.cells().len());
            }
        }
        if exactly_fitted(after, block_size) {
            assert forall|i: int| 0 <= i < before.len() implies span(#[trigger] before[i])
                * block_size == before[i].block_io.cells().len() by {
                assert(after[i].lba_range == before[i].lba_range);
                assert(span(after[i]) * block_size == after[i].block_io.cells().len());
            }
        }
    }
}

/// The queue depths of the first sub-volumes add up to no more than
/// those of all.
pub proof fn lemma_work_grows(subs: Seq<SubVolume>, n: int)
    requires
        0 <= n <= subs.len(),
    ensures
        total_work(subs.take(n)).0 <= total_work(subs).0,
        total_work(subs.take(n)).1 <= total_work(subs).1,
    decreases subs.len() - n,
{
    if n < subs.len() {
        lemma_work_grows(subs, n + 1);
        assert(subs.take(n + 1).drop_last() =~= subs.take(n));
    } else {
        assert(subs.take(n) =~= subs);
    }
}

/// No sub-volume of a stack has more blocks than the stack.
pub proof fn lemma_span_within(subs: Seq<SubVolume>, i: int)
    requires
        stacked(subs),
        0 <= i < subs.len(),
    ensures
        span(subs[i]) <= block_count(subs),
{
    lemma_block_count_is_end(subs);
    lemma_stacked_ordered(subs, i, subs.len() - 1);
}

/// Laid end to end from block 0, the ranges add up to where the last ends.
pub proof fn lemma_block_count_is_end(subs: Seq<SubVolume>)
    requires
        stacked(subs),
        subs.len() > 0,
    ensures
        block_count(subs) == subs.last().lba_range.end,
    decreases subs.len(),
{
    let front = subs.drop_last();
    let n = subs.len() - 1;
    assert(subs.last() == subs[n]);
    if front.len() > 0 {
        lemma_stacked_front(subs, n);
        assert(front =~= subs.take(n));
        lemma_block_count_is_end(front);
        assert(front.last() == subs[n - 1]);
    } else {
        assert(block_count(front) == 0);
    }
}

/// The first `n` sub-volumes of a stack are a stack.
pub proof fn lemma_stacked_front(subs: Seq<SubVolume>, n: int)
    requires
        stacked(subs),
        0 <= n <= subs.len(),
    ensures
        stacked(subs.take(n)),
{
    let front = subs.take(n);
    assert forall|i: int| 0 <= i < front.len() implies (#[trigger] front[i]).lba_range.start
        <= front[i].lba_range.end by {
        assert(front[i] == subs[i]);
    }
    assert forall|i: int, j: int|
        #![trigger front[i], front[j]]
        0 <= i && j == i + 1 && j < front.len() implies front[j].lba_range.start
        == front[i].lba_range.end by {
        assert(front[i] == subs[i]);
        assert(front[j] == subs[j]);
    }
    if front.len() > 0 {
        assert(front[0] == subs[0]);
    }
}

/// Where the first `i` of the sub-volumes end.
pub open spec fn end_of(subs: Seq<SubVolume>, i: int) -> int {
    if i <= 0 {
        0
    } else {
        subs[i - 1].lba_range.end as int
    }
}

/// In a stack, ranges come in ascending order.
pub proof fn lemma_stacked_ordered(subs: Seq<SubVolume>, i: int, j: int)
    requires
        stacked(subs),
        0 <= i <= j < subs.len(),
    ensures
        subs[i].lba_range.start <= subs[j].lba_range.start,
        subs[i].lba_range.end <= subs[j].lba_range.end,
        i < j ==> subs[i].lba_range.end <= subs[j].lba_range.start,
    decreases j - i,
{
    if i < j {
        lemma_stacked_ordered(subs, i, j - 1);
        let before = j - 1;
        assert(subs[j].lba_range.start == subs[before].lba_range.end);
        assert(subs[before].lba_range.start <= subs[before].lba_range.end);
    }
}

/// More blocks take more bytes.
pub proof fn lemma_bytes_ordered(low: int, high: int, block_size: int)
    requires
        low <= high,
        block_size >= 0,
    ensures
        low * block_size <= high * block_size,
{
    assert(low * block_size <= high * block_size) by (nonlinear_arith)
        requires
            low <= high,
            block_size >= 0,
    ;
}

/// In a stack, one sub-volume at most holds a given byte.
pub proof fn lemma_holder_unique(subs: Seq<SubVolume>, block_size: u64, i: int, at: int)
    requires
        stacked(subs),
        0 <= i < subs.len(),
        subs[i].lba_range.start * block_size <= at < subs[i].lba_range.end * block_size,
    ensures
        holder(subs, block_size, at) == i,
{
    let h = holder(subs, block_size, at);
    assert(0 <= h < subs.len() && subs[h].lba_range.start * block_size <= at
        < subs[h].lba_range.end * block_size);
    if h < i {
        lemma_stacked_ordered(subs, h, i);
        lemma_bytes_ordered(
            subs[h].lba_range.end as int,
            subs[i].lba_range.start as int,
            block_size as int,
        );
    } else if i < h {
        lemma_stacked_ordered(subs, i, h);
        lemma_bytes_ordered(
            subs[i].lba_range.end as int,
            subs[h].lba_range.start as int,
            block_size as int,
        );
    }
}

/// How far, in blocks, the first `i` sub-volumes carry the request
/// `[start, start + blocks)`: from `start`, where they end before it, to
/// its end, where they reach past it.
pub open spec fn reached(subs: Seq<SubVolume>, i: int, start: u64, blocks: u64) -> int {
    let end = end_of(subs, i);
    if end < start {
        start as int
    } else if end > start + blocks {
        start + blocks
    } else {
        end
    }
}

/// The part of a request that a sub-volume of a stack serves begins where
/// the sub-volumes before it have carried the request, and ends where it
/// carries the request itself.
pub proof fn lemma_coverage_step(subs: Seq<SubVolume>, i: int, start: u64, blocks: u64)
    requires
        stacked(subs),
        0 <= i < subs.len(),
        blocks >= 1,
        start + blocks <= u64::MAX,
    ensures
        match coverage(subs[i].lba_range, start, blocks) {
            Some(covered) => {
                &&& covered.start == reached(subs, i, start, blocks)
                &&& covered.end == reached(subs, i + 1, start, blocks)
                &&& subs[i].lba_range.start <= covered.start < covered.end
                    <= subs[i].lba_range.end
            },
            None => reached(subs, i + 1, start, blocks) == reached(subs, i, start, blocks),
        },
{
    assert(subs[i].lba_range.start <= subs[i].lba_range.end);
    if i > 0 {
        let before = i - 1;
        assert(subs[i].lba_range.start == subs[before].lba_range.end);
    }
}

/// The parts of a request that the sub-volumes of a stack serve follow
/// one another without gap or overlap from where the request begins: the
/// first part begins there, each next part begins where the one before
/// ends, and the last ends where the sub-volumes carry the request, which
/// is its end where the request lies within the stack.
pub proof fn lemma_affected_partitions(subs: Seq<SubVolume>, start: u64, blocks: u64)
    requires
        stacked(subs),
        blocks >= 1,
        start + blocks <= u64::MAX,
    ensures
        ({
            let parts = affected(subs, start, blocks);
            &&& parts.len() <= subs.len()
            &&& forall|k: int|
                0 <= k < parts.len() ==> {
                    &&& 0 <= (#[trigger] parts[k]).1 < subs.len()
                    &&& coverage(subs[parts[k].1].lba_range, start, blocks) == Some(parts[k].0)
                    &&& parts[k].0.start < parts[k].0.end
                    &&& parts[k].0.start == (if k == 0 {
                        start
                    } else {
                        parts[k - 1].0.end
                    })
                }
            &&& forall|k: int, l: int|
                0 <= k < l < parts.len() ==> (#[trigger] parts[k]).1 < (#[trigger] parts[l]).1
            &&& reached(subs, subs.len() as int, start, blocks) == (if parts.len() == 0 {
                start
            } else {
                parts.last().0.end
            })
            &&& start + blocks <= block_count(subs) ==> parts.len() > 0 && parts.last().0.end
                == start + blocks
        }),
    decreases subs.len(),
{
    let parts = affected(subs, start, blocks);
    if subs.len() > 0 {
        let n = subs.len() - 1;
        let front = subs.drop_last();
        lemma_stacked_front(subs, n);
        assert(front =~= subs.take(n));
        lemma_affected_partitions(front, start, blocks);
        lemma_coverage_step(subs, n, start, blocks);
        lemma_block_count_is_end(subs);
        let before = affected(front, start, blocks);
        assert(reached(front, n, start, blocks) == reached(subs, n, start, blocks)) by {
            if n > 0 {
                assert(front[n - 1] == subs[n - 1]);
            }
        }
        assert forall|k: int| 0 <= k < before.len() implies subs[before[k].1] == front[before[k].1] by {}
        match coverage(subs.last().lba_range, start, blocks) {
            Some(covered) => {
                assert(parts == before.push((covered, n)));
                assert forall|k: int| 0 <= k < parts.len() implies {
                    &&& 0 <= (#[trigger] parts[k]).1 < subs.len()
                    &&& coverage(subs[parts[k].1].lba_range, start, blocks) == Some(parts[k].0)
                    &&& parts[k].0.start < parts[k].0.end
                    &&& parts[k].0.start == (if k == 0 {
                        start
                    } else {
                        parts[k - 1].0.end
                    })
                } by {
                    if k < before.len() {
                        assert(parts[k] == before[k]);
                        if k > 0 {
                            assert(parts[k - 1] == before[k - 1]);
                        }
                    } else if k > 0 {
                        assert(parts[k - 1] == before.last());
                    }
                }
                assert forall|k: int, l: int| 0 <= k < l < parts.len() implies (#[trigger] parts[k]).1
                    < (#[trigger] parts[l]).1 by {
                    assert(parts[k] == before[k]);
                    if l < before.len() {
                        assert(parts[l] == before[l]);
                    }
                }
            },
            None => {
                assert(parts == before);
            },
        }
    } else {
        assert(block_count(subs) == 0);
    }
}

/// A request for all the blocks of a stack of sub-volumes, none of them
/// empty, touches every sub-volume, in order, each in the whole of its
/// range.
pub proof fn lemma_whole_request_touches_all(subs: Seq<SubVolume>)
    requires
        stacked(subs),
        subs.len() > 0,
        forall|i: int| 0 <= i < subs.len() ==> span(#[trigger] subs[i]) > 0,
        block_count(subs) <= u64::MAX,
    ensures
        affected(subs, 0, block_count(subs) as u64).len() == subs.len(),
        forall|i: int|
            0 <= i < subs.len() ==> (#[trigger] affected(subs, 0, block_count(subs) as u64)[i])
                == (subs[i].lba_range, i),
{
    lemma_whole_prefix(subs, subs.len() as int, block_count(subs) as u64);
    assert(subs.take(subs.len() as int) =~= subs);
}

/// A request from block 0 that reaches the end of a stack touches each of
/// the first `n` sub-volumes, none of them empty, in the whole of its
/// range.
proof fn lemma_whole_prefix(subs: Seq<SubVolume>, n: int, blocks: u64)
    requires
        stacked(subs),
        0 <= n <= subs.len(),
        forall|i: int| 0 <= i < subs.len() ==> span(#[trigger] subs[i]) > 0,
        blocks >= block_count(subs),
        blocks >= 1,
    ensures
        affected(subs.take(n), 0, blocks).len() == n,
        forall|i: int|
            0 <= i < n ==> (#[trigger] affected(subs.take(n), 0, blocks)[i]) == (
                subs[i].lba_range,
                i,
            ),
    decreases n,
{
    if n > 0 {
        lemma_whole_prefix(subs, n - 1, blocks);
        let here = subs.take(n);
        assert(here.drop_last() =~= subs.take(n - 1));
        assert(here.last() == subs[n - 1]);
        lemma_block_count_is_end(subs);
        lemma_stacked_ordered(subs, n - 1, subs.len() - 1);
        assert(span(subs[n - 1]) > 0);
        let range = subs[n - 1].lba_range;
        assert(coverage(range, 0, blocks) == Some(range));
        let before = affected(subs.take(n - 1), 0, blocks);
        assert(affected(here, 0, blocks) == before.push((range, n - 1)));
        assert forall|i: int| 0 <= i < n implies (#[trigger] affected(here, 0, blocks)[i]) == (
            subs[i].lba_range,
            i,
        ) by {
            if i < n - 1 {
                assert(affected(here, 0, blocks)[i] == before[i]);
            }
        }
    }
}

} // verus!
