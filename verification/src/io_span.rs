//! Requests in bytes against a device that works in blocks: the blocks
//! that a span of bytes touches, and the bytes of the span within them.

use crate::block::{
    completed, kept_outside, overlay, patched, stored, values, blank, Block, BlockReqWaiter,
    Buffer, Cell,
};
use crate::block_io::{block_aligned, BlockIO};
use crate::error::CrucibleError;
use vstd::prelude::*;

verus! {

/// The first block that the bytes from `offset` on touch.
pub open spec fn first_block(offset: u64, block_size: u64) -> int {
    offset as int / block_size as int
}

/// The number of blocks that the `sz` bytes from `offset` on touch.
pub open spec fn blocks_touched(offset: u64, sz: u64, block_size: u64) -> int {
    (offset + sz - 1) / (block_size as int) - offset as int / block_size as int + 1
}

/// A span of bytes on a device of blocks, with a buffer for the blocks
/// that the span touches.
pub struct IOSpan {
    block_size: u64,
    offset: u64,
    sz: u64,
    phase: u64,
    buffer: Buffer,
    affected_block_numbers: Vec<u64>,
}

impl IOSpan {
    /// The size of a block, in bytes.
    pub closed spec fn block_bytes(&self) -> u64 {
        self.block_size
    }

    /// Where the span begins, in bytes.
    pub closed spec fn offset(&self) -> u64 {
        self.offset
    }

    /// The length of the span, in bytes.
    pub closed spec fn len(&self) -> u64 {
        self.sz
    }

    /// The cells of the blocks that the span touches, as far as they
    /// were read or patched.
    pub closed spec fn buffer(&self) -> Seq<Cell> {
        self.buffer@
    }

    /// What every span keeps true: a block size and a length that are
    /// not zero, and a buffer for just the blocks that the span touches.
    pub closed spec fn wf(&self) -> bool {
        &&& self.block_size > 0
        &&& self.sz >= 1
        &&& self.offset + self.sz <= u64::MAX
        &&& self.phase == self.offset % self.block_size
        &&& self.affected_block_numbers@.len() == blocks_touched(
            self.offset,
            self.sz,
            self.block_size,
        )
        &&& forall|k: int|
            0 <= k < self.affected_block_numbers@.len() ==> #[trigger] self.affected_block_numbers@[k]
                == first_block(self.offset, self.block_size) + k
        &&& self.buffer@.len() == self.affected_block_numbers@.len() * self.block_size
    }

    /// The span of the `sz` bytes from `offset` on, over blocks of
    /// `block_size` bytes, with a buffer of zero bytes, none owned.
    pub fn new(offset: u64, sz: u64, block_size: u64) -> (span: IOSpan)
        requires
            block_size > 0,
            sz >= 1,
            offset + sz <= u64::MAX,
            blocks_touched(offset, sz, block_size) * block_size <= usize::MAX,
        ensures
            span.wf(),
            span.block_bytes() == block_size,
            span.offset() == offset,
            span.len() == sz,
            span.buffer() == blank((blocks_touched(offset, sz, block_size) * block_size) as nat),
    {
        proof {
            lemma_span_geometry(offset as int, sz as int, block_size as int);
        }
        let start_block: u64 = offset / block_size;
        let end_block: u64 = (offset + sz - 1) / block_size;
        let count: u64 = end_block - start_block + 1;
        assert(count <= count * block_size) by (nonlinear_arith)
            requires
                count >= 1,
                block_size >= 1,
        ;
        let mut affected_block_numbers: Vec<u64> = Vec::new();
        let mut block: u64 = start_block;
        while block <= end_block
            invariant
                start_block <= block <= end_block + 1,
                end_block < u64::MAX,
                affected_block_numbers@.len() == block - start_block,
                forall|k: int|
                    0 <= k < affected_block_numbers@.len() ==> #[trigger] affected_block_numbers@[k]
                        == start_block + k,
            decreases end_block + 1 - block,
        {
            affected_block_numbers.push(block);
            block = block + 1;
        }
        let size: usize = affected_block_numbers.len() * block_size as usize;
        IOSpan {
            block_size,
            offset,
            sz,
            phase: offset % block_size,
            buffer: Buffer::new(size),
            affected_block_numbers,
        }
    }

    /// Whether the span begins at the start of a block and is a whole
    /// number of blocks long.
    pub fn is_block_regular(&self) -> (regular: bool)
        requires
            self.wf(),
        ensures
            regular == (self.offset() % self.block_bytes() == 0 && self.len()
                % self.block_bytes() == 0),
    {
        let is_block_aligned = (self.offset % self.block_size) == 0;
        let is_block_sized = (self.sz % self.block_size) == 0;
        is_block_aligned && is_block_sized
    }

    /// The number of blocks that the span touches.
    pub fn affected_block_count(&self) -> (count: usize)
        requires
            self.wf(),
        ensures
            count == blocks_touched(self.offset(), self.len(), self.block_bytes()),
    {
        self.affected_block_numbers.len()
    }

    /// Reads the blocks that the span touches from `block_io` into the
    /// buffer.
    pub fn read_affected_blocks_from_volume<T: BlockIO + ?Sized>(&mut self, block_io: &T) -> (r:
        Result<BlockReqWaiter, CrucibleError>)
        requires
            old(self).wf(),
        ensures
            final(self).wf(),
            final(self).block_bytes() == old(self).block_bytes(),
            final(self).offset() == old(self).offset(),
            final(self).len() == old(self).len(),
            completed(r) ==> {
                let at = first_block(old(self).offset(), old(self).block_bytes())
                    * block_io.profile().block_size;
                &&& at + old(self).buffer().len() <= block_io.cells().len()
                &&& final(self).buffer() == block_io.cells().subrange(
                    at,
                    at + old(self).buffer().len(),
                )
            },
            block_io.profile().dependable && block_aligned(
                block_io.profile().block_size,
                block_io.cells().len(),
                first_block(old(self).offset(), old(self).block_bytes()) as u64,
                old(self).buffer().len(),
            ) ==> completed(r),
    {
        proof {
            lemma_span_geometry(self.offset as int, self.sz as int, self.block_size as int);
        }
        block_io.read(
            Block::new(self.affected_block_numbers[0], self.block_size.trailing_zeros()),
            &mut self.buffer,
        )
    }

    /// Writes the buffer to `block_io`, over the blocks that the span
    /// touches.
    pub fn write_affected_blocks_to_volume<T: BlockIO + ?Sized>(self, block_io: &mut T) -> (r:
        Result<BlockReqWaiter, CrucibleError>)
        requires
            self.wf(),
        ensures
            final(block_io).profile() == old(block_io).profile(),
            final(block_io).active() == old(block_io).active(),
            kept_outside(
                old(block_io).cells(),
                final(block_io).cells(),
                first_block(self.offset(), self.block_bytes()) * old(
                    block_io,
                ).profile().block_size,
                self.buffer().len() as int,
            ),
            completed(r) ==> {
                let at = first_block(self.offset(), self.block_bytes()) * old(
                    block_io,
                ).profile().block_size;
                &&& at + self.buffer().len() <= old(block_io).cells().len()
                &&& final(block_io).cells() == overlay(
                    old(block_io).cells(),
                    at,
                    stored(values(self.buffer())),
                )
            },
            old(block_io).profile().dependable && old(block_io).profile().writable
                && block_aligned(
                old(block_io).profile().block_size,
                old(block_io).cells().len(),
                first_block(self.offset(), self.block_bytes()) as u64,
                self.buffer().len(),
            ) ==> completed(r),
    {
        proof {
            lemma_span_geometry(self.offset as int, self.sz as int, self.block_size as int);
            assert(values(self.buffer@).len() == self.buffer@.len());
        }
        block_io.write(
            Block::new(self.affected_block_numbers[0], self.block_size.trailing_zeros()),
            self.buffer.as_vec().as_slice(),
        )
    }

    /// Copies the bytes of the span out of the buffer into `data`.
    pub fn read_from_blocks_into_buffer(&self, data: &mut [u8])
        requires
            self.wf(),
            old(data)@.len() == self.len(),
        ensures
            final(data)@ == values(self.buffer()).subrange(
                (self.offset() % self.block_bytes()) as int,
                self.offset() % self.block_bytes() + self.len(),
            ),
    {
        proof {
            lemma_span_geometry(self.offset as int, self.sz as int, self.block_size as int);
        }
        let count: usize = data.len();
        let limit: usize = self.buffer.len();
        let phase: usize = self.phase as usize;
        let mut i: usize = 0;
        while i < count
            invariant
                i <= count,
                count == self.sz,
                data@.len() == count,
                phase == self.phase,
                phase + count <= self.buffer@.len() == limit,
                forall|k: int| 0 <= k < i ==> #[trigger] data@[k] == self.buffer@[phase + k].0,
            decreases count - i,
        {
            let cell = self.buffer.get(phase + i);
            data[i] = cell.0;
            i = i + 1;
        }
        assert(data@ =~= values(self.buffer@).subrange(phase as int, phase + count));
    }

    /// Puts `data` into the buffer where the span lies; the ownership
    /// flags of the buffer stay as they are.
    pub fn write_from_buffer_into_blocks(&mut self, data: &[u8])
        requires
            old(self).wf(),
            data@.len() == old(self).len(),
        ensures
            final(self).wf(),
            final(self).block_bytes() == old(self).block_bytes(),
            final(self).offset() == old(self).offset(),
            final(self).len() == old(self).len(),
            final(self).buffer() == patched(
                old(self).buffer(),
                (old(self).offset() % old(self).block_bytes()) as int,
                data@,
            ),
    {
        proof {
            lemma_span_geometry(self.offset as int, self.sz as int, self.block_size as int);
        }
        let count: usize = data.len();
        let limit: usize = self.buffer.len();
        let phase: usize = self.phase as usize;
        let mut i: usize = 0;
        while i < count
            invariant
                i <= count,
                count == data@.len(),
                self.wf(),
                self.block_size == old(self).block_size,
                self.offset == old(self).offset,
                self.sz == old(self).sz,
                self.phase == old(self).phase,
                phase == self.phase,
                phase + count <= self.buffer@.len() == limit,
                self.buffer@ == patched(old(self).buffer@, phase as int, data@.take(i as int)),
            decreases count - i,
        {
            self.buffer.set_value(phase + i, data[i]);
            i = i + 1;
            assert(self.buffer@ =~= patched(old(self).buffer@, phase as int, data@.take(i as int)));
        }
        assert(data@.take(i as int) =~= data@);
    }
}

/// A span of bytes begins in its first block, and lies within the blocks
/// that it touches.
pub proof fn lemma_span_geometry(offset: int, sz: int, block_size: int)
    requires
        block_size > 0,
        sz >= 1,
        offset >= 0,
    ensures
        ({
            let first = offset / block_size;
            let last = (offset + sz - 1) / block_size;
            let phase = offset % block_size;
            &&& 0 <= first <= last
            &&& 0 <= phase < block_size
            &&& offset == first * block_size + phase
            &&& phase + sz <= (last - first + 1) * block_size
            &&& (last - first + 1) * block_size >= block_size
            &&& ((last - first + 1) * block_size) % block_size == 0
            &&& first * block_size + (last - first + 1) * block_size == (last + 1) * block_size
            &&& (sz % block_size == 0 && phase == 0) ==> (last - first + 1) * block_size == sz
        }),
{
    let first = offset / block_size;
    let last = (offset + sz - 1) / block_size;
    let end = offset + sz - 1;
    vstd::arithmetic::div_mod::lemma_fundamental_div_mod(offset, block_size);
    vstd::arithmetic::div_mod::lemma_fundamental_div_mod(end, block_size);
    vstd::arithmetic::div_mod::lemma_mod_bound(offset, block_size);
    vstd::arithmetic::div_mod::lemma_mod_bound(end, block_size);
    vstd::arithmetic::div_mod::lemma_div_is_ordered(offset, end, block_size);
    vstd::arithmetic::div_mod::lemma_div_pos_is_pos(offset, block_size);
    vstd::arithmetic::div_mod::lemma_mod_multiples_basic(last - first + 1, block_size);
    assert(first * block_size == block_size * first && last * block_size == block_size * last
        && (last - first + 1) * block_size == last * block_size - first * block_size + block_size
        && (last + 1) * block_size == last * block_size + block_size) by (nonlinear_arith);
    assert((last - first + 1) * block_size >= block_size) by (nonlinear_arith)
        requires
            last >= first,
            block_size > 0,
    ;
    if sz % block_size == 0 && offset % block_size == 0 {
        vstd::arithmetic::div_mod::lemma_fundamental_div_mod(sz, block_size);
        let n = sz / block_size;
        assert(block_size * n == n * block_size) by (nonlinear_arith);
        assert(end == (first + n - 1) * block_size + (block_size - 1)) by (nonlinear_arith)
            requires
                end == offset + sz - 1,
                offset == block_size * first,
                sz == block_size * n,
        ;
        vstd::arithmetic::div_mod::lemma_fundamental_div_mod_converse(
            end,
            block_size,
            first + n - 1,
            block_size - 1,
        );
        assert((last - first + 1) * block_size == n * block_size);
    }
}

} // verus!
