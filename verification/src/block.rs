use crate::error::CrucibleError;
use vstd::prelude::*;

verus! {

/// One byte of a device together with its ownership flag: whether the byte
/// was ever written, as opposed to left at the device's default.
pub type Cell = (u8, bool);

/// The bytes of a run of cells.
pub open spec fn values(cells: Seq<Cell>) -> Seq<u8> {
    cells.map_values(|c: Cell| c.0)
}

/// The ownership flags of a run of cells.
pub open spec fn flags(cells: Seq<Cell>) -> Seq<bool> {
    cells.map_values(|c: Cell| c.1)
}

/// The cells that a write of `data` leaves behind: every byte owned.
pub open spec fn stored(data: Seq<u8>) -> Seq<Cell> {
    data.map_values(|b: u8| (b, true))
}

/// `n` cells that were never written.
pub open spec fn blank(n: nat) -> Seq<Cell> {
    Seq::new(n, |i: int| (0u8, false))
}

/// Every byte that is not owned is zero.
pub open spec fn zero_filled(cells: Seq<Cell>) -> bool {
    forall|i: int| 0 <= i < cells.len() && !(#[trigger] cells[i]).1 ==> cells[i].0 == 0
}

/// `base` with the cells from `at` on replaced by `patch`.
pub open spec fn overlay(base: Seq<Cell>, at: int, patch: Seq<Cell>) -> Seq<Cell> {
    Seq::new(
        base.len(),
        |i: int|
            if at <= i < at + patch.len() {
                patch[i - at]
            } else {
                base[i]
            },
    )
}

/// Whether `after` is as long as `before` and holds what `before` holds
/// outside the `len` cells from `at` on.
pub open spec fn kept_outside(before: Seq<Cell>, after: Seq<Cell>, at: int, len: int) -> bool {
    &&& after.len() == before.len()
    &&& forall|i: int|
        0 <= i < before.len() && !(at <= i < at + len) ==> #[trigger] after[i] == before[i]
}

/// `base` with the bytes from `at` on replaced by `data`, flags kept.
pub open spec fn patched(base: Seq<Cell>, at: int, data: Seq<u8>) -> Seq<Cell> {
    Seq::new(
        base.len(),
        |i: int|
            if at <= i < at + data.len() {
                (data[i - at], base[i].1)
            } else {
                base[i]
            },
    )
}

/// What was stored in a region is what the region holds afterwards, every
/// byte of it owned, and the cells outside the region are what they were.
pub proof fn lemma_read_back(cells: Seq<Cell>, at: int, data: Seq<u8>)
    requires
        0 <= at,
        at + data.len() <= cells.len(),
    ensures
        overlay(cells, at, stored(data)).subrange(at, at + data.len()) == stored(data),
        values(overlay(cells, at, stored(data)).subrange(at, at + data.len())) == data,
        flags(stored(data)) == Seq::new(data.len(), |i: int| true),
        forall|i: int|
            0 <= i < cells.len() && !(at <= i < at + data.len()) ==> #[trigger] overlay(
                cells,
                at,
                stored(data),
            )[i] == cells[i],
{
    assert(overlay(cells, at, stored(data)).subrange(at, at + data.len()) =~= stored(data));
    assert(values(stored(data)) =~= data);
    assert(flags(stored(data)) =~= Seq::new(data.len(), |i: int| true));
}

/// A block address: an index in units of blocks of `2^shift` bytes.
#[derive(Debug, Clone, Copy, PartialEq, Eq)]
pub struct Block {
    pub value: u64,
    pub shift: u32,
}

impl Block {
    pub fn new(value: u64, shift: u32) -> (block: Block)
        ensures
            block.value == value,
            block.shift == shift,
    {
        Block { value, shift }
    }
}

/// Queue depths of a device: requests waiting above and below.
#[derive(Debug, Clone, Copy, PartialEq, Eq)]
pub struct WQCounts {
    pub up_count: usize,
    pub ds_count: usize,
}

/// What a flush may carry to ask for a snapshot.
#[derive(Debug, Clone, PartialEq, Eq)]
pub struct SnapshotDetails {
    pub snapshot_name: String,
}

/// The handle of a request that a device has accepted. It holds how the
/// request ended; `block_wait` hands that out.
#[derive(Debug)]
pub struct BlockReqWaiter {
    outcome: Result<(), CrucibleError>,
}

impl BlockReqWaiter {
    /// How the request ended.
    pub closed spec fn outcome(&self) -> Result<(), CrucibleError> {
        self.outcome
    }

    /// The handle of a request that ended as `outcome` says.
    pub fn new(outcome: Result<(), CrucibleError>) -> (waiter: BlockReqWaiter)
        ensures
            waiter.outcome() == outcome,
    {
        BlockReqWaiter { outcome }
    }

    /// The handle of a request that has already succeeded.
    pub fn immediate() -> (r: Result<BlockReqWaiter, CrucibleError>)
        ensures
            completed(r),
    {
        Ok(BlockReqWaiter { outcome: Ok(()) })
    }

    /// Waits for the request and returns how it ended. A second wait on
    /// the same handle reports success.
    pub fn block_wait(&mut self) -> (r: Result<(), CrucibleError>)
        ensures
            r == old(self).outcome(),
            final(self).outcome() is Ok,
    {
        let mut outcome: Result<(), CrucibleError> = Ok(());
        core::mem::swap(&mut self.outcome, &mut outcome);
        outcome
    }
}

/// Whether a request was accepted and then succeeded.
pub open spec fn completed(r: Result<BlockReqWaiter, CrucibleError>) -> bool {
    r matches Ok(waiter) && waiter.outcome() is Ok
}

/// A read target: bytes, and for each byte the ownership flag that the
/// device reported with it.
#[derive(Debug)]
pub struct Buffer {
    data: Vec<u8>,
    owned: Vec<bool>,
}

impl View for Buffer {
    type V = Seq<Cell>;

    closed spec fn view(&self) -> Seq<Cell> {
        Seq::new(self.data@.len(), |i: int| (self.data@[i], self.owned@[i]))
    }
}

impl Buffer {
    #[verifier::type_invariant]
    spec fn inv(self) -> bool {
        self.data@.len() == self.owned@.len()
    }

    /// A buffer of `len` zero bytes, none of them owned.
    pub fn new(len: usize) -> (buffer: Buffer)
        ensures
            buffer@ == blank(len as nat),
    {
        let buffer = Buffer { data: vec![0u8; len], owned: vec![false; len] };
        assert(buffer@ =~= blank(len as nat));
        buffer
    }

    /// A buffer that holds `data`, none of it owned.
    pub fn from_vec(data: Vec<u8>) -> (buffer: Buffer)
        ensures
            values(buffer@) == data@,
            flags(buffer@) == Seq::new(data@.len(), |i: int| false),
    {
        let owned = vec![false; data.len()];
        let buffer = Buffer { data, owned };
        assert(values(buffer@) =~= data@);
        assert(flags(buffer@) =~= Seq::new(data@.len(), |i: int| false));
        buffer
    }

    pub fn len(&self) -> (len: usize)
        ensures
            len == self@.len(),
    {
        self.data.len()
    }

    pub fn is_empty(&self) -> (empty: bool)
        ensures
            empty == (self@.len() == 0),
    {
        self.data.len() == 0
    }

    /// The bytes of the buffer.
    pub fn as_vec(&self) -> (bytes: &Vec<u8>)
        ensures
            bytes@ == values(self@),
    {
        proof {
            use_type_invariant(self);
            assert(self.data@ =~= values(self@));
        }
        &self.data
    }

    /// The ownership flags of the buffer, one per byte.
    pub fn owned_vec(&self) -> (owned: &Vec<bool>)
        ensures
            owned@ == flags(self@),
    {
        proof {
            use_type_invariant(self);
            assert(self.owned@ =~= flags(self@));
        }
        &self.owned
    }

    /// The cell at `i`.
    pub fn get(&self, i: usize) -> (cell: Cell)
        requires
            i < self@.len(),
        ensures
            cell == self@[i as int],
    {
        proof {
            use_type_invariant(self);
        }
        (self.data[i], self.owned[i])
    }

    /// Puts one cell at `i`.
    pub fn set(&mut self, i: usize, value: u8, owned: bool)
        requires
            i < old(self)@.len(),
        ensures
            final(self)@ == old(self)@.update(i as int, (value, owned)),
    {
        proof {
            use_type_invariant(&*self);
        }
        self.data[i] = value;
        self.owned[i] = owned;
        assert(self@ =~= old(self)@.update(i as int, (value, owned)));
    }

    /// Replaces the byte at `i` and leaves its flag as it is.
    pub fn set_value(&mut self, i: usize, value: u8)
        requires
            i < old(self)@.len(),
        ensures
            final(self)@ == old(self)@.update(i as int, (value, old(self)@[i as int].1)),
    {
        proof {
            use_type_invariant(&*self);
        }
        self.data[i] = value;
        assert(self@ =~= old(self)@.update(i as int, (value, old(self)@[i as int].1)));
    }

    /// Copies `count` cells of `src`, from `from` on, to `at` and after.
    pub fn copy_from(&mut self, at: usize, src: &Buffer, from: usize, count: usize)
        requires
            at + count <= old(self)@.len(),
            from + count <= src@.len(),
        ensures
            final(self)@ == overlay(old(self)@, at as int, src@.subrange(from as int, from + count)),
    {
        let limit: usize = self.len();
        let src_limit: usize = src.len();
        let mut k: usize = 0;
        while k < count
            invariant
                k <= count,
                at + count <= self@.len() == limit,
                from + count <= src@.len() == src_limit,
                self@ == overlay(old(self)@, at as int, src@.subrange(from as int, from + k)),
            decreases count - k,
        {
            let cell = src.get(from + k);
            self.set(at + k, cell.0, cell.1);
            k = k + 1;
            assert(self@ =~= overlay(
                old(self)@,
                at as int,
                src@.subrange(from as int, from + k),
            ));
        }
    }

    /// Stores `data` at `at` and after, and marks every byte of it owned.
    pub fn store(&mut self, at: usize, data: &[u8])
        requires
            at + data@.len() <= old(self)@.len(),
        ensures
            final(self)@ == overlay(old(self)@, at as int, stored(data@)),
    {
        let limit: usize = self.len();
        let mut k: usize = 0;
        while k < data.len()
            invariant
                k <= data@.len(),
                at + data@.len() <= self@.len() == limit,
                self@ == overlay(old(self)@, at as int, stored(data@.take(k as int))),
            decreases data@.len() - k,
        {
            self.set(at + k, data[k], true);
            k = k + 1;
            assert(self@ =~= overlay(old(self)@, at as int, stored(data@.take(k as int))));
        }
        assert(data@.take(k as int) =~= data@);
    }
}

} // verus!
